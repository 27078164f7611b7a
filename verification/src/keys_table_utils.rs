//! Building a serialized global keys table offline: from a list of keys, or
//! from a reference JSON value by counting key occurrences.

use vstd::prelude::*;
use crate::byte_stream::ByteStream;
use crate::errors::CodecError;
use crate::json::{JsonValue, JVal};
use crate::keys_table::{table_bytes, GlobalKeysTable};

verus! {

/// The position of a key in a tally, scanning from the front.
pub open spec fn tally_find(t: Seq<(Seq<char>, u64)>, k: Seq<char>) -> Option<int>
    decreases t.len(),
{
    if t.len() == 0 {
        None
    } else if t[0].0 == k {
        Some(0)
    } else {
        match tally_find(t.drop_first(), k) {
            Some(i) => Some(i + 1),
            None => None,
        }
    }
}

/// `tally_find` returns the first position holding the key, and `None`
/// exactly when the key is absent.
pub proof fn lemma_tally_find(t: Seq<(Seq<char>, u64)>, k: Seq<char>)
    ensures
        match tally_find(t, k) {
            Some(i) => 0 <= i < t.len() && t[i].0 == k && (forall|j: int|
                0 <= j < i ==> t[j].0 != k),
            None => forall|j: int| 0 <= j < t.len() ==> t[j].0 != k,
        },
    decreases t.len(),
{
    if t.len() > 0 && t[0].0 != k {
        lemma_tally_find(t.drop_first(), k);
        match tally_find(t.drop_first(), k) {
            Some(i) => {
                assert(t[i + 1] == t.drop_first()[i]);
                assert forall|j: int| 0 <= j < i + 1 implies t[j].0 != k by {
                    if j > 0 {
                        assert(t[j] == t.drop_first()[j - 1]);
                    }
                }
            },
            None => {
                assert forall|j: int| 0 <= j < t.len() implies t[j].0 != k by {
                    if j > 0 {
                        assert(t[j] == t.drop_first()[j - 1]);
                    }
                }
            },
        }
    }
}

/// A count one higher, held at the largest machine count.
pub open spec fn bump_count(c: u64) -> u64 {
    if c < 0xFFFFFFFFFFFFFFFF {
        (c + 1) as u64
    } else {
        c
    }
}

/// One more occurrence of a key: its count rises, or a new entry joins the
/// tally at the end, so entries stand in first-encounter order.
pub open spec fn bump(t: Seq<(Seq<char>, u64)>, k: Seq<char>) -> Seq<(Seq<char>, u64)> {
    match tally_find(t, k) {
        Some(i) => t.update(i, (k, bump_count(t[i].1))),
        None => t.push((k, 1)),
    }
}

/// The tally after walking one value: each object key counted once per
/// appearance, in document order.
pub open spec fn tally_value(v: JVal, t: Seq<(Seq<char>, u64)>) -> Seq<(Seq<char>, u64)>
    decreases v, 0int,
{
    match v {
        JVal::Arr(elems) => tally_elems(elems, t),
        JVal::Obj(pairs) => tally_pairs(pairs, t),
        _ => t,
    }
}

/// The tally after walking array elements in order.
pub open spec fn tally_elems(elems: Seq<JVal>, t: Seq<(Seq<char>, u64)>) -> Seq<
    (Seq<char>, u64),
>
    decreases elems, 1int,
{
    if elems.len() == 0 {
        t
    } else {
        tally_elems(elems.drop_first(), tally_value(elems[0], t))
    }
}

/// The tally after walking object pairs in order: the key, then its value.
pub open spec fn tally_pairs(pairs: Seq<(Seq<char>, JVal)>, t: Seq<(Seq<char>, u64)>) -> Seq<
    (Seq<char>, u64),
>
    decreases pairs, 1int,
{
    if pairs.len() == 0 {
        t
    } else {
        tally_pairs(pairs.drop_first(), tally_value(pairs[0].1, bump(t, pairs[0].0)))
    }
}

/// Where an entry with count `c` goes in a descending list: after every entry
/// with a count at least `c`, so equal counts keep their order.
pub open spec fn insert_pos(s: Seq<(Seq<char>, u64)>, c: u64) -> int
    decreases s.len(),
{
    if s.len() == 0 {
        0
    } else if s[0].1 < c {
        0
    } else {
        1 + insert_pos(s.drop_first(), c)
    }
}

/// `insert_pos` is the first position whose count is below `c`.
pub proof fn lemma_insert_pos(s: Seq<(Seq<char>, u64)>, c: u64)
    ensures
        0 <= insert_pos(s, c) <= s.len(),
        insert_pos(s, c) < s.len() ==> s[insert_pos(s, c)].1 < c,
        forall|j: int| 0 <= j < insert_pos(s, c) ==> s[j].1 >= c,
    decreases s.len(),
{
    if s.len() > 0 && s[0].1 >= c {
        lemma_insert_pos(s.drop_first(), c);
        let p = insert_pos(s, c);
        if p < s.len() {
            assert(s[p] == s.drop_first()[p - 1]);
        }
        assert forall|j: int| 0 <= j < p implies s[j].1 >= c by {
            if j > 0 {
                assert(s[j] == s.drop_first()[j - 1]);
            }
        }
    }
}

/// The tally sorted by descending count, entry by entry, equal counts in
/// first-encounter order.
pub open spec fn sort_desc(t: Seq<(Seq<char>, u64)>, acc: Seq<(Seq<char>, u64)>) -> Seq<
    (Seq<char>, u64),
>
    decreases t.len(),
{
    if t.len() == 0 {
        acc
    } else {
        sort_desc(t.drop_first(), acc.insert(insert_pos(acc, t[0].1), t[0]))
    }
}

/// The entries whose count reaches the cutoff, in order.
pub open spec fn keep_counted(s: Seq<(Seq<char>, u64)>, cutoff: u64) -> Seq<(Seq<char>, u64)>
    decreases s.len(),
{
    if s.len() == 0 {
        seq![]
    } else if s[0].1 >= cutoff {
        seq![s[0]] + keep_counted(s.drop_first(), cutoff)
    } else {
        keep_counted(s.drop_first(), cutoff)
    }
}

/// The keys of a tally, counts dropped.
pub open spec fn keys_of(s: Seq<(Seq<char>, u64)>) -> Seq<Seq<char>> {
    Seq::new(s.len(), |i: int| s[i].0)
}

/// The keys a reference value puts into a built table: counted, sorted by
/// descending count with ties in first-encounter order, cut to `max_count`
/// when that is non-zero, and cleared of counts under the cutoff.
pub open spec fn spec_table_keys(v: JVal, max_count: int, cutoff: u64) -> Seq<Seq<char>> {
    let sorted = sort_desc(tally_value(v, seq![]), seq![]);
    let capped = if max_count > 0 && max_count < sorted.len() {
        sorted.take(max_count)
    } else {
        sorted
    };
    keys_of(keep_counted(capped, cutoff))
}

/// The view of a machine tally.
pub open spec fn tally_view(t: Seq<(String, u64)>) -> Seq<(Seq<char>, u64)> {
    Seq::new(t.len(), |i: int| (t[i].0@, t[i].1))
}

/// Serializes a table holding the given keys, in order.
pub fn global_table_from_keys(keys: Vec<String>) -> (r: Result<Vec<u8>, CodecError>)
    ensures
        ({
            let ks = Seq::new(keys@.len(), |i: int| keys@[i]@);
            match r {
                Ok(b) => table_bytes(ks) == Ok::<Seq<u8>, CodecError>(b@),
                Err(e) => table_bytes(ks) == Err::<Seq<u8>, CodecError>(e),
            }
        }),
{
    let ghost ks = Seq::new(keys@.len(), |i: int| keys@[i]@);
    let table = GlobalKeysTable::new(keys);
    proof {
        assert(table@ =~= ks);
    }
    let mut bytes = ByteStream::new();
    match table.write_keys_table(&mut bytes) {
        Ok(()) => {
            let r = bytes.as_bytes().clone();
            proof {
                assert(bytes.data().skip(0) =~= bytes.data());
                assert(bytes.data().take(0) =~= Seq::<u8>::empty());
            }
            Ok(r)
        },
        Err(e) => Err(e),
    }
}

/// Builds a serialized table from every key of a reference value.
pub fn global_table_from_json(json: &JsonValue) -> (r: Result<Vec<u8>, CodecError>)
    ensures
        match r {
            Ok(b) => table_bytes(spec_table_keys(json@, 0, 0)) == Ok::<Seq<u8>, CodecError>(b@),
            Err(e) => table_bytes(spec_table_keys(json@, 0, 0)) == Err::<Seq<u8>, CodecError>(e),
        },
{
    global_table_from_json_limited(json, 0, 0)
}

/// Builds a serialized table from a reference value: keys counted, sorted by
/// falling occurrence count, optionally cut to `max_count` entries, and
/// cleared of keys seen fewer than `occurrence_cutoff` times.
pub fn global_table_from_json_limited(
    json: &JsonValue,
    max_count: usize,
    occurrence_cutoff: u64,
) -> (r: Result<Vec<u8>, CodecError>)
    ensures
        ({
            let ks = spec_table_keys(json@, max_count as int, occurrence_cutoff);
            match r {
                Ok(b) => table_bytes(ks) == Ok::<Seq<u8>, CodecError>(b@),
                Err(e) => table_bytes(ks) == Err::<Seq<u8>, CodecError>(e),
            }
        }),
{
    let mut tally: Vec<(String, u64)> = Vec::new();
    proof {
        assert(tally_view(tally@) =~= Seq::<(Seq<char>, u64)>::empty());
    }
    tally_value_walk(json, &mut tally);
    let mut sorted: Vec<(String, u64)> = Vec::new();
    let ghost t0 = tally_view(tally@);
    proof {
        assert(tally_view(sorted@) =~= Seq::<(Seq<char>, u64)>::empty());
        assert(t0.skip(0) =~= t0);
    }
    let n = tally.len();
    let mut i: usize = 0;
    while i < n
        invariant
            n == tally@.len(),
            i <= n,
            t0 == tally_view(tally@),
            sort_desc(t0, seq![]) == sort_desc(t0.skip(i as int), tally_view(sorted@)),
        decreases n - i,
    {
        let entry_key = tally[i].0.clone();
        let entry_count = tally[i].1;
        let pos = find_insert_pos(&sorted, entry_count);
        let ghost pre = tally_view(sorted@);
        let ghost pre_vec = sorted@;
        proof {
            lemma_insert_pos(pre, entry_count);
        }
        sorted.insert(pos, (entry_key, entry_count));
        i = i + 1;
        proof {
            assert(t0.skip(i - 1)[0] == t0[i - 1]);
            assert(t0[i - 1] == (tally@[i - 1].0@, tally@[i - 1].1));
            assert(t0.skip(i - 1).drop_first() =~= t0.skip(i as int));
            let target = pre.insert(pos as int, (entry_key@, entry_count));
            pre.insert_ensures(pos as int, (entry_key@, entry_count));
            pre_vec.insert_ensures(pos as int, (entry_key, entry_count));
            assert forall|j: int| 0 <= j < tally_view(sorted@).len() implies tally_view(
                sorted@,
            )[j] == target[j] by {
                if j < pos {
                    assert(sorted@[j] == pre_vec[j]);
                    assert(target[j] == pre[j]);
                } else if j == pos {
                    assert(sorted@[j] == (entry_key, entry_count));
                    assert(target[j] == (entry_key@, entry_count));
                } else {
                    assert(sorted@[j] == pre_vec[j - 1]);
                    assert(target[j] == pre[j - 1]);
                }
            }
            assert(tally_view(sorted@) =~= target);
        }
    }
    proof {
        assert(t0.skip(n as int) =~= Seq::<(Seq<char>, u64)>::empty());
    }
    if max_count > 0 && max_count < sorted.len() {
        let ghost before = tally_view(sorted@);
        sorted.truncate(max_count);
        proof {
            assert(tally_view(sorted@) =~= before.take(max_count as int));
        }
    }
    let ghost capped = tally_view(sorted@);
    let mut keys: Vec<String> = Vec::new();
    let ghost kept = keep_counted(capped, occurrence_cutoff);
    let ghost mut kp = Seq::<(Seq<char>, u64)>::empty();
    proof {
        assert(Seq::new(keys@.len(), |j: int| keys@[j]@) =~= Seq::<Seq<char>>::empty());
        assert(capped.skip(0) =~= capped);
        assert(kp + keep_counted(capped.skip(0), occurrence_cutoff) =~= keep_counted(
            capped,
            occurrence_cutoff,
        ));
        assert(Seq::new(keys@.len(), |j: int| keys@[j]@) =~= keys_of(kp));
    }
    let m = sorted.len();
    let mut k: usize = 0;
    while k < m
        invariant
            m == sorted@.len(),
            k <= m,
            capped == tally_view(sorted@),
            kept == keep_counted(capped, occurrence_cutoff),
            kept == kp + keep_counted(capped.skip(k as int), occurrence_cutoff),
            Seq::new(keys@.len(), |j: int| keys@[j]@) == keys_of(kp),
        decreases m - k,
    {
        let ghost pre_keys = Seq::new(keys@.len(), |j: int| keys@[j]@);
        proof {
            assert(capped.skip(k as int)[0] == capped[k as int]);
            assert(capped[k as int] == (sorted@[k as int].0@, sorted@[k as int].1));
            assert(capped.skip(k as int).drop_first() =~= capped.skip(k + 1));
        }
        let ghost pre_keys_vec = keys@;
        if sorted[k].1 >= occurrence_cutoff {
            keys.push(sorted[k].0.clone());
            proof {
                let entry = capped[k as int];
                let kp_old = kp;
                assert(kp_old + (seq![entry] + keep_counted(capped.skip(k + 1), occurrence_cutoff))
                    =~= (kp_old + seq![entry]) + keep_counted(
                    capped.skip(k + 1),
                    occurrence_cutoff,
                ));
                kp = kp_old + seq![entry];
                assert(kp.len() == kp_old.len() + 1);
                assert(pre_keys.len() == keys_of(kp_old).len());
                assert(pre_keys_vec.len() == kp_old.len());
                assert(keys@.len() == pre_keys_vec.len() + 1);
                assert forall|j: int| 0 <= j < keys@.len() implies keys@[j]@ == keys_of(kp)[j] by {
                    assert(keys_of(kp)[j] == kp[j].0);
                    if j < keys@.len() - 1 {
                        assert(keys@[j] == pre_keys_vec[j]);
                        assert(pre_keys[j] == pre_keys_vec[j]@);
                        assert(pre_keys[j] == keys_of(kp_old)[j]);
                        assert(keys_of(kp_old)[j] == kp_old[j].0);
                        assert(kp[j] == kp_old[j]);
                    } else {
                        assert(kp[j] == entry);
                    }
                }
                assert(Seq::new(keys@.len(), |j: int| keys@[j]@) =~= keys_of(kp));
            }
        }
        k = k + 1;
    }
    proof {
        assert(capped.skip(m as int) =~= Seq::<(Seq<char>, u64)>::empty());
        assert(kp + Seq::<(Seq<char>, u64)>::empty() =~= kp);
    }
    global_table_from_keys(keys)
}

/// The first position in a descending tally whose count is below `c`.
#[verifier::loop_isolation(false)]
fn find_insert_pos(sorted: &Vec<(String, u64)>, c: u64) -> (r: usize)
    ensures
        r == insert_pos(tally_view(sorted@), c),
{
    let ghost s = tally_view(sorted@);
    proof {
        lemma_insert_pos(s, c);
    }
    let n = sorted.len();
    let mut i: usize = 0;
    while i < n
        invariant
            n == sorted@.len(),
            i <= n,
            s == tally_view(sorted@),
            forall|j: int| 0 <= j < i ==> s[j].1 >= c,
        decreases n - i,
    {
        if sorted[i].1 < c {
            proof {
                assert(s[i as int].1 < c);
                lemma_insert_pos(s, c);
                let p = insert_pos(s, c);
                if p < i {
                    assert(s[p].1 >= c);
                }
                if p > i {
                    assert(s[i as int].1 >= c);
                }
            }
            return i;
        }
        proof {
            assert(s[i as int].1 >= c);
        }
        i = i + 1;
    }
    proof {
        lemma_insert_pos(s, c);
        let p = insert_pos(s, c);
        if p < n {
            assert(s[p].1 >= c);
        }
    }
    n
}

/// Walks one value, counting every object key it meets in document order.
#[verifier::loop_isolation(false)]
fn tally_value_walk(v: &JsonValue, tally: &mut Vec<(String, u64)>)
    ensures
        tally_view(final(tally)@) == tally_value(v@, tally_view(old(tally)@)),
    decreases v, 0int,
{
    match v {
        JsonValue::Array(elems) => {
            let ghost t0 = tally_view(tally@);
            let ghost vs = crate::json::view_elems(elems@);
            proof {
                crate::json::lemma_view_elems(elems@);
                assert(vs.skip(0) =~= vs);
            }
            let n = elems.len();
            let mut i: usize = 0;
            while i < n
                invariant
                    n == elems@.len(),
                    i <= n,
                    tally_elems(vs, t0) == tally_elems(vs.skip(i as int), tally_view(tally@)),
                decreases n - i,
            {
                proof {
                    assert(vs.skip(i as int)[0] == vs[i as int]);
                    assert(vs[i as int] == elems@[i as int]@);
                    assert(vs.skip(i as int).drop_first() =~= vs.skip(i + 1));
                }
                tally_value_walk(&elems[i], tally);
                i = i + 1;
            }
            proof {
                assert(vs.skip(n as int) =~= Seq::<JVal>::empty());
            }
        },
        JsonValue::Object(pairs) => {
            let ghost t0 = tally_view(tally@);
            let ghost ps = crate::json::view_pairs(pairs@);
            proof {
                crate::json::lemma_view_pairs(pairs@);
                assert(ps.skip(0) =~= ps);
            }
            let n = pairs.len();
            let mut i: usize = 0;
            while i < n
                invariant
                    n == pairs@.len(),
                    i <= n,
                    tally_pairs(ps, t0) == tally_pairs(ps.skip(i as int), tally_view(tally@)),
                decreases n - i,
            {
                proof {
                    assert(ps.skip(i as int)[0] == ps[i as int]);
                    assert(ps[i as int] == (pairs@[i as int].0@, pairs@[i as int].1@));
                    assert(ps.skip(i as int).drop_first() =~= ps.skip(i + 1));
                }
                bump_key(tally, &pairs[i].0);
                tally_value_walk(&pairs[i].1, tally);
                i = i + 1;
            }
            proof {
                assert(ps.skip(n as int) =~= Seq::<(Seq<char>, JVal)>::empty());
            }
        },
        _ => {},
    }
}

/// Counts one more occurrence of a key.
#[verifier::loop_isolation(false)]
fn bump_key(tally: &mut Vec<(String, u64)>, key: &String)
    ensures
        tally_view(final(tally)@) == bump(tally_view(old(tally)@), key@),
{
    let ghost t = tally_view(tally@);
    proof {
        lemma_tally_find(t, key@);
    }
    let n = tally.len();
    let mut i: usize = 0;
    while i < n
        invariant
            n == tally@.len(),
            t == tally_view(tally@),
            i <= n,
            forall|j: int| 0 <= j < i ==> t[j].0 != key@,
        decreases n - i,
    {
        let e = &tally[i].0;
        if *e == *key {
            proof {
                assert(t[i as int].0 == key@);
                lemma_tally_find(t, key@);
                match tally_find(t, key@) {
                    Some(ix) => {
                        if ix < i {
                            assert(t[ix].0 != key@);
                        }
                        if ix > i {
                            assert(t[i as int].0 != key@);
                        }
                    },
                    None => {
                        assert(t[i as int].0 != key@);
                    },
                }
            }
            let count = tally[i].1;
            let new_count = if count < 0xFFFFFFFFFFFFFFFF {
                count + 1
            } else {
                count
            };
            let key_copy = tally[i].0.clone();
            let ghost pre = tally@;
            tally.remove(i);
            tally.insert(i, (key_copy, new_count));
            proof {
                assert(tally@ =~= pre.update(i as int, tally@[i as int]));
                assert(tally_view(tally@) =~= t.update(i as int, (key@, bump_count(count))));
            }
            return ;
        }
        proof {
            assert(t[i as int].0 == tally@[i as int].0@);
        }
        i = i + 1;
    }
    tally.push((key.clone(), 1));
    proof {
        assert(tally_view(tally@) =~= t.push((key@, 1u64)));
    }
}

} // verus!
