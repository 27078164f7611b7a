//! The two-level keys dictionary: a read-only global table supplied out of
//! band, and a local table grown in lockstep by encoder and decoder.

use vstd::prelude::*;
use vstd::string::StringSliceAdditionalSpecFns;
use vstd::utf8::{decode_utf8, valid_utf8};
use crate::byte_stream::ByteStream;
use crate::errors::CodecError;
use crate::le::{le2_bytes, le2_val};
use crate::text::str_to_bytes;

verus! {

/// The largest number of entries either sub-table may hold.
pub const MAX_TABLE_SIZE: usize = 0x7FFF;

/// The first position of a key in a table, scanning from the front.
pub open spec fn tbl_find(t: Seq<Seq<char>>, k: Seq<char>) -> Option<int>
    decreases t.len(),
{
    if t.len() == 0 {
        None
    } else if t[0] == k {
        Some(0)
    } else {
        match tbl_find(t.drop_first(), k) {
            Some(i) => Some(i + 1),
            None => None,
        }
    }
}

/// `tbl_find` returns the first position holding the key, and `None` exactly
/// when the key is absent.
pub proof fn lemma_tbl_find(t: Seq<Seq<char>>, k: Seq<char>)
    ensures
        match tbl_find(t, k) {
            Some(i) => 0 <= i < t.len() && t[i] == k && (forall|j: int| 0 <= j < i ==> t[j] != k),
            None => forall|j: int| 0 <= j < t.len() ==> t[j] != k,
        },
    decreases t.len(),
{
    if t.len() > 0 && t[0] != k {
        lemma_tbl_find(t.drop_first(), k);
        match tbl_find(t.drop_first(), k) {
            Some(i) => {
                assert(t[i + 1] == t.drop_first()[i]);
                assert forall|j: int| 0 <= j < i + 1 implies t[j] != k by {
                    if j > 0 {
                        assert(t[j] == t.drop_first()[j - 1]);
                    }
                }
            },
            None => {
                assert forall|j: int| 0 <= j < t.len() implies t[j] != k by {
                    if j > 0 {
                        assert(t[j] == t.drop_first()[j - 1]);
                    }
                }
            },
        }
    }
}

/// The serialized form of one table entry: a length byte, then UTF-8 bytes.
pub open spec fn table_entry_bytes(k: Seq<char>) -> Seq<u8> {
    seq![vstd::utf8::encode_utf8(k).len() as u8] + vstd::utf8::encode_utf8(k)
}

/// The serialized entries of a table, in order.
pub open spec fn table_entries_bytes(t: Seq<Seq<char>>) -> Seq<u8>
    decreases t.len(),
{
    if t.len() == 0 {
        seq![]
    } else {
        table_entry_bytes(t[0]) + table_entries_bytes(t.drop_first())
    }
}

/// Whether every key of a table fits in a length byte below the reserved
/// value.
pub open spec fn table_keys_fit(t: Seq<Seq<char>>) -> bool {
    forall|i: int| 0 <= i < t.len() ==> vstd::utf8::encode_utf8(#[trigger] t[i]).len() < 0xFF
}

/// The serialized form of a whole table: a zero configuration byte, a
/// little-endian count, then the entries; or the error serialization reports.
pub open spec fn table_bytes(t: Seq<Seq<char>>) -> Result<Seq<u8>, CodecError> {
    if t.len() > MAX_TABLE_SIZE {
        Err(CodecError::TableFull)
    } else if !table_keys_fit(t) {
        Err(CodecError::KeyTooLong)
    } else {
        Ok(seq![0u8] + le2_bytes(t.len() as u16) + table_entries_bytes(t))
    }
}

/// Reading a table's entries from `b` starting at `i`: the keys read and the
/// position after them, or the error the read reports.
pub open spec fn parse_table_entries(b: Seq<u8>, i: int, n: int) -> Result<
    (Seq<Seq<char>>, int),
    CodecError,
>
    decreases n,
{
    if n <= 0 {
        Ok((seq![], i))
    } else if i + 1 > b.len() {
        Err(CodecError::ShortRead)
    } else {
        let len = b[i] as int;
        if i + 1 + len > b.len() {
            Err(CodecError::ShortRead)
        } else {
            let kb = b.subrange(i + 1, i + 1 + len);
            if !valid_utf8(kb) {
                Err(CodecError::InvalidUtf8)
            } else {
                match parse_table_entries(b, i + 1 + len, n - 1) {
                    Ok((rest, j)) => Ok((seq![decode_utf8(kb)] + rest, j)),
                    Err(e) => Err(e),
                }
            }
        }
    }
}

/// Reading a whole serialized table: the keys it holds, or the error the read
/// reports.
pub open spec fn parse_table(b: Seq<u8>) -> Result<Seq<Seq<char>>, CodecError> {
    if b.len() < 1 {
        Err(CodecError::ShortRead)
    } else if b[0] != 0 {
        Err(CodecError::UnsupportedTableConfig)
    } else if b.len() < 3 {
        Err(CodecError::ShortRead)
    } else {
        match parse_table_entries(b, 3, le2_val(b.subrange(1, 3)) as int) {
            Ok((keys, _)) => Ok(keys),
            Err(e) => Err(e),
        }
    }
}

/// Reading table entries yields exactly as many keys as asked for, and moves
/// the position forward.
pub proof fn lemma_parse_table_entries_len(b: Seq<u8>, i: int, n: int)
    ensures
        match parse_table_entries(b, i, n) {
            Ok((ks, j)) => ks.len() == (if n <= 0 {
                0
            } else {
                n
            }) && j >= i,
            Err(_) => true,
        },
    decreases n,
{
    if n > 0 && i + 1 <= b.len() {
        let len = b[i] as int;
        if i + 1 + len <= b.len() {
            lemma_parse_table_entries_len(b, i + 1 + len, n - 1);
        }
    }
}

/// Reading a whole table yields at most the largest u16 count of keys.
pub proof fn lemma_parse_table_len(b: Seq<u8>)
    ensures
        match parse_table(b) {
            Ok(ks) => ks.len() <= 0xFFFF,
            Err(_) => true,
        },
{
    if b.len() >= 3 && b[0] == 0 {
        lemma_parse_table_entries_len(b, 3, le2_val(b.subrange(1, 3)) as int);
    }
}

/// The caller-supplied read-only dictionary of keys.
pub struct GlobalKeysTable {
    table: Vec<String>,
}

impl View for GlobalKeysTable {
    type V = Seq<Seq<char>>;

    closed spec fn view(&self) -> Seq<Seq<char>> {
        Seq::new(self.table@.len(), |i: int| self.table@[i]@)
    }
}

impl GlobalKeysTable {
    /// A table holding the given keys, in order.
    pub fn new(table: Vec<String>) -> (r: GlobalKeysTable)
        ensures
            r@.len() == table@.len(),
            forall|i: int| 0 <= i < table@.len() ==> r@[i] == #[trigger] table@[i]@,
    {
        GlobalKeysTable { table }
    }

    /// Reads a serialized table from the stream.
    #[verifier::loop_isolation(false)]
    pub fn read_keys_table(bytes: &mut ByteStream) -> (r: Result<GlobalKeysTable, CodecError>)
        requires
            old(bytes).wf(),
            old(bytes).cursor() == 0,
        ensures
            final(bytes).wf(),
            final(bytes).data() == old(bytes).data(),
            match r {
                Ok(t) => parse_table(old(bytes).data()) == Ok::<_, CodecError>(t@),
                Err(e) => parse_table(old(bytes).data()) == Err::<Seq<Seq<char>>, _>(e),
            },
    {
        let ghost data = bytes.data();
        let config = match bytes.read_u8() {
            Ok(c) => c,
            Err(e) => {
                return Err(e);
            },
        };
        if config != 0 {
            return Err(CodecError::UnsupportedTableConfig);
        }
        let count = match bytes.read_u16() {
            Ok(c) => c,
            Err(e) => {
                return Err(e);
            },
        };
        let mut mappings: Vec<String> = Vec::new();
        let mut read_so_far: u16 = 0;
        proof {
            let r0 = parse_table_entries(data, 3, count as int);
            if r0 is Ok {
                let (rest, j) = r0->Ok_0;
                assert(Seq::new(mappings@.len(), |i: int| mappings@[i]@) + rest =~= rest);
            }
        }
        while read_so_far < count
            invariant
                bytes.wf(),
                bytes.data() == data,
                read_so_far <= count,
                3 <= bytes.cursor() <= data.len(),
                mappings@.len() == read_so_far,
                parse_table_entries(data, 3, count as int) == (match parse_table_entries(
                    data,
                    bytes.cursor(),
                    count - read_so_far,
                ) {
                    Ok((rest, j)) => Ok::<_, CodecError>(
                        (Seq::new(mappings@.len(), |i: int| mappings@[i]@) + rest, j),
                    ),
                    Err(e) => Err::<(Seq<Seq<char>>, int), _>(e),
                }),
            decreases count - read_so_far,
        {
            let ghost c = bytes.cursor();
            let key = match Self::read_key_mapping(bytes) {
                Ok(k) => k,
                Err(e) => {
                    proof {
                        let rem = count - read_so_far;
                        assert(parse_table_entries(data, c, 1) == Err::<
                            (Seq<Seq<char>>, int),
                            CodecError,
                        >(e));
                        assert(parse_table_entries(data, c, rem as int) == Err::<
                            (Seq<Seq<char>>, int),
                            CodecError,
                        >(e)) by {
                            reveal_with_fuel(parse_table_entries, 3);
                        };
                    }
                    return Err(e);
                },
            };
            let ghost pre = Seq::new(mappings@.len(), |i: int| mappings@[i]@);
            mappings.push(key);
            read_so_far = read_so_far + 1;
            proof {
                let m_new = Seq::new(mappings@.len(), |i: int| mappings@[i]@);
                assert(m_new =~= pre + seq![key@]);
                let r2 = parse_table_entries(data, bytes.cursor(), count - read_so_far);
                if r2 is Ok {
                    let (rest, j) = r2->Ok_0;
                    assert(pre + (seq![key@] + rest) =~= m_new + rest);
                }
            }
        }
        let r = GlobalKeysTable::new(mappings);
        proof {
            let m = Seq::new(mappings@.len(), |i: int| mappings@[i]@);
            assert(m + Seq::<Seq<char>>::empty() =~= m);
            assert(r@ =~= m);
        }
        Ok(r)
    }

    /// Reads one length-prefixed key from the stream.
    fn read_key_mapping(bytes: &mut ByteStream) -> (r: Result<String, CodecError>)
        requires
            old(bytes).wf(),
        ensures
            final(bytes).wf(),
            final(bytes).data() == old(bytes).data(),
            final(bytes).cursor() >= old(bytes).cursor(),
            match r {
                Ok(k) => {
                    let len = old(bytes).data()[old(bytes).cursor()] as int;
                    &&& old(bytes).remaining() >= 1
                    &&& old(bytes).cursor() + 1 + len <= old(bytes).data().len()
                    &&& valid_utf8(
                        old(bytes).data().subrange(
                            old(bytes).cursor() + 1,
                            old(bytes).cursor() + 1 + len,
                        ),
                    )
                    &&& k@ == decode_utf8(
                        old(bytes).data().subrange(
                            old(bytes).cursor() + 1,
                            old(bytes).cursor() + 1 + len,
                        ),
                    )
                    &&& final(bytes).cursor() == old(bytes).cursor() + 1 + len
                },
                Err(e) => parse_table_entries(old(bytes).data(), old(bytes).cursor(), 1) == Err::<
                    (Seq<Seq<char>>, int),
                    _,
                >(e),
            },
    {
        let key_length = match bytes.read_u8() {
            Ok(l) => l,
            Err(e) => {
                return Err(e);
            },
        };
        match bytes.read_string(key_length as usize) {
            Ok(s) => Ok(s),
            Err(e) => Err(e),
        }
    }

    /// Writes the serialized form of this table to the stream.
    #[verifier::loop_isolation(false)]
    pub fn write_keys_table(&self, bytes: &mut ByteStream) -> (r: Result<(), CodecError>)
        requires
            old(bytes).wf(),
            old(bytes).at_end(),
        ensures
            final(bytes).wf(),
            final(bytes).at_end(),
            match r {
                Ok(()) => table_bytes(self@) == Ok::<_, CodecError>(
                    final(bytes).data().skip(old(bytes).data().len() as int),
                ) && final(bytes).data().take(old(bytes).data().len() as int) == old(bytes).data(),
                Err(e) => table_bytes(self@) == Err::<Seq<u8>, _>(e) && final(bytes).data().take(
                    old(bytes).data().len() as int,
                ) == old(bytes).data(),
            },
    {
        let ghost start = bytes.data().len() as int;
        let count = self.table.len();
        if count > MAX_TABLE_SIZE {
            proof {
                assert(bytes.data().take(start) =~= bytes.data());
            }
            return Err(CodecError::TableFull);
        }
        let mut i: usize = 0;
        while i < count
            invariant
                count == self.table@.len() <= MAX_TABLE_SIZE,
                i <= count,
                forall|j: int|
                    0 <= j < i ==> vstd::utf8::encode_utf8(#[trigger] self@[j]).len() < 0xFF,
            decreases count - i,
        {
            let kb = str_to_bytes(self.table[i].as_str());
            proof {
                assert(self@[i as int] == self.table@[i as int]@);
            }
            if kb.len() >= 0xFF {
                proof {
                    assert(bytes.data().take(start) =~= bytes.data());
                }
                return Err(CodecError::KeyTooLong);
            }
            i = i + 1;
        }
        bytes.write_u8(0);
        bytes.write_u16(count as u16);
        let ghost written = seq![0u8] + le2_bytes(count as u16);
        proof {
            assert(table_entries_bytes(self@.take(0)) =~= Seq::<u8>::empty());
            assert(bytes.data() =~= old(bytes).data() + written + table_entries_bytes(
                self@.take(0),
            ));
        }
        let mut k: usize = 0;
        while k < count
            invariant
                bytes.wf(),
                bytes.at_end(),
                count == self.table@.len() <= MAX_TABLE_SIZE,
                k <= count,
                table_keys_fit(self@),
                bytes.data() == old(bytes).data() + written + table_entries_bytes(
                    self@.take(k as int),
                ),
            decreases count - k,
        {
            let kb = str_to_bytes(self.table[k].as_str());
            proof {
                assert(self@[k as int] == self.table@[k as int]@);
                assert(vstd::utf8::encode_utf8(self@[k as int]).len() < 0xFF);
            }
            bytes.write_u8(kb.len() as u8);
            bytes.write(kb.as_slice());
            k = k + 1;
            proof {
                lemma_table_entries_bytes_push(self@.take(k as int));
                assert(self@.take(k as int).drop_last() =~= self@.take(k - 1));
                assert(self@.take(k as int).last() == self@[k - 1]);
                assert(bytes.data() =~= old(bytes).data() + written + table_entries_bytes(
                    self@.take(k as int),
                ));
            }
        }
        proof {
            assert(self@.take(count as int) =~= self@);
            assert(bytes.data().skip(start) =~= written + table_entries_bytes(self@));
            assert(bytes.data().take(start) =~= old(bytes).data());
        }
        Ok(())
    }

    /// How many keys the table holds.
    pub fn len(&self) -> (r: usize)
        ensures
            r == self@.len(),
    {
        self.table.len()
    }

    /// Returns the key at `index`, or reports `BadIndex`.
    pub fn lookup_index(&self, index: usize) -> (r: Result<&String, CodecError>)
        ensures
            match r {
                Ok(k) => index < self@.len() && k@ == self@[index as int],
                Err(e) => e == CodecError::BadIndex && index >= self@.len(),
            },
    {
        if index >= self.table.len() {
            return Err(CodecError::BadIndex);
        }
        Ok(&self.table[index])
    }

    /// The first position of the key in this table, if any.
    pub fn find_key(&self, key: &String) -> (r: Option<usize>)
        ensures
            match r {
                Some(i) => tbl_find(self@, key@) == Some(i as int),
                None => tbl_find(self@, key@) is None,
            },
    {
        find_in(&self.table, key)
    }

    /// Appends a key and returns its new index.
    pub fn push_key(&mut self, key: &String) -> (r: usize)
        ensures
            final(self)@ =~= old(self)@ + seq![key@],
            r == old(self)@.len(),
    {
        let r = self.table.len();
        self.table.push(key.clone());
        r
    }
}

/// The per-document dictionary of keys, grown in lockstep by encoder and
/// decoder as inline keys appear.
pub struct LocalKeysTable {
    encountered_keys: Vec<String>,
}

impl View for LocalKeysTable {
    type V = Seq<Seq<char>>;

    closed spec fn view(&self) -> Seq<Seq<char>> {
        Seq::new(self.encountered_keys@.len(), |i: int| self.encountered_keys@[i]@)
    }
}

impl LocalKeysTable {
    /// A local table holding the given keys, in order.
    pub fn new(encountered_keys: Vec<String>) -> (r: LocalKeysTable)
        ensures
            r@.len() == encountered_keys@.len(),
            forall|i: int|
                0 <= i < encountered_keys@.len() ==> r@[i] == #[trigger] encountered_keys@[i]@,
    {
        LocalKeysTable { encountered_keys }
    }

    /// Returns the key at `index`, or reports `BadIndex`.
    pub fn lookup_index(&self, index: usize) -> (r: Result<&String, CodecError>)
        ensures
            match r {
                Ok(k) => index < self@.len() && k@ == self@[index as int],
                Err(e) => e == CodecError::BadIndex && index >= self@.len(),
            },
    {
        if index >= self.encountered_keys.len() {
            return Err(CodecError::BadIndex);
        }
        Ok(&self.encountered_keys[index])
    }

    /// The first position of the key in this table, if any.
    pub fn find_key(&self, key: &String) -> (r: Option<usize>)
        ensures
            match r {
                Some(i) => tbl_find(self@, key@) == Some(i as int),
                None => tbl_find(self@, key@) is None,
            },
    {
        find_in(&self.encountered_keys, key)
    }

    /// How many keys the table holds.
    pub fn len(&self) -> (r: usize)
        ensures
            r == self@.len(),
    {
        self.encountered_keys.len()
    }

    /// Appends a key, or reports `TableFull` at the capacity.
    pub fn push_key(&mut self, key: String) -> (r: Result<(), CodecError>)
        ensures
            match r {
                Ok(()) => old(self)@.len() < MAX_TABLE_SIZE && final(self)@ =~= old(self)@ + seq![
                    key@,
                ],
                Err(e) => e == CodecError::TableFull && old(self)@.len() >= MAX_TABLE_SIZE
                    && final(self)@ == old(self)@,
            },
    {
        if self.encountered_keys.len() >= MAX_TABLE_SIZE {
            return Err(CodecError::TableFull);
        }
        self.encountered_keys.push(key);
        Ok(())
    }
}

/// The pair of tables a single encode or decode call works with.
pub struct KeysTables {
    local_table: LocalKeysTable,
    global_table: GlobalKeysTable,
}

impl KeysTables {
    /// The keys of the global table.
    pub closed spec fn global(&self) -> Seq<Seq<char>> {
        self.global_table@
    }

    /// The keys of the local table.
    pub closed spec fn local(&self) -> Seq<Seq<char>> {
        self.local_table@
    }

    /// Tables for one codec run: an empty local table beside the given global
    /// table, or an empty one.
    pub fn make(global_table: Option<GlobalKeysTable>) -> (r: KeysTables)
        ensures
            r.local() == Seq::<Seq<char>>::empty(),
            r.global() == match global_table {
                Some(t) => t@,
                None => Seq::<Seq<char>>::empty(),
            },
    {
        let g = match global_table {
            Some(t) => t,
            None => GlobalKeysTable::new(Vec::new()),
        };
        let r = KeysTables { local_table: LocalKeysTable::new(Vec::new()), global_table: g };
        proof {
            assert(r.local() =~= Seq::<Seq<char>>::empty());
            if global_table is None {
                assert(r.global() =~= Seq::<Seq<char>>::empty());
            }
        }
        r
    }

    /// How many keys the local table holds.
    pub fn local_len(&self) -> (r: usize)
        ensures
            r == self.local().len(),
    {
        self.local_table.len()
    }

    /// How many keys the global table holds.
    pub fn global_len(&self) -> (r: usize)
        ensures
            r == self.global().len(),
    {
        self.global_table.len()
    }

    /// Returns the global key at `index`, or reports `BadIndex`.
    pub fn lookup_global_index(&self, index: usize) -> (r: Result<&String, CodecError>)
        ensures
            match r {
                Ok(k) => index < self.global().len() && k@ == self.global()[index as int],
                Err(e) => e == CodecError::BadIndex && index >= self.global().len(),
            },
    {
        self.global_table.lookup_index(index)
    }

    /// Returns the local key at `index`, or reports `BadIndex`.
    pub fn lookup_local_index(&self, index: usize) -> (r: Result<&String, CodecError>)
        ensures
            match r {
                Ok(k) => index < self.local().len() && k@ == self.local()[index as int],
                Err(e) => e == CodecError::BadIndex && index >= self.local().len(),
            },
    {
        self.local_table.lookup_index(index)
    }

    /// The first position of the key in the global table, if any.
    pub fn find_global_index(&self, key: &String) -> (r: Option<usize>)
        ensures
            match r {
                Some(i) => tbl_find(self.global(), key@) == Some(i as int),
                None => tbl_find(self.global(), key@) is None,
            },
    {
        self.global_table.find_key(key)
    }

    /// The first position of the key in the local table, if any.
    pub fn find_local_index(&self, key: &String) -> (r: Option<usize>)
        ensures
            match r {
                Some(i) => tbl_find(self.local(), key@) == Some(i as int),
                None => tbl_find(self.local(), key@) is None,
            },
    {
        self.local_table.find_key(key)
    }

    /// Notes a key that was written or read inline, appending it to the local
    /// table; reports `TableFull` at the capacity.
    pub fn on_immediate_key(&mut self, key: String) -> (r: Result<(), CodecError>)
        ensures
            final(self).global() == old(self).global(),
            match r {
                Ok(()) => old(self).local().len() < MAX_TABLE_SIZE && final(self).local() == old(
                    self,
                ).local() + seq![key@],
                Err(e) => e == CodecError::TableFull && old(self).local().len() >= MAX_TABLE_SIZE
                    && final(self).local() == old(self).local(),
            },
    {
        self.local_table.push_key(key)
    }
}

/// The first position of `key` in `table`, scanning from the front.
#[verifier::loop_isolation(false)]
fn find_in(table: &Vec<String>, key: &String) -> (r: Option<usize>)
    ensures
        match r {
            Some(i) => tbl_find(Seq::new(table@.len(), |j: int| table@[j]@), key@) == Some(
                i as int,
            ),
            None => tbl_find(Seq::new(table@.len(), |j: int| table@[j]@), key@) is None,
        },
{
    let ghost t = Seq::new(table@.len(), |j: int| table@[j]@);
    proof {
        lemma_tbl_find(t, key@);
    }
    let n = table.len();
    let mut i: usize = 0;
    while i < n
        invariant
            n == table@.len(),
            i <= n,
            t == Seq::new(table@.len(), |j: int| table@[j]@),
            forall|j: int| 0 <= j < i ==> t[j] != key@,
        decreases n - i,
    {
        let e = &table[i];
        if *e == *key {
            proof {
                assert(t[i as int] == key@);
                lemma_tbl_find(t, key@);
                match tbl_find(t, key@) {
                    Some(ix) => {
                        if ix < i {
                            assert(t[ix] != key@);
                        }
                        if ix > i {
                            assert(t[i as int] != key@);
                        }
                    },
                    None => {
                        assert(t[i as int] != key@);
                    },
                }
            }
            return Some(i);
        }
        proof {
            assert(t[i as int] == table@[i as int]@);
        }
        i = i + 1;
    }
    None
}

/// Appending a key appends its serialized entry.
proof fn lemma_table_entries_bytes_push(t: Seq<Seq<char>>)
    requires
        t.len() > 0,
    ensures
        table_entries_bytes(t) == table_entries_bytes(t.drop_last()) + table_entry_bytes(
            t.last(),
        ),
    decreases t.len(),
{
    if t.len() == 1 {
        assert(t.drop_last() =~= Seq::<Seq<char>>::empty());
        assert(table_entries_bytes(t.drop_last()) =~= Seq::<u8>::empty());
        assert(t.drop_first() =~= Seq::<Seq<char>>::empty());
        assert(table_entries_bytes(t) =~= table_entry_bytes(t[0]) + table_entries_bytes(
            t.drop_first(),
        ));
        assert(table_entries_bytes(t) =~= table_entries_bytes(t.drop_last()) + table_entry_bytes(
            t.last(),
        ));
    } else {
        lemma_table_entries_bytes_push(t.drop_first());
        assert(t.drop_first().drop_last() =~= t.drop_last().drop_first());
        assert(t.drop_first().last() == t.last());
        assert(table_entries_bytes(t.drop_last()) == table_entry_bytes(t[0])
            + table_entries_bytes(t.drop_last().drop_first()));
        assert(table_entries_bytes(t) =~= table_entries_bytes(t.drop_last()) + table_entry_bytes(
            t.last(),
        ));
    }
}

} // verus!
