//! Key records inside objects: the prefix-coded reference to a global table
//! entry, a local back-reference, or an inline key, and the 1-to-3 byte
//! variable-length integer its extended forms use.

use vstd::prelude::*;
use vstd::string::StringSliceAdditionalSpecFns;
use vstd::utf8::{decode_utf8, encode_utf8, valid_utf8};
use crate::byte_stream::ByteStream;
use crate::errors::CodecError;
use crate::keys_table::{tbl_find, KeysTables, MAX_TABLE_SIZE};
use crate::text::str_to_bytes;

verus! {

/// First byte of an extended inline key.
pub const KEY_MODE_IMMEDIATE: u8 = 0x00;

/// First byte of an extended local back-reference.
pub const KEY_MODE_LOCAL: u8 = 0x01;

/// First byte of an extended global reference.
pub const KEY_MODE_GLOBAL: u8 = 0x02;

/// First byte of the smallest tiny inline key.
pub const IMMEDIATE_TINY_START: u8 = 0x03;

/// First byte of the smallest tiny local back-reference.
pub const BACK_REFERENCE_TINY_START: u8 = 0x57;

/// First byte of the smallest tiny global reference.
pub const GLOBAL_INDEX_TINY_START: u8 = 0xAB;

/// The reserved first byte.
pub const KEY_TAG_RESERVED: u8 = 0xFF;

/// How many values each tiny range covers.
pub const TINY_RANGE: u8 = 0x54;

/// The shortest-form encoding of a 16-bit value as a base-128 varint.
pub open spec fn vu16_bytes(v: u16) -> Seq<u8> {
    if v < 0x80 {
        seq![v as u8]
    } else if v < 0x4000 {
        seq![(v as int % 0x80 + 0x80) as u8, (v as int / 0x80) as u8]
    } else {
        seq![
            (v as int % 0x80 + 0x80) as u8,
            (v as int / 0x80 % 0x80 + 0x80) as u8,
            (v as int / 0x4000) as u8,
        ]
    }
}

/// Reading a varint from `s` at `i`: the value and the position after it, or
/// the error the read reports.
pub open spec fn parse_vu16(s: Seq<u8>, i: int) -> Result<(u16, int), CodecError> {
    if i + 1 > s.len() {
        Err(CodecError::ShortRead)
    } else {
        let b0 = s[i] as int;
        if b0 < 0x80 {
            Ok((b0 as u16, i + 1))
        } else if i + 2 > s.len() {
            Err(CodecError::ShortRead)
        } else {
            let b1 = s[i + 1] as int;
            if b1 < 0x80 {
                Ok(((b0 - 0x80 + b1 * 0x80) as u16, i + 2))
            } else if i + 3 > s.len() {
                Err(CodecError::ShortRead)
            } else {
                let b2 = s[i + 2] as int;
                if b2 > 0x03 {
                    Err(CodecError::BadVarint)
                } else {
                    Ok(((b0 - 0x80 + (b1 - 0x80) * 0x80 + b2 * 0x4000) as u16, i + 3))
                }
            }
        }
    }
}

/// The encoder emits the shortest form: one byte below 128, two below 16384,
/// three above; and a third byte above 0x03 is rejected on read.
pub proof fn lemma_vu16_shortest(v: u16)
    ensures
        v < 0x80 ==> vu16_bytes(v).len() == 1,
        0x80 <= v < 0x4000 ==> vu16_bytes(v).len() == 2,
        0x4000 <= v ==> vu16_bytes(v).len() == 3,
{
}

/// A three-byte varint whose third byte is above 0x03 is rejected.
pub proof fn lemma_vu16_reject(s: Seq<u8>, i: int)
    ensures
        (0 <= i && i + 3 <= s.len() && s[i] >= 0x80 && s[i + 1] >= 0x80 && s[i + 2] > 0x03)
            ==> parse_vu16(s, i) == Err::<(u16, int), CodecError>(CodecError::BadVarint),
{
}

/// Reading back the varint bytes of a value yields the value.
pub proof fn lemma_vu16_roundtrip(v: u16, s: Seq<u8>, i: int)
    requires
        0 <= i,
        i + vu16_bytes(v).len() <= s.len(),
        s.subrange(i, i + vu16_bytes(v).len()) == vu16_bytes(v),
    ensures
        parse_vu16(s, i) == Ok::<_, CodecError>((v, i + vu16_bytes(v).len())),
{
    let b = vu16_bytes(v);
    assert forall|j: int| 0 <= j < b.len() implies s[i + j] == #[trigger] b[j] by {
        assert(s.subrange(i, i + b.len())[j] == s[i + j]);
    }
    if v < 0x80 {
        assert(b[0] == v as u8);
        assert(s[i] == b[0]);
    } else if v < 0x4000 {
        assert(b[0] == (v as int % 0x80 + 0x80) as u8);
        assert(b[1] == (v as int / 0x80) as u8);
        assert(s[i] == b[0] && s[i + 1] == b[1]);
        assert(v as int / 0x80 < 0x80) by (nonlinear_arith)
            requires
                v < 0x4000,
        ;
        assert(v as int % 0x80 + (v as int / 0x80) * 0x80 == v) by (nonlinear_arith);
    } else {
        assert(b[0] == (v as int % 0x80 + 0x80) as u8);
        assert(b[1] == (v as int / 0x80 % 0x80 + 0x80) as u8);
        assert(b[2] == (v as int / 0x4000) as u8);
        assert(s[i] == b[0] && s[i + 1] == b[1] && s[i + 2] == b[2]);
        assert(0x80 <= v as int / 0x80 % 0x80 + 0x80);
        assert(v as int / 0x4000 <= 0x03) by (nonlinear_arith)
            requires
                v <= 0xFFFF,
        ;
        assert(v as int % 0x80 + (v as int / 0x80 % 0x80) * 0x80 + (v as int / 0x4000) * 0x4000
            == v) by (nonlinear_arith);
    }
}

/// The record head for a value in one of the three modes: the tiny form when
/// the value fits its range, else the extended mode byte and a varint.
pub open spec fn enc_type_and_value(value: int, ext_mode: u8, tiny_start: u8) -> Seq<u8> {
    if value < TINY_RANGE {
        seq![(tiny_start + value) as u8]
    } else {
        seq![ext_mode] + vu16_bytes(value as u16)
    }
}

/// The encoding of one key record: a global reference where the global table
/// holds the key, else a local back-reference where it was already seen, else
/// the inline key, which joins the local table.
pub open spec fn enc_key(k: Seq<char>, gt: Seq<Seq<char>>, lt: Seq<Seq<char>>) -> Result<
    (Seq<u8>, Seq<Seq<char>>),
    CodecError,
> {
    match tbl_find(gt, k) {
        Some(gi) => Ok((enc_type_and_value(gi, KEY_MODE_GLOBAL, GLOBAL_INDEX_TINY_START), lt)),
        None => match tbl_find(lt, k) {
            Some(li) => Ok(
                (enc_type_and_value(li, KEY_MODE_LOCAL, BACK_REFERENCE_TINY_START), lt),
            ),
            None => {
                let kb = encode_utf8(k);
                if kb.len() > 0xFFFF {
                    Err(CodecError::KeyTooLong)
                } else if lt.len() >= MAX_TABLE_SIZE {
                    Err(CodecError::TableFull)
                } else {
                    Ok(
                        (
                            enc_type_and_value(
                                kb.len() as int,
                                KEY_MODE_IMMEDIATE,
                                IMMEDIATE_TINY_START,
                            ) + kb,
                            lt + seq![k],
                        ),
                    )
                }
            },
        },
    }
}

/// Reading an inline key of `len` bytes at `i`: the key joins the local
/// table.
pub open spec fn dec_immediate_key(s: Seq<u8>, i: int, len: int, lt: Seq<Seq<char>>) -> Result<
    (Seq<char>, int, Seq<Seq<char>>),
    CodecError,
> {
    if i + len > s.len() {
        Err(CodecError::ShortRead)
    } else {
        let kb = s.subrange(i, i + len);
        if !valid_utf8(kb) {
            Err(CodecError::InvalidUtf8)
        } else if lt.len() >= MAX_TABLE_SIZE {
            Err(CodecError::TableFull)
        } else {
            Ok((decode_utf8(kb), i + len, lt + seq![decode_utf8(kb)]))
        }
    }
}

/// Reading one key record at `i`: the key it denotes, the position after it,
/// and the local table after it, or the error the read reports.
pub open spec fn dec_key(s: Seq<u8>, i: int, gt: Seq<Seq<char>>, lt: Seq<Seq<char>>) -> Result<
    (Seq<char>, int, Seq<Seq<char>>),
    CodecError,
> {
    if i + 1 > s.len() {
        Err(CodecError::ShortRead)
    } else {
        let fb = s[i];
        if fb < IMMEDIATE_TINY_START {
            match parse_vu16(s, i + 1) {
                Err(e) => Err(e),
                Ok((v, j)) => {
                    if fb == KEY_MODE_IMMEDIATE {
                        dec_immediate_key(s, j, v as int, lt)
                    } else if fb == KEY_MODE_LOCAL {
                        if v < lt.len() {
                            Ok((lt[v as int], j, lt))
                        } else {
                            Err(CodecError::BadIndex)
                        }
                    } else {
                        if v < gt.len() {
                            Ok((gt[v as int], j, lt))
                        } else {
                            Err(CodecError::BadIndex)
                        }
                    }
                },
            }
        } else if fb < BACK_REFERENCE_TINY_START {
            dec_immediate_key(s, i + 1, fb - IMMEDIATE_TINY_START, lt)
        } else if fb < GLOBAL_INDEX_TINY_START {
            let ix = fb - BACK_REFERENCE_TINY_START;
            if ix < lt.len() {
                Ok((lt[ix as int], i + 1, lt))
            } else {
                Err(CodecError::BadIndex)
            }
        } else if fb < KEY_TAG_RESERVED {
            let ix = fb - GLOBAL_INDEX_TINY_START;
            if ix < gt.len() {
                Ok((gt[ix as int], i + 1, lt))
            } else {
                Err(CodecError::BadIndex)
            }
        } else {
            Err(CodecError::BadKeyTag)
        }
    }
}

/// A window into `s` that equals `b` makes every sub-window equal the same
/// sub-window of `b`.
pub proof fn lemma_subrange_embed(s: Seq<u8>, i: int, b: Seq<u8>, lo: int, hi: int)
    requires
        0 <= i,
        i + b.len() <= s.len(),
        s.subrange(i, i + b.len()) == b,
        0 <= lo <= hi <= b.len(),
    ensures
        s.subrange(i + lo, i + hi) == b.subrange(lo, hi),
{
    assert forall|m: int| 0 <= m < hi - lo implies s.subrange(i + lo, i + hi)[m] == b.subrange(
        lo,
        hi,
    )[m] by {
        assert(s.subrange(i + lo, i + hi)[m] == s[i + lo + m]);
        assert(s.subrange(i, i + b.len())[lo + m] == s[i + lo + m]);
        assert(b.subrange(lo, hi)[m] == b[lo + m]);
    }
    assert(s.subrange(i + lo, i + hi) =~= b.subrange(lo, hi));
}

/// The two halves of a concatenation, read back off it.
pub proof fn lemma_concat_parts(a: Seq<u8>, c: Seq<u8>)
    ensures
        (a + c).subrange(0, a.len() as int) == a,
        (a + c).subrange(a.len() as int, a.len() + c.len() as int) == c,
{
    assert((a + c).subrange(0, a.len() as int) =~= a);
    assert((a + c).subrange(a.len() as int, a.len() + c.len() as int) =~= c);
}

/// Reading back an encoded key record yields the same key and leaves both
/// sides with the same local table.
pub proof fn lemma_key_roundtrip(
    k: Seq<char>,
    gt: Seq<Seq<char>>,
    lt: Seq<Seq<char>>,
    s: Seq<u8>,
    i: int,
    b: Seq<u8>,
    lt2: Seq<Seq<char>>,
)
    requires
        gt.len() <= 0xFFFF,
        lt.len() <= MAX_TABLE_SIZE,
        enc_key(k, gt, lt) == Ok::<_, CodecError>((b, lt2)),
        0 <= i,
        i + b.len() <= s.len(),
        s.subrange(i, i + b.len()) == b,
    ensures
        dec_key(s, i, gt, lt) == Ok::<_, CodecError>((k, i + b.len(), lt2)),
{
    crate::keys_table::lemma_tbl_find(gt, k);
    crate::keys_table::lemma_tbl_find(lt, k);
    match tbl_find(gt, k) {
        Some(gi) => {
            if gi < TINY_RANGE {
                assert(b == seq![(GLOBAL_INDEX_TINY_START + gi) as u8]);
                assert(s[i] == s.subrange(i, i + b.len())[0]);
                assert(b[0] == seq![(GLOBAL_INDEX_TINY_START + gi) as u8][0]);
            } else {
                let vb = vu16_bytes(gi as u16);
                assert(b == seq![KEY_MODE_GLOBAL] + vb);
                lemma_concat_parts(seq![KEY_MODE_GLOBAL], vb);
                assert(s[i] == s.subrange(i, i + b.len())[0]);
                assert(b[0] == (seq![KEY_MODE_GLOBAL] + vb)[0]);
                lemma_subrange_embed(s, i, b, 1, b.len() as int);
                lemma_vu16_roundtrip(gi as u16, s, i + 1);
            }
        },
        None => {
            match tbl_find(lt, k) {
                Some(li) => {
                    if li < TINY_RANGE {
                        assert(b == seq![(BACK_REFERENCE_TINY_START + li) as u8]);
                        assert(s[i] == s.subrange(i, i + b.len())[0]);
                        assert(b[0] == seq![(BACK_REFERENCE_TINY_START + li) as u8][0]);
                    } else {
                        let vb = vu16_bytes(li as u16);
                        assert(b == seq![KEY_MODE_LOCAL] + vb);
                        lemma_concat_parts(seq![KEY_MODE_LOCAL], vb);
                        assert(s[i] == s.subrange(i, i + b.len())[0]);
                        assert(b[0] == (seq![KEY_MODE_LOCAL] + vb)[0]);
                        lemma_subrange_embed(s, i, b, 1, b.len() as int);
                        lemma_vu16_roundtrip(li as u16, s, i + 1);
                    }
                },
                None => {
                    let kb = encode_utf8(k);
                    let head = enc_type_and_value(
                        kb.len() as int,
                        KEY_MODE_IMMEDIATE,
                        IMMEDIATE_TINY_START,
                    );
                    assert(b == head + kb);
                    lemma_concat_parts(head, kb);
                    vstd::utf8::encode_utf8_valid_utf8(k);
                    vstd::utf8::encode_utf8_decode_utf8(k);
                    lemma_subrange_embed(s, i, b, head.len() as int, b.len() as int);
                    if kb.len() < TINY_RANGE {
                        assert(head == seq![(IMMEDIATE_TINY_START + kb.len()) as u8]);
                        assert(s[i] == s.subrange(i, i + b.len())[0]);
                        assert(b[0] == (head + kb)[0]);
                        assert(head[0] == seq![(IMMEDIATE_TINY_START + kb.len()) as u8][0]);
                        assert(s.subrange(i + 1, i + 1 + kb.len() as int) == kb);
                        assert(dec_immediate_key(s, i + 1, kb.len() as int, lt) == Ok::<
                            _,
                            CodecError,
                        >((k, i + 1 + kb.len() as int, lt + seq![k])));
                    } else {
                        let vb = vu16_bytes(kb.len() as u16);
                        assert(head == seq![KEY_MODE_IMMEDIATE] + vb);
                        lemma_concat_parts(seq![KEY_MODE_IMMEDIATE], vb);
                        assert(s[i] == s.subrange(i, i + b.len())[0]);
                        assert(b[0] == (head + kb)[0]);
                        assert(head[0] == (seq![KEY_MODE_IMMEDIATE] + vb)[0]);
                        lemma_subrange_embed(s, i, b, 1, head.len() as int);
                        assert(b.subrange(1, head.len() as int) == head.subrange(
                            1,
                            head.len() as int,
                        )) by {
                            lemma_subrange_embed(b, 0, head, 1, head.len() as int);
                            assert(b.subrange(0, head.len() as int) == head);
                            assert(b.subrange(1int, head.len() as int) =~= b.subrange(
                                1,
                                head.len() as int,
                            ));
                        }
                        lemma_vu16_roundtrip(kb.len() as u16, s, i + 1);
                        let j = i + 1 + vb.len();
                        assert(s.subrange(j, j + kb.len() as int) == kb);
                        assert(dec_immediate_key(s, j, kb.len() as int, lt) == Ok::<
                            _,
                            CodecError,
                        >((k, j + kb.len() as int, lt + seq![k])));
                    }
                },
            }
        },
    }
}

/// Recovers a tiny form's value from its first byte.
pub fn read_tiny_u8(value: u8, start: u8) -> (r: Result<u8, CodecError>)
    requires
        value >= start,
    ensures
        r == Ok::<u8, CodecError>((value - start) as u8),
{
    Ok(value - start)
}

/// Writes a tiny form's first byte.
pub fn write_tiny_u8(value: u8, start: u8, bytes: &mut ByteStream) -> (r: Result<
    (),
    CodecError,
>)
    requires
        old(bytes).wf(),
        old(bytes).at_end(),
        value + start <= 0xFF,
    ensures
        final(bytes).at_end(),
        final(bytes).data() == old(bytes).data() + seq![(start + value) as u8],
        r is Ok,
    {
    bytes.write_u8(value + start);
    Ok(())
}

/// Writes a record head: the tiny form when the value fits, else the extended
/// mode byte and a varint.
pub fn write_type_and_value(
    bytes: &mut ByteStream,
    value: usize,
    ext_mode: u8,
    tiny_start: u8,
) -> (r: Result<(), CodecError>)
    requires
        old(bytes).wf(),
        old(bytes).at_end(),
        value <= 0xFFFF,
        tiny_start as int + TINY_RANGE as int <= 0x100,
    ensures
        final(bytes).at_end(),
        final(bytes).data() == old(bytes).data() + enc_type_and_value(
            value as int,
            ext_mode,
            tiny_start,
        ),
        r is Ok,
{
    if value < TINY_RANGE as usize {
        let _ = write_tiny_u8(value as u8, tiny_start, bytes);
        Ok(())
    } else {
        bytes.write_u8(ext_mode);
        write_vu16(value as u16, bytes);
        proof {
            assert(final(bytes).data() =~= old(bytes).data() + (seq![ext_mode] + vu16_bytes(
                value as u16,
            )));
        }
        Ok(())
    }
}

/// Writes the shortest varint form of a value.
pub fn write_vu16(key_index: u16, bytes: &mut ByteStream)
    requires
        old(bytes).wf(),
        old(bytes).at_end(),
    ensures
        final(bytes).at_end(),
        final(bytes).data() == old(bytes).data() + vu16_bytes(key_index),
{
    if key_index < 0x80 {
        bytes.write_u8(key_index as u8);
        proof {
            assert(final(bytes).data() =~= old(bytes).data() + vu16_bytes(key_index));
        }
    } else if key_index < 0x4000 {
        let b0 = (key_index % 0x80 + 0x80) as u8;
        let b1 = (key_index / 0x80) as u8;
        proof {
            assert(key_index as int / 0x80 < 0x80) by (nonlinear_arith)
                requires
                    key_index < 0x4000,
            ;
        }
        bytes.write(&[b0, b1]);
        proof {
            assert(final(bytes).data() =~= old(bytes).data() + vu16_bytes(key_index));
        }
    } else {
        let b0 = (key_index % 0x80 + 0x80) as u8;
        let b1 = (key_index / 0x80 % 0x80 + 0x80) as u8;
        let b2 = (key_index / 0x4000) as u8;
        proof {
            assert(key_index as int / 0x4000 <= 0x03) by (nonlinear_arith)
                requires
                    key_index <= 0xFFFF,
            ;
        }
        bytes.write(&[b0, b1, b2]);
        proof {
            assert(final(bytes).data() =~= old(bytes).data() + vu16_bytes(key_index));
        }
    }
}

/// Reads one inline key of `length` bytes and notes it in the local table.
pub fn read_immediate_key(
    bytes: &mut ByteStream,
    length: usize,
    keys_table: &mut KeysTables,
) -> (r: Result<String, CodecError>)
    requires
        old(bytes).wf(),
    ensures
        final(bytes).wf(),
        final(bytes).data() == old(bytes).data(),
        final(bytes).cursor() >= old(bytes).cursor(),
        final(keys_table).global() == old(keys_table).global(),
        match r {
            Ok(k) => dec_immediate_key(
                old(bytes).data(),
                old(bytes).cursor(),
                length as int,
                old(keys_table).local(),
            ) == Ok::<_, CodecError>((k@, final(bytes).cursor(), final(keys_table).local())),
            Err(e) => dec_immediate_key(
                old(bytes).data(),
                old(bytes).cursor(),
                length as int,
                old(keys_table).local(),
            ) == Err::<(Seq<char>, int, Seq<Seq<char>>), _>(e) && final(keys_table).local() == old(keys_table).local(),
        },
{
    let key = match bytes.read_string(length) {
        Ok(k) => k,
        Err(e) => {
            return Err(e);
        },
    };
    match keys_table.on_immediate_key(key.clone()) {
        Ok(()) => Ok(key),
        Err(e) => Err(e),
    }
}

/// Writes one inline key's bytes and notes it in the local table.
pub fn write_immediate_key(
    key: String,
    bytes: &mut ByteStream,
    keys_table: &mut KeysTables,
) -> (r: Result<(), CodecError>)
    requires
        old(bytes).wf(),
        old(bytes).at_end(),
        old(keys_table).local().len() < MAX_TABLE_SIZE,
    ensures
        final(bytes).at_end(),
        final(bytes).data() == old(bytes).data() + encode_utf8(key@),
        final(keys_table).global() == old(keys_table).global(),
        final(keys_table).local() == old(keys_table).local() + seq![key@],
        r is Ok,
{
    bytes.write_string(key.as_str());
    match keys_table.on_immediate_key(key) {
        Ok(()) => Ok(()),
        Err(e) => {
            proof {
                assert(false);
            }
            Err(e)
        },
    }
}

/// Writes one key record: a global reference, a local back-reference, or the
/// inline key, whichever applies first for this key.
pub fn write_key(key: String, bytes: &mut ByteStream, keys_table: &mut KeysTables) -> (r: Result<
    (),
    CodecError,
>)
    requires
        old(bytes).wf(),
        old(bytes).at_end(),
        old(keys_table).global().len() <= 0xFFFF,
        old(keys_table).local().len() <= MAX_TABLE_SIZE,
    ensures
        final(bytes).at_end(),
        final(keys_table).global() == old(keys_table).global(),
        match r {
            Ok(()) => (match enc_key(
                key@,
                old(keys_table).global(),
                old(keys_table).local(),
            ) {
                Ok((b, lt2)) => final(bytes).data() == old(bytes).data() + b && final(keys_table).local() == lt2,
                Err(_) => false,
            }),
            Err(e) => enc_key(key@, old(keys_table).global(), old(keys_table).local()) == Err::<
                (Seq<u8>, Seq<Seq<char>>),
                _,
            >(e) && final(bytes).data() == old(bytes).data() && final(keys_table).local() == old(keys_table).local(),
        },
{
    if let Some(global_index) = keys_table.find_global_index(&key) {
        proof {
            crate::keys_table::lemma_tbl_find(keys_table.global(), key@);
        }
        let _ = write_type_and_value(
            bytes,
            global_index,
            KEY_MODE_GLOBAL,
            GLOBAL_INDEX_TINY_START,
        );
        return Ok(());
    }
    if let Some(local_index) = keys_table.find_local_index(&key) {
        proof {
            crate::keys_table::lemma_tbl_find(keys_table.local(), key@);
        }
        let _ = write_type_and_value(
            bytes,
            local_index,
            KEY_MODE_LOCAL,
            BACK_REFERENCE_TINY_START,
        );
        return Ok(());
    }
    let kb = str_to_bytes(key.as_str());
    if kb.len() > 0xFFFF {
        return Err(CodecError::KeyTooLong);
    }
    if keys_table.local_len() >= MAX_TABLE_SIZE {
        return Err(CodecError::TableFull);
    }
    let ghost mid = bytes.data();
    let _ = write_type_and_value(bytes, kb.len(), KEY_MODE_IMMEDIATE, IMMEDIATE_TINY_START);
    let r = write_immediate_key(key, bytes, keys_table);
    proof {
        assert(final(bytes).data() =~= old(bytes).data() + (enc_type_and_value(
            kb@.len() as int,
            KEY_MODE_IMMEDIATE,
            IMMEDIATE_TINY_START,
        ) + encode_utf8(key@)));
    }
    r
}

/// Reads one key record and returns the key it denotes.
pub fn read_key(bytes: &mut ByteStream, keys_table: &mut KeysTables) -> (r: Result<
    String,
    CodecError,
>)
    requires
        old(bytes).wf(),
    ensures
        final(bytes).wf(),
        final(bytes).data() == old(bytes).data(),
        final(bytes).cursor() >= old(bytes).cursor(),
        final(keys_table).global() == old(keys_table).global(),
        match r {
            Ok(k) => dec_key(
                old(bytes).data(),
                old(bytes).cursor(),
                old(keys_table).global(),
                old(keys_table).local(),
            ) == Ok::<_, CodecError>((k@, final(bytes).cursor(), final(keys_table).local())),
            Err(e) => dec_key(
                old(bytes).data(),
                old(bytes).cursor(),
                old(keys_table).global(),
                old(keys_table).local(),
            ) == Err::<(Seq<char>, int, Seq<Seq<char>>), _>(e) && final(keys_table).local() == old(keys_table).local(),
        },
{
    let first_byte = match bytes.read_u8() {
        Ok(b) => b,
        Err(e) => {
            return Err(e);
        },
    };
    if first_byte < IMMEDIATE_TINY_START {
        let value = match read_vu16(bytes) {
            Ok(v) => v,
            Err(e) => {
                return Err(e);
            },
        };
        if first_byte == KEY_MODE_IMMEDIATE {
            read_immediate_key(bytes, value as usize, keys_table)
        } else if first_byte == KEY_MODE_LOCAL {
            match keys_table.lookup_local_index(value as usize) {
                Ok(k) => Ok(k.clone()),
                Err(e) => Err(e),
            }
        } else {
            match keys_table.lookup_global_index(value as usize) {
                Ok(k) => Ok(k.clone()),
                Err(e) => Err(e),
            }
        }
    } else if first_byte < BACK_REFERENCE_TINY_START {
        let size = match read_tiny_u8(first_byte, IMMEDIATE_TINY_START) {
            Ok(v) => v,
            Err(e) => {
                return Err(e);
            },
        };
        read_immediate_key(bytes, size as usize, keys_table)
    } else if first_byte < GLOBAL_INDEX_TINY_START {
        let key_index = match read_tiny_u8(first_byte, BACK_REFERENCE_TINY_START) {
            Ok(v) => v,
            Err(e) => {
                return Err(e);
            },
        };
        match keys_table.lookup_local_index(key_index as usize) {
            Ok(k) => Ok(k.clone()),
            Err(e) => Err(e),
        }
    } else if first_byte < KEY_TAG_RESERVED {
        let key_index = match read_tiny_u8(first_byte, GLOBAL_INDEX_TINY_START) {
            Ok(v) => v,
            Err(e) => {
                return Err(e);
            },
        };
        match keys_table.lookup_global_index(key_index as usize) {
            Ok(k) => Ok(k.clone()),
            Err(e) => Err(e),
        }
    } else {
        Err(CodecError::BadKeyTag)
    }
}

/// Reads a varint, rejecting a third byte above 0x03.
pub fn read_vu16(bytes: &mut ByteStream) -> (r: Result<u16, CodecError>)
    requires
        old(bytes).wf(),
    ensures
        final(bytes).wf(),
        final(bytes).data() == old(bytes).data(),
        match r {
            Ok(v) => parse_vu16(old(bytes).data(), old(bytes).cursor()) == Ok::<_, CodecError>(
                (v, final(bytes).cursor()),
            ),
            Err(e) => parse_vu16(old(bytes).data(), old(bytes).cursor()) == Err::<(u16, int), _>(
                e,
            ) && final(bytes).cursor() >= old(bytes).cursor(),
        },
{
    let b0 = match bytes.read_u8() {
        Ok(b) => b,
        Err(e) => {
            return Err(e);
        },
    };
    if b0 & 0x80 == 0 {
        proof {
            assert(b0 & 0x80 == 0 ==> b0 < 0x80) by (bit_vector);
        }
        return Ok(b0 as u16);
    }
    proof {
        assert(b0 & 0x80 != 0 ==> b0 >= 0x80) by (bit_vector);
    }
    let b1 = match bytes.read_u8() {
        Ok(b) => b,
        Err(e) => {
            return Err(e);
        },
    };
    if b1 & 0x80 == 0 {
        proof {
            assert(b1 & 0x80 == 0 ==> b1 < 0x80) by (bit_vector);
        }
        return Ok((b0 - 0x80) as u16 + b1 as u16 * 0x80);
    }
    proof {
        assert(b1 & 0x80 != 0 ==> b1 >= 0x80) by (bit_vector);
    }
    let b2 = match bytes.read_u8() {
        Ok(b) => b,
        Err(e) => {
            return Err(e);
        },
    };
    if b2 > 0x03 {
        return Err(CodecError::BadVarint);
    }
    Ok((b0 - 0x80) as u16 + (b1 - 0x80) as u16 * 0x80 + b2 as u16 * 0x4000)
}

} // verus!
