//! The format's global guarantees, proved from the codec's definitions:
//! decoding inverts encoding, the emitted tags are minimal, both sides grow
//! the same local keys table, and encoding is deterministic.

use vstd::prelude::*;
use vstd::utf8::{encode_utf8, encode_utf8_decode_utf8, encode_utf8_valid_utf8};
use crate::codec::{dec_entries, dec_items, dec_value, enc_elems, enc_pairs, enc_value};
use crate::codec::{array_tags, enc_float, enc_int, object_tags, string_tags};
use crate::data_type::{spec_category, spec_size_width, tag_and_size, DataTypeCategory};
use crate::data_type::{TAG_EMPTY_ARRAY, TAG_SMALL_ARRAY, TAG_BIG_ARRAY, TAG_LONG_ARRAY};
use crate::data_type::{TAG_EMPTY_OBJECT, TAG_SMALL_OBJECT, TAG_BIG_OBJECT, TAG_LONG_OBJECT};
use crate::data_type::{TAG_EMPTY_STRING, TAG_SMALL_STRING, TAG_BIG_STRING, TAG_LONG_STRING};
use crate::data_type::{TAG_FALSE, TAG_FLOAT_ZERO, TAG_F32, TAG_F64, TAG_INT_ZERO, TAG_NULL};
use crate::data_type::{TAG_I16, TAG_I32, TAG_I64, TAG_I8, TAG_TRUE, TAG_U16, TAG_U32};
use crate::data_type::{TAG_U64, TAG_U8};
use crate::errors::CodecError;
use crate::floats::{canon_float, f32_is_finite, f64_exp, f64_in_f32_band, f64_is_finite};
use crate::floats::{f64_is_zero, narrow_f64_bits, widen_f32_bits};
use crate::frame::{header_bytes, parse_header, spec_decode, spec_encode, spec_global_table};
use crate::frame::{config_byte, zstd_compress_of, zstd_decompress_of, CURRENT_VERSION};
use crate::frame::{MAGIC_0, MAGIC_1};
use crate::json::{canon_elems, canon_jval, canon_pairs, JVal};
use crate::key_record::{dec_key, enc_key, lemma_concat_parts, lemma_key_roundtrip};
use crate::key_record::lemma_subrange_embed;
use crate::keys_table::{parse_table, tbl_find, MAX_TABLE_SIZE};
use crate::le::{lemma_le2_roundtrip, lemma_le4_roundtrip, lemma_le8_roundtrip};
use crate::le::{lemma_twos_complement_roundtrip};
use crate::le::{le2_bytes, le2_val, le4_bytes, le4_val, le8_bytes, le8_val};
use crate::le::{i16_of_u16, i32_of_u32, i64_of_u64, i8_of_u8};
use crate::le::{u16_of_i16, u32_of_i32, u64_of_i64, u8_of_i8};

verus! {

/// An in-band double narrows to a finite single.
proof fn lemma_narrow_finite(b: u64)
    requires
        f64_in_f32_band(b),
    ensures
        f32_is_finite(narrow_f64_bits(b)),
{
    assert(0x381 <= f64_exp(b) <= 0x417) by (nonlinear_arith)
        requires
            crate::floats::F32_BAND_LOW <= b as int % 0x8000000000000000,
            b as int % 0x8000000000000000 <= crate::floats::F32_BAND_HIGH,
            f64_exp(b) == b as int / 0x10000000000000 % 0x800,
    ;
    assert(crate::floats::f32_exp(narrow_f64_bits(b)) != 0xFF) by (nonlinear_arith)
        requires
            f64_in_f32_band(b) && 0x381 <= f64_exp(b) && f64_exp(b) <= 0x417,
    ;
}

/// Reading back an encoded value yields its canonical form, the position
/// after its bytes, and the encoder's local table.
#[verifier::rlimit(100)]
#[verifier::spinoff_prover]
proof fn lemma_value_roundtrip(
    v: JVal,
    gt: Seq<Seq<char>>,
    lt: Seq<Seq<char>>,
    s: Seq<u8>,
    i: int,
    fuel: nat,
)
    requires
        gt.len() <= 0xFFFF,
        lt.len() <= MAX_TABLE_SIZE,
        enc_value(v, gt, lt) is Ok,
        0 <= i,
        i + enc_value(v, gt, lt)->Ok_0.0.len() <= s.len(),
        s.subrange(i, i + enc_value(v, gt, lt)->Ok_0.0.len()) == enc_value(v, gt, lt)->Ok_0.0,
        fuel >= enc_value(v, gt, lt)->Ok_0.0.len(),
    ensures
        enc_value(v, gt, lt)->Ok_0.1.len() <= MAX_TABLE_SIZE,
        dec_value(s, i, gt, lt, fuel) == Ok::<_, CodecError>(
            (
                canon_jval(v),
                i + enc_value(v, gt, lt)->Ok_0.0.len(),
                enc_value(v, gt, lt)->Ok_0.1,
            ),
        ),
    decreases v, 0int,
{
    let (b, lt2) = enc_value(v, gt, lt)->Ok_0;
    assert forall|j: int| 0 <= j < b.len() implies s[i + j] == #[trigger] b[j] by {
        assert(s.subrange(i, i + b.len())[j] == s[i + j]);
    }
    match v {
        JVal::Null => {
            assert(b[0] == seq![TAG_NULL][0]);
            assert(s[i] == b[0]);
        },
        JVal::Bool(bo) => {
            assert(b[0] == seq![
                if bo {
                    TAG_TRUE
                } else {
                    TAG_FALSE
                },
            ][0]);
            assert(s[i] == b[0]);
        },
        JVal::Int(n) => {
            lemma_int_roundtrip(n, lt, s, i);
        },
        JVal::Float(bits) => {
            lemma_float_roundtrip(bits, lt, s, i);
        },
        JVal::Str(cs) => {
            let sb = encode_utf8(cs);
            let h = tag_and_size(sb.len() as int, string_tags())->Ok_0;
            assert(b == h + sb);
            lemma_concat_parts(h, sb);
            lemma_head_bytes(sb.len() as int, string_tags(), s, i, b, sb.len() as int);
            let j2 = i + h.len();
            lemma_subrange_embed(s, i, b, h.len() as int, b.len() as int);
            assert(s.subrange(j2, j2 + sb.len()) == sb);
            encode_utf8_valid_utf8(cs);
            encode_utf8_decode_utf8(cs);
            assert(spec_category(s[i]) == Some(DataTypeCategory::String));
        },
        JVal::Arr(elems) => {
            let h = tag_and_size(elems.len() as int, array_tags())->Ok_0;
            let eb = enc_elems(elems, gt, lt)->Ok_0.0;
            assert(b == h + eb);
            lemma_concat_parts(h, eb);
            lemma_head_bytes(elems.len() as int, array_tags(), s, i, b, elems.len() as int);
            let j2 = i + h.len();
            lemma_subrange_embed(s, i, b, h.len() as int, b.len() as int);
            assert(s.subrange(j2, j2 + eb.len()) == eb);
            assert(spec_category(s[i]) == Some(DataTypeCategory::Array));
            lemma_elems_roundtrip(elems, gt, lt, s, j2, (fuel - 1) as nat);
        },
        JVal::Obj(pairs) => {
            let h = tag_and_size(pairs.len() as int, object_tags())->Ok_0;
            let eb = enc_pairs(pairs, gt, lt, seq![])->Ok_0.0;
            assert(b == h + eb);
            lemma_concat_parts(h, eb);
            lemma_head_bytes(pairs.len() as int, object_tags(), s, i, b, pairs.len() as int);
            let j2 = i + h.len();
            lemma_subrange_embed(s, i, b, h.len() as int, b.len() as int);
            assert(s.subrange(j2, j2 + eb.len()) == eb);
            assert(spec_category(s[i]) == Some(DataTypeCategory::Object));
            lemma_pairs_roundtrip(pairs, gt, lt, seq![], s, j2, (fuel - 1) as nat);
        },
    }
}

/// The size-classed head of a container or string reads back as its size.
proof fn lemma_head_bytes(
    size: int,
    chars: (u8, u8, u8, u8),
    s: Seq<u8>,
    i: int,
    b: Seq<u8>,
    n: int,
)
    requires
        0 <= size <= 0xFFFFFFFF,
        size == n,
        tag_and_size(size, chars) is Ok,
        0 <= i,
        i + b.len() <= s.len(),
        s.subrange(i, i + b.len()) == b,
        b.len() >= tag_and_size(size, chars)->Ok_0.len(),
        b.subrange(0, tag_and_size(size, chars)->Ok_0.len() as int) == tag_and_size(
            size,
            chars,
        )->Ok_0,
    ensures
        ({
            let h = tag_and_size(size, chars)->Ok_0;
            s[i] == h[0] && spec_size_width(h[0]) == (h.len() - 1) && crate::data_type::dec_size(
                s,
                i + 1,
                spec_size_width(h[0]),
            ) == Ok::<_, CodecError>((n, i + h.len()))
        }) || !(chars == string_tags() || chars == array_tags() || chars == object_tags()),
{
    if chars == string_tags() || chars == array_tags() || chars == object_tags() {
        let h = tag_and_size(size, chars)->Ok_0;
        assert forall|j: int| 0 <= j < h.len() implies s[i + j] == #[trigger] h[j] by {
            assert(b.subrange(0, h.len() as int)[j] == b[j]);
            assert(s.subrange(i, i + b.len())[j] == s[i + j]);
        }
        if size == 0 {
            assert(h[0] == seq![chars.0][0]);
        } else if size <= 0xFF {
            assert(h[0] == seq![chars.1, size as u8][0]);
            assert(h[1] == seq![chars.1, size as u8][1]);
            assert(s[i + 1] == size as u8);
        } else if size <= 0xFFFF {
            let lb = le2_bytes(size as u16);
            assert(h[0] == (seq![chars.2] + lb)[0]);
            assert(h[1] == (seq![chars.2] + lb)[1] && (seq![chars.2] + lb)[1] == lb[0]);
            assert(h[2] == (seq![chars.2] + lb)[2] && (seq![chars.2] + lb)[2] == lb[1]);
            lemma_le2_roundtrip(size as u16);
            assert(s.subrange(i + 1, i + 3) =~= lb);
        } else {
            let lb = le4_bytes(size as u32);
            assert(h[0] == (seq![chars.3] + lb)[0]);
            assert forall|j: int| 0 <= j < 4 implies s[i + 1 + j] == #[trigger] lb[j] by {
                assert(h[1 + j] == (seq![chars.3] + lb)[1 + j]);
                assert((seq![chars.3] + lb)[1 + j] == lb[j]);
            }
            lemma_le4_roundtrip(size as u32);
            assert(s.subrange(i + 1, i + 5) =~= lb);
        }
    }
}

/// An encoded integer reads back as itself.
proof fn lemma_int_roundtrip(n: int, lt: Seq<Seq<char>>, s: Seq<u8>, i: int)
    requires
        -0x8000000000000000 <= n < 0x10000000000000000,
        0 <= i,
        i + enc_int(n).len() <= s.len(),
        s.subrange(i, i + enc_int(n).len()) == enc_int(n),
    ensures
        ({
            let b = enc_int(n);
            spec_category(s[i]) == Some(DataTypeCategory::Integer) && crate::codec::dec_int(
                s,
                i + 1,
                s[i],
            ) == Ok::<_, CodecError>((n, i + b.len()))
        }),
{
    let b = enc_int(n);
    assert forall|j: int| 0 <= j < b.len() implies s[i + j] == #[trigger] b[j] by {
        assert(s.subrange(i, i + b.len())[j] == s[i + j]);
    }
    lemma_twos_complement_roundtrip();
    if n == 0 {
        assert(b[0] == seq![TAG_INT_ZERO][0]);
    } else if 0 < n <= 0xFF {
        assert(b[0] == seq![TAG_U8, n as u8][0]);
        assert(b[1] == seq![TAG_U8, n as u8][1]);
    } else if 0xFF < n <= 0xFFFF {
        let lb = le2_bytes(n as u16);
        assert(b[0] == (seq![TAG_U16] + lb)[0]);
        assert(b[1] == (seq![TAG_U16] + lb)[1] && (seq![TAG_U16] + lb)[1] == lb[0]);
        assert(b[2] == (seq![TAG_U16] + lb)[2] && (seq![TAG_U16] + lb)[2] == lb[1]);
        lemma_le2_roundtrip(n as u16);
        assert(s.subrange(i + 1, i + 3) =~= lb);
    } else if 0xFFFF < n <= 0xFFFFFFFF {
        let lb = le4_bytes(n as u32);
        assert(b[0] == (seq![TAG_U32] + lb)[0]);
        assert forall|j: int| 0 <= j < 4 implies s[i + 1 + j] == #[trigger] lb[j] by {
            assert(b[1 + j] == (seq![TAG_U32] + lb)[1 + j]);
            assert((seq![TAG_U32] + lb)[1 + j] == lb[j]);
        }
        lemma_le4_roundtrip(n as u32);
        assert(s.subrange(i + 1, i + 5) =~= lb);
    } else if 0xFFFFFFFF < n {
        let lb = le8_bytes(n as u64);
        assert(b[0] == (seq![TAG_U64] + lb)[0]);
        assert forall|j: int| 0 <= j < 8 implies s[i + 1 + j] == #[trigger] lb[j] by {
            assert(b[1 + j] == (seq![TAG_U64] + lb)[1 + j]);
            assert((seq![TAG_U64] + lb)[1 + j] == lb[j]);
        }
        lemma_le8_roundtrip(n as u64);
        assert(s.subrange(i + 1, i + 9) =~= lb);
    } else if -0x80 <= n < 0 {
        assert(b[0] == seq![TAG_I8, u8_of_i8(n as i8)][0]);
        assert(b[1] == seq![TAG_I8, u8_of_i8(n as i8)][1]);
        assert(i8_of_u8(u8_of_i8(n as i8)) == n as i8);
    } else if -0x8000 <= n < -0x80 {
        let lb = le2_bytes(u16_of_i16(n as i16));
        assert(b[0] == (seq![TAG_I16] + lb)[0]);
        assert(b[1] == (seq![TAG_I16] + lb)[1] && (seq![TAG_I16] + lb)[1] == lb[0]);
        assert(b[2] == (seq![TAG_I16] + lb)[2] && (seq![TAG_I16] + lb)[2] == lb[1]);
        lemma_le2_roundtrip(u16_of_i16(n as i16));
        assert(s.subrange(i + 1, i + 3) =~= lb);
        assert(i16_of_u16(u16_of_i16(n as i16)) == n as i16);
    } else if -0x80000000 <= n < -0x8000 {
        let lb = le4_bytes(u32_of_i32(n as i32));
        assert(b[0] == (seq![TAG_I32] + lb)[0]);
        assert forall|j: int| 0 <= j < 4 implies s[i + 1 + j] == #[trigger] lb[j] by {
            assert(b[1 + j] == (seq![TAG_I32] + lb)[1 + j]);
            assert((seq![TAG_I32] + lb)[1 + j] == lb[j]);
        }
        lemma_le4_roundtrip(u32_of_i32(n as i32));
        assert(s.subrange(i + 1, i + 5) =~= lb);
        assert(i32_of_u32(u32_of_i32(n as i32)) == n as i32);
    } else {
        let lb = le8_bytes(u64_of_i64(n as i64));
        assert(b[0] == (seq![TAG_I64] + lb)[0]);
        assert forall|j: int| 0 <= j < 8 implies s[i + 1 + j] == #[trigger] lb[j] by {
            assert(b[1 + j] == (seq![TAG_I64] + lb)[1 + j]);
            assert((seq![TAG_I64] + lb)[1 + j] == lb[j]);
        }
        lemma_le8_roundtrip(u64_of_i64(n as i64));
        assert(s.subrange(i + 1, i + 9) =~= lb);
        assert(i64_of_u64(u64_of_i64(n as i64)) == n as i64);
    }
}

/// An encoded finite double reads back as its canonical form.
proof fn lemma_float_roundtrip(bits: u64, lt: Seq<Seq<char>>, s: Seq<u8>, i: int)
    requires
        enc_float(bits) is Ok,
        0 <= i,
        i + enc_float(bits)->Ok_0.len() <= s.len(),
        s.subrange(i, i + enc_float(bits)->Ok_0.len()) == enc_float(bits)->Ok_0,
    ensures
        ({
            let b = enc_float(bits)->Ok_0;
            spec_category(s[i]) == Some(DataTypeCategory::Float) && crate::codec::dec_float(
                s,
                i + 1,
                s[i],
            ) == Ok::<_, CodecError>((canon_float(bits), i + b.len()))
        }),
{
    let b = enc_float(bits)->Ok_0;
    assert forall|j: int| 0 <= j < b.len() implies s[i + j] == #[trigger] b[j] by {
        assert(s.subrange(i, i + b.len())[j] == s[i + j]);
    }
    if f64_is_zero(bits) {
        assert(b[0] == seq![TAG_FLOAT_ZERO][0]);
    } else if f64_in_f32_band(bits) {
        let fb = narrow_f64_bits(bits);
        let lb = le4_bytes(fb);
        assert(b[0] == (seq![TAG_F32] + lb)[0]);
        assert forall|j: int| 0 <= j < 4 implies s[i + 1 + j] == #[trigger] lb[j] by {
            assert(b[1 + j] == (seq![TAG_F32] + lb)[1 + j]);
            assert((seq![TAG_F32] + lb)[1 + j] == lb[j]);
        }
        lemma_le4_roundtrip(fb);
        assert(s.subrange(i + 1, i + 5) =~= lb);
        lemma_narrow_finite(bits);
        assert(canon_float(bits) == widen_f32_bits(fb));
    } else {
        let lb = le8_bytes(bits);
        assert(b[0] == (seq![TAG_F64] + lb)[0]);
        assert forall|j: int| 0 <= j < 8 implies s[i + 1 + j] == #[trigger] lb[j] by {
            assert(b[1 + j] == (seq![TAG_F64] + lb)[1 + j]);
            assert((seq![TAG_F64] + lb)[1 + j] == lb[j]);
        }
        lemma_le8_roundtrip(bits);
        assert(s.subrange(i + 1, i + 9) =~= lb);
        assert(canon_float(bits) == bits);
    }
}

/// Reading back encoded array elements yields their canonical forms and the
/// encoder's local table.
proof fn lemma_elems_roundtrip(
    elems: Seq<JVal>,
    gt: Seq<Seq<char>>,
    lt: Seq<Seq<char>>,
    s: Seq<u8>,
    i: int,
    fuel: nat,
)
    requires
        gt.len() <= 0xFFFF,
        lt.len() <= MAX_TABLE_SIZE,
        enc_elems(elems, gt, lt) is Ok,
        0 <= i,
        i + enc_elems(elems, gt, lt)->Ok_0.0.len() <= s.len(),
        s.subrange(i, i + enc_elems(elems, gt, lt)->Ok_0.0.len()) == enc_elems(
            elems,
            gt,
            lt,
        )->Ok_0.0,
        fuel >= enc_elems(elems, gt, lt)->Ok_0.0.len(),
    ensures
        enc_elems(elems, gt, lt)->Ok_0.1.len() <= MAX_TABLE_SIZE,
        dec_items(s, i, elems.len() as int, gt, lt, fuel) == Ok::<_, CodecError>(
            (
                canon_elems(elems),
                i + enc_elems(elems, gt, lt)->Ok_0.0.len(),
                enc_elems(elems, gt, lt)->Ok_0.1,
            ),
        ),
    decreases elems, 1int,
{
    let (b, lt2) = enc_elems(elems, gt, lt)->Ok_0;
    if elems.len() == 0 {
        assert(canon_elems(elems) =~= Seq::<JVal>::empty());
    } else {
        let (b0, lt1) = enc_value(elems[0], gt, lt)->Ok_0;
        let (b1, _l) = enc_elems(elems.drop_first(), gt, lt1)->Ok_0;
        assert(b == b0 + b1);
        lemma_concat_parts(b0, b1);
        lemma_subrange_embed(s, i, b, 0, b0.len() as int);
        lemma_subrange_embed(s, i, b, b0.len() as int, b.len() as int);
        lemma_value_roundtrip(elems[0], gt, lt, s, i, fuel);
        lemma_elems_roundtrip(elems.drop_first(), gt, lt1, s, i + b0.len(), fuel);
        assert(canon_elems(elems) == seq![canon_jval(elems[0])] + canon_elems(
            elems.drop_first(),
        ));
        assert(elems.drop_first().len() as int == elems.len() - 1);
    }
}

/// Reading back encoded object pairs yields their canonical forms and the
/// encoder's local table.
proof fn lemma_pairs_roundtrip(
    pairs: Seq<(Seq<char>, JVal)>,
    gt: Seq<Seq<char>>,
    lt: Seq<Seq<char>>,
    seen: Seq<Seq<char>>,
    s: Seq<u8>,
    i: int,
    fuel: nat,
)
    requires
        gt.len() <= 0xFFFF,
        lt.len() <= MAX_TABLE_SIZE,
        enc_pairs(pairs, gt, lt, seen) is Ok,
        0 <= i,
        i + enc_pairs(pairs, gt, lt, seen)->Ok_0.0.len() <= s.len(),
        s.subrange(i, i + enc_pairs(pairs, gt, lt, seen)->Ok_0.0.len()) == enc_pairs(
            pairs,
            gt,
            lt,
            seen,
        )->Ok_0.0,
        fuel >= enc_pairs(pairs, gt, lt, seen)->Ok_0.0.len(),
    ensures
        enc_pairs(pairs, gt, lt, seen)->Ok_0.1.len() <= MAX_TABLE_SIZE,
        dec_entries(s, i, pairs.len() as int, gt, lt, fuel) == Ok::<_, CodecError>(
            (
                canon_pairs(pairs),
                i + enc_pairs(pairs, gt, lt, seen)->Ok_0.0.len(),
                enc_pairs(pairs, gt, lt, seen)->Ok_0.1,
            ),
        ),
    decreases pairs, 1int,
{
    let (b, lt3) = enc_pairs(pairs, gt, lt, seen)->Ok_0;
    if pairs.len() == 0 {
        assert(canon_pairs(pairs) =~= Seq::<(Seq<char>, JVal)>::empty());
    } else {
        let (kb, lt1) = enc_key(pairs[0].0, gt, lt)->Ok_0;
        let (vb, lt2e) = enc_value(pairs[0].1, gt, lt1)->Ok_0;
        let (rb, _l) = enc_pairs(pairs.drop_first(), gt, lt2e, seen + seq![pairs[0].0])->Ok_0;
        assert(b == kb + vb + rb);
        assert(b == (kb + vb) + rb);
        lemma_concat_parts(kb + vb, rb);
        lemma_concat_parts(kb, vb);
        lemma_subrange_embed(s, i, b, 0, (kb + vb).len() as int);
        lemma_subrange_embed(s, i, b, (kb + vb).len() as int, b.len() as int);
        assert(s.subrange(i, i + (kb + vb).len()) == kb + vb);
        lemma_subrange_embed(s, i, kb + vb, 0, kb.len() as int);
        lemma_subrange_embed(s, i, kb + vb, kb.len() as int, (kb + vb).len() as int);
        lemma_enc_key_table(pairs[0].0, gt, lt);
        lemma_key_roundtrip(pairs[0].0, gt, lt, s, i, kb, lt1);
        lemma_value_roundtrip(pairs[0].1, gt, lt1, s, i + kb.len(), fuel);
        lemma_pairs_roundtrip(
            pairs.drop_first(),
            gt,
            lt2e,
            seen + seq![pairs[0].0],
            s,
            i + kb.len() + vb.len(),
            fuel,
        );
        assert(canon_pairs(pairs) == seq![(pairs[0].0, canon_jval(pairs[0].1))] + canon_pairs(
            pairs.drop_first(),
        ));
        assert(pairs.drop_first().len() as int == pairs.len() - 1);
    }
}

/// Encoding a key never grows the local table past its capacity.
proof fn lemma_enc_key_table(k: Seq<char>, gt: Seq<Seq<char>>, lt: Seq<Seq<char>>)
    requires
        lt.len() <= MAX_TABLE_SIZE,
        enc_key(k, gt, lt) is Ok,
    ensures
        enc_key(k, gt, lt)->Ok_0.1.len() <= MAX_TABLE_SIZE,
{
}

/// Both sides of the codec build the same local keys table: after decoding
/// an encoded value, the decoder's local table equals the encoder's, entry
/// by entry.
pub proof fn lemma_keys_table_sync(v: JVal, gt: Seq<Seq<char>>)
    ensures
        (gt.len() <= 0xFFFF && enc_value(v, gt, seq![]) is Ok) ==> ({
            let (b, enc_table) = enc_value(v, gt, seq![])->Ok_0;
            dec_value(b, 0, gt, seq![], (b.len() + 1) as nat) == Ok::<_, CodecError>(
                (canon_jval(v), b.len() as int, enc_table),
            )
        }),
{
    if gt.len() <= 0xFFFF && enc_value(v, gt, seq![]) is Ok {
        let (b, enc_table) = enc_value(v, gt, seq![])->Ok_0;
        assert(b.subrange(0, b.len() as int) =~= b);
        lemma_value_roundtrip(v, gt, seq![], b, 0, (b.len() + 1) as nat);
    }
}

/// Decoding inverts encoding: for every value, global table and compression
/// setting, decoding what `encode` produced yields the value back, float by
/// float in the canonical form the downcast stores. With compression this
/// holds whenever decompression under the decoder's expansion ceiling
/// returns the compressed payload, which the compressor's contract gives for
/// every payload within the ceiling.
#[verifier::rlimit(100)]
#[verifier::spinoff_prover]
pub proof fn lemma_round_trip(v: JVal, gtb: Option<Seq<u8>>, level: Option<i32>)
    ensures
        (spec_encode(v, gtb, None) is Ok) ==> spec_decode(spec_encode(v, gtb, None)->Ok_0, gtb)
            == Ok::<JVal, CodecError>(canon_jval(v)),
        (spec_encode(v, gtb, level) is Ok && level is Some && ({
            let gt = spec_global_table(gtb)->Ok_0;
            let payload = enc_value(v, gt, seq![])->Ok_0.0;
            let c = zstd_compress_of(payload, level->Some_0 as int);
            c.len() <= usize::MAX as int / 50 && zstd_decompress_of(c, (c.len() * 50) as nat)
                == Some(payload)
        })) ==> spec_decode(spec_encode(v, gtb, level)->Ok_0, gtb) == Ok::<JVal, CodecError>(
            canon_jval(v),
        ),
{
    if spec_encode(v, gtb, None) is Ok {
        let gt = spec_global_table(gtb)->Ok_0;
        if gtb is Some {
            crate::keys_table::lemma_parse_table_len(gtb->Some_0);
        }
        let payload = enc_value(v, gt, seq![])->Ok_0.0;
        let b = header_bytes(false) + payload;
        assert(spec_encode(v, gtb, None)->Ok_0 == b);
        lemma_frame_decode(v, gt, gtb, payload, b);
    }
    if spec_encode(v, gtb, level) is Ok && level is Some {
        let gt = spec_global_table(gtb)->Ok_0;
        if gtb is Some {
            crate::keys_table::lemma_parse_table_len(gtb->Some_0);
        }
        let payload = enc_value(v, gt, seq![])->Ok_0.0;
        let l = level->Some_0;
        let c = zstd_compress_of(payload, l as int);
        if c.len() <= usize::MAX as int / 50 && zstd_decompress_of(c, (c.len() * 50) as nat)
            == Some(payload) {
            lemma_frame_decode_compressed(v, gt, gtb, payload, c, header_bytes(true) + c);
            assert(spec_encode(v, gtb, level)->Ok_0 == header_bytes(true) + c);
        }
    }
}

/// Decoding a compressed frame yields the canonical value whenever
/// decompression under the expansion ceiling returns the payload.
proof fn lemma_frame_decode_compressed(
    v: JVal,
    gt: Seq<Seq<char>>,
    gtb: Option<Seq<u8>>,
    payload: Seq<u8>,
    c: Seq<u8>,
    b: Seq<u8>,
)
    requires
        gt.len() <= 0xFFFF,
        spec_global_table(gtb) == Ok::<Seq<Seq<char>>, CodecError>(gt),
        enc_value(v, gt, seq![]) is Ok,
        payload == enc_value(v, gt, seq![])->Ok_0.0,
        b == header_bytes(true) + c,
        c.len() <= usize::MAX as int / 50,
        zstd_decompress_of(c, (c.len() * 50) as nat) == Some(payload),
    ensures
        spec_decode(b, gtb) == Ok::<JVal, CodecError>(canon_jval(v)),
{
    lemma_header_parse(true, c, b);
    assert(b.skip(3) =~= c);
    assert(payload.subrange(0, payload.len() as int) =~= payload);
    lemma_value_roundtrip(v, gt, seq![], payload, 0, (payload.len() + 1) as nat);
}

/// The three-byte header this encoder writes parses back to its bits, with
/// the payload right behind it.
proof fn lemma_header_parse(compressed: bool, payload: Seq<u8>, b: Seq<u8>)
    requires
        b == header_bytes(compressed) + payload,
    ensures
        parse_header(b, 0) == Ok::<_, CodecError>(((CURRENT_VERSION, false, compressed), 3int)),
{
    let h = header_bytes(compressed);
    lemma_concat_parts(h, payload);
    assert(b[0] == (h + payload)[0] && (h + payload)[0] == h[0]);
    assert(b[1] == (h + payload)[1] && (h + payload)[1] == h[1]);
    assert(b[2] == (h + payload)[2] && (h + payload)[2] == h[2]);
    assert(h[0] == MAGIC_0 && h[1] == MAGIC_1);
    assert(h[2] == config_byte(CURRENT_VERSION, false, compressed));
}

/// Decoding an uncompressed frame around an encoded payload yields the
/// canonical value.
proof fn lemma_frame_decode(
    v: JVal,
    gt: Seq<Seq<char>>,
    gtb: Option<Seq<u8>>,
    payload: Seq<u8>,
    b: Seq<u8>,
)
    requires
        gt.len() <= 0xFFFF,
        spec_global_table(gtb) == Ok::<Seq<Seq<char>>, CodecError>(gt),
        enc_value(v, gt, seq![]) is Ok,
        payload == enc_value(v, gt, seq![])->Ok_0.0,
        b == header_bytes(false) + payload,
    ensures
        spec_decode(b, gtb) == Ok::<JVal, CodecError>(canon_jval(v)),
{
    lemma_header_parse(false, payload, b);
    lemma_concat_parts(header_bytes(false), payload);
    assert(b.subrange(3, 3 + payload.len() as int) == payload);
    lemma_value_roundtrip(v, gt, seq![], b, 3, (b.len() - 3 + 1) as nat);
}

/// A key record written as a reference into a global table is caught when
/// the table is missing on the decode side: reading it against an empty
/// global table reports `BadIndex`, never a silent wrong key.
pub proof fn lemma_global_reference_needs_table(
    k: Seq<char>,
    gt: Seq<Seq<char>>,
    lt: Seq<Seq<char>>,
    s: Seq<u8>,
    i: int,
)
    ensures
        (gt.len() <= 0xFFFF && tbl_find(gt, k) is Some && enc_key(k, gt, lt) is Ok && 0 <= i && i
            + enc_key(k, gt, lt)->Ok_0.0.len() <= s.len() && s.subrange(
            i,
            i + enc_key(k, gt, lt)->Ok_0.0.len(),
        ) == enc_key(k, gt, lt)->Ok_0.0) ==> dec_key(s, i, seq![], lt) == Err::<
            (Seq<char>, int, Seq<Seq<char>>),
            CodecError,
        >(CodecError::BadIndex),
{
    if gt.len() <= 0xFFFF && tbl_find(gt, k) is Some && enc_key(k, gt, lt) is Ok && 0 <= i && i
        + enc_key(k, gt, lt)->Ok_0.0.len() <= s.len() && s.subrange(
        i,
        i + enc_key(k, gt, lt)->Ok_0.0.len(),
    ) == enc_key(k, gt, lt)->Ok_0.0 {
        let b = enc_key(k, gt, lt)->Ok_0.0;
        crate::keys_table::lemma_tbl_find(gt, k);
        let gi = tbl_find(gt, k)->Some_0;
        if gi < crate::key_record::TINY_RANGE {
            assert(b == seq![(crate::key_record::GLOBAL_INDEX_TINY_START + gi) as u8]);
            assert(s[i] == s.subrange(i, i + b.len())[0]);
            assert(b[0] == seq![(crate::key_record::GLOBAL_INDEX_TINY_START + gi) as u8][0]);
        } else {
            let vb = crate::key_record::vu16_bytes(gi as u16);
            assert(b == seq![crate::key_record::KEY_MODE_GLOBAL] + vb);
            lemma_concat_parts(seq![crate::key_record::KEY_MODE_GLOBAL], vb);
            assert(s[i] == s.subrange(i, i + b.len())[0]);
            assert(b[0] == (seq![crate::key_record::KEY_MODE_GLOBAL] + vb)[0]);
            lemma_subrange_embed(s, i, b, 1, b.len() as int);
            crate::key_record::lemma_vu16_roundtrip(gi as u16, s, i + 1);
        }
    }
}

/// For a value whose floats are already in the form the downcast stores --
/// positive zeros, or magnitudes outside the single-precision band -- the
/// round trip is exact: decoding what `encode` produced yields the value
/// itself.
pub proof fn lemma_round_trip_exact(v: JVal, gtb: Option<Seq<u8>>)
    ensures
        (crate::json::floats_canonical(v) && spec_encode(v, gtb, None) is Ok) ==> spec_decode(
            spec_encode(v, gtb, None)->Ok_0,
            gtb,
        ) == Ok::<JVal, CodecError>(v),
{
    if crate::json::floats_canonical(v) && spec_encode(v, gtb, None) is Ok {
        lemma_round_trip(v, gtb, None);
        crate::json::lemma_canon_id(v);
    }
}

/// Encoding is deterministic: one input has one byte sequence.
pub proof fn lemma_encode_deterministic(
    v: JVal,
    gtb: Option<Seq<u8>>,
    level: Option<i32>,
    b1: Seq<u8>,
    b2: Seq<u8>,
)
    ensures
        (spec_encode(v, gtb, level) == Ok::<Seq<u8>, CodecError>(b1) && spec_encode(v, gtb, level)
            == Ok::<Seq<u8>, CodecError>(b2)) ==> b1 == b2,
{
}

/// The first tag byte emitted for a value is the narrowest legal one for its
/// category and size.
pub proof fn lemma_tag_minimality(v: JVal, gt: Seq<Seq<char>>, lt: Seq<Seq<char>>)
    ensures
        enc_value(v, gt, lt) is Ok ==> ({
            let b = enc_value(v, gt, lt)->Ok_0.0;
            b.len() > 0 && b[0] == (match v {
                JVal::Null => TAG_NULL,
                JVal::Bool(bo) => if bo {
                    TAG_TRUE
                } else {
                    TAG_FALSE
                },
                JVal::Int(n) => if n == 0 {
                    TAG_INT_ZERO
                } else if 0 < n <= 0xFF {
                    TAG_U8
                } else if 0xFF < n <= 0xFFFF {
                    TAG_U16
                } else if 0xFFFF < n <= 0xFFFFFFFF {
                    TAG_U32
                } else if 0xFFFFFFFF < n {
                    TAG_U64
                } else if -0x80 <= n {
                    TAG_I8
                } else if -0x8000 <= n {
                    TAG_I16
                } else if -0x80000000 <= n {
                    TAG_I32
                } else {
                    TAG_I64
                },
                JVal::Float(bits) => if f64_is_zero(bits) {
                    TAG_FLOAT_ZERO
                } else if f64_in_f32_band(bits) {
                    TAG_F32
                } else {
                    TAG_F64
                },
                JVal::Str(cs) => if encode_utf8(cs).len() == 0 {
                    TAG_EMPTY_STRING
                } else if encode_utf8(cs).len() <= 0xFF {
                    TAG_SMALL_STRING
                } else if encode_utf8(cs).len() <= 0xFFFF {
                    TAG_BIG_STRING
                } else {
                    TAG_LONG_STRING
                },
                JVal::Arr(elems) => if elems.len() == 0 {
                    TAG_EMPTY_ARRAY
                } else if elems.len() <= 0xFF {
                    TAG_SMALL_ARRAY
                } else if elems.len() <= 0xFFFF {
                    TAG_BIG_ARRAY
                } else {
                    TAG_LONG_ARRAY
                },
                JVal::Obj(pairs) => if pairs.len() == 0 {
                    TAG_EMPTY_OBJECT
                } else if pairs.len() <= 0xFF {
                    TAG_SMALL_OBJECT
                } else if pairs.len() <= 0xFFFF {
                    TAG_BIG_OBJECT
                } else {
                    TAG_LONG_OBJECT
                },
            })
        }),
{
    if enc_value(v, gt, lt) is Ok {
        let b = enc_value(v, gt, lt)->Ok_0.0;
        match v {
            JVal::Null => {
                assert(b[0] == seq![TAG_NULL][0]);
            },
            JVal::Bool(bo) => {
                assert(b[0] == seq![
                    if bo {
                        TAG_TRUE
                    } else {
                        TAG_FALSE
                    },
                ][0]);
            },
            JVal::Int(n) => {
                lemma_enc_int_head(n);
            },
            JVal::Float(bits) => {
                if f64_is_zero(bits) {
                    assert(b[0] == seq![TAG_FLOAT_ZERO][0]);
                } else if f64_in_f32_band(bits) {
                    assert(b[0] == (seq![TAG_F32] + le4_bytes(narrow_f64_bits(bits)))[0]);
                } else {
                    assert(b[0] == (seq![TAG_F64] + le8_bytes(bits))[0]);
                }
            },
            JVal::Str(cs) => {
                lemma_tag_and_size_head(encode_utf8(cs).len() as int, string_tags());
                let h = tag_and_size(encode_utf8(cs).len() as int, string_tags())->Ok_0;
                assert(b[0] == (h + encode_utf8(cs))[0]);
            },
            JVal::Arr(elems) => {
                lemma_tag_and_size_head(elems.len() as int, array_tags());
                let h = tag_and_size(elems.len() as int, array_tags())->Ok_0;
                assert(b[0] == (h + enc_elems(elems, gt, lt)->Ok_0.0)[0]);
            },
            JVal::Obj(pairs) => {
                lemma_tag_and_size_head(pairs.len() as int, object_tags());
                let h = tag_and_size(pairs.len() as int, object_tags())->Ok_0;
                assert(b[0] == (h + enc_pairs(pairs, gt, lt, seq![])->Ok_0.0)[0]);
            },
        }
    }
}

/// The head of a size-classed encoding starts with the class's tag.
proof fn lemma_tag_and_size_head(size: int, chars: (u8, u8, u8, u8))
    requires
        tag_and_size(size, chars) is Ok,
        size >= 0,
    ensures
        ({
            let h = tag_and_size(size, chars)->Ok_0;
            h.len() > 0 && h[0] == (if size == 0 {
                chars.0
            } else if size <= 0xFF {
                chars.1
            } else if size <= 0xFFFF {
                chars.2
            } else {
                chars.3
            })
        }),
{
    let h = tag_and_size(size, chars)->Ok_0;
    if size == 0 {
        assert(h[0] == seq![chars.0][0]);
    } else if size <= 0xFF {
        assert(h[0] == seq![chars.1, size as u8][0]);
    } else if size <= 0xFFFF {
        assert(h[0] == (seq![chars.2] + le2_bytes(size as u16))[0]);
    } else {
        assert(h[0] == (seq![chars.3] + le4_bytes(size as u32))[0]);
    }
}

/// The head of an encoded integer is its class tag.
proof fn lemma_enc_int_head(n: int)
    ensures
        enc_int(n).len() > 0 && enc_int(n)[0] == (if n == 0 {
            TAG_INT_ZERO
        } else if 0 < n <= 0xFF {
            TAG_U8
        } else if 0xFF < n <= 0xFFFF {
            TAG_U16
        } else if 0xFFFF < n <= 0xFFFFFFFF {
            TAG_U32
        } else if 0xFFFFFFFF < n {
            TAG_U64
        } else if -0x80 <= n {
            TAG_I8
        } else if -0x8000 <= n {
            TAG_I16
        } else if -0x80000000 <= n {
            TAG_I32
        } else {
            TAG_I64
        }),
{
    let b = enc_int(n);
    if n == 0 {
        assert(b[0] == seq![TAG_INT_ZERO][0]);
    } else if 0 < n <= 0xFF {
        assert(b[0] == seq![TAG_U8, n as u8][0]);
    } else if 0xFF < n <= 0xFFFF {
        assert(b[0] == (seq![TAG_U16] + le2_bytes(n as u16))[0]);
    } else if 0xFFFF < n <= 0xFFFFFFFF {
        assert(b[0] == (seq![TAG_U32] + le4_bytes(n as u32))[0]);
    } else if 0xFFFFFFFF < n {
        assert(b[0] == (seq![TAG_U64] + le8_bytes(n as u64))[0]);
    } else if -0x80 <= n {
        assert(b[0] == seq![TAG_I8, u8_of_i8(n as i8)][0]);
    } else if -0x8000 <= n {
        assert(b[0] == (seq![TAG_I16] + le2_bytes(u16_of_i16(n as i16)))[0]);
    } else if -0x80000000 <= n {
        assert(b[0] == (seq![TAG_I32] + le4_bytes(u32_of_i32(n as i32)))[0]);
    } else {
        assert(b[0] == (seq![TAG_I64] + le8_bytes(u64_of_i64(n as i64)))[0]);
    }
}

} // verus!
