//! The value codec: each JSON value becomes one type-tag byte and a
//! tag-specific payload, written and read recursively.

use vstd::prelude::*;
use vstd::string::StringSliceAdditionalSpecFns;
use vstd::utf8::{decode_utf8, encode_utf8, valid_utf8};
use crate::byte_stream::ByteStream;
use crate::data_type::{dec_size, spec_category, spec_size_width, tag_and_size};
use crate::data_type::{DataType, DataTypeCategory};
use crate::data_type::{TAG_EMPTY_ARRAY, TAG_SMALL_ARRAY, TAG_BIG_ARRAY, TAG_LONG_ARRAY};
use crate::data_type::{TAG_EMPTY_OBJECT, TAG_SMALL_OBJECT, TAG_BIG_OBJECT, TAG_LONG_OBJECT};
use crate::data_type::{TAG_EMPTY_STRING, TAG_SMALL_STRING, TAG_BIG_STRING, TAG_LONG_STRING};
use crate::data_type::{TAG_FALSE, TAG_FLOAT_ZERO, TAG_F32, TAG_F64, TAG_INT_ZERO, TAG_NULL};
use crate::data_type::{TAG_I16, TAG_I32, TAG_I64, TAG_I8, TAG_TRUE, TAG_U16, TAG_U32};
use crate::data_type::{TAG_U64, TAG_U8};
use crate::errors::CodecError;
use crate::floats::{f32_is_finite, f64_in_f32_band, f64_is_finite, f64_is_zero};
use crate::floats::{narrow_f64_bits, widen_f32_bits};
use crate::json::{JVal, JsonValue};
use crate::key_record::{dec_key, enc_key};
use crate::keys_table::{tbl_find, KeysTables, MAX_TABLE_SIZE};
use crate::le::{le2_bytes, le2_val, le4_bytes, le4_val, le8_bytes, le8_val};
use crate::le::{i16_of_u16, i32_of_u32, i64_of_u64, i8_of_u8};
use crate::le::{u16_of_i16, u32_of_i32, u64_of_i64, u8_of_i8};

verus! {

/// The tag alphabet of objects, by size class.
pub open spec fn object_tags() -> (u8, u8, u8, u8) {
    (TAG_EMPTY_OBJECT, TAG_SMALL_OBJECT, TAG_BIG_OBJECT, TAG_LONG_OBJECT)
}

/// The tag alphabet of arrays, by size class.
pub open spec fn array_tags() -> (u8, u8, u8, u8) {
    (TAG_EMPTY_ARRAY, TAG_SMALL_ARRAY, TAG_BIG_ARRAY, TAG_LONG_ARRAY)
}

/// The tag alphabet of strings, by size class.
pub open spec fn string_tags() -> (u8, u8, u8, u8) {
    (TAG_EMPTY_STRING, TAG_SMALL_STRING, TAG_BIG_STRING, TAG_LONG_STRING)
}

/// The encoding of an integer: the zero tag, or the narrowest unsigned class
/// for a positive value, or the narrowest signed class for a negative one.
pub open spec fn enc_int(n: int) -> Seq<u8> {
    if n == 0 {
        seq![TAG_INT_ZERO]
    } else if 0 < n <= 0xFF {
        seq![TAG_U8, n as u8]
    } else if 0xFF < n <= 0xFFFF {
        seq![TAG_U16] + le2_bytes(n as u16)
    } else if 0xFFFF < n <= 0xFFFFFFFF {
        seq![TAG_U32] + le4_bytes(n as u32)
    } else if 0xFFFFFFFF < n {
        seq![TAG_U64] + le8_bytes(n as u64)
    } else if -0x80 <= n < 0 {
        seq![TAG_I8, u8_of_i8(n as i8)]
    } else if -0x8000 <= n < -0x80 {
        seq![TAG_I16] + le2_bytes(u16_of_i16(n as i16))
    } else if -0x80000000 <= n < -0x8000 {
        seq![TAG_I32] + le4_bytes(u32_of_i32(n as i32))
    } else {
        seq![TAG_I64] + le8_bytes(u64_of_i64(n as i64))
    }
}

/// The encoding of a finite double: the zero tag for zeros of both signs, a
/// single for the band held losslessly there, else the full double.
pub open spec fn enc_float(bits: u64) -> Result<Seq<u8>, CodecError> {
    if !f64_is_finite(bits) {
        Err(CodecError::NonFiniteNumber)
    } else if f64_is_zero(bits) {
        Ok(seq![TAG_FLOAT_ZERO])
    } else if f64_in_f32_band(bits) {
        Ok(seq![TAG_F32] + le4_bytes(narrow_f64_bits(bits)))
    } else {
        Ok(seq![TAG_F64] + le8_bytes(bits))
    }
}

/// The encoding of one value against the given tables: the bytes emitted and
/// the local table afterwards, or the first error the encoder reports.
pub open spec fn enc_value(v: JVal, gt: Seq<Seq<char>>, lt: Seq<Seq<char>>) -> Result<
    (Seq<u8>, Seq<Seq<char>>),
    CodecError,
>
    decreases v, 0int,
{
    match v {
        JVal::Null => Ok((seq![TAG_NULL], lt)),
        JVal::Bool(b) => Ok(
            (
                seq![
                    if b {
                        TAG_TRUE
                    } else {
                        TAG_FALSE
                    },
                ],
                lt,
            ),
        ),
        JVal::Int(n) => {
            if -0x8000000000000000 <= n < 0x10000000000000000 {
                Ok((enc_int(n), lt))
            } else {
                Err(CodecError::SizeTooBig)
            }
        },
        JVal::Float(bits) => match enc_float(bits) {
            Ok(b) => Ok((b, lt)),
            Err(e) => Err(e),
        },
        JVal::Str(s) => {
            let sb = encode_utf8(s);
            match tag_and_size(sb.len() as int, string_tags()) {
                Ok(h) => Ok((h + sb, lt)),
                Err(e) => Err(e),
            }
        },
        JVal::Arr(elems) => match tag_and_size(elems.len() as int, array_tags()) {
            Ok(h) => match enc_elems(elems, gt, lt) {
                Ok((b, lt2)) => Ok((h + b, lt2)),
                Err(e) => Err(e),
            },
            Err(e) => Err(e),
        },
        JVal::Obj(pairs) => match tag_and_size(pairs.len() as int, object_tags()) {
            Ok(h) => match enc_pairs(pairs, gt, lt, seq![]) {
                Ok((b, lt2)) => Ok((h + b, lt2)),
                Err(e) => Err(e),
            },
            Err(e) => Err(e),
        },
    }
}

/// The encoding of an array's elements, threading the local table.
pub open spec fn enc_elems(elems: Seq<JVal>, gt: Seq<Seq<char>>, lt: Seq<Seq<char>>) -> Result<
    (Seq<u8>, Seq<Seq<char>>),
    CodecError,
>
    decreases elems, 1int,
{
    if elems.len() == 0 {
        Ok((seq![], lt))
    } else {
        match enc_value(elems[0], gt, lt) {
            Ok((b0, lt1)) => match enc_elems(elems.drop_first(), gt, lt1) {
                Ok((b1, lt2)) => Ok((b0 + b1, lt2)),
                Err(e) => Err(e),
            },
            Err(e) => Err(e),
        }
    }
}

/// The encoding of an object's pairs, threading the local table; `seen` holds
/// the keys already written for this object, and a key met again among them
/// is rejected.
pub open spec fn enc_pairs(
    pairs: Seq<(Seq<char>, JVal)>,
    gt: Seq<Seq<char>>,
    lt: Seq<Seq<char>>,
    seen: Seq<Seq<char>>,
) -> Result<(Seq<u8>, Seq<Seq<char>>), CodecError>
    decreases pairs, 1int,
{
    if pairs.len() == 0 {
        Ok((seq![], lt))
    } else if tbl_find(seen, pairs[0].0) is Some {
        Err(CodecError::DuplicateKey)
    } else {
        match enc_key(pairs[0].0, gt, lt) {
            Ok((kb, lt1)) => match enc_value(pairs[0].1, gt, lt1) {
                Ok((vb, lt2)) => match enc_pairs(
                    pairs.drop_first(),
                    gt,
                    lt2,
                    seen + seq![pairs[0].0],
                ) {
                    Ok((rb, lt3)) => Ok((kb + vb + rb, lt3)),
                    Err(e) => Err(e),
                },
                Err(e) => Err(e),
            },
            Err(e) => Err(e),
        }
    }
}

/// Writes a non-negative integer under the narrowest unsigned tag.
fn write_uint(n: u64, bytes: &mut ByteStream)
    requires
        old(bytes).wf(),
        old(bytes).at_end(),
        n > 0,
    ensures
        final(bytes).at_end(),
        final(bytes).data() == old(bytes).data() + enc_int(n as int),
    {
    if n <= 0xFF {
        bytes.write_u8(TAG_U8);
        bytes.write_u8(n as u8);
        proof {
            assert(final(bytes).data() =~= old(bytes).data() + enc_int(n as int));
        }
    } else if n <= 0xFFFF {
        bytes.write_u8(TAG_U16);
        bytes.write_u16(n as u16);
        proof {
            assert(final(bytes).data() =~= old(bytes).data() + enc_int(n as int));
        }
    } else if n <= 0xFFFFFFFF {
        bytes.write_u8(TAG_U32);
        bytes.write_u32(n as u32);
        proof {
            assert(final(bytes).data() =~= old(bytes).data() + enc_int(n as int));
        }
    } else {
        bytes.write_u8(TAG_U64);
        bytes.write_u64(n);
        proof {
            assert(final(bytes).data() =~= old(bytes).data() + enc_int(n as int));
        }
    }
}

/// Writes an integer under the zero tag or the narrowest fitting class,
/// unsigned for non-negative values.
fn write_int(n: i64, bytes: &mut ByteStream)
    requires
        old(bytes).wf(),
        old(bytes).at_end(),
    ensures
        final(bytes).at_end(),
        final(bytes).data() == old(bytes).data() + enc_int(n as int),
    {
    if n == 0 {
        bytes.write_u8(TAG_INT_ZERO);
        proof {
            assert(final(bytes).data() =~= old(bytes).data() + enc_int(n as int));
        }
    } else if n > 0 {
        write_uint(n as u64, bytes);
    } else if n >= -0x80 {
        bytes.write_u8(TAG_I8);
        bytes.write_i8(n as i8);
        proof {
            assert(final(bytes).data() =~= old(bytes).data() + enc_int(n as int));
        }
    } else if n >= -0x8000 {
        bytes.write_u8(TAG_I16);
        bytes.write_i16(n as i16);
        proof {
            assert(final(bytes).data() =~= old(bytes).data() + enc_int(n as int));
        }
    } else if n >= -0x80000000 {
        bytes.write_u8(TAG_I32);
        bytes.write_i32(n as i32);
        proof {
            assert(final(bytes).data() =~= old(bytes).data() + enc_int(n as int));
        }
    } else {
        bytes.write_u8(TAG_I64);
        bytes.write_i64(n);
        proof {
            assert(final(bytes).data() =~= old(bytes).data() + enc_int(n as int));
        }
    }
}

/// Writes a string payload: its UTF-8 bytes, with no tag or size field.
pub fn write_string(string: &String, bytes: &mut ByteStream)
    requires
        old(bytes).wf(),
        old(bytes).at_end(),
    ensures
        final(bytes).at_end(),
        final(bytes).data() == old(bytes).data() + encode_utf8(string@),
{
    bytes.write_string(string.as_str());
}


/// Writes a finite double: the zero tag, a narrowed single, or the full bits;
/// a NaN or infinity is rejected.
fn write_float(bits: u64, bytes: &mut ByteStream) -> (r: Result<(), CodecError>)
    requires
        old(bytes).wf(),
        old(bytes).at_end(),
    ensures
        final(bytes).at_end(),
        match r {
            Ok(()) => (match enc_float(bits) {
                Ok(b) => final(bytes).data() == old(bytes).data() + b,
                Err(_) => false,
            }),
            Err(e) => enc_float(bits) == Err::<Seq<u8>, _>(e) && final(bytes).data() == old(
                bytes,
            ).data(),
        },
{
    let flags = crate::floats::classify_f64_bits(bits);
    if !flags.0 {
        Err(CodecError::NonFiniteNumber)
    } else if flags.1 {
        bytes.write_u8(TAG_FLOAT_ZERO);
        proof {
            assert(final(bytes).data() =~= old(bytes).data() + seq![TAG_FLOAT_ZERO]);
        }
        Ok(())
    } else if flags.2 {
        let fb = crate::floats::f64_bits_to_f32_bits(bits);
        bytes.write_u8(TAG_F32);
        bytes.write_u32(fb);
        proof {
            assert(final(bytes).data() =~= old(bytes).data() + (seq![TAG_F32] + le4_bytes(
                narrow_f64_bits(bits),
            )));
        }
        Ok(())
    } else {
        bytes.write_u8(TAG_F64);
        bytes.write_u64(bits);
        proof {
            assert(final(bytes).data() =~= old(bytes).data() + (seq![TAG_F64] + le8_bytes(bits)));
        }
        Ok(())
    }
}

/// Writes a string value: its size-classed tag, then its UTF-8 bytes.
fn write_str_value(s: &String, bytes: &mut ByteStream) -> (r: Result<(), CodecError>)
    requires
        old(bytes).wf(),
        old(bytes).at_end(),
    ensures
        final(bytes).at_end(),
        match r {
            Ok(()) => (match tag_and_size(encode_utf8(s@).len() as int, string_tags()) {
                Ok(h) => final(bytes).data() == old(bytes).data() + (h + encode_utf8(s@)),
                Err(_) => false,
            }),
            Err(e) => tag_and_size(encode_utf8(s@).len() as int, string_tags()) == Err::<
                Seq<u8>,
                _,
            >(e),
        },
{
    let sb = crate::text::str_to_bytes(s.as_str());
    let head = DataType::write_char_and_size_class(
        sb.len(),
        &[TAG_EMPTY_STRING, TAG_SMALL_STRING, TAG_BIG_STRING, TAG_LONG_STRING],
        bytes,
    );
    match head {
        Ok(()) => {
            bytes.write(sb.as_slice());
            proof {
                let hres = tag_and_size(encode_utf8(s@).len() as int, string_tags());
                let h = hres->Ok_0;
                assert(final(bytes).data() =~= old(bytes).data() + (h + encode_utf8(s@)));
            }
            Ok(())
        },
        Err(e) => Err(e),
    }
}

/// Writes one value: its type tag, any size field, and its payload, with keys
/// going through the keys tables.
#[verifier::rlimit(100)]
pub fn write_value(value: &JsonValue, bytes: &mut ByteStream, keys_table: &mut KeysTables) -> (r:
    Result<(), CodecError>)
    requires
        old(bytes).wf(),
        old(bytes).at_end(),
        old(keys_table).global().len() <= 0xFFFF,
        old(keys_table).local().len() <= MAX_TABLE_SIZE,
    ensures
        final(bytes).at_end(),
        final(keys_table).global() == old(keys_table).global(),
        final(keys_table).local().len() <= MAX_TABLE_SIZE,
        match r {
            Ok(()) => (match enc_value(
                value@,
                old(keys_table).global(),
                old(keys_table).local(),
            ) {
                Ok((b, lt2)) => final(bytes).data() == old(bytes).data() + b
                    && final(keys_table).local() == lt2,
                Err(_) => false,
            }),
            Err(e) => enc_value(value@, old(keys_table).global(), old(keys_table).local())
                == Err::<(Seq<u8>, Seq<Seq<char>>), _>(e),
        },
    decreases value, 0int,
{
    match value {
        JsonValue::Null => {
            bytes.write_u8(TAG_NULL);
            proof {
                assert(final(bytes).data() =~= old(bytes).data() + seq![TAG_NULL]);
            }
            Ok(())
        },
        JsonValue::Bool(b) => {
            if *b {
                bytes.write_u8(TAG_TRUE);
            } else {
                bytes.write_u8(TAG_FALSE);
            }
            proof {
                assert(final(bytes).data() =~= old(bytes).data() + seq![
                    if *b {
                        TAG_TRUE
                    } else {
                        TAG_FALSE
                    },
                ]);
            }
            Ok(())
        },
        JsonValue::Int(n) => {
            write_int(*n, bytes);
            Ok(())
        },
        JsonValue::UInt(n) => {
            if *n == 0 {
                bytes.write_u8(TAG_INT_ZERO);
                proof {
                    assert(final(bytes).data() =~= old(bytes).data() + enc_int(*n as int));
                }
            } else {
                write_uint(*n, bytes);
            }
            Ok(())
        },
        JsonValue::Float(bits) => write_float(*bits, bytes),
        JsonValue::Str(s) => write_str_value(s, bytes),
        JsonValue::Array(elems) => {
            let head = DataType::write_char_and_size_class(
                elems.len(),
                &[TAG_EMPTY_ARRAY, TAG_SMALL_ARRAY, TAG_BIG_ARRAY, TAG_LONG_ARRAY],
                bytes,
            );
            proof {
                crate::json::lemma_view_elems(elems@);
            }
            match head {
                Ok(()) => {
                    let ghost hb = (match tag_and_size(
                        crate::json::view_elems(elems@).len() as int,
                        array_tags(),
                    ) {
                        Ok(h) => h,
                        Err(_) => Seq::<u8>::empty(),
                    });
                    let r = write_array(elems, bytes, keys_table);
                    proof {
                        if r is Ok {
                            let eres = enc_elems(
                                crate::json::view_elems(elems@),
                                old(keys_table).global(),
                                old(keys_table).local(),
                            );
                            if eres is Ok {
                                let (eb, lt2) = eres->Ok_0;
                                assert(final(bytes).data() =~= old(bytes).data() + (hb + eb));
                            }
                        }
                    }
                    r
                },
                Err(e) => Err(e),
            }
        },
        JsonValue::Object(pairs) => {
            let head = DataType::write_char_and_size_class(
                pairs.len(),
                &[TAG_EMPTY_OBJECT, TAG_SMALL_OBJECT, TAG_BIG_OBJECT, TAG_LONG_OBJECT],
                bytes,
            );
            proof {
                crate::json::lemma_view_pairs(pairs@);
            }
            match head {
                Ok(()) => {
                    let ghost hb = (match tag_and_size(
                        crate::json::view_pairs(pairs@).len() as int,
                        object_tags(),
                    ) {
                        Ok(h) => h,
                        Err(_) => Seq::<u8>::empty(),
                    });
                    let r = write_object(pairs, bytes, keys_table);
                    proof {
                        if r is Ok {
                            let eres = enc_pairs(
                                crate::json::view_pairs(pairs@),
                                old(keys_table).global(),
                                old(keys_table).local(),
                                seq![],
                            );
                            if eres is Ok {
                                let (eb, lt2) = eres->Ok_0;
                                assert(final(bytes).data() =~= old(bytes).data() + (hb + eb));
                            }
                        }
                    }
                    r
                },
                Err(e) => Err(e),
            }
        },
    }
}

/// Writes an array's elements in order, with no tag or size field.
#[verifier::loop_isolation(false)]
pub fn write_array(array: &Vec<JsonValue>, bytes: &mut ByteStream, keys_table: &mut KeysTables)
    -> (r: Result<(), CodecError>)
    requires
        old(bytes).wf(),
        old(bytes).at_end(),
        old(keys_table).global().len() <= 0xFFFF,
        old(keys_table).local().len() <= MAX_TABLE_SIZE,
    ensures
        final(bytes).at_end(),
        final(keys_table).global() == old(keys_table).global(),
        final(keys_table).local().len() <= MAX_TABLE_SIZE,
        match r {
            Ok(()) => (match enc_elems(
                crate::json::view_elems(array@),
                old(keys_table).global(),
                old(keys_table).local(),
            ) {
                Ok((b, lt2)) => final(bytes).data() == old(bytes).data() + b
                    && final(keys_table).local() == lt2,
                Err(_) => false,
            }),
            Err(e) => enc_elems(
                crate::json::view_elems(array@),
                old(keys_table).global(),
                old(keys_table).local(),
            ) == Err::<(Seq<u8>, Seq<Seq<char>>), _>(e),
        },
    decreases array, 1int,
{
    let ghost vs = crate::json::view_elems(array@);
    let ghost lt0 = keys_table.local();
    let ghost g = keys_table.global();
    let ghost start = bytes.data().len() as int;
    proof {
        crate::json::lemma_view_elems(array@);
        assert(vs.skip(0) =~= vs);
        assert(bytes.data().skip(start) =~= Seq::<u8>::empty());
    }
    let n = array.len();
    let mut i: usize = 0;
    while i < n
        invariant
            n == array@.len(),
            i <= n,
            bytes.wf(),
            bytes.at_end(),
            keys_table.global() == g,
            keys_table.local().len() <= MAX_TABLE_SIZE,
            start <= bytes.data().len(),
            bytes.data().take(start) == old(bytes).data(),
            enc_elems(vs, g, lt0) == (match enc_elems(
                vs.skip(i as int),
                g,
                keys_table.local(),
            ) {
                Ok((b, l2)) => Ok::<_, CodecError>((bytes.data().skip(start) + b, l2)),
                Err(e) => Err::<(Seq<u8>, Seq<Seq<char>>), _>(e),
            }),
        decreases n - i,
    {
        let ghost lt_cur = keys_table.local();
        let ghost acc = bytes.data().skip(start);
        let r = write_value(&array[i], bytes, keys_table);
        proof {
            assert(vs.skip(i as int)[0] == vs[i as int]);
            assert(vs[i as int] == array@[i as int]@);
            assert(vs.skip(i as int).drop_first() =~= vs.skip(i + 1));
        }
        match r {
            Ok(()) => {},
            Err(e) => {
                return Err(e);
            },
        }
        i = i + 1;
        proof {
            assert(bytes.data().take(start) =~= old(bytes).data());
            let vres = enc_value(vs[i - 1], g, lt_cur);
            assert(vres is Ok);
            let (vb, lt1) = vres->Ok_0;
            assert(bytes.data().skip(start) =~= acc + vb);
            let rres = enc_elems(vs.skip(i as int), g, keys_table.local());
            if rres is Ok {
                let (rb, l2) = rres->Ok_0;
                assert(acc + (vb + rb) =~= (acc + vb) + rb);
            }
        }
    }
    proof {
        assert(vs.skip(n as int) =~= Seq::<JVal>::empty());
        let fres = enc_elems(vs.skip(n as int), g, keys_table.local());
        assert(fres == Ok::<_, CodecError>((Seq::<u8>::empty(), keys_table.local())));
        assert(bytes.data().skip(start) + Seq::<u8>::empty() =~= bytes.data().skip(start));
        assert(bytes.data() =~= old(bytes).data() + bytes.data().skip(start));
    }
    Ok(())
}

/// Writes an object's pairs in order: each key record, then its value, with
/// no tag or size field; a key met twice in one object is rejected.
#[verifier::loop_isolation(false)]
#[verifier::rlimit(100)]
pub fn write_object(
    object: &Vec<(String, JsonValue)>,
    bytes: &mut ByteStream,
    keys_table: &mut KeysTables,
) -> (r: Result<(), CodecError>)
    requires
        old(bytes).wf(),
        old(bytes).at_end(),
        old(keys_table).global().len() <= 0xFFFF,
        old(keys_table).local().len() <= MAX_TABLE_SIZE,
    ensures
        final(bytes).at_end(),
        final(keys_table).global() == old(keys_table).global(),
        final(keys_table).local().len() <= MAX_TABLE_SIZE,
        match r {
            Ok(()) => (match enc_pairs(
                crate::json::view_pairs(object@),
                old(keys_table).global(),
                old(keys_table).local(),
                seq![],
            ) {
                Ok((b, lt2)) => final(bytes).data() == old(bytes).data() + b
                    && final(keys_table).local() == lt2,
                Err(_) => false,
            }),
            Err(e) => enc_pairs(
                crate::json::view_pairs(object@),
                old(keys_table).global(),
                old(keys_table).local(),
                seq![],
            ) == Err::<(Seq<u8>, Seq<Seq<char>>), _>(e),
        },
    decreases object, 1int,
{
    let ghost ps = crate::json::view_pairs(object@);
    let ghost lt0 = keys_table.local();
    let ghost g = keys_table.global();
    let ghost start = bytes.data().len() as int;
    proof {
        crate::json::lemma_view_pairs(object@);
        assert(ps.skip(0) =~= ps);
        assert(bytes.data().skip(start) =~= Seq::<u8>::empty());
        assert(Seq::new(0nat, |m: int| object@[m].0@) =~= Seq::<Seq<char>>::empty());
    }
    let n = object.len();
    let mut j: usize = 0;
    while j < n
        invariant
            n == object@.len(),
            j <= n,
            bytes.wf(),
            bytes.at_end(),
            keys_table.global() == g,
            keys_table.local().len() <= MAX_TABLE_SIZE,
            start <= bytes.data().len(),
            bytes.data().take(start) == old(bytes).data(),
            enc_pairs(ps, g, lt0, seq![]) == (match enc_pairs(
                ps.skip(j as int),
                g,
                keys_table.local(),
                Seq::new(j as nat, |m: int| object@[m].0@),
            ) {
                Ok((b, l2)) => Ok::<_, CodecError>((bytes.data().skip(start) + b, l2)),
                Err(e) => Err::<(Seq<u8>, Seq<Seq<char>>), _>(e),
            }),
        decreases n - j,
    {
        let ghost seen = Seq::new(j as nat, |m: int| object@[m].0@);
        proof {
            assert(ps.skip(j as int)[0] == ps[j as int]);
            assert(ps[j as int] == (object@[j as int].0@, object@[j as int].1@));
            assert(ps.skip(j as int).drop_first() =~= ps.skip(j + 1));
            crate::keys_table::lemma_tbl_find(seen, object@[j as int].0@);
        }
        let mut jj: usize = 0;
        while jj < j
            invariant
                jj <= j < n,
                n == object@.len(),
                seen == Seq::new(j as nat, |m: int| object@[m].0@),
                forall|m: int| 0 <= m < jj ==> seen[m] != object@[j as int].0@,
            decreases j - jj,
        {
            let earlier = &object[jj].0;
            let this = &object[j].0;
            if *earlier == *this {
                proof {
                    assert(seen[jj as int] == object@[jj as int].0@);
                    crate::keys_table::lemma_tbl_find(seen, object@[j as int].0@);
                }
                return Err(CodecError::DuplicateKey);
            }
            proof {
                assert(seen[jj as int] == object@[jj as int].0@);
            }
            jj = jj + 1;
        }
        proof {
            crate::keys_table::lemma_tbl_find(seen, object@[j as int].0@);
            if tbl_find(seen, object@[j as int].0@) is Some {
                let ix = tbl_find(seen, object@[j as int].0@)->Some_0;
                assert(seen[ix] != object@[j as int].0@);
            }
        }
        let ghost lt_cur = keys_table.local();
        let ghost acc = bytes.data().skip(start);
        let kr = crate::key_record::write_key(object[j].0.clone(), bytes, keys_table);
        match kr {
            Ok(()) => {},
            Err(e) => {
                return Err(e);
            },
        }
        let ghost lt1 = keys_table.local();
        let vr = write_value(&object[j].1, bytes, keys_table);
        match vr {
            Ok(()) => {},
            Err(e) => {
                return Err(e);
            },
        }
        j = j + 1;
        proof {
            assert(bytes.data().take(start) =~= old(bytes).data());
            let kres = enc_key(ps[j - 1].0, g, lt_cur);
            assert(kres is Ok);
            let (kb, _ignored) = kres->Ok_0;
            let vres = enc_value(ps[j - 1].1, g, lt1);
            assert(vres is Ok);
            let (vb, lt2) = vres->Ok_0;
            assert(bytes.data().skip(start) =~= acc + kb + vb);
            assert(Seq::new(j as nat, |m: int| object@[m].0@) =~= Seq::new(
                (j - 1) as nat,
                |m: int| object@[m].0@,
            ) + seq![ps[j - 1].0]);
            let rres = enc_pairs(
                ps.skip(j as int),
                g,
                keys_table.local(),
                Seq::new(j as nat, |m: int| object@[m].0@),
            );
            if rres is Ok {
                let (rb, l3) = rres->Ok_0;
                assert(acc + (kb + vb + rb) =~= ((acc + kb) + vb) + rb);
            }
        }
    }
    proof {
        assert(ps.skip(n as int) =~= Seq::<(Seq<char>, JVal)>::empty());
        let fres = enc_pairs(
            ps.skip(n as int),
            g,
            keys_table.local(),
            Seq::new(n as nat, |m: int| object@[m].0@),
        );
        assert(fres == Ok::<_, CodecError>((Seq::<u8>::empty(), keys_table.local())));
        assert(bytes.data().skip(start) + Seq::<u8>::empty() =~= bytes.data().skip(start));
        assert(bytes.data() =~= old(bytes).data() + bytes.data().skip(start));
    }
    Ok(())
}

/// Reading an integer payload for the given tag at `i`.
pub open spec fn dec_int(s: Seq<u8>, i: int, tag: u8) -> Result<(int, int), CodecError> {
    if tag == TAG_INT_ZERO {
        Ok((0, i))
    } else if tag == TAG_U8 {
        if i + 1 > s.len() {
            Err(CodecError::ShortRead)
        } else {
            Ok((s[i] as int, i + 1))
        }
    } else if tag == TAG_I8 {
        if i + 1 > s.len() {
            Err(CodecError::ShortRead)
        } else {
            Ok((i8_of_u8(s[i]) as int, i + 1))
        }
    } else if tag == TAG_U16 {
        if i + 2 > s.len() {
            Err(CodecError::ShortRead)
        } else {
            Ok((le2_val(s.subrange(i, i + 2)) as int, i + 2))
        }
    } else if tag == TAG_I16 {
        if i + 2 > s.len() {
            Err(CodecError::ShortRead)
        } else {
            Ok((i16_of_u16(le2_val(s.subrange(i, i + 2))) as int, i + 2))
        }
    } else if tag == TAG_U32 {
        if i + 4 > s.len() {
            Err(CodecError::ShortRead)
        } else {
            Ok((le4_val(s.subrange(i, i + 4)) as int, i + 4))
        }
    } else if tag == TAG_I32 {
        if i + 4 > s.len() {
            Err(CodecError::ShortRead)
        } else {
            Ok((i32_of_u32(le4_val(s.subrange(i, i + 4))) as int, i + 4))
        }
    } else if tag == TAG_U64 {
        if i + 8 > s.len() {
            Err(CodecError::ShortRead)
        } else {
            Ok((le8_val(s.subrange(i, i + 8)) as int, i + 8))
        }
    } else {
        if i + 8 > s.len() {
            Err(CodecError::ShortRead)
        } else {
            Ok((i64_of_u64(le8_val(s.subrange(i, i + 8))) as int, i + 8))
        }
    }
}

/// Reading a float payload for the given tag at `i`: a non-finite payload is
/// rejected.
pub open spec fn dec_float(s: Seq<u8>, i: int, tag: u8) -> Result<(u64, int), CodecError> {
    if tag == TAG_FLOAT_ZERO {
        Ok((0, i))
    } else if tag == TAG_F32 {
        if i + 4 > s.len() {
            Err(CodecError::ShortRead)
        } else {
            let fb = le4_val(s.subrange(i, i + 4));
            if !f32_is_finite(fb) {
                Err(CodecError::NonFiniteNumber)
            } else {
                Ok((widen_f32_bits(fb), i + 4))
            }
        }
    } else {
        if i + 8 > s.len() {
            Err(CodecError::ShortRead)
        } else {
            let bb = le8_val(s.subrange(i, i + 8));
            if !f64_is_finite(bb) {
                Err(CodecError::NonFiniteNumber)
            } else {
                Ok((bb, i + 8))
            }
        }
    }
}

/// Reading a string payload of `len` bytes at `i`.
pub open spec fn dec_str(s: Seq<u8>, i: int, len: int) -> Result<(Seq<char>, int), CodecError> {
    if i + len > s.len() {
        Err(CodecError::ShortRead)
    } else {
        let sb = s.subrange(i, i + len);
        if !valid_utf8(sb) {
            Err(CodecError::InvalidUtf8)
        } else {
            Ok((decode_utf8(sb), i + len))
        }
    }
}

/// Reading one value at `i` with the given tables: the value, the position
/// after it, and the local table afterwards, or the first error the decoder
/// reports. `fuel` bounds the nesting depth; any fuel of at least the number
/// of bytes left suffices.
pub open spec fn dec_value(
    s: Seq<u8>,
    i: int,
    gt: Seq<Seq<char>>,
    lt: Seq<Seq<char>>,
    fuel: nat,
) -> Result<(JVal, int, Seq<Seq<char>>), CodecError>
    decreases fuel, 0int,
{
    if fuel == 0 {
        Err(CodecError::ShortRead)
    } else if i + 1 > s.len() {
        Err(CodecError::ShortRead)
    } else {
        let tag = s[i];
        let j = i + 1;
        match spec_category(tag) {
            None => Err(CodecError::BadTypeTag),
            Some(cat) => match cat {
                DataTypeCategory::Null => Ok((JVal::Null, j, lt)),
                DataTypeCategory::Bool => Ok((JVal::Bool(tag == TAG_TRUE), j, lt)),
                DataTypeCategory::Integer => match dec_int(s, j, tag) {
                    Ok((n, j2)) => Ok((JVal::Int(n), j2, lt)),
                    Err(e) => Err(e),
                },
                DataTypeCategory::Float => match dec_float(s, j, tag) {
                    Ok((bits, j2)) => Ok((JVal::Float(bits), j2, lt)),
                    Err(e) => Err(e),
                },
                DataTypeCategory::String => match dec_size(s, j, spec_size_width(tag)) {
                    Ok((n, j2)) => match dec_str(s, j2, n) {
                        Ok((cs, j3)) => Ok((JVal::Str(cs), j3, lt)),
                        Err(e) => Err(e),
                    },
                    Err(e) => Err(e),
                },
                DataTypeCategory::Array => match dec_size(s, j, spec_size_width(tag)) {
                    Ok((n, j2)) => match dec_items(s, j2, n, gt, lt, (fuel - 1) as nat) {
                        Ok((vs, j3, lt2)) => Ok((JVal::Arr(vs), j3, lt2)),
                        Err(e) => Err(e),
                    },
                    Err(e) => Err(e),
                },
                DataTypeCategory::Object => match dec_size(s, j, spec_size_width(tag)) {
                    Ok((n, j2)) => match dec_entries(s, j2, n, gt, lt, (fuel - 1) as nat) {
                        Ok((ps, j3, lt2)) => Ok((JVal::Obj(ps), j3, lt2)),
                        Err(e) => Err(e),
                    },
                    Err(e) => Err(e),
                },
            },
        }
    }
}

/// Reading `n` array elements in order, threading the local table.
pub open spec fn dec_items(
    s: Seq<u8>,
    i: int,
    n: int,
    gt: Seq<Seq<char>>,
    lt: Seq<Seq<char>>,
    fuel: nat,
) -> Result<(Seq<JVal>, int, Seq<Seq<char>>), CodecError>
    decreases fuel, n,
{
    if n <= 0 {
        Ok((seq![], i, lt))
    } else {
        match dec_value(s, i, gt, lt, fuel) {
            Ok((v, j, lt1)) => match dec_items(s, j, n - 1, gt, lt1, fuel) {
                Ok((vs, j2, lt2)) => Ok((seq![v] + vs, j2, lt2)),
                Err(e) => Err(e),
            },
            Err(e) => Err(e),
        }
    }
}

/// Reading `n` object pairs in order, threading the local table.
pub open spec fn dec_entries(
    s: Seq<u8>,
    i: int,
    n: int,
    gt: Seq<Seq<char>>,
    lt: Seq<Seq<char>>,
    fuel: nat,
) -> Result<(Seq<(Seq<char>, JVal)>, int, Seq<Seq<char>>), CodecError>
    decreases fuel, n,
{
    if n <= 0 {
        Ok((seq![], i, lt))
    } else {
        match dec_key(s, i, gt, lt) {
            Ok((k, j, lt1)) => match dec_value(s, j, gt, lt1, fuel) {
                Ok((v, j2, lt2)) => match dec_entries(s, j2, n - 1, gt, lt2, fuel) {
                    Ok((ps, j3, lt3)) => Ok((seq![(k, v)] + ps, j3, lt3)),
                    Err(e) => Err(e),
                },
                Err(e) => Err(e),
            },
            Err(e) => Err(e),
        }
    }
}

/// Reads an integer payload for the given tag.
fn read_int_value(bytes: &mut ByteStream, tag: u8) -> (r: Result<JsonValue, CodecError>)
    requires
        old(bytes).wf(),
        spec_category(tag) == Some(DataTypeCategory::Integer),
    ensures
        final(bytes).wf(),
        final(bytes).data() == old(bytes).data(),
        final(bytes).cursor() >= old(bytes).cursor(),
        match r {
            Ok(v) => dec_int(old(bytes).data(), old(bytes).cursor(), tag) == Ok::<_, CodecError>(
                (v@->Int_0, final(bytes).cursor()),
            ) && v@ is Int,
            Err(e) => dec_int(old(bytes).data(), old(bytes).cursor(), tag) == Err::<(int, int), _>(
                e,
            ),
        },
{
    if tag == TAG_INT_ZERO {
        Ok(JsonValue::Int(0))
    } else if tag == TAG_U8 {
        match bytes.read_u8() {
            Ok(v) => Ok(JsonValue::Int(v as i64)),
            Err(e) => Err(e),
        }
    } else if tag == TAG_I8 {
        match bytes.read_i8() {
            Ok(v) => Ok(JsonValue::Int(v as i64)),
            Err(e) => Err(e),
        }
    } else if tag == TAG_U16 {
        match bytes.read_u16() {
            Ok(v) => Ok(JsonValue::Int(v as i64)),
            Err(e) => Err(e),
        }
    } else if tag == TAG_I16 {
        match bytes.read_i16() {
            Ok(v) => Ok(JsonValue::Int(v as i64)),
            Err(e) => Err(e),
        }
    } else if tag == TAG_U32 {
        match bytes.read_u32() {
            Ok(v) => Ok(JsonValue::Int(v as i64)),
            Err(e) => Err(e),
        }
    } else if tag == TAG_I32 {
        match bytes.read_i32() {
            Ok(v) => Ok(JsonValue::Int(v as i64)),
            Err(e) => Err(e),
        }
    } else if tag == TAG_U64 {
        match bytes.read_u64() {
            Ok(v) => {
                if v <= 0x7FFFFFFFFFFFFFFF {
                    Ok(JsonValue::Int(v as i64))
                } else {
                    Ok(JsonValue::UInt(v))
                }
            },
            Err(e) => Err(e),
        }
    } else {
        match bytes.read_i64() {
            Ok(v) => Ok(JsonValue::Int(v)),
            Err(e) => Err(e),
        }
    }
}

/// Reads a float payload for the given tag; a NaN or infinity is rejected.
fn read_float_value(bytes: &mut ByteStream, tag: u8) -> (r: Result<JsonValue, CodecError>)
    requires
        old(bytes).wf(),
        spec_category(tag) == Some(DataTypeCategory::Float),
    ensures
        final(bytes).wf(),
        final(bytes).data() == old(bytes).data(),
        final(bytes).cursor() >= old(bytes).cursor(),
        match r {
            Ok(v) => dec_float(old(bytes).data(), old(bytes).cursor(), tag) == Ok::<
                _,
                CodecError,
            >((v@->Float_0, final(bytes).cursor())) && v@ is Float,
            Err(e) => dec_float(old(bytes).data(), old(bytes).cursor(), tag) == Err::<
                (u64, int),
                _,
            >(e),
        },
{
    if tag == TAG_FLOAT_ZERO {
        Ok(JsonValue::Float(0))
    } else if tag == TAG_F32 {
        let fb = match bytes.read_u32() {
            Ok(v) => v,
            Err(e) => {
                return Err(e);
            },
        };
        if fb / 0x800000 % 0x100 == 0xFF {
            Err(CodecError::NonFiniteNumber)
        } else {
            Ok(JsonValue::Float(crate::floats::f32_bits_to_f64_bits(fb)))
        }
    } else {
        let bb = match bytes.read_u64() {
            Ok(v) => v,
            Err(e) => {
                return Err(e);
            },
        };
        let flags = crate::floats::classify_f64_bits(bb);
        if !flags.0 {
            Err(CodecError::NonFiniteNumber)
        } else {
            Ok(JsonValue::Float(bb))
        }
    }
}

/// Reads one value: its type tag, any size field, and its payload, with key
/// references resolved through the keys tables.
#[verifier::rlimit(100)]
pub fn read_value(bytes: &mut ByteStream, keys_table: &mut KeysTables) -> (r: Result<
    JsonValue,
    CodecError,
>)
    requires
        old(bytes).wf(),
    ensures
        final(bytes).wf(),
        final(bytes).data() == old(bytes).data(),
        final(bytes).cursor() >= old(bytes).cursor(),
        final(keys_table).global() == old(keys_table).global(),
        match r {
            Ok(v) => forall|f: nat|
                f > old(bytes).remaining() ==> dec_value(
                    old(bytes).data(),
                    old(bytes).cursor(),
                    old(keys_table).global(),
                    old(keys_table).local(),
                    f,
                ) == Ok::<_, CodecError>((v@, final(bytes).cursor(), final(keys_table).local())),
            Err(e) => forall|f: nat|
                f > old(bytes).remaining() ==> dec_value(
                    old(bytes).data(),
                    old(bytes).cursor(),
                    old(keys_table).global(),
                    old(keys_table).local(),
                    f,
                ) == Err::<(JVal, int, Seq<Seq<char>>), _>(e),
        },
    decreases old(bytes).remaining(), 0int,
{
    let ghost s = bytes.data();
    let ghost g = keys_table.global();
    let ghost lt0 = keys_table.local();
    let ghost c0 = bytes.cursor();
    let ghost r0 = bytes.remaining();
    let data_type_char = match bytes.read_u8() {
        Ok(c) => c,
        Err(e) => {
            return Err(e);
        },
    };
    let data_type = match DataType::from_char(data_type_char) {
        Ok(dt) => dt,
        Err(e) => {
            return Err(e);
        },
    };
    match data_type.category {
        DataTypeCategory::Null => Ok(JsonValue::Null),
        DataTypeCategory::Bool => Ok(JsonValue::Bool(data_type_char == TAG_TRUE)),
        DataTypeCategory::Integer => {
            let res = read_int_value(bytes, data_type_char);
            proof {
                if res is Ok {
                    let v = res->Ok_0;
                    assert(v@ == JVal::Int(v@->Int_0));
                }
            }
            res
        },
        DataTypeCategory::Float => {
            let res = read_float_value(bytes, data_type_char);
            proof {
                if res is Ok {
                    let v = res->Ok_0;
                    assert(v@ == JVal::Float(v@->Float_0));
                }
            }
            res
        },
        DataTypeCategory::String => {
            let length = match data_type.read_type_size(bytes) {
                Ok(n) => n,
                Err(e) => {
                    return Err(e);
                },
            };
            let res = read_string(bytes, length);
            proof {
                if res is Ok {
                    let v = res->Ok_0;
                    assert(v@ == JVal::Str(v@->Str_0));
                }
            }
            res
        },
        DataTypeCategory::Array => {
            let length = match data_type.read_type_size(bytes) {
                Ok(n) => n,
                Err(e) => {
                    return Err(e);
                },
            };
            let ghost c2 = bytes.cursor();
            let ghost r2 = bytes.remaining();
            let res = read_array(bytes, length, keys_table);
            proof {
                if res is Ok {
                    let v = res->Ok_0;
                    assert(v@ == JVal::Arr(v@->Arr_0));
                    assert forall|f: nat| f > r0 implies dec_value(s, c0, g, lt0, f) == Ok::<
                        _,
                        CodecError,
                    >((v@, bytes.cursor(), keys_table.local())) by {
                        assert(dec_items(s, c2, length as int, g, lt0, (f - 1) as nat) == Ok::<
                            _,
                            CodecError,
                        >((v@->Arr_0, bytes.cursor(), keys_table.local())));
                    }
                } else {
                    let e = res->Err_0;
                    assert forall|f: nat| f > r0 implies dec_value(s, c0, g, lt0, f) == Err::<
                        (JVal, int, Seq<Seq<char>>),
                        CodecError,
                    >(e) by {
                        assert(dec_items(s, c2, length as int, g, lt0, (f - 1) as nat) == Err::<
                            (Seq<JVal>, int, Seq<Seq<char>>),
                            CodecError,
                        >(e));
                    }
                }
            }
            res
        },
        DataTypeCategory::Object => {
            let length = match data_type.read_type_size(bytes) {
                Ok(n) => n,
                Err(e) => {
                    return Err(e);
                },
            };
            let ghost c2 = bytes.cursor();
            let ghost r2 = bytes.remaining();
            let res = read_object(bytes, length, keys_table);
            proof {
                if res is Ok {
                    let v = res->Ok_0;
                    assert(v@ == JVal::Obj(v@->Obj_0));
                    assert forall|f: nat| f > r0 implies dec_value(s, c0, g, lt0, f) == Ok::<
                        _,
                        CodecError,
                    >((v@, bytes.cursor(), keys_table.local())) by {
                        assert(dec_entries(s, c2, length as int, g, lt0, (f - 1) as nat) == Ok::<
                            _,
                            CodecError,
                        >((v@->Obj_0, bytes.cursor(), keys_table.local())));
                    }
                } else {
                    let e = res->Err_0;
                    assert forall|f: nat| f > r0 implies dec_value(s, c0, g, lt0, f) == Err::<
                        (JVal, int, Seq<Seq<char>>),
                        CodecError,
                    >(e) by {
                        assert(dec_entries(s, c2, length as int, g, lt0, (f - 1) as nat) == Err::<
                            (Seq<(Seq<char>, JVal)>, int, Seq<Seq<char>>),
                            CodecError,
                        >(e));
                    }
                }
            }
            res
        },
    }
}

/// Reads a string payload of `length` bytes.
pub fn read_string(bytes: &mut ByteStream, length: usize) -> (r: Result<JsonValue, CodecError>)
    requires
        old(bytes).wf(),
    ensures
        final(bytes).wf(),
        final(bytes).data() == old(bytes).data(),
        final(bytes).cursor() >= old(bytes).cursor(),
        match r {
            Ok(v) => dec_str(old(bytes).data(), old(bytes).cursor(), length as int) == Ok::<
                _,
                CodecError,
            >((v@->Str_0, final(bytes).cursor())) && v is Str,
            Err(e) => dec_str(old(bytes).data(), old(bytes).cursor(), length as int) == Err::<
                (Seq<char>, int),
                _,
            >(e),
        },
{
    match bytes.read_string(length) {
        Ok(s) => Ok(JsonValue::Str(s)),
        Err(e) => Err(e),
    }
}

/// Reads `length` array elements into an array value.
#[verifier::loop_isolation(false)]
pub fn read_array(bytes: &mut ByteStream, length: usize, keys_table: &mut KeysTables) -> (r:
    Result<JsonValue, CodecError>)
    requires
        old(bytes).wf(),
    ensures
        final(bytes).wf(),
        final(bytes).data() == old(bytes).data(),
        final(bytes).cursor() >= old(bytes).cursor(),
        final(keys_table).global() == old(keys_table).global(),
        match r {
            Ok(v) => v is Array && forall|f: nat|
                f > old(bytes).remaining() ==> dec_items(
                    old(bytes).data(),
                    old(bytes).cursor(),
                    length as int,
                    old(keys_table).global(),
                    old(keys_table).local(),
                    f,
                ) == Ok::<_, CodecError>(
                    (v@->Arr_0, final(bytes).cursor(), final(keys_table).local()),
                ),
            Err(e) => forall|f: nat|
                f > old(bytes).remaining() ==> dec_items(
                    old(bytes).data(),
                    old(bytes).cursor(),
                    length as int,
                    old(keys_table).global(),
                    old(keys_table).local(),
                    f,
                ) == Err::<(Seq<JVal>, int, Seq<Seq<char>>), _>(e),
        },
    decreases old(bytes).remaining(), 1int,
{
    let ghost s = bytes.data();
    let ghost g = keys_table.global();
    let ghost lt0 = keys_table.local();
    let ghost c0 = bytes.cursor();
    let ghost r0 = bytes.remaining();
    let mut array: Vec<JsonValue> = Vec::new();
    let mut done: usize = 0;
    proof {
        assert(crate::json::view_elems(array@) =~= Seq::<JVal>::empty());
    }
    while done < length
        invariant
            done <= length,
            bytes.wf(),
            bytes.data() == s,
            c0 <= bytes.cursor(),
            keys_table.global() == g,
            crate::json::view_elems(array@).len() == done,
            forall|f: nat|
                f > r0 ==> dec_items(s, c0, length as int, g, lt0, f) == (match dec_items(
                    s,
                    bytes.cursor(),
                    length - done,
                    g,
                    keys_table.local(),
                    f,
                ) {
                    Ok((vs, j, l2)) => Ok::<_, CodecError>(
                        (crate::json::view_elems(array@) + vs, j, l2),
                    ),
                    Err(e) => Err::<(Seq<JVal>, int, Seq<Seq<char>>), _>(e),
                }),
        decreases length - done,
    {
        let ghost lt_cur = keys_table.local();
        let ghost c_cur = bytes.cursor();
        let value = match read_value(bytes, keys_table) {
            Ok(v) => v,
            Err(e) => {
                proof {
                    assert forall|f: nat| f > r0 implies dec_items(
                        s,
                        c0,
                        length as int,
                        g,
                        lt0,
                        f,
                    ) == Err::<(Seq<JVal>, int, Seq<Seq<char>>), CodecError>(e) by {
                        assert(dec_value(s, c_cur, g, lt_cur, f) == Err::<
                            (JVal, int, Seq<Seq<char>>),
                            CodecError,
                        >(e));
                    }
                }
                return Err(e);
            },
        };
        let ghost pre = crate::json::view_elems(array@);
        let ghost prev_vec = array@;
        array.push(value);
        done = done + 1;
        proof {
            assert(array@.drop_last() =~= prev_vec);
            lemma_view_elems_push(array@);
            assert(crate::json::view_elems(array@) =~= pre + seq![value@]);
            assert forall|f: nat| f > r0 implies dec_items(s, c0, length as int, g, lt0, f) == (
            match dec_items(s, bytes.cursor(), length - done, g, keys_table.local(), f) {
                Ok((vs, j, l2)) => Ok::<_, CodecError>(
                    (crate::json::view_elems(array@) + vs, j, l2),
                ),
                Err(e) => Err::<(Seq<JVal>, int, Seq<Seq<char>>), _>(e),
            }) by {
                assert(dec_value(s, c_cur, g, lt_cur, f) == Ok::<_, CodecError>(
                    (value@, bytes.cursor(), keys_table.local()),
                ));
                let rres = dec_items(s, bytes.cursor(), length - done, g, keys_table.local(), f);
                if rres is Ok {
                    let (vs, j, l2) = rres->Ok_0;
                    assert(pre + (seq![value@] + vs) =~= (pre + seq![value@]) + vs);
                }
            }
        }
    }
    proof {
        assert forall|f: nat| f > r0 implies dec_items(s, c0, length as int, g, lt0, f) == Ok::<
            _,
            CodecError,
        >((crate::json::view_elems(array@), bytes.cursor(), keys_table.local())) by {
            assert(dec_items(s, bytes.cursor(), 0, g, keys_table.local(), f) == Ok::<
                _,
                CodecError,
            >((Seq::<JVal>::empty(), bytes.cursor(), keys_table.local())));
            assert(crate::json::view_elems(array@) + Seq::<JVal>::empty()
                =~= crate::json::view_elems(array@));
        }
    }
    Ok(JsonValue::Array(array))
}

/// Reads `length` key-value pairs into an object value.
#[verifier::loop_isolation(false)]
#[verifier::rlimit(100)]
pub fn read_object(bytes: &mut ByteStream, length: usize, keys_table: &mut KeysTables) -> (r:
    Result<JsonValue, CodecError>)
    requires
        old(bytes).wf(),
    ensures
        final(bytes).wf(),
        final(bytes).data() == old(bytes).data(),
        final(bytes).cursor() >= old(bytes).cursor(),
        final(keys_table).global() == old(keys_table).global(),
        match r {
            Ok(v) => v is Object && forall|f: nat|
                f > old(bytes).remaining() ==> dec_entries(
                    old(bytes).data(),
                    old(bytes).cursor(),
                    length as int,
                    old(keys_table).global(),
                    old(keys_table).local(),
                    f,
                ) == Ok::<_, CodecError>(
                    (v@->Obj_0, final(bytes).cursor(), final(keys_table).local()),
                ),
            Err(e) => forall|f: nat|
                f > old(bytes).remaining() ==> dec_entries(
                    old(bytes).data(),
                    old(bytes).cursor(),
                    length as int,
                    old(keys_table).global(),
                    old(keys_table).local(),
                    f,
                ) == Err::<(Seq<(Seq<char>, JVal)>, int, Seq<Seq<char>>), _>(e),
        },
    decreases old(bytes).remaining(), 1int,
{
    let ghost s = bytes.data();
    let ghost g = keys_table.global();
    let ghost lt0 = keys_table.local();
    let ghost c0 = bytes.cursor();
    let ghost r0 = bytes.remaining();
    let mut object: Vec<(String, JsonValue)> = Vec::new();
    let mut done: usize = 0;
    proof {
        assert(crate::json::view_pairs(object@) =~= Seq::<(Seq<char>, JVal)>::empty());
    }
    while done < length
        invariant
            done <= length,
            bytes.wf(),
            bytes.data() == s,
            c0 <= bytes.cursor(),
            keys_table.global() == g,
            crate::json::view_pairs(object@).len() == done,
            forall|f: nat|
                f > r0 ==> dec_entries(s, c0, length as int, g, lt0, f) == (match dec_entries(
                    s,
                    bytes.cursor(),
                    length - done,
                    g,
                    keys_table.local(),
                    f,
                ) {
                    Ok((ps, j, l2)) => Ok::<_, CodecError>(
                        (crate::json::view_pairs(object@) + ps, j, l2),
                    ),
                    Err(e) => Err::<(Seq<(Seq<char>, JVal)>, int, Seq<Seq<char>>), _>(e),
                }),
        decreases length - done,
    {
        let ghost lt_cur = keys_table.local();
        let ghost c_cur = bytes.cursor();
        let key = match crate::key_record::read_key(bytes, keys_table) {
            Ok(k) => k,
            Err(e) => {
                proof {
                    assert forall|f: nat| f > r0 implies dec_entries(
                        s,
                        c0,
                        length as int,
                        g,
                        lt0,
                        f,
                    ) == Err::<(Seq<(Seq<char>, JVal)>, int, Seq<Seq<char>>), CodecError>(e) by {
                        assert(dec_key(s, c_cur, g, lt_cur) == Err::<
                            (Seq<char>, int, Seq<Seq<char>>),
                            CodecError,
                        >(e));
                    }
                }
                return Err(e);
            },
        };
        let ghost lt1 = keys_table.local();
        let ghost c1 = bytes.cursor();
        let value = match read_value(bytes, keys_table) {
            Ok(v) => v,
            Err(e) => {
                proof {
                    assert forall|f: nat| f > r0 implies dec_entries(
                        s,
                        c0,
                        length as int,
                        g,
                        lt0,
                        f,
                    ) == Err::<(Seq<(Seq<char>, JVal)>, int, Seq<Seq<char>>), CodecError>(e) by {
                        assert(dec_key(s, c_cur, g, lt_cur) == Ok::<_, CodecError>(
                            (key@, c1, lt1),
                        ));
                        assert(dec_value(s, c1, g, lt1, f) == Err::<
                            (JVal, int, Seq<Seq<char>>),
                            CodecError,
                        >(e));
                    }
                }
                return Err(e);
            },
        };
        let ghost pre = crate::json::view_pairs(object@);
        let ghost prev_vec = object@;
        object.push((key, value));
        done = done + 1;
        proof {
            assert(object@.drop_last() =~= prev_vec);
            lemma_view_pairs_push(object@);
            assert(crate::json::view_pairs(object@) =~= pre + seq![
                (object@[object@.len() - 1].0@, object@[object@.len() - 1].1@),
            ]);
            let kv = object@[object@.len() - 1];
            assert forall|f: nat| f > r0 implies dec_entries(s, c0, length as int, g, lt0, f) == (
            match dec_entries(s, bytes.cursor(), length - done, g, keys_table.local(), f) {
                Ok((ps, j, l2)) => Ok::<_, CodecError>(
                    (crate::json::view_pairs(object@) + ps, j, l2),
                ),
                Err(e) => Err::<(Seq<(Seq<char>, JVal)>, int, Seq<Seq<char>>), _>(e),
            }) by {
                assert(dec_key(s, c_cur, g, lt_cur) == Ok::<_, CodecError>((kv.0@, c1, lt1)));
                assert(dec_value(s, c1, g, lt1, f) == Ok::<_, CodecError>(
                    (kv.1@, bytes.cursor(), keys_table.local()),
                ));
                let rres = dec_entries(s, bytes.cursor(), length - done, g, keys_table.local(), f);
                if rres is Ok {
                    let (ps, j, l2) = rres->Ok_0;
                    assert(pre + (seq![(kv.0@, kv.1@)] + ps) =~= (pre + seq![(kv.0@, kv.1@)])
                        + ps);
                }
            }
        }
    }
    proof {
        assert forall|f: nat| f > r0 implies dec_entries(s, c0, length as int, g, lt0, f) == Ok::<
            _,
            CodecError,
        >((crate::json::view_pairs(object@), bytes.cursor(), keys_table.local())) by {
            assert(dec_entries(s, bytes.cursor(), 0, g, keys_table.local(), f) == Ok::<
                _,
                CodecError,
            >((Seq::<(Seq<char>, JVal)>::empty(), bytes.cursor(), keys_table.local())));
            assert(crate::json::view_pairs(object@) + Seq::<(Seq<char>, JVal)>::empty()
                =~= crate::json::view_pairs(object@));
        }
    }
    Ok(JsonValue::Object(object))
}

/// Appending a value appends its abstraction.
proof fn lemma_view_elems_push(elems: Seq<JsonValue>)
    requires
        elems.len() > 0,
    ensures
        crate::json::view_elems(elems) == crate::json::view_elems(elems.drop_last()) + seq![
            elems.last()@,
        ],
{
    crate::json::lemma_view_elems(elems);
    crate::json::lemma_view_elems(elems.drop_last());
    assert forall|i: int| 0 <= i < elems.len() implies crate::json::view_elems(elems)[i] == (
    crate::json::view_elems(elems.drop_last()) + seq![elems.last()@])[i] by {
        assert(crate::json::view_elems(elems)[i] == elems[i]@);
        if i < elems.len() - 1 {
            assert(elems.drop_last()[i] == elems[i]);
            assert(crate::json::view_elems(elems.drop_last())[i] == elems.drop_last()[i]@);
        }
    }
    assert(crate::json::view_elems(elems) =~= crate::json::view_elems(elems.drop_last()) + seq![
        elems.last()@,
    ]);
}

/// Appending a pair appends its abstraction.
proof fn lemma_view_pairs_push(pairs: Seq<(String, JsonValue)>)
    requires
        pairs.len() > 0,
    ensures
        crate::json::view_pairs(pairs) == crate::json::view_pairs(pairs.drop_last()) + seq![
            (pairs.last().0@, pairs.last().1@),
        ],
{
    crate::json::lemma_view_pairs(pairs);
    crate::json::lemma_view_pairs(pairs.drop_last());
    assert forall|i: int| 0 <= i < pairs.len() implies crate::json::view_pairs(pairs)[i] == (
    crate::json::view_pairs(pairs.drop_last()) + seq![(pairs.last().0@, pairs.last().1@)])[i] by {
        assert(crate::json::view_pairs(pairs)[i] == (pairs[i].0@, pairs[i].1@));
        if i < pairs.len() - 1 {
            assert(pairs.drop_last()[i] == pairs[i]);
            assert(crate::json::view_pairs(pairs.drop_last())[i] == (
                pairs.drop_last()[i].0@,
                pairs.drop_last()[i].1@,
            ));
        }
    }
    assert(crate::json::view_pairs(pairs) =~= crate::json::view_pairs(pairs.drop_last()) + seq![
        (pairs.last().0@, pairs.last().1@),
    ]);
}

} // verus!
