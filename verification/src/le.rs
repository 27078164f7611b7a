//! Little-endian byte layouts of the fixed-width integers the format uses,
//! and the two's-complement correspondence for the signed ones.

use vstd::prelude::*;
use vstd::arithmetic::div_mod::{lemma_div_denominator, lemma_fundamental_div_mod};

verus! {

/// The two little-endian bytes of a 16-bit value.
pub open spec fn le2_bytes(v: u16) -> Seq<u8> {
    seq![(v as int % 0x100) as u8, (v as int / 0x100) as u8]
}

/// The four little-endian bytes of a 32-bit value.
pub open spec fn le4_bytes(v: u32) -> Seq<u8> {
    seq![
        (v as int % 0x100) as u8,
        (v as int / 0x100 % 0x100) as u8,
        (v as int / 0x10000 % 0x100) as u8,
        (v as int / 0x1000000) as u8,
    ]
}

/// The eight little-endian bytes of a 64-bit value.
pub open spec fn le8_bytes(v: u64) -> Seq<u8> {
    seq![
        (v as int % 0x100) as u8,
        (v as int / 0x100 % 0x100) as u8,
        (v as int / 0x10000 % 0x100) as u8,
        (v as int / 0x1000000 % 0x100) as u8,
        (v as int / 0x100000000 % 0x100) as u8,
        (v as int / 0x10000000000 % 0x100) as u8,
        (v as int / 0x1000000000000 % 0x100) as u8,
        (v as int / 0x100000000000000) as u8,
    ]
}

/// The 16-bit value held by two little-endian bytes.
pub open spec fn le2_val(b: Seq<u8>) -> u16
    recommends
        b.len() == 2,
{
    (b[0] + b[1] * 0x100) as u16
}

/// The 32-bit value held by four little-endian bytes.
pub open spec fn le4_val(b: Seq<u8>) -> u32
    recommends
        b.len() == 4,
{
    (b[0] + b[1] * 0x100 + b[2] * 0x10000 + b[3] * 0x1000000) as u32
}

/// The 64-bit value held by eight little-endian bytes.
pub open spec fn le8_val(b: Seq<u8>) -> u64
    recommends
        b.len() == 8,
{
    (b[0] + b[1] * 0x100 + b[2] * 0x10000 + b[3] * 0x1000000 + b[4] * 0x100000000
        + b[5] * 0x10000000000 + b[6] * 0x1000000000000 + b[7] * 0x100000000000000) as u64
}

/// The signed reading of a 16-bit two's-complement pattern.
pub open spec fn i16_of_u16(u: u16) -> i16 {
    if u < 0x8000 {
        u as i16
    } else {
        (u - 0x10000) as i16
    }
}

/// The 16-bit two's-complement pattern of a signed value.
pub open spec fn u16_of_i16(v: i16) -> u16 {
    if v >= 0 {
        v as u16
    } else {
        (v + 0x10000) as u16
    }
}

/// The signed reading of a 32-bit two's-complement pattern.
pub open spec fn i32_of_u32(u: u32) -> i32 {
    if u < 0x80000000 {
        u as i32
    } else {
        (u - 0x100000000) as i32
    }
}

/// The 32-bit two's-complement pattern of a signed value.
pub open spec fn u32_of_i32(v: i32) -> u32 {
    if v >= 0 {
        v as u32
    } else {
        (v + 0x100000000) as u32
    }
}

/// The signed reading of a 64-bit two's-complement pattern.
pub open spec fn i64_of_u64(u: u64) -> i64 {
    if u < 0x8000000000000000 {
        u as i64
    } else {
        (u - 0x10000000000000000) as i64
    }
}

/// The 64-bit two's-complement pattern of a signed value.
pub open spec fn u64_of_i64(v: i64) -> u64 {
    if v >= 0 {
        v as u64
    } else {
        (v + 0x10000000000000000) as u64
    }
}

/// The signed reading of an 8-bit two's-complement pattern.
pub open spec fn i8_of_u8(u: u8) -> i8 {
    if u < 0x80 {
        u as i8
    } else {
        (u - 0x100) as i8
    }
}

/// The 8-bit two's-complement pattern of a signed value.
pub open spec fn u8_of_i8(v: i8) -> u8 {
    if v >= 0 {
        v as u8
    } else {
        (v + 0x100) as u8
    }
}

/// Reading back the bytes of a 16-bit value yields the value.
pub proof fn lemma_le2_roundtrip(v: u16)
    ensures
        le2_bytes(v).len() == 2,
        le2_val(le2_bytes(v)) == v,
{
    assert(v as int % 0x100 + (v as int / 0x100) * 0x100 == v) by (nonlinear_arith);
}

/// Reading back the bytes of a 32-bit value yields the value.
pub proof fn lemma_le4_roundtrip(v: u32)
    ensures
        le4_bytes(v).len() == 4,
        le4_val(le4_bytes(v)) == v,
{
    assert(v as int % 0x100 + (v as int / 0x100 % 0x100) * 0x100 + (v as int / 0x10000 % 0x100)
        * 0x10000 + (v as int / 0x1000000) * 0x1000000 == v) by (nonlinear_arith);
}

/// Reading back the bytes of a 64-bit value yields the value.
pub proof fn lemma_le8_roundtrip(v: u64)
    ensures
        le8_bytes(v).len() == 8,
        le8_val(le8_bytes(v)) == v,
{
    let x = v as int;
    lemma_div_denominator(x, 0x100, 0x100);
    lemma_div_denominator(x, 0x10000, 0x100);
    lemma_div_denominator(x, 0x1000000, 0x100);
    lemma_div_denominator(x, 0x100000000, 0x100);
    lemma_div_denominator(x, 0x10000000000, 0x100);
    lemma_div_denominator(x, 0x1000000000000, 0x100);
    lemma_fundamental_div_mod(x, 0x100);
    lemma_fundamental_div_mod(x / 0x100, 0x100);
    lemma_fundamental_div_mod(x / 0x10000, 0x100);
    lemma_fundamental_div_mod(x / 0x1000000, 0x100);
    lemma_fundamental_div_mod(x / 0x100000000, 0x100);
    lemma_fundamental_div_mod(x / 0x10000000000, 0x100);
    lemma_fundamental_div_mod(x / 0x1000000000000, 0x100);
    assert(x / 0x100000000000000 < 0x100) by (nonlinear_arith)
        requires
            0 <= x < 0x10000000000000000,
    ;
}

/// The two's-complement correspondences invert each other.
pub proof fn lemma_twos_complement_roundtrip()
    ensures
        forall|v: i8| #![trigger u8_of_i8(v)] i8_of_u8(u8_of_i8(v)) == v,
        forall|v: i16| #![trigger u16_of_i16(v)] i16_of_u16(u16_of_i16(v)) == v,
        forall|v: i32| #![trigger u32_of_i32(v)] i32_of_u32(u32_of_i32(v)) == v,
        forall|v: i64| #![trigger u64_of_i64(v)] i64_of_u64(u64_of_i64(v)) == v,
{
}

} // verus!
