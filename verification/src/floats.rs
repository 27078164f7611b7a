//! IEEE-754 doubles handled through their bit patterns: classification, and
//! the narrowing to and widening from single precision that the numeric
//! downcast uses, all in integer arithmetic.

use vstd::prelude::*;
use vstd::arithmetic::power2::pow2;

verus! {

/// The exponent field of a double's bit pattern.
pub open spec fn f64_exp(b: u64) -> int {
    b as int / 0x10000000000000 % 0x800
}

/// The bit pattern with the sign cleared: the magnitude's ordering key.
pub open spec fn f64_magnitude(b: u64) -> int {
    b as int % 0x8000000000000000
}

/// Whether the bit pattern holds a finite double (neither NaN nor infinity).
pub open spec fn f64_is_finite(b: u64) -> bool {
    f64_exp(b) != 0x7FF
}

/// Whether the bit pattern holds a zero (of either sign).
pub open spec fn f64_is_zero(b: u64) -> bool {
    f64_magnitude(b) == 0
}

/// The magnitude bits of the smallest positive normal single, read as a
/// double.
pub const F32_BAND_LOW: u64 = 0x3810000000000000;

/// The magnitude bits of the largest integer a single holds exactly, read as
/// a double.
pub const F32_BAND_HIGH: u64 = 0x4170000000000000;

/// Whether a finite double lies in the band the codec stores as a single:
/// magnitudes from the smallest positive normal single up to the largest
/// exactly-held integer, both inclusive.
pub open spec fn f64_in_f32_band(b: u64) -> bool {
    F32_BAND_LOW <= f64_magnitude(b) <= F32_BAND_HIGH
}

/// The exponent field of a single's bit pattern.
pub open spec fn f32_exp(b: u32) -> int {
    b as int / 0x800000 % 0x100
}

/// Whether the bit pattern holds a finite single.
pub open spec fn f32_is_finite(b: u32) -> bool {
    f32_exp(b) != 0xFF
}

/// The single nearest to an in-band double: round to nearest, ties to even.
pub open spec fn narrow_f64_bits(b: u64) -> u32 {
    let sign = b as int / 0x8000000000000000;
    let e = f64_exp(b);
    let frac = b as int % 0x10000000000000;
    let mant = frac / 0x20000000;
    let round_up = frac / 0x10000000 % 2 == 1 && (frac % 0x10000000 != 0 || mant % 2 == 1);
    let m2 = if round_up {
        mant + 1
    } else {
        mant
    };
    if m2 == 0x800000 {
        (sign * 0x80000000 + (e - 895) * 0x800000) as u32
    } else {
        (sign * 0x80000000 + (e - 896) * 0x800000 + m2) as u32
    }
}

/// The position of the highest set bit of a positive number.
pub open spec fn msb_pos(x: int) -> nat
    decreases x,
{
    if x < 2 {
        0
    } else {
        1 + msb_pos(x / 2)
    }
}

/// The double with the same value as a finite single: exact, subnormals
/// normalized.
pub open spec fn widen_f32_bits(fb: u32) -> u64 {
    let sign = fb as int / 0x80000000;
    let e = f32_exp(fb);
    let frac = fb as int % 0x800000;
    if e == 0 && frac == 0 {
        (sign * 0x8000000000000000) as u64
    } else if e == 0 {
        let p = msb_pos(frac);
        (sign * 0x8000000000000000 + (p + 874) * 0x10000000000000 + (frac - pow2(p))
            * pow2((52 - p) as nat)) as u64
    } else {
        (sign * 0x8000000000000000 + (e + 896) * 0x10000000000000 + frac * 0x20000000) as u64
    }
}

/// The double the codec's downcast stores for a finite double: zeros of both
/// signs become the positive zero, in-band magnitudes round through single
/// precision, and everything else is kept exactly.
pub open spec fn canon_float(b: u64) -> u64 {
    if f64_is_zero(b) {
        0
    } else if f64_in_f32_band(b) {
        widen_f32_bits(narrow_f64_bits(b))
    } else {
        b
    }
}

/// Whether a finite double is written as a zero tag, a single, or a full
/// double by the numeric downcast.
pub fn classify_f64_bits(b: u64) -> (r: (bool, bool, bool))
    ensures
        r.0 == f64_is_finite(b),
        r.1 == f64_is_zero(b),
        r.2 == f64_in_f32_band(b),
{
    let m = b % 0x8000000000000000;
    let e = b / 0x10000000000000 % 0x800;
    (e != 0x7FF, m == 0, F32_BAND_LOW <= m && m <= F32_BAND_HIGH)
}

/// Narrows an in-band double to the nearest single, in integer arithmetic.
pub fn f64_bits_to_f32_bits(b: u64) -> (r: u32)
    requires
        f64_in_f32_band(b),
    ensures
        r == narrow_f64_bits(b),
        f32_is_finite(r),
{
    let sign: u64 = b / 0x8000000000000000;
    let e: u64 = b / 0x10000000000000 % 0x800;
    let frac: u64 = b % 0x10000000000000;
    let mant: u64 = frac / 0x20000000;
    let round_up: bool = frac / 0x10000000 % 2 == 1 && (frac % 0x10000000 != 0 || mant % 2 == 1);
    let m2: u64 = if round_up {
        mant + 1
    } else {
        mant
    };
    proof {
        assert(0x381 <= e <= 0x417) by (nonlinear_arith)
            requires
                e == b as int / 0x10000000000000 % 0x800,
                F32_BAND_LOW <= b as int % 0x8000000000000000,
                b as int % 0x8000000000000000 <= F32_BAND_HIGH,
        ;
    }
    let r: u32 = if m2 == 0x800000 {
        (sign * 0x80000000 + (e - 895) * 0x800000) as u32
    } else {
        (sign * 0x80000000 + (e - 896) * 0x800000 + m2) as u32
    };
    proof {
        assert(f32_exp(r) != 0xFF) by (nonlinear_arith)
            requires
                r == narrow_f64_bits(b) && f64_in_f32_band(b) && 0x381 <= f64_exp(b) && f64_exp(b) <= 0x417,
        ;
    }
    r
}

/// Widens a finite single to a double with the same value, in integer
/// arithmetic.
pub fn f32_bits_to_f64_bits(fb: u32) -> (r: u64)
    requires
        f32_is_finite(fb),
    ensures
        r == widen_f32_bits(fb),
        f64_is_finite(r),
{
    let sign: u64 = (fb / 0x80000000) as u64;
    let e: u64 = (fb / 0x800000 % 0x100) as u64;
    let frac: u64 = (fb % 0x800000) as u64;
    if e == 0 && frac == 0 {
        let r = sign * 0x8000000000000000;
        proof {
            assert(f64_exp(r) != 0x7FF) by (nonlinear_arith)
                requires
                    r == sign * 0x8000000000000000 && sign <= 1,
            ;
        }
        r
    } else if e == 0 {
        let mut p: u64 = 0;
        let mut x: u64 = frac;
        let mut pw: u64 = 1;
        proof {
            vstd::arithmetic::power2::lemma2_to64();
        }
        while x >= 2
            invariant
                1 <= x <= frac,
                frac < 0x800000,
                p <= 22,
                1 <= pw,
                msb_pos(frac as int) == p + msb_pos(x as int),
                pw == pow2(p as nat),
                frac as int / (pw as int) == x as int,
            decreases x,
        {
            proof {
                assert(pow2((p + 1) as nat) == 2 * pow2(p as nat)) by {
                    vstd::arithmetic::power2::lemma_pow2_unfold((p + 1) as nat);
                }
                assert(frac as int / (pw as int) / 2 == frac as int / (2 * pw as int))
                    by (nonlinear_arith)
                    requires
                        pw >= 1,
                ;
                assert(2 * (pw as int) <= frac as int) by (nonlinear_arith)
                    requires
                        frac as int / (pw as int) == x as int && x >= 2 && pw >= 1,
                ;
                assert(p < 22) by {
                    if p >= 22 {
                        vstd::arithmetic::power2::lemma2_to64();
                        assert(pw == pow2(22nat));
                    }
                }
            }
            x = x / 2;
            p = p + 1;
            pw = pw * 2;
        }
        proof {
            assert(msb_pos(x as int) == 0);
            assert(frac as int / (pw as int) == 1);
            assert(pw as int <= frac as int && (frac as int) < 2 * (pw as int)) by (nonlinear_arith)
                requires
                    frac as int / pw as int == 1 && pw >= 1,
            ;
            assert(pow2((52 - p) as nat) * pow2(p as nat) == pow2(52)) by {
                vstd::arithmetic::power2::lemma_pow2_adds((52 - p) as nat, p as nat);
            }
            vstd::arithmetic::power2::lemma2_to64_rest();
            assert((frac - pw) as int * pow2((52 - p) as nat) < 0x10000000000000)
                by (nonlinear_arith)
                requires
                    pw <= frac && (frac as int) < 2 * (pw as int) && pw == pow2(p as nat) && pow2(
                        (52 - p) as nat,
                    ) * pow2(p as nat) == pow2(52) && pow2(52) == 0x10000000000000,
            ;
        }
        let shifted = (frac - pw) * pow2_exec(52 - p);
        let r = sign * 0x8000000000000000 + (p + 874) * 0x10000000000000 + shifted;
        proof {
            assert(f64_exp(r) == p + 874) by (nonlinear_arith)
                requires
                    r == sign * 0x8000000000000000 + (p + 874) * 0x10000000000000 + shifted
                        && shifted < 0x10000000000000 && sign <= 1 && p <= 22,
            ;
        }
        r
    } else {
        let r = sign * 0x8000000000000000 + (e + 896) * 0x10000000000000 + frac * 0x20000000;
        proof {
            assert(f64_exp(r) == e + 896) by (nonlinear_arith)
                requires
                    r == sign * 0x8000000000000000 + (e + 896) * 0x10000000000000 + frac
                        * 0x20000000 && frac < 0x800000 && sign <= 1 && 1 <= e && e <= 0xFE,
            ;
        }
        r
    }
}

/// Two to the given power, as a machine word.
fn pow2_exec(k: u64) -> (r: u64)
    requires
        k <= 63,
    ensures
        r == pow2(k as nat),
{
    let mut i: u64 = 0;
    let mut r: u64 = 1;
    proof {
        vstd::arithmetic::power2::lemma2_to64();
        vstd::arithmetic::power2::lemma2_to64_rest();
    }
    while i < k
        invariant
            i <= k <= 63,
            r == pow2(i as nat),
        decreases k - i,
    {
        proof {
            vstd::arithmetic::power2::lemma_pow2_unfold((i + 1) as nat);
            if i < 63 {
                vstd::arithmetic::power2::lemma_pow2_strictly_increases(i as nat, 63);
            }
            vstd::arithmetic::power2::lemma2_to64_rest();
        }
        r = r * 2;
        i = i + 1;
    }
    r
}

} // verus!
