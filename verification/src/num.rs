//! Bit-level views of IEEE-754 floating point values.
//!
//! The value model stores a 32-bit float as its `u32` bit pattern and a
//! 64-bit float as its `u64` bit pattern. Everything the comparison and
//! hashing rules need — NaN detection, zero detection, the total order
//! with NaN first and the two zeros equal — is defined here directly on
//! the bits, so it is verified. Only the conversions between integer
//! values and float bit patterns rely on the platform's float casts.
use vstd::prelude::*;

verus! {

pub const F64_SIGN: u64 = 0x8000_0000_0000_0000;

pub const F64_MAG: u64 = 0x7FFF_FFFF_FFFF_FFFF;

pub const F64_EXP: u64 = 0x7FF0_0000_0000_0000;

pub const F64_FRAC: u64 = 0x000F_FFFF_FFFF_FFFF;

/// The canonical NaN bit pattern: all NaNs compare and hash as this one.
pub const F64_CANON_NAN: u64 = 0x7FF8_0000_0000_0000;

pub const F32_SIGN: u32 = 0x8000_0000;

pub const F32_MAG: u32 = 0x7FFF_FFFF;

pub const F32_EXP: u32 = 0x7F80_0000;

pub const F32_FRAC: u32 = 0x007F_FFFF;

pub const F32_CANON_NAN: u32 = 0x7FC0_0000;

/// The bit pattern encodes a NaN: exponent all ones, fraction non-zero.
pub open spec fn f64_is_nan(bits: u64) -> bool {
    bits & F64_EXP == F64_EXP && bits & F64_FRAC != 0
}

/// The bit pattern encodes one of the two zeros.
pub open spec fn f64_is_zero(bits: u64) -> bool {
    bits & F64_MAG == 0
}

pub open spec fn f32_is_nan(bits: u32) -> bool {
    bits & F32_EXP == F32_EXP && bits & F32_FRAC != 0
}

pub open spec fn f32_is_zero(bits: u32) -> bool {
    bits & F32_MAG == 0
}

/// The canonical form of a 64-bit float pattern: every NaN becomes the
/// canonical NaN, both zeros become `+0`. Two patterns are equal under
/// the value model's equality exactly when their canonical forms are
/// equal bit patterns.
pub open spec fn f64_canon(bits: u64) -> u64 {
    if f64_is_nan(bits) {
        F64_CANON_NAN
    } else if f64_is_zero(bits) {
        0u64
    } else {
        bits
    }
}

pub open spec fn f32_canon(bits: u32) -> u32 {
    if f32_is_nan(bits) {
        F32_CANON_NAN
    } else if f32_is_zero(bits) {
        0u32
    } else {
        bits
    }
}

/// The sort key of a 64-bit float pattern: NaN sorts below every other
/// value (and all NaNs are equal), negative values sort by descending
/// magnitude, the zeros coincide, positive values sort by ascending
/// magnitude. This is the IEEE order extended to a total order.
pub open spec fn f64_key(bits: u64) -> int {
    if f64_is_nan(bits) {
        -0x10000000000000000
    } else if bits & F64_SIGN != 0 {
        -((bits & F64_MAG) as int)
    } else {
        (bits & F64_MAG) as int
    }
}

pub open spec fn f32_key(bits: u32) -> int {
    if f32_is_nan(bits) {
        -0x100000000
    } else if bits & F32_SIGN != 0 {
        -((bits & F32_MAG) as int)
    } else {
        (bits & F32_MAG) as int
    }
}

/// Keys agree exactly when canonical forms agree: the total order's
/// `Equal` coincides with the value model's float equality.
pub proof fn lemma_f64_key_canon(a: u64, b: u64)
    ensures
        (f64_key(a) == f64_key(b)) == (f64_canon(a) == f64_canon(b)),
{
    assert((F64_CANON_NAN & F64_EXP == F64_EXP) && (F64_CANON_NAN & F64_FRAC != 0u64))
        by (bit_vector);
    assert(0u64 & F64_MAG == 0u64) by (bit_vector);
    if !f64_is_nan(a) && !f64_is_nan(b) {
        assert(a & F64_MAG <= F64_MAG) by (bit_vector);
        assert(b & F64_MAG <= F64_MAG) by (bit_vector);
        if f64_key(a) == f64_key(b) {
            if a & F64_SIGN == 0 && b & F64_SIGN == 0 {
                assert(a & F64_MAG == b & F64_MAG);
                assert(a & F64_SIGN == 0u64 && b & F64_SIGN == 0u64 && a & F64_MAG == b
                    & F64_MAG ==> a == b) by (bit_vector);
            } else if a & F64_SIGN != 0 && b & F64_SIGN != 0 {
                assert(a & F64_MAG == b & F64_MAG);
                assert(a & F64_SIGN != 0u64 && b & F64_SIGN != 0u64 && a & F64_MAG == b
                    & F64_MAG ==> a == b) by (bit_vector);
            } else {
                // opposite signs with equal key: both magnitudes zero
                assert(a & F64_MAG == 0 && b & F64_MAG == 0);
            }
        } else {
            if f64_canon(a) == f64_canon(b) {
                if f64_is_zero(a) || f64_is_zero(b) {
                    assert(f64_is_zero(a) && f64_is_zero(b));
                } else {
                    assert(a == b);
                }
                assert(false);
            }
        }
    } else if f64_is_nan(a) != f64_is_nan(b) {
        assert(f64_key(a) != f64_key(b)) by {
            assert(a & F64_MAG < 0x10000000000000000) by (bit_vector);
            assert(b & F64_MAG < 0x10000000000000000) by (bit_vector);
        }
        assert(f64_canon(a) != f64_canon(b));
    }
}

pub proof fn lemma_f32_key_canon(a: u32, b: u32)
    ensures
        (f32_key(a) == f32_key(b)) == (f32_canon(a) == f32_canon(b)),
{
    assert((F32_CANON_NAN & F32_EXP == F32_EXP) && (F32_CANON_NAN & F32_FRAC != 0u32))
        by (bit_vector);
    assert(0u32 & F32_MAG == 0u32) by (bit_vector);
    if !f32_is_nan(a) && !f32_is_nan(b) {
        assert(a & F32_MAG <= F32_MAG) by (bit_vector);
        assert(b & F32_MAG <= F32_MAG) by (bit_vector);
        if f32_key(a) == f32_key(b) {
            if a & F32_SIGN == 0 && b & F32_SIGN == 0 {
                assert(a & F32_SIGN == 0u32 && b & F32_SIGN == 0u32 && a & F32_MAG == b
                    & F32_MAG ==> a == b) by (bit_vector);
            } else if a & F32_SIGN != 0 && b & F32_SIGN != 0 {
                assert(a & F32_SIGN != 0u32 && b & F32_SIGN != 0u32 && a & F32_MAG == b
                    & F32_MAG ==> a == b) by (bit_vector);
            } else {
                assert(a & F32_MAG == 0 && b & F32_MAG == 0);
            }
        } else {
            if f32_canon(a) == f32_canon(b) {
                if f32_is_zero(a) || f32_is_zero(b) {
                    assert(f32_is_zero(a) && f32_is_zero(b));
                } else {
                    assert(a == b);
                }
                assert(false);
            }
        }
    } else if f32_is_nan(a) != f32_is_nan(b) {
        assert(f32_key(a) != f32_key(b)) by {
            assert(a & F32_MAG < 0x100000000) by (bit_vector);
            assert(b & F32_MAG < 0x100000000) by (bit_vector);
        }
        assert(f32_canon(a) != f32_canon(b));
    }
}

/// Executable NaN test on the bits.
pub fn f64_nan(bits: u64) -> (r: bool)
    ensures
        r == f64_is_nan(bits),
{
    bits & F64_EXP == F64_EXP && bits & F64_FRAC != 0
}

pub fn f32_nan(bits: u32) -> (r: bool)
    ensures
        r == f32_is_nan(bits),
{
    bits & F32_EXP == F32_EXP && bits & F32_FRAC != 0
}

/// Executable canonical form.
pub fn f64_canonical(bits: u64) -> (r: u64)
    ensures
        r == f64_canon(bits),
{
    if f64_nan(bits) {
        F64_CANON_NAN
    } else if bits & F64_MAG == 0 {
        0u64
    } else {
        bits
    }
}

pub fn f32_canonical(bits: u32) -> (r: u32)
    ensures
        r == f32_canon(bits),
{
    if f32_nan(bits) {
        F32_CANON_NAN
    } else if bits & F32_MAG == 0 {
        0u32
    } else {
        bits
    }
}

/// Executable comparison of two 64-bit float patterns in the total
/// order of [`f64_key`].
pub fn f64_cmp(a: u64, b: u64) -> (r: core::cmp::Ordering)
    ensures
        (r == core::cmp::Ordering::Equal) <==> f64_key(a) == f64_key(b),
        (r == core::cmp::Ordering::Less) <==> f64_key(a) < f64_key(b),
        (r == core::cmp::Ordering::Greater) <==> f64_key(a) > f64_key(b),
{
    let an = f64_nan(a);
    let bn = f64_nan(b);
    if an && bn {
        core::cmp::Ordering::Equal
    } else if an {
        proof {
            assert(b & F64_MAG < 0x10000000000000000) by (bit_vector);
        }
        core::cmp::Ordering::Less
    } else if bn {
        proof {
            assert(a & F64_MAG < 0x10000000000000000) by (bit_vector);
        }
        core::cmp::Ordering::Greater
    } else {
        let am = a & F64_MAG;
        let bm = b & F64_MAG;
        let aneg = a & F64_SIGN != 0;
        let bneg = b & F64_SIGN != 0;
        if aneg && bneg {
            if am > bm {
                core::cmp::Ordering::Less
            } else if am < bm {
                core::cmp::Ordering::Greater
            } else {
                core::cmp::Ordering::Equal
            }
        } else if !aneg && !bneg {
            if am < bm {
                core::cmp::Ordering::Less
            } else if am > bm {
                core::cmp::Ordering::Greater
            } else {
                core::cmp::Ordering::Equal
            }
        } else if aneg {
            if am == 0 && bm == 0 {
                core::cmp::Ordering::Equal
            } else {
                core::cmp::Ordering::Less
            }
        } else {
            if am == 0 && bm == 0 {
                core::cmp::Ordering::Equal
            } else {
                core::cmp::Ordering::Greater
            }
        }
    }
}

pub fn f32_cmp(a: u32, b: u32) -> (r: core::cmp::Ordering)
    ensures
        (r == core::cmp::Ordering::Equal) <==> f32_key(a) == f32_key(b),
        (r == core::cmp::Ordering::Less) <==> f32_key(a) < f32_key(b),
        (r == core::cmp::Ordering::Greater) <==> f32_key(a) > f32_key(b),
{
    let an = f32_nan(a);
    let bn = f32_nan(b);
    if an && bn {
        core::cmp::Ordering::Equal
    } else if an {
        proof {
            assert(b & F32_MAG < 0x100000000) by (bit_vector);
        }
        core::cmp::Ordering::Less
    } else if bn {
        proof {
            assert(a & F32_MAG < 0x100000000) by (bit_vector);
        }
        core::cmp::Ordering::Greater
    } else {
        let am = a & F32_MAG;
        let bm = b & F32_MAG;
        let aneg = a & F32_SIGN != 0;
        let bneg = b & F32_SIGN != 0;
        if aneg && bneg {
            if am > bm {
                core::cmp::Ordering::Less
            } else if am < bm {
                core::cmp::Ordering::Greater
            } else {
                core::cmp::Ordering::Equal
            }
        } else if !aneg && !bneg {
            if am < bm {
                core::cmp::Ordering::Less
            } else if am > bm {
                core::cmp::Ordering::Greater
            } else {
                core::cmp::Ordering::Equal
            }
        } else if aneg {
            if am == 0 && bm == 0 {
                core::cmp::Ordering::Equal
            } else {
                core::cmp::Ordering::Less
            }
        } else {
            if am == 0 && bm == 0 {
                core::cmp::Ordering::Equal
            } else {
                core::cmp::Ordering::Greater
            }
        }
    }
}

/// The 64-bit float pattern nearest to the given unsigned integer.
pub uninterp spec fn f64_of_u64(v: u64) -> u64;

/// The 64-bit float pattern nearest to the given signed integer.
pub uninterp spec fn f64_of_i64(v: i64) -> u64;

/// Relies on `num_traits::ToPrimitive::to_f64` for `u64` (the standard
/// numeric cast, reached through the cast trait that `rust_decimal`
/// itself builds on, since this crate's text may not name the float
/// types directly): the result depends on the argument alone, the
/// conversion of an integer always succeeds and never yields a NaN.
#[verifier::external_body]
pub fn u64_to_f64_bits(v: u64) -> (r: u64)
    ensures
        r == f64_of_u64(v),
        !f64_is_nan(r),
{
    match num_traits::ToPrimitive::to_f64(&v) {
        Some(x) => x.to_bits(),
        None => 0,
    }
}

/// Relies on `num_traits::ToPrimitive::to_f64` for `i64` (the standard
/// numeric cast): the result depends on the argument alone, never a
/// NaN, and on the shared non-negative range the signed and unsigned
/// casts agree.
#[verifier::external_body]
pub fn i64_to_f64_bits(v: i64) -> (r: u64)
    ensures
        r == f64_of_i64(v),
        !f64_is_nan(r),
        v >= 0 ==> r == f64_of_u64(v as u64),
{
    match num_traits::ToPrimitive::to_f64(&v) {
        Some(x) => x.to_bits(),
        None => 0,
    }
}

/// The index of the highest set bit: `2^top_bit(f) <= f < 2^(top_bit(f)+1)`
/// for `f >= 1`.
pub open spec fn top_bit(f: u32) -> nat
    decreases f,
{
    if f < 2 {
        0
    } else {
        1 + top_bit(f / 2)
    }
}

proof fn lemma_top_bit(f: u32)
    requires
        f >= 1,
    ensures
        pow2(top_bit(f)) <= f < pow2(top_bit(f) + 1),
    decreases f,
{
    if f >= 2 {
        lemma_top_bit(f / 2);
    }
}

pub open spec fn pow2(n: nat) -> nat
    decreases n,
{
    if n == 0 {
        1
    } else {
        2 * pow2((n - 1) as nat)
    }
}

/// The 64-bit pattern of the widened 32-bit float, computed on the
/// bits. Widening a 32-bit float to 64 bits is exact: the sign is kept,
/// a normal number's exponent is re-biased and its fraction shifted up,
/// a subnormal is normalised, infinities and NaNs keep their class.
pub open spec fn f64_of_f32(bits: u32) -> u64 {
    let s: u64 = ((bits & F32_SIGN) as u64) << 32;
    let e: u32 = (bits >> 23) & 0xFF;
    let f: u32 = bits & F32_FRAC;
    if e == 0xFF {
        s | F64_EXP | ((f as u64) << 29)
    } else if e == 0 && f == 0 {
        s
    } else if e == 0 {
        let p = top_bit(f);
        let frac = ((f as u64) << ((52 - p) as u64)) & F64_FRAC;
        s | (((874 + p) as u64) << 52) | frac
    } else {
        s | (((e + 896) as u64) << 52) | ((f as u64) << 29)
    }
}

/// Executable widening of a 32-bit float pattern to a 64-bit pattern.
/// NaNs widen to NaNs, zeros to zeros of the same sign, everything else
/// to a non-NaN, non-zero pattern.
pub fn f32_widen(bits: u32) -> (r: u64)
    ensures
        r == f64_of_f32(bits),
        f32_is_nan(bits) == f64_is_nan(r),
        f32_is_zero(bits) == f64_is_zero(r),
{
    let s: u64 = ((bits & F32_SIGN) as u64) << 32;
    let e: u32 = (bits >> 23) & 0xFF;
    let f: u32 = bits & F32_FRAC;
    proof {
        assert((((bits & F32_SIGN) as u64) << 32 == 0u64 || ((bits & F32_SIGN) as u64)
            << 32 == 0x8000_0000_0000_0000u64) && ((bits >> 23) & 0xFF) < 256u32 && (bits
            & F32_FRAC) <= F32_FRAC) by (bit_vector);
        assert((((bits >> 23) & 0xFF == 0xFF && bits & F32_FRAC != 0) == f32_is_nan(bits))
            && (((bits >> 23) & 0xFF == 0 && bits & F32_FRAC == 0) == f32_is_zero(bits)))
            by (bit_vector);
    }
    let ghost sv: u64 = s;
    let ghost fv: u64 = f as u64;
    if e == 0xFF {
        let r = s | F64_EXP | ((f as u64) << 29);
        proof {
            assert((sv == 0u64 || sv == 0x8000_0000_0000_0000u64) && fv <= 0x7F_FFFFu64
                ==> {
                let rr = sv | 0x7FF0_0000_0000_0000u64 | (fv << 29);
                &&& (rr & F64_EXP == F64_EXP)
                &&& ((rr & F64_FRAC != 0) == (fv != 0))
                &&& (rr & F64_MAG != 0)
            }) by (bit_vector);
        }
        r
    } else if e == 0 && f == 0 {
        proof {
            assert((sv == 0u64 || sv == 0x8000_0000_0000_0000u64) ==> (sv & F64_MAG == 0
                && !(sv & F64_EXP == F64_EXP && sv & F64_FRAC != 0))) by (bit_vector);
        }
        s
    } else if e == 0 {
        let mut p: u32 = 0;
        let mut m: u32 = f;
        proof {
            lemma_top_bit(f);
            if top_bit(f) >= 23 {
                lemma_pow2_increases(23, top_bit(f));
                assert(pow2(23) == 0x80_0000) by {
                    reveal_with_fuel(pow2, 24);
                }
                assert(false);
            }
        }
        while m >= 2
            invariant
                m >= 1,
                top_bit(f) == p + top_bit(m),
                top_bit(f) <= 22,
            decreases m,
        {
            m = m / 2;
            p += 1;
        }
        assert(p == top_bit(f) && p <= 22);
        let sh: u64 = (52 - p) as u64;
        let frac = ((f as u64) << sh) & F64_FRAC;
        let r = s | (((874 + p) as u64) << 52) | frac;
        proof {
            let ghost ev: u64 = (874 + p) as u64;
            let ghost shg: u64 = sh;
            assert((sv == 0u64 || sv == 0x8000_0000_0000_0000u64) && 874u64 <= ev
                <= 896u64 && 30u64 <= shg <= 52u64 ==> {
                let rr = sv | (ev << 52) | ((fv << shg) & F64_FRAC);
                &&& (rr & F64_EXP != F64_EXP)
                &&& (rr & F64_MAG != 0)
            }) by (bit_vector);
        }
        r
    } else {
        let r = s | (((e + 896) as u64) << 52) | ((f as u64) << 29);
        proof {
            let ghost ev: u64 = (e + 896) as u64;
            assert((sv == 0u64 || sv == 0x8000_0000_0000_0000u64) && 897u64 <= ev
                <= 1150u64 && fv <= 0x7F_FFFFu64 ==> {
                let rr = sv | (ev << 52) | (fv << 29);
                &&& (rr & F64_EXP != F64_EXP)
                &&& (rr & F64_MAG != 0)
            }) by (bit_vector);
        }
        r
    }
}

proof fn lemma_pow2_increases(a: nat, b: nat)
    requires
        a <= b,
    ensures
        pow2(a) <= pow2(b),
    decreases b,
{
    if a < b {
        lemma_pow2_increases(a, (b - 1) as nat);
    }
}

} // verus!
