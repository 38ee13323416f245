//! Single-precision numbers, held by their bit patterns.
//!
//! A number travels through this crate as the `u32` that holds its IEEE 754
//! binary32 encoding: a sign bit, eight bits of exponent and twenty-three bits
//! of fraction. The spec functions here say which real number a pattern stands
//! for. Every finite single is a whole multiple of 2^-149, so its value is
//! given exactly by an integer in that unit.

use vstd::prelude::*;
use vstd::arithmetic::power2::{
    lemma2_to64, lemma_pow2_adds, lemma_pow2_pos, lemma_pow2_strictly_increases, lemma_pow2_unfold,
    pow2,
};

verus! {

/// The pattern of 0.0.
pub const ZERO: u32 = 0;

/// The pattern of -0.0.
pub const NEGATIVE_ZERO: u32 = 0x8000_0000;

/// The pattern of 1.0.
pub const ONE: u32 = 0x3f80_0000;

/// The pattern of 2^-23, the gap between 1.0 and the next larger single.
pub const EPSILON: u32 = 0x3400_0000;

/// A pattern that stands for no number.
pub const NAN: u32 = 0x7fc0_0000;

/// The exponent field of a pattern.
pub open spec fn exponent(bits: u32) -> int {
    (bits as int / 0x80_0000) % 256
}

/// The fraction field of a pattern.
pub open spec fn fraction(bits: u32) -> int {
    bits as int % 0x80_0000
}

/// Whether the sign bit of a pattern is set.
pub open spec fn is_negative(bits: u32) -> bool {
    bits >= 0x8000_0000
}

/// Whether a pattern stands for no number at all.
pub open spec fn is_nan(bits: u32) -> bool {
    exponent(bits) == 255 && fraction(bits) != 0
}

/// Whether a pattern stands for a finite number.
pub open spec fn is_finite(bits: u32) -> bool {
    exponent(bits) != 255
}

/// The absolute value that a pattern stands for, in units of 2^-149. An
/// infinity is given the integer above those of all finite numbers.
pub open spec fn magnitude(bits: u32) -> int {
    if exponent(bits) == 0 {
        fraction(bits)
    } else {
        (fraction(bits) + 0x80_0000) * pow2((exponent(bits) - 1) as nat)
    }
}

/// The value that a pattern stands for, in units of 2^-149.
pub open spec fn value(bits: u32) -> int {
    if is_negative(bits) {
        -magnitude(bits)
    } else {
        magnitude(bits)
    }
}

/// The order of the numbers: false as soon as one side is no number.
pub open spec fn less(a: u32, b: u32) -> bool {
    !is_nan(a) && !is_nan(b) && value(a) < value(b)
}

/// Among patterns without a sign bit, a larger pattern is a larger number.
pub proof fn lemma_magnitude_increases(a: u32, b: u32)
    requires
        a < b < 0x8000_0000,
    ensures
        magnitude(a) < magnitude(b),
{
    let (ea, fa) = (exponent(a), fraction(a));
    let (eb, fb) = (exponent(b), fraction(b));
    assert(a == ea * 0x80_0000 + fa);
    assert(b == eb * 0x80_0000 + fb);
    let high = pow2((eb - 1) as nat);
    lemma_pow2_pos((eb - 1) as nat);
    if eb == 0 {
        assert(fa < fb);
    } else if ea == eb {
        assert((fa + 0x80_0000) * high < (fb + 0x80_0000) * high) by (nonlinear_arith)
            requires
                fa < fb,
                high > 0,
        ;
    } else if ea == 0 {
        assert(0x80_0000 <= (fb + 0x80_0000) * high) by (nonlinear_arith)
            requires
                fb >= 0,
                high >= 1,
        ;
    } else {
        let low = pow2((ea - 1) as nat);
        let gap = pow2((eb - 1 - ea) as nat);
        lemma_pow2_pos((ea - 1) as nat);
        lemma_pow2_pos((eb - 1 - ea) as nat);
        lemma_pow2_unfold(ea as nat);
        lemma_pow2_adds(ea as nat, (eb - 1 - ea) as nat);
        assert(2 * low <= high) by (nonlinear_arith)
            requires
                high == (2 * low) * gap,
                gap >= 1,
                low >= 1,
        ;
        assert((fa + 0x80_0000) * low < (fb + 0x80_0000) * high) by (nonlinear_arith)
            requires
                0 <= fa < 0x80_0000,
                0 <= fb,
                low >= 1,
                2 * low <= high,
        ;
    }
}

/// The sign bit only flips the value.
proof fn lemma_sign_bit(bits: u32)
    requires
        is_negative(bits),
    ensures
        exponent((bits - 0x8000_0000) as u32) == exponent(bits),
        fraction((bits - 0x8000_0000) as u32) == fraction(bits),
        magnitude((bits - 0x8000_0000) as u32) == magnitude(bits),
{
    assert(bits as int / 0x80_0000 == (bits - 0x8000_0000) / 0x80_0000 + 256);
}

/// The constants stand for 0, 1 and 2^-23.
pub proof fn lemma_constants()
    ensures
        value(ZERO) == 0,
        value(ONE) == pow2(149),
        value(EPSILON) == pow2(126),
        !is_nan(ZERO) && !is_nan(ONE) && !is_nan(EPSILON),
{
    lemma2_to64();
    lemma_pow2_adds(23, 126);
    lemma_pow2_adds(23, 103);
    assert(exponent(ONE) == 127 && fraction(ONE) == 0);
    assert(exponent(EPSILON) == 104 && fraction(EPSILON) == 0);
}

/// Clears the sign bit.
pub fn abs(bits: u32) -> (r: u32)
    ensures
        r == bits as int % 0x8000_0000,
        !is_negative(r),
        is_nan(r) == is_nan(bits),
        value(r) == magnitude(bits),
{
    if bits >= 0x8000_0000 {
        proof {
            lemma_sign_bit(bits);
        }
        bits - 0x8000_0000
    } else {
        bits
    }
}

/// Whether a pattern is a finite number: below the infinity once its sign is
/// cleared.
pub fn finite(bits: u32) -> (r: bool)
    ensures
        r == is_finite(bits),
{
    let plain: u32 = abs(bits);
    proof {
        if is_negative(bits) {
            lemma_sign_bit(bits);
        }
    }
    plain < 0x7f80_0000
}

/// Whether a pattern is no number: above the infinity once its sign is cleared.
fn unordered(bits: u32) -> (r: bool)
    ensures
        r == is_nan(bits),
{
    let plain: u32 = abs(bits);
    proof {
        if is_negative(bits) {
            lemma_sign_bit(bits);
        }
    }
    plain > 0x7f80_0000
}

/// The place of a number in the order of all numbers.
fn rank(bits: u32) -> (r: i64)
    ensures
        r == if is_negative(bits) {
            0x8000_0000 - bits
        } else {
            bits as int
        },
{
    if bits >= 0x8000_0000 {
        0x8000_0000i64 - bits as i64
    } else {
        bits as i64
    }
}

/// `a < b`, by the patterns alone.
pub fn lt(a: u32, b: u32) -> (r: bool)
    ensures
        r == less(a, b),
{
    if unordered(a) || unordered(b) {
        return false;
    }
    proof {
        let pa: u32 = if is_negative(a) {
            (a - 0x8000_0000) as u32
        } else {
            a
        };
        let pb: u32 = if is_negative(b) {
            (b - 0x8000_0000) as u32
        } else {
            b
        };
        if is_negative(a) {
            lemma_sign_bit(a);
        }
        if is_negative(b) {
            lemma_sign_bit(b);
        }
        if pa < pb {
            lemma_magnitude_increases(pa, pb);
        }
        if pb < pa {
            lemma_magnitude_increases(pb, pa);
        }
        if pa > 0 {
            lemma_magnitude_increases(0, pa);
        }
        if pb > 0 {
            lemma_magnitude_increases(0, pb);
        }
        assert(magnitude(0) == 0);
    }
    rank(a) < rank(b)
}

/// The single that equals `n` / 2^24. Every such fraction is one exactly.
pub fn fraction_of_2_24(n: u32) -> (r: u32)
    requires
        n < 0x100_0000,
    ensures
        value(r) == n * pow2(125),
        !is_negative(r),
        !is_nan(r),
{
    if n == 0 {
        return ZERO;
    }
    let mut mantissa: u32 = n;
    let mut exp: u32 = 126;
    proof {
        lemma2_to64();
    }
    while mantissa < 0x80_0000
        invariant
            0 < mantissa < 0x100_0000,
            n * pow2(125) == mantissa * pow2((exp - 1) as nat),
            1 <= exp <= 126,
            pow2((126 - exp) as nat) <= mantissa,
        decreases exp,
    {
        proof {
            lemma2_to64();
            if 126 - exp > 23 {
                lemma_pow2_strictly_increases(23, (126 - exp) as nat);
            }
            lemma_pow2_unfold((exp - 1) as nat);
            lemma_pow2_unfold((127 - exp) as nat);
            assert(mantissa * (2 * pow2((exp - 2) as nat)) == (2 * mantissa) * pow2(
                (exp - 2) as nat,
            )) by (nonlinear_arith);
        }
        mantissa = mantissa * 2;
        exp = exp - 1;
    }
    let bits: u32 = exp * 0x80_0000 + (mantissa - 0x80_0000);
    assert(exponent(bits) == exp);
    assert(fraction(bits) == mantissa - 0x80_0000);
    bits
}

} // verus!
