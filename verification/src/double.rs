//! Double-precision numbers, held by their bit patterns.
//!
//! As [`crate::single`] for the IEEE 754 binary64 encoding: a sign bit, eleven
//! bits of exponent and fifty-two bits of fraction. Every finite double is a
//! whole multiple of 2^-1074, so its value is given exactly by an integer in
//! that unit.

use vstd::prelude::*;
use vstd::arithmetic::div_mod::{lemma_basic_div, lemma_div_denominator, lemma_div_multiples_vanish};
use vstd::arithmetic::power2::{
    lemma2_to64, lemma2_to64_rest, lemma_pow2_adds, lemma_pow2_pos, lemma_pow2_strictly_increases,
    lemma_pow2_unfold, pow2,
};
use vstd::bits::{lemma_u64_shl_is_mul, lemma_u64_shr_is_div};

use crate::single;

verus! {

/// The pattern of 1000.0.
pub const THOUSAND: u64 = 0x408f_4000_0000_0000;

/// The exponent field of a pattern.
pub open spec fn exponent(bits: u64) -> int {
    (bits as int / 0x10_0000_0000_0000) % 2048
}

/// The fraction field of a pattern.
pub open spec fn fraction(bits: u64) -> int {
    bits as int % 0x10_0000_0000_0000
}

/// Whether the sign bit of a pattern is set.
pub open spec fn is_negative(bits: u64) -> bool {
    bits >= 0x8000_0000_0000_0000
}

/// Whether a pattern stands for no number at all.
pub open spec fn is_nan(bits: u64) -> bool {
    exponent(bits) == 2047 && fraction(bits) != 0
}

/// The absolute value that a pattern stands for, in units of 2^-1074. An
/// infinity is given the integer above those of all finite numbers.
pub open spec fn magnitude(bits: u64) -> int {
    if exponent(bits) == 0 {
        fraction(bits)
    } else {
        (fraction(bits) + 0x10_0000_0000_0000) * pow2((exponent(bits) - 1) as nat)
    }
}

/// Whether the double `d` is the single `b`: the same sign and the same number.
/// What is no finite number keeps its fraction field, at the upper end of the
/// longer one.
pub open spec fn widens(b: u32, d: u64) -> bool {
    &&& is_negative(d) == single::is_negative(b)
    &&& exponent(d) == 2047 <==> single::exponent(b) == 255
    &&& if single::exponent(b) == 255 {
        fraction(d) == single::fraction(b) * 0x2000_0000
    } else {
        magnitude(d) == single::magnitude(b) * pow2(925)
    }
}

/// A double as a count: its whole part, 0 for what is negative or no number,
/// and the largest count for what is larger.
pub open spec fn count(bits: u64) -> int {
    if is_nan(bits) || is_negative(bits) {
        0
    } else if magnitude(bits) / (pow2(1074) as int) > usize::MAX {
        usize::MAX as int
    } else {
        magnitude(bits) / (pow2(1074) as int)
    }
}

/// Among patterns without a sign bit, a larger pattern is a larger number.
pub proof fn lemma_magnitude_increases(a: u64, b: u64)
    requires
        a < b < 0x8000_0000_0000_0000,
    ensures
        magnitude(a) < magnitude(b),
{
    let (ea, fa) = (exponent(a), fraction(a));
    let (eb, fb) = (exponent(b), fraction(b));
    assert(a == ea * 0x10_0000_0000_0000 + fa);
    assert(b == eb * 0x10_0000_0000_0000 + fb);
    let high = pow2((eb - 1) as nat);
    lemma_pow2_pos((eb - 1) as nat);
    if eb == 0 {
        assert(fa < fb);
    } else if ea == eb {
        assert((fa + 0x10_0000_0000_0000) * high < (fb + 0x10_0000_0000_0000) * high)
            by (nonlinear_arith)
            requires
                fa < fb,
                high > 0,
        ;
    } else if ea == 0 {
        assert(0x10_0000_0000_0000 <= (fb + 0x10_0000_0000_0000) * high) by (nonlinear_arith)
            requires
                fb >= 0,
                high >= 1,
        ;
    } else {
        let low = pow2((ea - 1) as nat);
        let gap = pow2((eb - 1 - ea) as nat);
        lemma_pow2_pos((ea - 1) as nat);
        lemma_pow2_pos((eb - 1 - ea) as nat);
        lemma_pow2_unfold(ea as nat);
        lemma_pow2_adds(ea as nat, (eb - 1 - ea) as nat);
        assert(2 * low <= high) by (nonlinear_arith)
            requires
                high == (2 * low) * gap,
                gap >= 1,
                low >= 1,
        ;
        assert((fa + 0x10_0000_0000_0000) * low < (fb + 0x10_0000_0000_0000) * high)
            by (nonlinear_arith)
            requires
                0 <= fa < 0x10_0000_0000_0000,
                0 <= fb,
                low >= 1,
                2 * low <= high,
        ;
    }
}

/// A single is one double.
pub proof fn lemma_widens_once(b: u32, c: u64, d: u64)
    requires
        widens(b, c),
        widens(b, d),
    ensures
        c == d,
{
    let pc: u64 = if is_negative(c) {
        (c - 0x8000_0000_0000_0000) as u64
    } else {
        c
    };
    let pd: u64 = if is_negative(d) {
        (d - 0x8000_0000_0000_0000) as u64
    } else {
        d
    };
    assert(exponent(pc) == exponent(c) && fraction(pc) == fraction(c)) by {
        assert(is_negative(c) ==> c as int / 0x10_0000_0000_0000 == pc as int / 0x10_0000_0000_0000
            + 2048);
    }
    assert(exponent(pd) == exponent(d) && fraction(pd) == fraction(d)) by {
        assert(is_negative(d) ==> d as int / 0x10_0000_0000_0000 == pd as int / 0x10_0000_0000_0000
            + 2048);
    }
    if pc < pd {
        lemma_magnitude_increases(pc, pd);
    } else if pd < pc {
        lemma_magnitude_increases(pd, pc);
    }
}

/// The fields of a pattern put together.
proof fn lemma_fields(negative: bool, e: u64, m: u64)
    requires
        e < 2048,
        m < 0x10_0000_0000_0000,
    ensures
        e * 0x10_0000_0000_0000 + m < 0x8000_0000_0000_0000,
        ({
            let plain = (e * 0x10_0000_0000_0000 + m) as u64;
            let bits = if negative {
                (plain + 0x8000_0000_0000_0000) as u64
            } else {
                plain
            };
            exponent(bits) == e && fraction(bits) == m && is_negative(bits) == negative
        }),
{
    let plain = (e * 0x10_0000_0000_0000 + m) as u64;
    assert(plain as int / 0x10_0000_0000_0000 == e);
    assert((plain + 0x8000_0000_0000_0000) / 0x10_0000_0000_0000 == e + 2048);
}

/// The double that equals a single.
pub fn widen(bits: u32) -> (r: u64)
    ensures
        widens(bits, r),
{
    let plain: u32 = single::abs(bits);
    let negative: bool = bits >= 0x8000_0000;
    let e: u64 = (plain / 0x80_0000) as u64;
    let m: u64 = (plain % 0x80_0000) as u64;
    assert(single::exponent(bits) == e && single::fraction(bits) == m) by {
        assert(negative ==> bits as int / 0x80_0000 == plain as int / 0x80_0000 + 256);
    }

    let mut exp: u64 = 2047;
    let mut mantissa: u64 = m + 0x80_0000;
    if e == 0 {
        if m == 0 {
            proof {
                lemma_fields(negative, 0, 0);
                assert(0 * pow2(925) == 0) by (nonlinear_arith);
            }
            return if negative { 0x8000_0000_0000_0000 } else { 0 };
        }
        exp = 897;
        mantissa = m;
        proof {
            lemma2_to64();
        }
        while mantissa < 0x80_0000
            invariant
                0 < mantissa < 0x100_0000,
                874 <= exp <= 897,
                m * pow2(925) == mantissa * pow2((exp + 28) as nat),
                pow2((897 - exp) as nat) <= mantissa,
            decreases exp,
        {
            proof {
                lemma2_to64();
                if 897 - exp > 22 {
                    if 897 - exp > 23 {
                        lemma_pow2_strictly_increases(23, (897 - exp) as nat);
                    }
                    assert(false);
                }
                lemma_pow2_unfold((exp + 28) as nat);
                lemma_pow2_unfold((898 - exp) as nat);
                assert(mantissa * (2 * pow2((exp + 27) as nat)) == (2 * mantissa) * pow2(
                    (exp + 27) as nat,
                )) by (nonlinear_arith);
            }
            mantissa = mantissa * 2;
            exp = exp - 1;
        }
    } else if e < 255 {
        exp = e + 896;
        proof {
            lemma_pow2_adds((e - 1) as nat, 925);
            assert((m + 0x80_0000) * pow2((e - 1) as nat) * pow2(925) == (m + 0x80_0000) * (pow2(
                (e - 1) as nat,
            ) * pow2(925))) by (nonlinear_arith);
        }
    }
    let frac: u64 = (mantissa - 0x80_0000) * 0x2000_0000;
    proof {
        lemma_fields(negative, exp, frac);
        if e < 255 {
            lemma2_to64();
            lemma_pow2_adds((exp - 1) as nat, 29);
            assert((mantissa * 0x2000_0000) * pow2((exp - 1) as nat) == mantissa * (pow2(
                (exp - 1) as nat,
            ) * 0x2000_0000)) by (nonlinear_arith);
        }
    }
    let r: u64 = exp * 0x10_0000_0000_0000 + frac;
    if negative {
        r + 0x8000_0000_0000_0000
    } else {
        r
    }
}

/// A double as a count of samples.
pub fn as_count(bits: u64) -> (r: usize)
    ensures
        r == count(bits),
{
    if bits > 0x7ff0_0000_0000_0000 {
        proof {
            if !is_negative(bits) {
                assert(bits as int / 0x10_0000_0000_0000 == 2047);
            }
        }
        return 0;
    }
    let e: u64 = bits / 0x10_0000_0000_0000;
    let m: u64 = bits % 0x10_0000_0000_0000;
    assert(exponent(bits) == e && fraction(bits) == m);
    let mantissa: u64 = m + 0x10_0000_0000_0000;
    let ghost unit = pow2(1074) as int;
    proof {
        lemma2_to64();
        lemma2_to64_rest();
        lemma_pow2_pos(1074);
    }
    if e < 1023 {
        proof {
            if e == 0 {
                lemma_pow2_strictly_increases(52, 1074);
            } else {
                let scale = pow2((e - 1) as nat);
                lemma_pow2_pos((e - 1) as nat);
                lemma_pow2_adds(53, (e - 1) as nat);
                assert(mantissa * scale < 0x20_0000_0000_0000 * scale) by (nonlinear_arith)
                    requires
                        mantissa < 0x20_0000_0000_0000,
                        scale > 0,
                ;
                assert(mantissa * scale >= 0) by (nonlinear_arith)
                    requires
                        mantissa >= 0,
                        scale >= 0,
                ;
                if e < 1022 {
                    lemma_pow2_strictly_increases((52 + e) as nat, 1074);
                }
            }
            lemma_basic_div(magnitude(bits), unit);
        }
        return 0;
    }
    if e > 1086 {
        proof {
            let scale = pow2((e - 1) as nat);
            lemma_pow2_adds(52, (e - 1) as nat);
            lemma_pow2_adds(1074, 64);
            if e > 1087 {
                lemma_pow2_strictly_increases(1138, (51 + e) as nat);
            }
            lemma_pow2_pos((e - 1) as nat);
            assert(mantissa * scale >= 0x10_0000_0000_0000 * scale) by (nonlinear_arith)
                requires
                    mantissa >= 0x10_0000_0000_0000,
                    scale >= 0,
            ;
            let whole = mantissa * scale;
            assert(whole / unit >= 0x1_0000_0000_0000_0000) by (nonlinear_arith)
                requires
                    whole >= unit * 0x1_0000_0000_0000_0000,
                    unit > 0,
            ;
        }
        return usize::MAX;
    }
    let whole: u64;
    if e > 1075 {
        let shift: u64 = e - 1075;
        proof {
            lemma_pow2_adds(1074, shift as nat);
            if shift < 11 {
                lemma_pow2_strictly_increases(shift as nat, 11);
            }
            let factor = pow2(shift as nat) as int;
            assert(mantissa * factor <= 0x1f_ffff_ffff_ffff * 0x800) by (nonlinear_arith)
                requires
                    0 <= mantissa <= 0x1f_ffff_ffff_ffff,
                    0 <= factor <= 0x800,
            ;
            lemma_u64_shl_is_mul(mantissa, shift);
            assert(mantissa * (unit * factor) == unit * (mantissa * factor)) by (nonlinear_arith);
            lemma_div_multiples_vanish(mantissa * factor, unit);
        }
        whole = mantissa << shift;
    } else {
        let shift: u64 = 1075 - e;
        whole = mantissa >> shift;
        proof {
            lemma_u64_shr_is_div(mantissa, shift);
            let scale = pow2((e - 1) as nat) as int;
            let den = pow2(shift as nat) as int;
            lemma_pow2_pos((e - 1) as nat);
            lemma_pow2_pos(shift as nat);
            lemma_pow2_adds((e - 1) as nat, shift as nat);
            lemma_div_denominator(mantissa * scale, scale, den);
            lemma_div_multiples_vanish(mantissa as int, scale);
            assert(mantissa * scale == scale * mantissa) by (nonlinear_arith);
        }
    }
    if whole > usize::MAX as u64 {
        usize::MAX
    } else {
        whole as usize
    }
}

} // verus!
