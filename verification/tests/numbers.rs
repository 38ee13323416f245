//! Numbers by their bit patterns, held against the machine's own.

use dropout_plugin::double::{as_count, widen, THOUSAND};
use dropout_plugin::single::{abs, finite, fraction_of_2_24, lt, EPSILON, NAN, ONE, ZERO};

fn singles() -> Vec<f32> {
    let mut all = vec![
        0.0f32,
        f32::from_bits(1),
        f32::from_bits(0x007f_ffff),
        f32::MIN_POSITIVE,
        f32::EPSILON,
        0.2,
        0.5,
        0.999_999_94,
        1.0,
        1.000_000_1,
        2.0,
        20.0,
        80.0,
        16_777_216.0,
        f32::MAX,
        f32::INFINITY,
        f32::NAN,
        f32::from_bits(0x7f80_0001),
        f32::from_bits(0x7fff_ffff),
    ];
    let negative: Vec<f32> = all.iter().map(|x| -x).collect();
    all.extend(negative);
    all
}

#[test]
fn constants_are_the_numbers_they_name() {
    assert_eq!(f32::from_bits(ZERO), 0.0);
    assert_eq!(f32::from_bits(ONE), 1.0);
    assert_eq!(f32::from_bits(EPSILON), f32::EPSILON);
    assert!(f32::from_bits(NAN).is_nan());
    assert_eq!(f64::from_bits(THOUSAND), 1000.0);
}

#[test]
fn order_agrees_on_all_pairs() {
    for a in singles() {
        for b in singles() {
            assert_eq!(lt(a.to_bits(), b.to_bits()), a < b, "{a:?} < {b:?}");
        }
    }
}

#[test]
fn absolute_value_and_finiteness_agree() {
    for a in singles() {
        assert_eq!(abs(a.to_bits()), a.abs().to_bits());
        assert_eq!(finite(a.to_bits()), a.is_finite());
    }
}

#[test]
fn fractions_are_exact() {
    let mut n = 0u32;
    while n < 1 << 24 {
        let expected = n as f32 / (1u32 << 24) as f32;
        assert_eq!(fraction_of_2_24(n), expected.to_bits());
        n += 1 + n / 50;
    }
    assert_eq!(fraction_of_2_24(1), (1.0f32 / 16_777_216.0).to_bits());
    assert_eq!(fraction_of_2_24(0xff_ffff), 0x3f7f_ffff);
}

#[test]
fn widening_keeps_the_number() {
    for a in singles() {
        let wide = f64::from_bits(widen(a.to_bits()));
        if a.is_nan() {
            assert!(wide.is_nan());
        } else {
            assert_eq!(wide.to_bits(), f64::from(a).to_bits(), "{a:?}");
        }
    }
}

#[test]
fn counts_agree() {
    let all = [
        0.0f64,
        -0.0,
        f64::MIN_POSITIVE,
        0.5,
        0.999_999_999_999_999_9,
        1.0,
        1.5,
        4.0,
        960.0,
        3840.75,
        4_503_599_627_370_495.5,
        4_503_599_627_370_496.0,
        9_007_199_254_740_992.0,
        9_223_372_036_854_775_808.0,
        18_446_744_073_709_549_568.0,
        18_446_744_073_709_551_616.0,
        1e300,
        f64::INFINITY,
        f64::NAN,
        -1.0,
        -1e300,
        f64::NEG_INFINITY,
        -f64::NAN,
    ];
    for x in all {
        assert_eq!(as_count(x.to_bits()), x as usize, "{x:?}");
    }
}
