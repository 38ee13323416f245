//! The generator.

use dropout_plugin::rng::Pcg32;

#[test]
fn words_of_known_seeds() {
    let cases: [(u64, [u32; 4]); 4] = [
        (0, [0x69c8_7837, 0x6694_bd1c, 0xa37b_7ac6, 0x572d_246c]),
        (42, [0xcb73_8720, 0xd122_1c21, 0xd30a_4869, 0x9025_c65e]),
        (7, [0x0bbd_8881, 0x2154_1536, 0xf8fc_cce1, 0x9ea1_a472]),
        (u64::MAX, [0xf8f2_d447, 0xe659_0baa, 0xb869_1631, 0x84c5_8365]),
    ];
    for (seed, words) in cases {
        let mut rng = Pcg32::new(seed);
        for word in words {
            assert_eq!(rng.next_u32(), word);
        }
    }
}

#[test]
fn singles_are_the_top_24_bits() {
    let mut words = Pcg32::new(42);
    let mut singles = Pcg32::new(42);
    for _ in 0..1000 {
        let expected = (words.next_u32() >> 8) as f32 / (1u32 << 24) as f32;
        let x = f32::from_bits(singles.next_f32());
        assert_eq!(x, expected);
        assert!((0.0..1.0).contains(&x));
    }
}

#[test]
fn seeds_that_share_a_stream_still_differ() {
    // The top bit of a seed is not part of its stream, only of its start.
    let mut a = Pcg32::new(5);
    let mut b = Pcg32::new(5 | 1 << 63);
    let first: Vec<u32> = (0..8).map(|_| a.next_u32()).collect();
    let second: Vec<u32> = (0..8).map(|_| b.next_u32()).collect();
    assert_ne!(first, second);
}

#[test]
fn thresholds_spread_evenly() {
    let mut rng = Pcg32::new(1);
    let mut buckets = [0u32; 16];
    for _ in 0..16_000 {
        let x = f32::from_bits(rng.next_f32());
        buckets[(x * 16.0) as usize] += 1;
    }
    for count in buckets {
        assert!((850..1150).contains(&count), "{count}");
    }
}
