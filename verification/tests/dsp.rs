//! The masker.

use dropout_plugin::arith::Op;
use dropout_plugin::dsp::{masked, packet_samples, PacketLossMasker};
use dropout_plugin::model::Weights;
use dropout_plugin::rng::Pcg32;
use dropout_plugin::single::{ONE, ZERO};

fn single(op: Op, a: u32, b: u32) -> u32 {
    let (x, y) = (f32::from_bits(a), f32::from_bits(b));
    let r = match op {
        Op::Add => x + y,
        Op::Sub => x - y,
        Op::Mul => x * y,
        Op::Div => x / y,
        Op::Neg => -x,
        Op::Exp => x.exp(),
        Op::Tanh => x.tanh(),
        Op::Round => x.round(),
    };
    r.to_bits()
}

fn double(op: Op, a: u64, b: u64) -> u64 {
    let (x, y) = (f64::from_bits(a), f64::from_bits(b));
    let r = match op {
        Op::Add => x + y,
        Op::Sub => x - y,
        Op::Mul => x * y,
        Op::Div => x / y,
        Op::Neg => -x,
        Op::Exp => x.exp(),
        Op::Tanh => x.tanh(),
        Op::Round => x.round(),
    };
    r.to_bits()
}

fn blank() -> Weights {
    Weights {
        dense_in_w: [[0; 2]; 8],
        dense_in_b: [0; 8],
        gru1_w_ih: [[0; 8]; 24],
        gru1_w_hh: [[0; 8]; 24],
        gru1_b_ih: [0; 24],
        gru1_b_hh: [0; 24],
        gru2_w_ih: [[0; 8]; 48],
        gru2_w_hh: [[0; 16]; 48],
        gru2_b_ih: [0; 48],
        gru2_b_hh: [0; 48],
        dense_out_w: [[0; 16]; 1],
        dense_out_b: [0; 1],
    }
}

/// A model that gives one probability whatever it sees.
fn always(p: f32) -> Weights {
    Weights { dense_out_b: [(p / (1.0 - p)).ln().to_bits()], ..blank() }
}

/// A model with a memory and an eye on its last decision.
fn lively() -> Weights {
    let mut n = 12_345u32;
    let mut next = || {
        n = n.wrapping_mul(1_664_525).wrapping_add(1_013_904_223);
        ((n >> 8) as f32 / 8_388_608.0 - 1.0).to_bits()
    };
    let mut w = blank();
    w.dense_in_w = std::array::from_fn(|_| std::array::from_fn(|_| next()));
    w.gru1_w_ih = std::array::from_fn(|_| std::array::from_fn(|_| next()));
    w.gru1_w_hh = std::array::from_fn(|_| std::array::from_fn(|_| next()));
    w.gru2_w_ih = std::array::from_fn(|_| std::array::from_fn(|_| next()));
    w.gru2_w_hh = std::array::from_fn(|_| std::array::from_fn(|_| next()));
    w.dense_out_w = [std::array::from_fn(|_| next())];
    w
}

fn masker(sample_rate: f64, packet_ms: f32, seed: u64) -> PacketLossMasker {
    PacketLossMasker::new(sample_rate.to_bits(), packet_ms.to_bits(), seed, &double)
}

fn gain(m: &mut PacketLossMasker, perc: f32, w: &Weights) -> f32 {
    f32::from_bits(m.next_sample_gain(perc.to_bits(), w, &single))
}

#[test]
fn hard_zero_and_passthrough() {
    let w = lively();
    let mut m = masker(48_000.0, 1000.0 / 12_000.0, 0);
    // packet_size = round(48000 * (1000/12000)/1000) = round(4) = 4
    assert_eq!(m.packet_size(), 4);
    let g0 = gain(&mut m, 0.5, &w);
    // gain is constant within the packet
    for _ in 0..3 {
        assert_eq!(gain(&mut m, 0.5, &w), g0);
    }
    // new packet boundary -> a (possibly different) constant gain
    let g1 = gain(&mut m, 0.5, &w);
    for _ in 0..3 {
        assert_eq!(gain(&mut m, 0.5, &w), g1);
    }
    assert!(g0 == 0.0 || g0 == 1.0);
    assert!(g1 == 0.0 || g1 == 1.0);
}

#[test]
fn reset_is_deterministic() {
    let w = lively();
    let mut a = masker(48_000.0, 20.0, 42);
    let seq_a: Vec<f32> = (0..5000).map(|_| gain(&mut a, 0.3, &w)).collect();
    let mut b = masker(48_000.0, 20.0, 42);
    let seq_b: Vec<f32> = (0..5000).map(|_| gain(&mut b, 0.3, &w)).collect();
    assert_eq!(seq_a, seq_b, "same seed must produce identical patterns");
}

#[test]
fn realized_loss_tracks_target() {
    // A model whose probability is 0.2 whatever it sees: the realized drop ratio
    // should land near it.
    let w = always(0.2);
    let mut m = masker(48_000.0, 20.0, 7);
    let packet = m.packet_size();
    let packets = 20_000;
    let mut dropped = 0usize;
    for _ in 0..packets {
        let g = gain(&mut m, 0.2, &w);
        if g == 0.0 {
            dropped += 1;
        }
        // skip the rest of the packet (gain constant within it)
        for _ in 1..packet {
            gain(&mut m, 0.2, &w);
        }
    }
    let ratio = dropped as f32 / packets as f32;
    assert!((ratio - 0.2).abs() < 0.05, "realized loss {ratio} should track target 0.2");
}

/// A model whose logit rises with the target loss: what the model sees of it goes
/// through unit 0 of each layer, whose update gates let nothing of the past
/// through, and the last layer is fitted so that the probability is the target at
/// 0.2 and at 0.6.
fn following() -> Weights {
    let shut = (-20.0f32).to_bits();
    let mut w = blank();
    w.dense_in_w[0] = [0, 0.1f32.to_bits()];
    w.gru1_w_ih[16][0] = ONE;
    w.gru2_w_ih[32][0] = ONE;
    for i in 8..16 {
        w.gru1_b_ih[i] = shut;
    }
    for i in 16..32 {
        w.gru2_b_ih[i] = shut;
    }
    let seen = |p: f32| (0.1 * p).tanh().tanh().tanh();
    let logit = |p: f32| (p / (1.0 - p)).ln();
    let slope = (logit(0.6) - logit(0.2)) / (seen(0.6) - seen(0.2));
    w.dense_out_w[0][0] = slope.to_bits();
    w.dense_out_b[0] = (logit(0.2) - slope * seen(0.2)).to_bits();
    w
}

#[test]
fn realized_loss_follows_the_target_through_the_model() {
    let w = following();
    let mut ratios = Vec::new();
    for target in [0.2f32, 0.4, 0.6] {
        let mut m = masker(1000.0, 1.0, 7);
        let packets = 20_000;
        let dropped = (0..packets).filter(|_| gain(&mut m, target, &w) == 0.0).count();
        let ratio = dropped as f32 / packets as f32;
        assert!((ratio - target).abs() < 0.05, "realized loss {ratio} for target {target}");
        ratios.push(ratio);
    }
    assert!(ratios[0] + 0.1 < ratios[1] && ratios[1] + 0.1 < ratios[2]);
}

#[test]
fn a_model_that_heeds_its_last_decision_drops_in_bursts() {
    // As above, with the last decision in place of the target: about one packet in
    // ten is dropped after a keep, and about nine in ten after a drop.
    let mut w = following();
    w.dense_in_w[0] = [0.1f32.to_bits(), 0];
    let logit = 9.0f32.ln();
    let seen = 0.1f32.tanh().tanh().tanh();
    w.dense_out_w[0][0] = (2.0 * logit / seen).to_bits();
    w.dense_out_b[0] = (-logit).to_bits();
    let mut m = masker(1000.0, 1.0, 7);
    let gains: Vec<f32> = (0..20_000).map(|_| gain(&mut m, 0.5, &w)).collect();
    let after = |last: f32| {
        let pairs: Vec<&[f32]> = gains.windows(2).filter(|p| p[0] == last).collect();
        pairs.iter().filter(|p| p[1] == 0.0).count() as f32 / pairs.len() as f32
    };
    assert!((after(1.0) - 0.1).abs() < 0.03);
    assert!((after(0.0) - 0.9).abs() < 0.03);
}

#[test]
fn packet_lengths() {
    let length = |rate: f64, ms: f32| packet_samples(rate.to_bits(), ms.to_bits(), &double);
    assert_eq!(length(48_000.0, 20.0), 960);
    assert_eq!(length(44_100.0, 2.0), 88);
    assert_eq!(length(44_100.0, 80.0), 3528);
    assert_eq!(length(1000.0, 2.5), 3);
    assert_eq!(length(48_000.0, 0.0), 0);
    assert_eq!(length(48_000.0, -5.0), 0);
    assert_eq!(length(f64::NAN, 20.0), 0);
    assert_eq!(length(f64::INFINITY, 20.0), usize::MAX);
}

#[test]
fn a_packet_is_never_empty() {
    let w = always(0.5);
    let mut m = masker(0.0, 20.0, 3);
    assert_eq!(m.packet_size(), 1);
    // One decision per sample then: the gains follow the thresholds one by one.
    let mut rng = Pcg32::new(3);
    for _ in 0..100 {
        let dropped = f32::from_bits(rng.next_f32()) < 0.5;
        assert_eq!(gain(&mut m, 0.5, &w), if dropped { 0.0 } else { 1.0 });
        assert_eq!(m.is_dropping(), dropped);
    }
}

#[test]
fn known_pattern() {
    let w = always(0.5);
    let mut m = masker(1000.0, 2.0, 42);
    assert_eq!(m.packet_size(), 2);
    let mut pattern = String::new();
    for _ in 0..12 {
        let first = gain(&mut m, 0.0, &w);
        assert_eq!(gain(&mut m, 0.0, &w), first);
        pattern.push(if first == 0.0 { 'D' } else { '.' });
    }
    assert_eq!(pattern, ".....DDD..D.");
}

#[test]
fn reset_restarts_the_pattern() {
    let w = lively();
    let mut m = masker(48_000.0, 2.0, 42);
    let first: Vec<f32> = (0..1000).map(|_| gain(&mut m, 0.3, &w)).collect();
    m.reset(42);
    assert!(!m.is_dropping());
    let again: Vec<f32> = (0..1000).map(|_| gain(&mut m, 0.3, &w)).collect();
    assert_eq!(first, again);
    m.reset(43);
    let mut other = masker(48_000.0, 2.0, 43);
    let third: Vec<f32> = (0..1000).map(|_| gain(&mut m, 0.3, &w)).collect();
    let fourth: Vec<f32> = (0..1000).map(|_| gain(&mut other, 0.3, &w)).collect();
    assert_eq!(third, fourth);
}

#[test]
fn resizing_moves_the_cursor_only_if_it_overran() {
    let w = always(0.5);
    // Two twins; after three samples of four one shrinks to two samples, which
    // puts it at a boundary, and the other to six, which does not.
    let mut shrunk = masker(1000.0, 4.0, 9);
    let mut grown = masker(1000.0, 4.0, 9);
    for _ in 0..3 {
        gain(&mut shrunk, 0.5, &w);
        gain(&mut grown, 0.5, &w);
    }
    shrunk.resize(2);
    grown.resize(6);
    assert_eq!((shrunk.packet_size(), grown.packet_size()), (2, 6));
    let mut rng = Pcg32::new(9);
    let first = f32::from_bits(rng.next_f32()) < 0.5;
    let second = f32::from_bits(rng.next_f32()) < 0.5;
    let as_gain = |dropped: bool| if dropped { 0.0 } else { 1.0 };
    assert_eq!(gain(&mut shrunk, 0.5, &w), as_gain(second));
    for _ in 0..3 {
        assert_eq!(gain(&mut grown, 0.5, &w), as_gain(first));
    }
    assert_eq!(gain(&mut grown, 0.5, &w), as_gain(second));
    let mut empty = masker(1000.0, 4.0, 9);
    empty.resize(0);
    assert_eq!(empty.packet_size(), 1);
}

#[test]
fn set_packet_size_uses_rate_and_milliseconds() {
    let mut m = masker(48_000.0, 20.0, 1);
    m.set_packet_size(96_000.0f64.to_bits(), 10.0f32.to_bits(), &double);
    assert_eq!(m.packet_size(), 960);
    m.set_packet_size(44_100.0f64.to_bits(), 2.0f32.to_bits(), &double);
    assert_eq!(m.packet_size(), 88);
}

#[test]
fn certain_probabilities() {
    for seed in 0..50 {
        let mut m = masker(1000.0, 1.0, seed);
        for p in [0.0f32, -1.0, f32::NAN, f32::NEG_INFINITY] {
            m.settle(p.to_bits());
            assert!(!m.is_dropping());
        }
        for p in [1.0f32, 2.0, f32::INFINITY] {
            m.settle(p.to_bits());
            assert!(m.is_dropping());
        }
    }
}

#[test]
fn a_larger_probability_drops_more() {
    for seed in 0..200 {
        let mut low = masker(1000.0, 1.0, seed);
        let mut high = masker(1000.0, 1.0, seed);
        low.settle(0.3f32.to_bits());
        high.settle(0.6f32.to_bits());
        assert!(!low.is_dropping() || high.is_dropping());
    }
}

#[test]
fn the_model_sees_its_last_decision() {
    // The only input that counts is the last decision: with a weight of 20 on
    // it, and a bias of -10 at the output, a drop makes the next one certain
    // and a keep makes it all but impossible.
    let mut w = blank();
    w.dense_in_w[0] = [20.0f32.to_bits(), ZERO];
    w.gru1_w_ih[16][0] = 20.0f32.to_bits();
    w.gru1_b_ih[8] = (-100.0f32).to_bits();
    w.gru2_w_ih[32][0] = 20.0f32.to_bits();
    w.gru2_b_ih[16] = (-100.0f32).to_bits();
    w.dense_out_w[0][0] = 40.0f32.to_bits();
    w.dense_out_b = [(-20.0f32).to_bits()];
    let mut m = masker(1000.0, 1.0, 42);
    for _ in 0..20 {
        assert_eq!(gain(&mut m, 0.5, &w), 1.0);
    }
    m.settle(ONE);
    for _ in 0..20 {
        assert_eq!(gain(&mut m, 0.5, &w), 0.0);
    }
}

#[test]
fn decide_draws_one_threshold() {
    let w = always(0.5);
    let mut m = masker(1000.0, 5.0, 11);
    let mut rng = Pcg32::new(11);
    for _ in 0..50 {
        m.decide(0.5f32.to_bits(), &w, &single);
        assert_eq!(m.is_dropping(), f32::from_bits(rng.next_f32()) < 0.5);
    }
}

#[test]
fn each_packet_is_decided_at_the_loss_of_its_first_sample() {
    let w = Weights { dense_in_w: [[0, ONE]; 8], ..lively() };
    let losses = [0.1f32, 0.9, 0.3, 0.7, 0.5, 0.2, 0.8];
    let mut m = masker(1000.0, 5.0, 3);
    let mut one_by_one = masker(1000.0, 1.0, 3);
    // Between boundaries the target loss is anything.
    for loss in losses {
        let decided = gain(&mut one_by_one, loss, &w);
        assert_eq!(gain(&mut m, loss, &w), decided);
        for noise in [0.0, 1.0, f32::NAN, -4.0] {
            assert_eq!(gain(&mut m, noise, &w), decided);
        }
    }
}

#[test]
fn reset_after_any_history_is_a_new_masker() {
    let w = lively();
    let mut m = masker(1000.0, 5.0, 1);
    for i in 0..37 {
        gain(&mut m, 0.01 * i as f32, &w);
    }
    m.reset(8);
    gain(&mut m, 0.4, &w);
    m.reset(21);
    assert!(!m.is_dropping());
    let mut new = masker(1000.0, 5.0, 21);
    for i in 0..500 {
        let loss = (i % 100) as f32 / 100.0;
        assert_eq!(gain(&mut m, loss, &w), gain(&mut new, loss, &w));
    }
}

#[test]
fn resized_and_reset_is_a_new_masker() {
    let w = lively();
    let mut m = masker(44_100.0, 20.0, 1);
    for _ in 0..700 {
        gain(&mut m, 0.6, &w);
    }
    m.set_packet_size(1000.0f64.to_bits(), 7.0f32.to_bits(), &double);
    m.reset(5);
    let mut new = masker(1000.0, 7.0, 5);
    assert_eq!(m.packet_size(), new.packet_size());
    assert_eq!(m.is_dropping(), new.is_dropping());
    for i in 0..500 {
        let loss = (i % 90) as f32 / 90.0;
        assert_eq!(gain(&mut m, loss, &w), gain(&mut new, loss, &w));
    }
}

#[test]
fn masking_multiplies_by_the_gain() {
    let samples = [0.0f32, -0.0, 0.5, -0.5, 1e-40, f32::MAX, f32::INFINITY, f32::NEG_INFINITY, f32::NAN];
    for x in samples {
        assert_eq!(masked(x.to_bits(), ONE), x.to_bits());
        let silent = f32::from_bits(masked(x.to_bits(), ZERO));
        let product = x * 0.0;
        if product.is_nan() {
            assert!(silent.is_nan());
        } else {
            assert_eq!(silent.to_bits(), product.to_bits());
        }
    }
}
