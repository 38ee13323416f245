//! The plugin, block by block.

use dropout_plugin::arith::Op;
use dropout_plugin::model::Weights;
use dropout_plugin::plugin::{render, DropoutPlugin, DropoutPluginParams, INITIAL_SAMPLE_RATE};
use dropout_plugin::rng::Pcg32;
use dropout_plugin::single::{ONE, ZERO};

fn single(op: Op, a: u32, b: u32) -> u32 {
    let (x, y) = (f32::from_bits(a), f32::from_bits(b));
    let r = match op {
        Op::Add => x + y,
        Op::Sub => x - y,
        Op::Mul => x * y,
        Op::Div => x / y,
        Op::Neg => -x,
        Op::Exp => x.exp(),
        Op::Tanh => x.tanh(),
        Op::Round => x.round(),
    };
    r.to_bits()
}

fn double(op: Op, a: u64, b: u64) -> u64 {
    let (x, y) = (f64::from_bits(a), f64::from_bits(b));
    let r = match op {
        Op::Add => x + y,
        Op::Sub => x - y,
        Op::Mul => x * y,
        Op::Div => x / y,
        Op::Neg => -x,
        Op::Exp => x.exp(),
        Op::Tanh => x.tanh(),
        Op::Round => x.round(),
    };
    r.to_bits()
}

/// A model that gives the probability one half whatever it sees.
fn even() -> Weights {
    Weights {
        dense_in_w: [[0; 2]; 8],
        dense_in_b: [0; 8],
        gru1_w_ih: [[0; 8]; 24],
        gru1_w_hh: [[0; 8]; 24],
        gru1_b_ih: [0; 24],
        gru1_b_hh: [0; 24],
        gru2_w_ih: [[0; 8]; 48],
        gru2_w_hh: [[0; 16]; 48],
        gru2_b_ih: [0; 48],
        gru2_b_hh: [0; 48],
        dense_out_w: [[0; 16]; 1],
        dense_out_b: [0; 1],
    }
}

fn params(packet_ms: f32, seed: i64, bypass: bool) -> DropoutPluginParams {
    DropoutPluginParams { loss: 0.2f32.to_bits(), packet_ms: packet_ms.to_bits(), seed, bypass }
}

fn at(sample_rate: f64, p: &DropoutPluginParams) -> DropoutPlugin {
    let mut plugin = DropoutPlugin::new(p, &double);
    plugin.reset(sample_rate.to_bits(), p, &double);
    plugin
}

/// The gains of `n` samples in packets of `size`, straight from the generator.
fn expected(seed: u64, size: usize, n: usize) -> Vec<u32> {
    let mut rng = Pcg32::new(seed);
    let mut gains = Vec::new();
    while gains.len() < n {
        let dropped = f32::from_bits(rng.next_f32()) < 0.5;
        for _ in 0..size {
            gains.push(if dropped { ZERO } else { ONE });
        }
    }
    gains.truncate(n);
    gains
}

#[test]
fn starts_at_48_kilohertz() {
    assert_eq!(f64::from_bits(INITIAL_SAMPLE_RATE), 48_000.0);
    let p = params(2.0, 42, false);
    let mut plugin = DropoutPlugin::new(&p, &double);
    let mut gains = [7u32; 1000];
    let status = plugin.process(&p, &even(), &single, &double, &mut gains);
    assert!(!status.passthrough);
    assert_eq!(gains.to_vec(), expected(42, 96, 1000));
}

#[test]
fn blocks_follow_each_other() {
    let p = params(5.0, 42, false);
    let mut whole = at(1000.0, &p);
    let mut cut = at(1000.0, &p);
    let mut gains = [0u32; 100];
    whole.process(&p, &even(), &single, &double, &mut gains);
    let mut pieces = Vec::new();
    for n in [1usize, 7, 0, 42, 50] {
        let mut block = vec![0u32; n];
        cut.process(&p, &even(), &single, &double, &mut block);
        pieces.extend(block);
    }
    assert_eq!(gains.to_vec(), pieces);
    assert_eq!(pieces, expected(42, 5, 100));
}

#[test]
fn plugins_in_one_state_agree() {
    let p = params(5.0, 42, false);
    let mut a = at(1000.0, &p);
    let mut b = at(1000.0, &p);
    // Seed and packet size change along the way, for both alike.
    for q in [params(5.0, 42, false), params(3.0, 42, false), params(4.0, 9, false)] {
        let mut one = [0u32; 31];
        let mut two = [7u32; 31];
        let first = a.process(&q, &even(), &single, &double, &mut one);
        let second = b.process(&q, &even(), &single, &double, &mut two);
        assert_eq!(one, two);
        assert_eq!(first.activity, second.activity);
    }
}

#[test]
fn a_packet_runs_on_into_a_block_with_another_loss() {
    let p = params(5.0, 42, false);
    let mut q = params(5.0, 42, false);
    q.loss = 0.9f32.to_bits();
    let mut steady = at(1000.0, &p);
    let mut changed = at(1000.0, &p);
    let mut whole = [0u32; 40];
    steady.process(&p, &even(), &single, &double, &mut whole);
    let mut head = [0u32; 28];
    changed.process(&p, &even(), &single, &double, &mut head);
    let mut tail = [7u32; 12];
    changed.process(&q, &even(), &single, &double, &mut tail);
    // The packet of samples 25 to 29 is dropped, and stays so to its end.
    assert_eq!(head[25..], [ZERO; 3]);
    assert_eq!(tail[..2], [ZERO; 2]);
    let mut pieces = head.to_vec();
    pieces.extend(tail);
    assert_eq!(pieces, whole);
}

#[test]
fn a_reset_forgets_what_went_before() {
    let p = params(4.0, 9, false);
    let mut young = at(2000.0, &p);
    let mut old = at(1000.0, &params(7.0, 1, false));
    let mut gains = [0u32; 23];
    old.process(&params(3.0, 2, false), &even(), &single, &double, &mut gains);
    old.reset(2000.0f64.to_bits(), &p, &double);
    for q in [params(4.0, 9, false), params(4.0, 9, true), params(6.0, 3, false)] {
        let mut one = [5u32; 50];
        let mut two = [5u32; 50];
        let first = young.process(&q, &even(), &single, &double, &mut one);
        let second = old.process(&q, &even(), &single, &double, &mut two);
        assert_eq!(one, two);
        assert_eq!(first.passthrough, second.passthrough);
        assert_eq!(first.activity, second.activity);
    }
}

#[test]
fn channels_share_the_gains() {
    let p = params(5.0, 42, false);
    let mut plugin = at(1000.0, &p);
    let mut gains = [0u32; 30];
    let status = plugin.process(&p, &even(), &single, &double, &mut gains);
    for level in [0.25f32, -3.0] {
        let mut out = [1u32; 30];
        render(&status, &gains, &[level.to_bits(); 30], &mut out);
        for i in 0..30 {
            assert_eq!(out[i], (level * f32::from_bits(gains[i])).to_bits());
        }
        assert_eq!(f32::from_bits(out[25]), 0.0);
        assert_eq!(f32::from_bits(out[24]), level);
    }
}

#[test]
fn output_joins_as_blocks_do() {
    let p = params(5.0, 42, false);
    let input: Vec<u32> = (0..40).map(|i| (i as f32 - 20.0).to_bits()).collect();
    let mut whole = at(1000.0, &p);
    let mut gains = [0u32; 40];
    let status = whole.process(&p, &even(), &single, &double, &mut gains);
    let mut out = [0u32; 40];
    render(&status, &gains, &input, &mut out);
    let mut cut = at(1000.0, &p);
    let mut pieces = Vec::new();
    let mut meter = ZERO;
    for (a, b) in [(0usize, 27usize), (27, 40)] {
        let mut part = vec![0u32; b - a];
        let last = cut.process(&p, &even(), &single, &double, &mut part);
        let mut rendered = vec![0u32; b - a];
        render(&last, &part, &input[a..b], &mut rendered);
        pieces.extend(rendered);
        meter = last.activity;
    }
    assert_eq!(out.to_vec(), pieces);
    assert_eq!(status.activity, meter);
}

#[test]
fn passthrough_renders_the_input() {
    let p = params(5.0, 42, true);
    let mut plugin = at(1000.0, &p);
    let mut gains = [9u32; 4];
    let status = plugin.process(&p, &even(), &single, &double, &mut gains);
    let input = [f32::NAN.to_bits(), 0x8000_0000, ONE, f32::INFINITY.to_bits()];
    let mut out = [1u32; 4];
    render(&status, &gains, &input, &mut out);
    assert_eq!(out, input);
}

#[test]
fn bypass_touches_nothing() {
    let p = params(5.0, 42, false);
    let mut plugin = at(1000.0, &p);
    let mut gains = [0u32; 13];
    plugin.process(&p, &even(), &single, &double, &mut gains);
    // A bypassed block, even with another seed and packet size in it.
    let mut untouched = [9u32; 64];
    let status = plugin.process(&params(50.0, 1, true), &even(), &single, &double, &mut untouched);
    assert!(status.passthrough);
    assert_eq!(status.activity, ZERO);
    assert_eq!(untouched, [9u32; 64]);
    let mut rest = [0u32; 20];
    plugin.process(&p, &even(), &single, &double, &mut rest);
    let mut all = gains.to_vec();
    all.extend(rest);
    assert_eq!(all, expected(42, 5, 33));
}

#[test]
fn a_new_seed_restarts_at_the_block() {
    let mut plugin = at(1000.0, &params(5.0, 42, false));
    let mut gains = [0u32; 13];
    plugin.process(&params(5.0, 42, false), &even(), &single, &double, &mut gains);
    let mut next = [0u32; 40];
    plugin.process(&params(5.0, 43, false), &even(), &single, &double, &mut next);
    assert_eq!(next.to_vec(), expected(43, 5, 40));
    // The same seed again goes on.
    let mut more = [0u32; 10];
    plugin.process(&params(5.0, 43, false), &even(), &single, &double, &mut more);
    assert_eq!(more.to_vec(), expected(43, 5, 50)[40..].to_vec());
}

#[test]
fn a_negative_seed_is_a_seed_too() {
    let p = params(5.0, -1, false);
    let mut plugin = at(1000.0, &p);
    let mut gains = [0u32; 40];
    plugin.process(&p, &even(), &single, &double, &mut gains);
    assert_eq!(gains.to_vec(), expected(u64::MAX, 5, 40));
}

#[test]
fn a_new_packet_size_is_picked_up() {
    let mut plugin = at(1000.0, &params(4.0, 42, false));
    let mut gains = [0u32; 4];
    plugin.process(&params(4.0, 42, false), &even(), &single, &double, &mut gains);
    let mut next = [0u32; 8];
    plugin.process(&params(2.0, 42, false), &even(), &single, &double, &mut next);
    let thresholds = expected(42, 1, 5);
    assert_eq!(gains, [thresholds[0]; 4]);
    for (k, gain) in next.iter().enumerate() {
        assert_eq!(*gain, thresholds[1 + k / 2]);
    }
}

#[test]
fn the_smallest_change_of_packet_size_counts() {
    // Next to 2.0 singles are 2^-22 apart, which is above the tolerance.
    let start = 2.0f32;
    let next = f32::from_bits(start.to_bits() + 1);
    assert!((next - start).abs() > f32::EPSILON);
    // At this rate they are 249.49998 and 249.50001 samples long.
    let rate = 124_749.99f64;
    let mut plugin = at(rate, &params(start, 42, false));
    let mut gains = vec![0u32; 2000];
    plugin.process(&params(next, 42, false), &even(), &single, &double, &mut gains);
    assert_eq!(gains, expected(42, 250, 2000));
    plugin.reset(rate.to_bits(), &params(start, 42, false), &double);
    plugin.process(&params(start, 42, false), &even(), &single, &double, &mut gains);
    assert_eq!(gains, expected(42, 249, 2000));
}

#[test]
fn a_change_within_the_tolerance_is_left_alone() {
    // Below 1.0 a change can be too small to count: the packet stays.
    let small = 0.001f32;
    let within = small + f32::EPSILON / 2.0;
    assert_ne!(small, within);
    let rate = 1e10f64;
    let mut plugin = at(rate, &params(small, 42, false));
    let mut gains = vec![0u32; 30_000];
    plugin.process(&params(within, 42, false), &even(), &single, &double, &mut gains);
    assert_eq!(gains, expected(42, 10_000, 30_000));
}

#[test]
fn the_meter_shows_the_last_packet() {
    let p = params(5.0, 42, false);
    let mut plugin = at(1000.0, &p);
    for n in [3usize, 9, 31, 2, 17] {
        let mut gains = vec![0u32; n];
        let status = plugin.process(&p, &even(), &single, &double, &mut gains);
        let lit = gains[n - 1] == ZERO;
        assert_eq!(status.activity, if lit { ONE } else { ZERO });
    }
}

#[test]
fn an_empty_block_keeps_the_meter() {
    let p = params(5.0, 42, false);
    let mut plugin = at(1000.0, &p);
    // The sixth packet of this pattern is the first one dropped.
    let mut gains = [0u32; 26];
    let status = plugin.process(&p, &even(), &single, &double, &mut gains);
    assert_eq!(status.activity, ONE);
    let status = plugin.process(&p, &even(), &single, &double, &mut []);
    assert_eq!(status.activity, ONE);
}

#[test]
fn reset_starts_over_at_the_new_rate() {
    let p = params(5.0, 42, false);
    let mut plugin = at(1000.0, &p);
    let mut gains = [0u32; 13];
    plugin.process(&p, &even(), &single, &double, &mut gains);
    plugin.reset(2000.0f64.to_bits(), &p, &double);
    let mut again = [0u32; 60];
    plugin.process(&p, &even(), &single, &double, &mut again);
    assert_eq!(again.to_vec(), expected(42, 10, 60));
}

#[test]
fn pick_up_and_fill_are_what_process_does() {
    let p = params(5.0, 7, false);
    let mut a = at(1000.0, &params(3.0, 42, false));
    let mut b = at(1000.0, &params(3.0, 42, false));
    let mut whole = [0u32; 50];
    a.process(&p, &even(), &single, &double, &mut whole);
    b.pick_up(&p, &single, &double);
    b.pick_up(&p, &single, &double);
    let mut parts = [0u32; 50];
    b.fill(p.loss, &even(), &single, &mut parts);
    assert_eq!(whole, parts);
    assert_eq!(whole.to_vec(), expected(7, 5, 50));
}
