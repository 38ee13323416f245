//! The loss model, held against a direct evaluation in singles.

use dropout_plugin::arith::{dot, sigmoid, Op};
use dropout_plugin::model::{gru_step, LossGen, Weights};

fn single(op: Op, a: u32, b: u32) -> u32 {
    let (x, y) = (f32::from_bits(a), f32::from_bits(b));
    let r = match op {
        Op::Add => x + y,
        Op::Sub => x - y,
        Op::Mul => x * y,
        Op::Div => x / y,
        Op::Neg => -x,
        Op::Exp => x.exp(),
        Op::Tanh => x.tanh(),
        Op::Round => x.round(),
    };
    r.to_bits()
}

/// Numbers in [-1, 1) that look arbitrary.
struct Numbers(u32);

impl Numbers {
    fn next(&mut self) -> f32 {
        self.0 = self.0.wrapping_mul(1_664_525).wrapping_add(1_013_904_223);
        (self.0 >> 8) as f32 / 8_388_608.0 - 1.0
    }

    fn row<const N: usize>(&mut self) -> [f32; N] {
        std::array::from_fn(|_| self.next())
    }

    fn rows<const N: usize, const M: usize>(&mut self) -> [[f32; N]; M] {
        std::array::from_fn(|_| self.row())
    }
}

struct Floats {
    dense_in_w: [[f32; 2]; 8],
    dense_in_b: [f32; 8],
    gru1_w_ih: [[f32; 8]; 24],
    gru1_w_hh: [[f32; 8]; 24],
    gru1_b_ih: [f32; 24],
    gru1_b_hh: [f32; 24],
    gru2_w_ih: [[f32; 8]; 48],
    gru2_w_hh: [[f32; 16]; 48],
    gru2_b_ih: [f32; 48],
    gru2_b_hh: [f32; 48],
    dense_out_w: [[f32; 16]; 1],
    dense_out_b: [f32; 1],
}

fn floats() -> Floats {
    let mut n = Numbers(1);
    Floats {
        dense_in_w: n.rows(),
        dense_in_b: n.row(),
        gru1_w_ih: n.rows(),
        gru1_w_hh: n.rows(),
        gru1_b_ih: n.row(),
        gru1_b_hh: n.row(),
        gru2_w_ih: n.rows(),
        gru2_w_hh: n.rows(),
        gru2_b_ih: n.row(),
        gru2_b_hh: n.row(),
        dense_out_w: n.rows(),
        dense_out_b: n.row(),
    }
}

fn bits<const N: usize>(row: [f32; N]) -> [u32; N] {
    row.map(f32::to_bits)
}

fn weights(w: &Floats) -> Weights {
    Weights {
        dense_in_w: w.dense_in_w.map(bits),
        dense_in_b: bits(w.dense_in_b),
        gru1_w_ih: w.gru1_w_ih.map(bits),
        gru1_w_hh: w.gru1_w_hh.map(bits),
        gru1_b_ih: bits(w.gru1_b_ih),
        gru1_b_hh: bits(w.gru1_b_hh),
        gru2_w_ih: w.gru2_w_ih.map(bits),
        gru2_w_hh: w.gru2_w_hh.map(bits),
        gru2_b_ih: bits(w.gru2_b_ih),
        gru2_b_hh: bits(w.gru2_b_hh),
        dense_out_w: w.dense_out_w.map(bits),
        dense_out_b: bits(w.dense_out_b),
    }
}

fn direct_dot<const N: usize>(w: &[f32; N], x: &[f32; N]) -> f32 {
    let mut acc = 0.0f32;
    for i in 0..N {
        acc += w[i] * x[i];
    }
    acc
}

fn direct_sigmoid(x: f32) -> f32 {
    1.0 / (1.0 + (-x).exp())
}

fn direct_gru<const IN: usize, const H: usize, const H3: usize>(
    h: &mut [f32; H],
    x: &[f32; IN],
    w_ih: &[[f32; IN]; H3],
    w_hh: &[[f32; H]; H3],
    b_ih: &[f32; H3],
    b_hh: &[f32; H3],
) {
    let old = *h;
    for i in 0..H {
        let (ri, zi, ni) = (i, H + i, 2 * H + i);
        let r = direct_sigmoid(direct_dot(&w_ih[ri], x) + b_ih[ri] + direct_dot(&w_hh[ri], &old) + b_hh[ri]);
        let z = direct_sigmoid(direct_dot(&w_ih[zi], x) + b_ih[zi] + direct_dot(&w_hh[zi], &old) + b_hh[zi]);
        let n = (direct_dot(&w_ih[ni], x) + b_ih[ni] + r * (direct_dot(&w_hh[ni], &old) + b_hh[ni])).tanh();
        h[i] = (1.0 - z) * n + z * old[i];
    }
}

fn direct_step(h1: &mut [f32; 8], h2: &mut [f32; 16], last: f32, perc: f32, w: &Floats) -> f32 {
    let mut x = [0.0f32; 8];
    for i in 0..8 {
        x[i] = (direct_dot(&w.dense_in_w[i], &[last, perc]) + w.dense_in_b[i]).tanh();
    }
    direct_gru(h1, &x, &w.gru1_w_ih, &w.gru1_w_hh, &w.gru1_b_ih, &w.gru1_b_hh);
    let g1 = *h1;
    direct_gru(h2, &g1, &w.gru2_w_ih, &w.gru2_w_hh, &w.gru2_b_ih, &w.gru2_b_hh);
    direct_dot(&w.dense_out_w[0], h2) + w.dense_out_b[0]
}

#[test]
fn sigmoid_of_known_points() {
    assert_eq!(f32::from_bits(sigmoid(0.0f32.to_bits(), &single)), 0.5);
    assert_eq!(f32::from_bits(sigmoid(200.0f32.to_bits(), &single)), 1.0);
    assert_eq!(f32::from_bits(sigmoid((-200.0f32).to_bits(), &single)), 0.0);
    let x = -1.25f32;
    assert_eq!(f32::from_bits(sigmoid(x.to_bits(), &single)), direct_sigmoid(x));
}

#[test]
fn dot_sums_from_the_left() {
    // 1e8 + 1 rounds to 1e8, so that the order of the sum shows.
    let w = [1e8f32, 1.0, -1e8].map(f32::to_bits);
    let x = [1.0f32; 3].map(f32::to_bits);
    assert_eq!(f32::from_bits(dot(&w, &x, &single)), 0.0);
    let w = [1e8f32, -1e8, 1.0].map(f32::to_bits);
    assert_eq!(f32::from_bits(dot(&w, &x, &single)), 1.0);
    let none: [u32; 0] = [];
    assert_eq!(f32::from_bits(dot(&none, &none, &single)), 0.0);
}

#[test]
fn recurrent_layer_by_hand() {
    // One unit; the update gate is shut, so the new state is the new gate:
    // tanh(2 * 0.5 + 0.25 + 0.5 * (3 * 0.1 + 0.75)) with a reset of 0.5.
    let mut h = [0.1f32.to_bits()];
    let x = [0.5f32.to_bits()];
    let w_ih = [[0.0f32], [0.0], [2.0]].map(bits);
    let w_hh = [[0.0f32], [0.0], [3.0]].map(bits);
    let b_ih = bits([0.0f32, -200.0, 0.25]);
    let b_hh = bits([0.0f32, 0.0, 0.75]);
    gru_step(&mut h, &x, &w_ih, &w_hh, &b_ih, &b_hh, &single);
    let expected = (2.0f32 * 0.5 + 0.25 + 0.5 * (3.0 * 0.1 + 0.75)).tanh();
    assert_eq!(f32::from_bits(h[0]), expected);

    // With the update gate wide open the state stays.
    let b_ih = bits([0.0f32, 200.0, 0.25]);
    let mut h = [0.1f32.to_bits()];
    gru_step(&mut h, &x, &w_ih, &w_hh, &b_ih, &b_hh, &single);
    assert_eq!(f32::from_bits(h[0]), 0.1);
}

#[test]
fn steps_match_a_direct_evaluation() {
    let w = floats();
    let patterns = weights(&w);
    let mut model = LossGen::new();
    let (mut h1, mut h2) = ([0.0f32; 8], [0.0f32; 16]);
    for i in 0..50 {
        let last = if i % 3 == 0 { 1.0f32 } else { 0.0 };
        let perc = i as f32 / 50.0;
        let logit = model.step(last.to_bits(), perc.to_bits(), &patterns, &single);
        let expected = direct_step(&mut h1, &mut h2, last, perc, &w);
        assert_eq!(logit, expected.to_bits());
    }
}

#[test]
fn probability_is_the_sigmoid_of_the_logit() {
    let patterns = weights(&floats());
    let mut a = LossGen::new();
    let mut b = LossGen::default();
    for _ in 0..10 {
        let logit = a.step(0, 0.3f32.to_bits(), &patterns, &single);
        let p = b.prob(0, 0.3f32.to_bits(), &patterns, &single);
        assert_eq!(p, sigmoid(logit, &single));
    }
}

#[test]
fn reset_state_starts_over() {
    let patterns = weights(&floats());
    let mut model = LossGen::new();
    let first: Vec<u32> = (0..5).map(|_| model.step(0, 0.5f32.to_bits(), &patterns, &single)).collect();
    model.reset_state();
    let again: Vec<u32> = (0..5).map(|_| model.step(0, 0.5f32.to_bits(), &patterns, &single)).collect();
    assert_eq!(first, again);
    assert_ne!(first[0], first[1]);
}

#[test]
fn a_reset_model_gives_the_logits_of_a_new_one() {
    let patterns = weights(&floats());
    let mut old = LossGen::new();
    old.step(0, 0.3f32.to_bits(), &patterns, &single);
    old.prob(1.0f32.to_bits(), f32::NAN.to_bits(), &patterns, &single);
    old.step(f32::NAN.to_bits(), 0.9f32.to_bits(), &patterns, &single);
    old.reset_state();
    let mut new = LossGen::new();
    let mut default = LossGen::default();
    for i in 0..50 {
        let last = ((i % 3 == 0) as u32 as f32).to_bits();
        let perc = (i as f32 / 50.0).to_bits();
        let logit = old.step(last, perc, &patterns, &single);
        assert!(!f32::from_bits(logit).is_nan());
        assert_eq!(logit, new.step(last, perc, &patterns, &single));
        assert_eq!(logit, default.step(last, perc, &patterns, &single));
    }
}
