//! What holds of the library as a whole.

use vstd::prelude::*;
use vstd::arithmetic::div_mod::{
    lemma_add_mod_noop, lemma_fundamental_div_mod, lemma_mod_multiples_basic, lemma_mod_self_0,
    lemma_small_mod,
};
use vstd::arithmetic::power2::{
    lemma2_to64, lemma2_to64_rest, lemma_pow2_adds, lemma_pow2_pos, lemma_pow2_unfold, pow2,
};

use crate::arith::{
    affine, evaluates, functional, lemma_evaluates_once, sigma, tanh, Expr, Op, Ops,
};
use crate::double;
use crate::double::{count, lemma_widens_once, widens, THOUSAND};
use crate::dsp::{
    at_boundaries, at_least_one, decision, decisions, drops, feedback, follows, gain_of, history,
    length_of, packet_length, repacketed, sample, started, steady, stretch, walk, Event, MaskerState,
};
use crate::model::{
    blank, blend, dense_in, gate, gru_layer, gru_unit, model_prob, model_run, model_step, new_gate,
    ModelState, Weights, GRU1_SIZE, GRU2_SIZE,
};
use crate::plugin::{
    packet_differs, picked_up, processed, rendered, rendered_all, restarted, session, BlockStatus,
    DropoutPluginParams, PluginState, INITIAL_SAMPLE_RATE,
};
use crate::rng::{advance, advance_by, rotated, seeded, uniform, RngState, MULT};
use crate::single::{
    exponent, fraction, is_finite, is_nan, is_negative, lemma_constants, lemma_magnitude_increases,
    less, magnitude, value, EPSILON, NAN, NEGATIVE_ZERO, ONE, ZERO,
};

verus! {

// ---------------------------------------------------------------------------
// Numbers
// ---------------------------------------------------------------------------

/// The named patterns stand for the numbers that they are named after.
pub proof fn law_named_patterns()
    ensures
        value(ZERO) == 0,
        value(ONE) == pow2(149),
        value(EPSILON) == pow2(126),
        !is_nan(ZERO) && !is_nan(ONE) && !is_nan(EPSILON),
        is_negative(NEGATIVE_ZERO) && is_finite(NEGATIVE_ZERO) && magnitude(NEGATIVE_ZERO) == 0,
        is_nan(NAN),
        !double::is_negative(THOUSAND) && !double::is_nan(THOUSAND),
        double::magnitude(THOUSAND) == 1000 * pow2(1074),
        !double::is_negative(INITIAL_SAMPLE_RATE) && !double::is_nan(INITIAL_SAMPLE_RATE),
        double::magnitude(INITIAL_SAMPLE_RATE) == 48000 * pow2(1074),
{
    lemma_constants();
    assert(exponent(NEGATIVE_ZERO) == 0 && fraction(NEGATIVE_ZERO) == 0);
    assert(exponent(NAN) == 255 && fraction(NAN) != 0);
    lemma2_to64_rest();
    lemma_pow2_adds(43, 1031);
    lemma_pow2_adds(37, 1037);
    assert(double::exponent(THOUSAND) == 1032);
    assert(double::fraction(THOUSAND) + 0x10_0000_0000_0000 == 1000 * pow2(43));
    assert(1000 * pow2(43) * pow2(1031) == 1000 * (pow2(43) * pow2(1031))) by (nonlinear_arith);
    assert(double::exponent(INITIAL_SAMPLE_RATE) == 1038);
    assert(double::fraction(INITIAL_SAMPLE_RATE) + 0x10_0000_0000_0000 == 48000 * pow2(37));
    assert(48000 * pow2(37) * pow2(1037) == 48000 * (pow2(37) * pow2(1037))) by (nonlinear_arith);
}

// ---------------------------------------------------------------------------
// The generator
// ---------------------------------------------------------------------------

/// A threshold lies in [0, 1).
pub proof fn law_threshold_in_unit_interval(word: u32)
    ensures
        0 <= uniform(word) < value(ONE),
{
    lemma_constants();
    lemma2_to64();
    lemma_pow2_adds(24, 125);
    lemma_pow2_pos(125);
    let k = word as int / 256;
    let unit = pow2(125) as int;
    assert(0 <= k * unit < 0x100_0000 * unit) by (nonlinear_arith)
        requires
            0 <= k < 0x100_0000,
            unit > 0,
    ;
}

/// Thresholds are uniform: each of the 2^24 fractions k / 2^24 comes from
/// exactly 256 of the words.
pub proof fn law_threshold_is_uniform(k: int, word: u32)
    requires
        0 <= k < 0x100_0000,
    ensures
        uniform(word) == k * pow2(125) <==> 256 * k <= word < 256 * k + 256,
{
    lemma_pow2_pos(125);
    let j = word as int / 256;
    let unit = pow2(125) as int;
    if j != k {
        assert(j * unit != k * unit) by (nonlinear_arith)
            requires
                j != k,
                unit > 0,
        ;
    }
}

/// A generator stays on the stream that its seed names, whose increment is odd.
pub proof fn law_stream_is_kept(seed: u64, n: nat)
    ensures
        advance_by(seeded(seed), n).inc == 2 * (seed as int % 0x8000_0000_0000_0000) + 1,
    decreases n,
{
    if n > 0 {
        law_stream_is_kept(seed, (n - 1) as nat);
    }
}

/// No two states of one stream have the same successor, so that a generator
/// loses nothing by advancing.
pub proof fn law_advance_is_injective(a: RngState, b: RngState)
    requires
        advance(a) == advance(b),
    ensures
        a == b,
{
    let m: int = 0x1_0000_0000_0000_0000;
    let inverse: int = 13_877_824_140_714_322_085;
    let k: int = 4_787_856_489_426_250_814;
    assert(MULT * inverse == 1 + k * m);
    let x = a.state * MULT + a.inc;
    let y = b.state * MULT + b.inc;
    let d = a.state - b.state;
    let q = x / m - y / m;
    assert(x == m * (x / m) + x % m);
    assert(y == m * (y / m) + y % m);
    assert(d * MULT == m * q) by (nonlinear_arith)
        requires
            d == a.state - b.state,
            x == a.state * MULT + a.inc,
            y == b.state * MULT + b.inc,
            a.inc == b.inc,
            q == x / m - y / m,
            x == m * (x / m) + x % m,
            y == m * (y / m) + y % m,
            x % m == y % m,
    ;
    let c = q * inverse - k * d;
    assert(d == m * c) by (nonlinear_arith)
        requires
            d * MULT == m * q,
            MULT * inverse == 1 + k * m,
            c == q * inverse - k * d,
    ;
    assert(d == 0) by (nonlinear_arith)
        requires
            d == m * c,
            -m < d < m,
            m > 0,
    ;
}

/// Bit `i` of a rotated word is the bit `n` places above it, counted round.
pub proof fn law_rotation_moves_each_bit(x: u32, n: u32, i: u32)
    requires
        n < 32,
        i < 32,
    ensures
        (rotated(x, n) >> i) & 1 == (x >> ((i + n) % 32) as u32) & 1,
{
    let m: u32 = ((32 - n) % 32) as u32;
    let j: u32 = ((i + n) % 32) as u32;
    assert((((x >> n) | (x << m)) >> i) & 1 == (x >> j) & 1) by (bit_vector)
        requires
            n < 32,
            i < 32,
            m == (32 - n) % 32,
            j == (i + n) % 32,
    ;
}

// ---------------------------------------------------------------------------
// The model
// ---------------------------------------------------------------------------

/// The new state of a unit is determined.
proof fn lemma_unit_once<
    const IN: usize,
    const H: usize,
    const H3: usize,
>(
    ops: Ops<u32>,
    w_ih: [[u32; IN]; H3],
    w_hh: [[u32; H]; H3],
    b_ih: [u32; H3],
    b_hh: [u32; H3],
    x: Seq<u32>,
    h: Seq<u32>,
    i: int,
    a: u32,
    b: u32,
)
    requires
        functional(ops),
        gru_unit(ops, w_ih, w_hh, b_ih, b_hh, x, h, i, a),
        gru_unit(ops, w_ih, w_hh, b_ih, b_hh, x, h, i, b),
    ensures
        a == b,
{
    let (ri, zi, ni) = (i, H + i, 2 * H + i);
    let r = gate(w_ih@[ri]@, b_ih@[ri], w_hh@[ri]@, b_hh@[ri], x, h);
    let n = new_gate(r, w_ih@[ni]@, b_ih@[ni], w_hh@[ni]@, b_hh@[ni], x, h);
    let z_expr = gate(w_ih@[zi]@, b_ih@[zi], w_hh@[zi]@, b_hh@[zi], x, h);
    let y = choose|z: u32| #[trigger]
        evaluates(ops, z_expr, z) && evaluates(ops, blend(z, n, h[i]), a);
    let z = choose|z: u32| #[trigger]
        evaluates(ops, z_expr, z) && evaluates(ops, blend(z, n, h[i]), b);
    lemma_evaluates_once(ops, z_expr, y, z);
    lemma_evaluates_once(ops, blend(z, n, h[i]), a, b);
}

/// The new state of a layer is determined.
proof fn lemma_layer_once<
    const IN: usize,
    const H: usize,
    const H3: usize,
>(
    ops: Ops<u32>,
    w_ih: [[u32; IN]; H3],
    w_hh: [[u32; H]; H3],
    b_ih: [u32; H3],
    b_hh: [u32; H3],
    x: Seq<u32>,
    h: Seq<u32>,
    a: Seq<u32>,
    b: Seq<u32>,
)
    requires
        functional(ops),
        gru_layer(ops, w_ih, w_hh, b_ih, b_hh, x, h, a),
        gru_layer(ops, w_ih, w_hh, b_ih, b_hh, x, h, b),
    ensures
        a == b,
{
    assert forall|i: int| 0 <= i < H implies a[i] == b[i] by {
        lemma_unit_once(ops, w_ih, w_hh, b_ih, b_hh, x, h, i, a[i], b[i]);
    }
    assert(a =~= b);
}

/// Where each operation has one result, a step of the model has one too: the
/// hidden states and the logit depend on nothing but the weights, the hidden
/// states before, the last decision and the target loss.
pub proof fn law_model_step_is_deterministic(
    ops: Ops<u32>,
    w: Weights,
    s: ModelState,
    last: u32,
    perc: u32,
    t: ModelState,
    k: u32,
    u: ModelState,
    l: u32,
)
    requires
        functional(ops),
        model_step(ops, w, s, last, perc, t, k),
        model_step(ops, w, s, last, perc, u, l),
    ensures
        t == u,
        k == l,
{
    let x = choose|x: Seq<u32>|
        {
            &&& #[trigger] dense_in(ops, w, last, perc, x)
            &&& gru_layer(ops, w.gru1_w_ih, w.gru1_w_hh, w.gru1_b_ih, w.gru1_b_hh, x, s.h1, t.h1)
            &&& gru_layer(ops, w.gru2_w_ih, w.gru2_w_hh, w.gru2_b_ih, w.gru2_b_hh, t.h1, s.h2, t.h2)
            &&& evaluates(ops, affine(w.dense_out_w@[0]@, t.h2, w.dense_out_b@[0]), k)
        };
    let y = choose|y: Seq<u32>|
        {
            &&& #[trigger] dense_in(ops, w, last, perc, y)
            &&& gru_layer(ops, w.gru1_w_ih, w.gru1_w_hh, w.gru1_b_ih, w.gru1_b_hh, y, s.h1, u.h1)
            &&& gru_layer(ops, w.gru2_w_ih, w.gru2_w_hh, w.gru2_b_ih, w.gru2_b_hh, u.h1, s.h2, u.h2)
            &&& evaluates(ops, affine(w.dense_out_w@[0]@, u.h2, w.dense_out_b@[0]), l)
        };
    assert forall|i: int| 0 <= i < x.len() implies x[i] == y[i] by {
        lemma_evaluates_once(
            ops,
            tanh(affine(w.dense_in_w@[i]@, seq![last, perc], w.dense_in_b@[i])),
            x[i],
            y[i],
        );
    }
    assert(x =~= y);
    lemma_layer_once(ops, w.gru1_w_ih, w.gru1_w_hh, w.gru1_b_ih, w.gru1_b_hh, x, s.h1, t.h1, u.h1);
    lemma_layer_once(ops, w.gru2_w_ih, w.gru2_w_hh, w.gru2_b_ih, w.gru2_b_hh, t.h1, s.h2, t.h2, u.h2);
    lemma_evaluates_once(ops, affine(w.dense_out_w@[0]@, t.h2, w.dense_out_b@[0]), k, l);
}

/// Where each operation has one result, the drop probability of a step is
/// determined as its logit is.
pub proof fn law_model_is_deterministic(
    ops: Ops<u32>,
    w: Weights,
    s: ModelState,
    last: u32,
    perc: u32,
    t: ModelState,
    p: u32,
    u: ModelState,
    q: u32,
)
    requires
        functional(ops),
        model_prob(ops, w, s, last, perc, t, p),
        model_prob(ops, w, s, last, perc, u, q),
    ensures
        t == u,
        p == q,
{
    let k = choose|k: u32| #[trigger]
        model_step(ops, w, s, last, perc, t, k) && evaluates(ops, sigma(Expr::Lit(k)), p);
    let l = choose|l: u32| #[trigger]
        model_step(ops, w, s, last, perc, u, l) && evaluates(ops, sigma(Expr::Lit(l)), q);
    law_model_step_is_deterministic(ops, w, s, last, perc, t, k, u, l);
    lemma_evaluates_once(ops, sigma(Expr::Lit(k)), p, q);
}

/// Where each operation has one result, two models in one state pass through the
/// same states and give the same logits on the same last decisions and target
/// losses.
pub proof fn law_model_run_is_deterministic(
    ops: Ops<u32>,
    w: Weights,
    inputs: Seq<(u32, u32)>,
    trace: Seq<ModelState>,
    logits: Seq<u32>,
    other_trace: Seq<ModelState>,
    other_logits: Seq<u32>,
)
    requires
        functional(ops),
        model_run(ops, w, inputs, trace, logits),
        model_run(ops, w, inputs, other_trace, other_logits),
        trace[0] == other_trace[0],
    ensures
        trace == other_trace,
        logits == other_logits,
{
    let n = inputs.len() as int;
    assert forall|i: int| 0 <= i <= n implies trace[i] == other_trace[i] by {
        lemma_model_runs_agree(ops, w, inputs, trace, logits, other_trace, other_logits, i);
    }
    assert forall|i: int| 0 <= i < n implies logits[i] == other_logits[i] by {
        lemma_model_runs_agree(ops, w, inputs, trace, logits, other_trace, other_logits, i + 1);
    }
    assert(trace =~= other_trace);
    assert(logits =~= other_logits);
}

/// Two runs of the model agree up to a step.
proof fn lemma_model_runs_agree(
    ops: Ops<u32>,
    w: Weights,
    inputs: Seq<(u32, u32)>,
    trace: Seq<ModelState>,
    logits: Seq<u32>,
    other_trace: Seq<ModelState>,
    other_logits: Seq<u32>,
    i: int,
)
    requires
        functional(ops),
        model_run(ops, w, inputs, trace, logits),
        model_run(ops, w, inputs, other_trace, other_logits),
        trace[0] == other_trace[0],
        0 <= i <= inputs.len(),
    ensures
        trace[i] == other_trace[i],
        i > 0 ==> logits[i - 1] == other_logits[i - 1],
    decreases i,
{
    if i > 0 {
        let j = i - 1;
        lemma_model_runs_agree(ops, w, inputs, trace, logits, other_trace, other_logits, j);
        let (last, perc) = inputs[j];
        let (k, l) = (logits[j], other_logits[j]);
        assert(model_step(ops, w, trace[j], last, perc, trace[j + 1], k));
        assert(model_step(ops, w, other_trace[j], last, perc, other_trace[j + 1], l));
        law_model_step_is_deterministic(
            ops,
            w,
            trace[j],
            last,
            perc,
            trace[i],
            k,
            other_trace[i],
            l,
        );
    }
}

/// A model that is reset is a new one: its hidden states are all 0.0, and where
/// each operation has one result, every sequence of steps from there on gives the
/// logits that a new model gives.
pub proof fn law_reset_model_equals_new(
    ops: Ops<u32>,
    w: Weights,
    inputs: Seq<(u32, u32)>,
    trace: Seq<ModelState>,
    logits: Seq<u32>,
    new_trace: Seq<ModelState>,
    new_logits: Seq<u32>,
)
    requires
        functional(ops),
        trace[0] == blank(),
        model_run(ops, w, inputs, trace, logits),
        new_trace[0] == blank(),
        model_run(ops, w, inputs, new_trace, new_logits),
    ensures
        forall|i: int| 0 <= i < GRU1_SIZE ==> #[trigger] trace[0].h1[i] == ZERO,
        forall|i: int| 0 <= i < GRU2_SIZE ==> #[trigger] trace[0].h2[i] == ZERO,
        trace == new_trace,
        logits == new_logits,
{
    law_model_run_is_deterministic(ops, w, inputs, trace, logits, new_trace, new_logits);
}

// ---------------------------------------------------------------------------
// Decisions
// ---------------------------------------------------------------------------

/// A probability of 0, one below it and one that is no number drop nothing; a
/// probability of 1 or more drops everything.
pub proof fn law_certain_probabilities(word: u32, prob: u32)
    ensures
        is_nan(prob) || value(prob) <= 0 ==> !drops(word, prob),
        !is_nan(prob) && value(prob) >= value(ONE) ==> drops(word, prob),
{
    law_threshold_in_unit_interval(word);
}

/// At one threshold, what is dropped at a probability is dropped at every
/// larger one.
pub proof fn law_larger_probability_drops_more(word: u32, p: u32, q: u32)
    requires
        drops(word, p),
        less(p, q),
    ensures
        drops(word, q),
{
}

// ---------------------------------------------------------------------------
// The masker
// ---------------------------------------------------------------------------

/// Every way to make or change a masker keeps its cursor inside a packet of at
/// least one sample.
pub proof fn law_cursor_stays_in_packet(
    ops: Ops<u32>,
    w: Weights,
    perc: u32,
    s: MaskerState,
    t: MaskerState,
    gain: u32,
    samples: int,
    seed: u64,
)
    requires
        s.wf(),
    ensures
        sample(ops, w, perc, s, t, gain) ==> t.wf(),
        decision(ops, w, perc, s, t) ==> t.wf(),
        s.resized(samples).wf(),
        MaskerState::fresh(samples, seed).wf(),
{
}

/// A gain is 0.0 or 1.0, and tells whether the packet of its sample is dropped.
pub proof fn law_gain_is_zero_or_one(
    ops: Ops<u32>,
    w: Weights,
    perc: u32,
    s: MaskerState,
    t: MaskerState,
    gain: u32,
)
    requires
        sample(ops, w, perc, s, t, gain),
    ensures
        gain == ZERO || gain == ONE,
        gain == ZERO <==> t.dropped,
{
}

/// The cursor counts the samples, modulo the packet size, which stays.
pub proof fn law_cursor_counts_samples(
    ops: Ops<u32>,
    w: Weights,
    percs: Seq<u32>,
    trace: Seq<MaskerState>,
    gains: Seq<u32>,
    i: int,
)
    requires
        walk(ops, w, percs, trace, gains),
        trace[0].wf(),
        0 <= i <= gains.len(),
    ensures
        trace[i].wf(),
        trace[i].packet_size == trace[0].packet_size,
        trace[i].pos == (trace[0].pos + i) % trace[0].packet_size,
    decreases i,
{
    let size = trace[0].packet_size;
    if i == 0 {
        lemma_small_mod(trace[0].pos as nat, size as nat);
    } else {
        law_cursor_counts_samples(ops, w, percs, trace, gains, i - 1);
        let gain = gains[i - 1];
        assert(sample(ops, w, percs[i - 1], trace[i - 1], trace[i - 1 + 1], gain));
        let before = trace[0].pos + i - 1;
        lemma_add_mod_noop(before, 1, size);
        if size == 1 {
            assert((before + 1) % 1 == 0);
        } else {
            lemma_small_mod(1, size as nat);
            if trace[i - 1].pos + 1 < size {
                lemma_small_mod((trace[i - 1].pos + 1) as nat, size as nat);
            } else {
                lemma_mod_self_0(size);
            }
        }
    }
}

/// Within a packet the gain does not change, and from its first sample on one
/// threshold has been drawn: dropping is decided once per packet.
pub proof fn law_one_decision_per_packet(
    ops: Ops<u32>,
    w: Weights,
    percs: Seq<u32>,
    trace: Seq<MaskerState>,
    gains: Seq<u32>,
    first: int,
    i: int,
)
    requires
        walk(ops, w, percs, trace, gains),
        trace[0].wf(),
        0 <= first <= i < gains.len(),
        trace[first].pos == 0,
        i < first + trace[0].packet_size,
    ensures
        gains[i] == gains[first],
        trace[i + 1].dropped == trace[first + 1].dropped,
        trace[i + 1].rng == advance(trace[first].rng),
        trace[i + 1].model == trace[first + 1].model,
    decreases i,
{
    assert(sample(ops, w, percs[i], trace[i], trace[i + 1], gains[i]));
    if i > first {
        law_one_decision_per_packet(ops, w, percs, trace, gains, first, i - 1);
        assert(sample(ops, w, percs[i - 1], trace[i - 1], trace[i - 1 + 1], gains[i - 1]));
        law_cursor_counts_samples(ops, w, percs, trace, gains, first);
        law_cursor_counts_samples(ops, w, percs, trace, gains, i);
        let size = trace[0].packet_size;
        lemma_add_mod_noop(trace[0].pos + first, i - first, size);
        lemma_small_mod((i - first) as nat, size as nat);
        assert(trace[i].pos == i - first);
    }
}

/// Packets follow each other without a gap: the one that begins at a sample
/// ends after as many samples as a packet has.
pub proof fn law_packets_have_the_set_size(
    ops: Ops<u32>,
    w: Weights,
    percs: Seq<u32>,
    trace: Seq<MaskerState>,
    gains: Seq<u32>,
    first: int,
    i: int,
)
    requires
        walk(ops, w, percs, trace, gains),
        trace[0].wf(),
        0 <= first <= i <= gains.len(),
        trace[first].pos == 0,
        i <= first + trace[0].packet_size,
    ensures
        trace[i].pos == 0 <==> i == first || i == first + trace[0].packet_size,
{
    let size = trace[0].packet_size;
    law_cursor_counts_samples(ops, w, percs, trace, gains, first);
    law_cursor_counts_samples(ops, w, percs, trace, gains, i);
    lemma_add_mod_noop(trace[0].pos + first, i - first, size);
    lemma_mod_self_0(size);
    if i < first + size {
        lemma_small_mod((i - first) as nat, size as nat);
    } else {
        lemma_small_mod(0, size as nat);
    }
}

/// A packet that began before goes on with its gain to its end: until then no
/// threshold is drawn, whatever the target loss has become.
pub proof fn law_packet_runs_on(
    ops: Ops<u32>,
    w: Weights,
    percs: Seq<u32>,
    trace: Seq<MaskerState>,
    gains: Seq<u32>,
    i: int,
)
    requires
        walk(ops, w, percs, trace, gains),
        trace[0].wf(),
        0 < trace[0].pos,
        0 <= i < gains.len(),
        trace[0].pos + i < trace[0].packet_size,
    ensures
        gains[i] == gain_of(trace[0].dropped),
        trace[i + 1].dropped == trace[0].dropped,
        trace[i + 1].rng == trace[0].rng,
        trace[i + 1].model == trace[0].model,
    decreases i,
{
    assert(sample(ops, w, percs[i], trace[i], trace[i + 1], gains[i]));
    if i > 0 {
        law_packet_runs_on(ops, w, percs, trace, gains, i - 1);
        law_cursor_counts_samples(ops, w, percs, trace, gains, i);
        lemma_small_mod((trace[0].pos + i) as nat, trace[0].packet_size as nat);
    }
}

/// The target loss counts at packet boundaries alone: elsewhere it can be
/// anything, and the same states and gains are passed through.
pub proof fn law_loss_counts_at_boundaries(
    ops: Ops<u32>,
    w: Weights,
    percs: Seq<u32>,
    other_percs: Seq<u32>,
    trace: Seq<MaskerState>,
    gains: Seq<u32>,
)
    requires
        walk(ops, w, percs, trace, gains),
        percs.len() == other_percs.len(),
        forall|i: int|
            0 <= i < percs.len() && trace[i].pos == 0 ==> percs[i] == #[trigger] other_percs[i],
    ensures
        walk(ops, w, other_percs, trace, gains),
{
    assert forall|i: int| 0 <= i < gains.len() implies sample(
        ops,
        w,
        other_percs[i],
        trace[i],
        trace[i + 1],
        #[trigger] gains[i],
    ) by {
        assert(sample(ops, w, percs[i], trace[i], trace[i + 1], gains[i]));
    }
}

/// Packet `k` begins at sample `k * size`, before the end of `n` samples, if and
/// only if it is one of the first `(n + size - 1) / size`; and sample `j` lies in
/// packet `j / size`.
proof fn lemma_packet_of_sample(n: int, size: int, k: int, j: int)
    requires
        0 <= n,
        1 <= size,
        0 <= k,
        0 <= j < n,
    ensures
        k < (n + size - 1) / size ==> k * size < n,
        0 <= j / size < (n + size - 1) / size,
        (j / size) * size <= j < (j / size) * size + size,
{
    let packets = (n + size - 1) / size;
    lemma_fundamental_div_mod(n + size - 1, size);
    lemma_fundamental_div_mod(j, size);
    let rest = (n + size - 1) % size;
    let q = j / size;
    assert(size * packets == packets * size && size * q == q * size) by (nonlinear_arith);
    if k < packets {
        assert(k * size <= packets * size - size) by (nonlinear_arith)
            requires
                k <= packets - 1,
                size >= 1,
        ;
    }
    assert(0 <= q) by (nonlinear_arith)
        requires
            q * size + j % size == j,
            j % size < size,
            0 <= j,
            1 <= size,
    ;
    assert(q < packets) by (nonlinear_arith)
        requires
            q * size <= n - 1,
            packets * size >= n,
            1 <= size,
    ;
}

/// Packets are decided one after the other: from a boundary on, sample `j` has
/// the gain of decision `j / size`, which is taken at the target loss in force at
/// sample `(j / size) * size`.
pub proof fn law_gains_come_from_decisions(
    ops: Ops<u32>,
    w: Weights,
    percs: Seq<u32>,
    trace: Seq<MaskerState>,
    gains: Seq<u32>,
)
    requires
        walk(ops, w, percs, trace, gains),
        trace[0].wf(),
        trace[0].pos == 0,
    ensures
        exists|chain: Seq<MaskerState>|
            {
                &&& #[trigger] decisions(
                    ops,
                    w,
                    at_boundaries(percs, trace[0].packet_size),
                    chain,
                )
                &&& chain[0] == trace[0]
                &&& forall|j: int|
                    0 <= j < gains.len() ==> #[trigger] gains[j] == gain_of(
                        chain[j / trace[0].packet_size + 1].dropped,
                    )
            },
{
    let size = trace[0].packet_size;
    let n = gains.len() as int;
    let losses = at_boundaries(percs, size);
    lemma_fundamental_div_mod(n + size - 1, size);
    assert((n + size - 1) / size >= 0) by (nonlinear_arith)
        requires
            n >= 0,
            size >= 1,
    ;
    let chain = Seq::new(
        losses.len() + 1,
        |k: int|
            if k == 0 {
                trace[0]
            } else {
                MaskerState { pos: 0, ..trace[(k - 1) * size + 1] }
            },
    );
    assert forall|k: int| 0 <= k < losses.len() implies decision(
        ops,
        w,
        #[trigger] losses[k],
        chain[k],
        chain[k + 1],
    ) by {
        lemma_decision_at_boundary(ops, w, percs, trace, gains, k);
        assert((k + 1 - 1) * size + 1 == k * size + 1);
    }
    assert(decisions(ops, w, losses, chain));
    assert forall|j: int| 0 <= j < gains.len() implies #[trigger] gains[j] == gain_of(
        chain[j / size + 1].dropped,
    ) by {
        let k = j / size;
        lemma_packet_of_sample(n, size, k, j);
        lemma_decision_at_boundary(ops, w, percs, trace, gains, k);
        law_one_decision_per_packet(ops, w, percs, trace, gains, k * size, j);
        assert(sample(ops, w, percs[j], trace[j], trace[j + 1], gains[j]));
        assert((k + 1 - 1) * size + 1 == k * size + 1);
    }
}

/// Packet `k` begins at sample `k * size` with the decision that the packets
/// before it leave it to.
proof fn lemma_decision_at_boundary(
    ops: Ops<u32>,
    w: Weights,
    percs: Seq<u32>,
    trace: Seq<MaskerState>,
    gains: Seq<u32>,
    k: int,
)
    requires
        walk(ops, w, percs, trace, gains),
        trace[0].wf(),
        trace[0].pos == 0,
        0 <= k < (gains.len() + trace[0].packet_size - 1) / trace[0].packet_size,
    ensures
        0 <= k * trace[0].packet_size < gains.len(),
        trace[k * trace[0].packet_size].pos == 0,
        decision(
            ops,
            w,
            percs[k * trace[0].packet_size],
            if k == 0 {
                trace[0]
            } else {
                MaskerState { pos: 0, ..trace[(k - 1) * trace[0].packet_size + 1] }
            },
            MaskerState { pos: 0, ..trace[k * trace[0].packet_size + 1] },
        ),
{
    let size = trace[0].packet_size;
    let n = gains.len() as int;
    if n == 0 {
        lemma_small_mod((size - 1) as nat, size as nat);
        lemma_fundamental_div_mod(size - 1, size);
        assert((size - 1) / size == 0) by (nonlinear_arith)
            requires
                size >= 1,
        ;
    }
    lemma_packet_of_sample(n, size, k, 0);
    let first = k * size;
    assert(first >= 0) by (nonlinear_arith)
        requires
            first == k * size,
            k >= 0,
            size >= 1,
    ;
    lemma_mod_multiples_basic(k, size);
    law_cursor_counts_samples(ops, w, percs, trace, gains, first);
    law_cursor_counts_samples(ops, w, percs, trace, gains, first + 1);
    assert(sample(ops, w, percs[first], trace[first], trace[first + 1], gains[first]));
    let d = choose|d: MaskerState| #[trigger]
        decision(ops, w, percs[first], trace[first], d) && gains[first] == gain_of(d.dropped)
            && trace[first + 1] == d.moved();
    assert(d == MaskerState { pos: 0, ..trace[first + 1] });
    if k > 0 {
        let before = (k - 1) * size;
        assert(before == first - size && before >= 0) by (nonlinear_arith)
            requires
                before == (k - 1) * size,
                first == k * size,
                k >= 1,
                size >= 1,
        ;
        lemma_mod_multiples_basic(k - 1, size);
        law_cursor_counts_samples(ops, w, percs, trace, gains, before);
        law_cursor_counts_samples(ops, w, percs, trace, gains, before + 1);
        law_one_decision_per_packet(ops, w, percs, trace, gains, before, first - 1);
        law_one_decision_per_packet(ops, w, percs, trace, gains, before, before);
        assert(trace[first] == MaskerState { pos: 0, ..trace[before + 1] });
    }
}

/// Each decision draws one threshold: decision `k` is held against number `k` of
/// the generator's stream.
pub proof fn law_each_decision_draws_once(
    ops: Ops<u32>,
    w: Weights,
    percs: Seq<u32>,
    chain: Seq<MaskerState>,
    k: int,
)
    requires
        decisions(ops, w, percs, chain),
        0 <= k <= percs.len(),
    ensures
        chain[k].rng == advance_by(chain[0].rng, k as nat),
    decreases k,
{
    if k > 0 {
        law_each_decision_draws_once(ops, w, percs, chain, k - 1);
        assert(decision(ops, w, percs[k - 1], chain[k - 1], chain[k - 1 + 1]));
    }
}

/// One decision is determined.
proof fn lemma_decision_once(
    ops: Ops<u32>,
    w: Weights,
    perc: u32,
    s: MaskerState,
    d: MaskerState,
    e: MaskerState,
)
    requires
        functional(ops),
        decision(ops, w, perc, s, d),
        decision(ops, w, perc, s, e),
    ensures
        d == e,
{
    let last = feedback(s.dropped);
    let (m, p) = choose|m: ModelState, p: u32| #[trigger]
        model_prob(ops, w, s.model, last, perc, m, p) && d == (MaskerState {
            model: m,
            ..s
        }).settled(p);
    let (n, q) = choose|n: ModelState, q: u32| #[trigger]
        model_prob(ops, w, s.model, last, perc, n, q) && e == (MaskerState {
            model: n,
            ..s
        }).settled(q);
    law_model_is_deterministic(ops, w, s.model, last, perc, m, p, n, q);
}

/// Decisions are determined: where each operation has one result, the same state
/// and target losses give the same ones.
pub proof fn law_decisions_are_deterministic(
    ops: Ops<u32>,
    w: Weights,
    percs: Seq<u32>,
    chain: Seq<MaskerState>,
    other: Seq<MaskerState>,
    k: int,
)
    requires
        functional(ops),
        decisions(ops, w, percs, chain),
        decisions(ops, w, percs, other),
        chain[0] == other[0],
        0 <= k <= percs.len(),
    ensures
        chain[k] == other[k],
    decreases k,
{
    if k > 0 {
        law_decisions_are_deterministic(ops, w, percs, chain, other, k - 1);
        let perc = percs[k - 1];
        assert(decision(ops, w, perc, chain[k - 1], chain[k - 1 + 1]));
        assert(decision(ops, w, perc, other[k - 1], other[k - 1 + 1]));
        lemma_decision_once(ops, w, perc, chain[k - 1], chain[k], other[k]);
    }
}

/// One sample is determined.
proof fn lemma_sample_once(
    ops: Ops<u32>,
    w: Weights,
    perc: u32,
    s: MaskerState,
    t: MaskerState,
    a: u32,
    u: MaskerState,
    b: u32,
)
    requires
        functional(ops),
        sample(ops, w, perc, s, t, a),
        sample(ops, w, perc, s, u, b),
    ensures
        t == u,
        a == b,
{
    if s.pos == 0 {
        let d = choose|d: MaskerState| #[trigger]
            decision(ops, w, perc, s, d) && a == gain_of(d.dropped) && t == d.moved();
        let e = choose|e: MaskerState| #[trigger]
            decision(ops, w, perc, s, e) && b == gain_of(e.dropped) && u == e.moved();
        lemma_decision_once(ops, w, perc, s, d, e);
    }
}

/// The same state gives the same pattern: where each operation has one result,
/// two maskers in one state have the same gains and states from there on,
/// whatever the target loss of each sample is.
pub proof fn law_same_state_same_pattern(
    ops: Ops<u32>,
    w: Weights,
    percs: Seq<u32>,
    trace: Seq<MaskerState>,
    gains: Seq<u32>,
    other_trace: Seq<MaskerState>,
    other_gains: Seq<u32>,
)
    requires
        functional(ops),
        walk(ops, w, percs, trace, gains),
        walk(ops, w, percs, other_trace, other_gains),
        trace[0] == other_trace[0],
    ensures
        trace == other_trace,
        gains == other_gains,
    decreases gains.len(),
{
    let n = gains.len() as int;
    if n == 0 {
        assert(trace =~= other_trace);
        assert(gains =~= other_gains);
    } else {
        let (t, u) = (trace.drop_last(), other_trace.drop_last());
        let (a, b) = (gains.drop_last(), other_gains.drop_last());
        assert forall|i: int| 0 <= i < a.len() implies sample(
            ops,
            w,
            percs[i],
            t[i],
            t[i + 1],
            #[trigger] a[i],
        ) by {
            assert(sample(ops, w, percs[i], trace[i], trace[i + 1], gains[i]));
        }
        assert forall|i: int| 0 <= i < b.len() implies sample(
            ops,
            w,
            percs[i],
            u[i],
            u[i + 1],
            #[trigger] b[i],
        ) by {
            assert(sample(ops, w, percs[i], other_trace[i], other_trace[i + 1], other_gains[i]));
        }
        law_same_state_same_pattern(ops, w, percs.drop_last(), t, a, u, b);
        assert(trace[n - 1] == t[n - 1] && other_trace[n - 1] == u[n - 1]);
        assert(sample(ops, w, percs[n - 1], trace[n - 1], trace[n - 1 + 1], gains[n - 1]));
        assert(sample(
            ops,
            w,
            percs[n - 1],
            other_trace[n - 1],
            other_trace[n - 1 + 1],
            other_gains[n - 1],
        ));
        lemma_sample_once(
            ops,
            w,
            percs[n - 1],
            trace[n - 1],
            trace[n],
            gains[n - 1],
            other_trace[n],
            other_gains[n - 1],
        );
        assert(trace =~= t.push(trace[n]));
        assert(other_trace =~= u.push(other_trace[n]));
        assert(gains =~= a.push(gains[n - 1]));
        assert(other_gains =~= b.push(other_gains[n - 1]));
    }
}

/// The length of a packet is determined where each operation has one result.
pub proof fn law_packet_length_is_deterministic(
    wide: Ops<u64>,
    sample_rate: u64,
    packet_ms: u32,
    m: int,
    n: int,
)
    requires
        functional(wide),
        packet_length(wide, sample_rate, packet_ms, m),
        packet_length(wide, sample_rate, packet_ms, n),
    ensures
        m == n,
{
    let (a, k) = choose|a: u64, k: u64|
        {
            &&& widens(packet_ms, a)
            &&& #[trigger] evaluates(wide, length_of(sample_rate, a), k)
            &&& m == count(k)
        };
    let (b, l) = choose|b: u64, l: u64|
        {
            &&& widens(packet_ms, b)
            &&& #[trigger] evaluates(wide, length_of(sample_rate, b), l)
            &&& n == count(l)
        };
    lemma_widens_once(packet_ms, a, b);
    lemma_evaluates_once(wide, length_of(sample_rate, a), k, l);
}

/// The same state gives the same stretch: equal states and target losses lead to
/// equal gains and to one state, where each operation has one result.
pub proof fn law_same_state_same_stretch(
    ops: Ops<u32>,
    w: Weights,
    percs: Seq<u32>,
    s: MaskerState,
    end: MaskerState,
    gains: Seq<u32>,
    other_end: MaskerState,
    other_gains: Seq<u32>,
)
    requires
        functional(ops),
        stretch(ops, w, percs, s, end, gains),
        stretch(ops, w, percs, s, other_end, other_gains),
    ensures
        gains == other_gains,
        end == other_end,
{
    let n = percs.len() as int;
    let t = choose|t: Seq<MaskerState>| #[trigger]
        walk(ops, w, percs, t, gains) && t[0] == s && t[n] == end;
    let u = choose|u: Seq<MaskerState>| #[trigger]
        walk(ops, w, percs, u, other_gains) && u[0] == s && u[n] == other_end;
    law_same_state_same_pattern(ops, w, percs, t, gains, u, other_gains);
}

/// The start of a pattern is determined.
proof fn lemma_started_once(
    wide: Ops<u64>,
    sample_rate: u64,
    packet_ms: u32,
    seed: u64,
    s: MaskerState,
    t: MaskerState,
)
    requires
        functional(wide),
        started(wide, sample_rate, packet_ms, seed, s),
        started(wide, sample_rate, packet_ms, seed, t),
    ensures
        s == t,
{
    let m = choose|m: int| #[trigger]
        packet_length(wide, sample_rate, packet_ms, m) && s == MaskerState::fresh(m, seed);
    let n = choose|n: int| #[trigger]
        packet_length(wide, sample_rate, packet_ms, n) && t == MaskerState::fresh(n, seed);
    law_packet_length_is_deterministic(wide, sample_rate, packet_ms, m, n);
}

/// The same seed gives the same pattern: two new maskers with one sample rate,
/// packet size and seed have the same gains at the same target losses.
pub proof fn law_same_seed_same_pattern(
    ops: Ops<u32>,
    wide: Ops<u64>,
    w: Weights,
    percs: Seq<u32>,
    sample_rate: u64,
    packet_ms: u32,
    seed: u64,
    s: MaskerState,
    end: MaskerState,
    gains: Seq<u32>,
    other: MaskerState,
    other_end: MaskerState,
    other_gains: Seq<u32>,
)
    requires
        functional(ops),
        functional(wide),
        started(wide, sample_rate, packet_ms, seed, s),
        started(wide, sample_rate, packet_ms, seed, other),
        stretch(ops, w, percs, s, end, gains),
        stretch(ops, w, percs, other, other_end, other_gains),
    ensures
        s == other,
        gains == other_gains,
        end == other_end,
{
    lemma_started_once(wide, sample_rate, packet_ms, seed, s, other);
    law_same_state_same_stretch(ops, w, percs, s, end, gains, other_end, other_gains);
}

/// To set the packet size and then reset, whatever went before, gives what a new
/// masker can be, and nothing else: no decision, at a boundary.
pub proof fn law_resized_and_reset_can_be_new(
    wide: Ops<u64>,
    sample_rate: u64,
    packet_ms: u32,
    seed: u64,
    s: MaskerState,
    t: MaskerState,
    m: MaskerState,
)
    ensures
        repacketed(wide, sample_rate, packet_ms, s, t) ==> started(
            wide,
            sample_rate,
            packet_ms,
            seed,
            MaskerState::fresh(t.packet_size, seed),
        ),
        started(wide, sample_rate, packet_ms, seed, m) ==> exists|u: MaskerState| #[trigger]
            repacketed(wide, sample_rate, packet_ms, s, u) && m == MaskerState::fresh(
                u.packet_size,
                seed,
            ),
        started(wide, sample_rate, packet_ms, seed, m) ==> !m.dropped && m.pos == 0,
{
    if repacketed(wide, sample_rate, packet_ms, s, t) {
        let samples = choose|samples: int| #[trigger]
            packet_length(wide, sample_rate, packet_ms, samples) && t == s.resized(samples);
        assert(MaskerState::fresh(t.packet_size, seed) == MaskerState::fresh(samples, seed));
    }
    if started(wide, sample_rate, packet_ms, seed, m) {
        let samples = choose|samples: int| #[trigger]
            packet_length(wide, sample_rate, packet_ms, samples) && m == MaskerState::fresh(
                samples,
                seed,
            );
        let u = s.resized(samples);
        assert(repacketed(wide, sample_rate, packet_ms, s, u));
        assert(m == MaskerState::fresh(u.packet_size, seed));
    }
}

/// A new masker is one whose packet size was set and that was then reset,
/// whatever went before: where each operation has one result, the two are in one
/// state and have the same gains at the same target losses.
pub proof fn law_resized_and_reset_equals_new(
    ops: Ops<u32>,
    wide: Ops<u64>,
    w: Weights,
    percs: Seq<u32>,
    sample_rate: u64,
    packet_ms: u32,
    seed: u64,
    s: MaskerState,
    t: MaskerState,
    end: MaskerState,
    gains: Seq<u32>,
    new: MaskerState,
    new_end: MaskerState,
    new_gains: Seq<u32>,
)
    requires
        functional(ops),
        functional(wide),
        repacketed(wide, sample_rate, packet_ms, s, t),
        stretch(ops, w, percs, MaskerState::fresh(t.packet_size, seed), end, gains),
        started(wide, sample_rate, packet_ms, seed, new),
        stretch(ops, w, percs, new, new_end, new_gains),
    ensures
        MaskerState::fresh(t.packet_size, seed) == new,
        gains == new_gains,
        end == new_end,
{
    let reset = MaskerState::fresh(t.packet_size, seed);
    law_resized_and_reset_can_be_new(wide, sample_rate, packet_ms, seed, s, t, new);
    law_same_seed_same_pattern(
        ops,
        wide,
        w,
        percs,
        sample_rate,
        packet_ms,
        seed,
        reset,
        end,
        gains,
        new,
        new_end,
        new_gains,
    );
}

/// No sample and no reset changes the packet size.
proof fn lemma_history_keeps_packet_size(
    ops: Ops<u32>,
    w: Weights,
    events: Seq<Event>,
    trace: Seq<MaskerState>,
    i: int,
)
    requires
        history(ops, w, events, trace),
        1 <= trace[0].packet_size,
        0 <= i <= events.len(),
    ensures
        trace[i].packet_size == trace[0].packet_size,
    decreases i,
{
    if i > 0 {
        lemma_history_keeps_packet_size(ops, w, events, trace, i - 1);
        assert(follows(ops, w, events[i - 1], trace[i - 1], trace[i - 1 + 1]));
    }
}

/// A reset forgets the past: after any samples and resets, a masker that is reset
/// is as one newly made, and the very next sample takes a fresh decision.
pub proof fn law_reset_can_be_new(
    ops: Ops<u32>,
    wide: Ops<u64>,
    w: Weights,
    sample_rate: u64,
    packet_ms: u32,
    first_seed: u64,
    events: Seq<Event>,
    trace: Seq<MaskerState>,
    seed: u64,
    perc: u32,
    t: MaskerState,
    gain: u32,
)
    requires
        started(wide, sample_rate, packet_ms, first_seed, trace[0]),
        history(ops, w, events, trace),
    ensures
        started(
            wide,
            sample_rate,
            packet_ms,
            seed,
            MaskerState::fresh(trace.last().packet_size, seed),
        ),
        sample(ops, w, perc, MaskerState::fresh(trace.last().packet_size, seed), t, gain)
            ==> exists|d: MaskerState| #[trigger]
            decision(ops, w, perc, MaskerState::fresh(trace.last().packet_size, seed), d) && gain
                == gain_of(d.dropped),
{
    let samples = choose|samples: int| #[trigger]
        packet_length(wide, sample_rate, packet_ms, samples) && trace[0] == MaskerState::fresh(
            samples,
            first_seed,
        );
    lemma_history_keeps_packet_size(ops, w, events, trace, events.len() as int);
    assert(MaskerState::fresh(trace.last().packet_size, seed) == MaskerState::fresh(samples, seed));
}

/// Where each operation has one result, a masker that is reset after any samples
/// and resets has from there on, at any target losses, the gains of a new one.
pub proof fn law_reset_equals_new(
    ops: Ops<u32>,
    wide: Ops<u64>,
    w: Weights,
    percs: Seq<u32>,
    sample_rate: u64,
    packet_ms: u32,
    first_seed: u64,
    events: Seq<Event>,
    trace: Seq<MaskerState>,
    seed: u64,
    end: MaskerState,
    gains: Seq<u32>,
    new: MaskerState,
    new_end: MaskerState,
    new_gains: Seq<u32>,
)
    requires
        functional(ops),
        functional(wide),
        started(wide, sample_rate, packet_ms, first_seed, trace[0]),
        history(ops, w, events, trace),
        stretch(ops, w, percs, MaskerState::fresh(trace.last().packet_size, seed), end, gains),
        started(wide, sample_rate, packet_ms, seed, new),
        stretch(ops, w, percs, new, new_end, new_gains),
    ensures
        MaskerState::fresh(trace.last().packet_size, seed) == new,
        gains == new_gains,
        end == new_end,
{
    let reset = MaskerState::fresh(trace.last().packet_size, seed);
    law_reset_can_be_new(
        ops,
        wide,
        w,
        sample_rate,
        packet_ms,
        first_seed,
        events,
        trace,
        seed,
        ZERO,
        reset,
        ZERO,
    );
    law_same_seed_same_pattern(
        ops,
        wide,
        w,
        percs,
        sample_rate,
        packet_ms,
        seed,
        reset,
        end,
        gains,
        new,
        new_end,
        new_gains,
    );
}

/// A new packet size alters no decision, and moves the cursor only where it
/// overran, to a boundary.
pub proof fn law_resize_keeps_decisions(s: MaskerState, samples: int)
    requires
        s.wf(),
    ensures
        s.resized(samples).rng == s.rng,
        s.resized(samples).model == s.model,
        s.resized(samples).dropped == s.dropped,
        s.resized(samples).packet_size == at_least_one(samples),
        s.pos < at_least_one(samples) ==> s.resized(samples).pos == s.pos,
        s.pos >= at_least_one(samples) ==> s.resized(samples).pos == 0,
{
}

/// Two stretches in a row are one stretch: where the stream is cut does not
/// matter, and the target loss may change there.
pub proof fn law_stretches_join(
    ops: Ops<u32>,
    w: Weights,
    head_percs: Seq<u32>,
    tail_percs: Seq<u32>,
    s: MaskerState,
    t: MaskerState,
    u: MaskerState,
    head: Seq<u32>,
    tail: Seq<u32>,
)
    requires
        stretch(ops, w, head_percs, s, t, head),
        stretch(ops, w, tail_percs, t, u, tail),
    ensures
        stretch(ops, w, head_percs + tail_percs, s, u, head + tail),
{
    let a = choose|a: Seq<MaskerState>| #[trigger]
        walk(ops, w, head_percs, a, head) && a[0] == s && a[head.len() as int] == t;
    let b = choose|b: Seq<MaskerState>| #[trigger]
        walk(ops, w, tail_percs, b, tail) && b[0] == t && b[tail.len() as int] == u;
    let trace = a + b.drop_first();
    let gains = head + tail;
    let percs = head_percs + tail_percs;
    assert forall|i: int| 0 <= i < gains.len() implies sample(
        ops,
        w,
        percs[i],
        trace[i],
        trace[i + 1],
        #[trigger] gains[i],
    ) by {
        if i < head.len() {
            assert(sample(ops, w, head_percs[i], a[i], a[i + 1], head[i]));
        } else {
            let j = i - head.len();
            assert(sample(ops, w, tail_percs[j], b[j], b[j + 1], tail[j]));
            assert(trace[i] == b[j]);
        }
    }
    assert(walk(ops, w, percs, trace, gains));
}

/// A stretch can be cut anywhere into two.
pub proof fn law_stretches_split(
    ops: Ops<u32>,
    w: Weights,
    percs: Seq<u32>,
    s: MaskerState,
    u: MaskerState,
    gains: Seq<u32>,
    k: int,
)
    requires
        stretch(ops, w, percs, s, u, gains),
        0 <= k <= gains.len(),
    ensures
        exists|t: MaskerState| #[trigger]
            stretch(ops, w, percs.take(k), s, t, gains.take(k)) && stretch(
                ops,
                w,
                percs.skip(k),
                t,
                u,
                gains.skip(k),
            ),
{
    let trace = choose|trace: Seq<MaskerState>| #[trigger]
        walk(ops, w, percs, trace, gains) && trace[0] == s && trace[gains.len() as int] == u;
    let (a, b) = (trace.take(k + 1), trace.skip(k));
    let (head, tail) = (gains.take(k), gains.skip(k));
    assert forall|i: int| 0 <= i < head.len() implies sample(
        ops,
        w,
        percs[i],
        a[i],
        a[i + 1],
        #[trigger] head[i],
    ) by {
        assert(sample(ops, w, percs[i], trace[i], trace[i + 1], gains[i]));
    }
    assert forall|i: int| 0 <= i < tail.len() implies sample(
        ops,
        w,
        percs[k + i],
        b[i],
        b[i + 1],
        #[trigger] tail[i],
    ) by {
        assert(sample(ops, w, percs[k + i], trace[k + i], trace[k + i + 1], gains[k + i]));
    }
    assert(walk(ops, w, percs.take(k), a, head));
    assert(walk(ops, w, percs.skip(k), b, tail));
    assert(stretch(ops, w, percs.take(k), s, trace[k], head));
}

// ---------------------------------------------------------------------------
// The plugin
// ---------------------------------------------------------------------------

/// Parameters that did not change alter nothing.
pub proof fn law_steady_parameters_change_nothing(
    ops: Ops<u32>,
    wide: Ops<u64>,
    p: DropoutPluginParams,
    s: PluginState,
    t: PluginState,
)
    requires
        picked_up(ops, wide, p, s, t),
        p.seed == s.last_seed,
        !packet_differs(ops, p.packet_ms, s.last_packet_ms, true),
    ensures
        t == s,
{
}

/// A new seed restarts the pattern at the first sample of the block: the
/// masker is at a boundary of the pattern of that seed, and nothing of the old
/// one is left.
pub proof fn law_new_seed_restarts_the_pattern(
    ops: Ops<u32>,
    wide: Ops<u64>,
    p: DropoutPluginParams,
    s: PluginState,
    t: PluginState,
)
    requires
        picked_up(ops, wide, p, s, t),
        s.masker.wf(),
        p.seed != s.last_seed,
    ensures
        t.last_seed == p.seed,
        t.masker == MaskerState::fresh(
            t.masker.packet_size,
            #[verifier::truncate] (p.seed as u64),
        ),
{
}

/// Whether subtraction serves to tell `packet_ms` from `last`: a packet size does
/// not count as different from itself, and whether it does from `last` is not
/// left open.
pub open spec fn tells_apart(ops: Ops<u32>, packet_ms: u32, last: u32) -> bool {
    &&& !packet_differs(ops, packet_ms, packet_ms, true)
    &&& !(packet_differs(ops, packet_ms, last, true) && packet_differs(
        ops,
        packet_ms,
        last,
        false,
    ))
}

/// Parameters are picked up once: to pick up the same seed and packet size again
/// changes nothing, whatever the masker did in between.
pub proof fn law_parameters_are_picked_up_once(
    ops: Ops<u32>,
    wide: Ops<u64>,
    p: DropoutPluginParams,
    q: DropoutPluginParams,
    s: PluginState,
    t: PluginState,
    m: MaskerState,
    u: PluginState,
)
    requires
        tells_apart(ops, p.packet_ms, s.last_packet_ms),
        q.packet_ms == p.packet_ms,
        q.seed == p.seed,
        picked_up(ops, wide, p, s, t),
        picked_up(ops, wide, q, (PluginState { masker: m, ..t }), u),
    ensures
        u == (PluginState { masker: m, ..t }),
{
}

/// Packets run on across blocks: two blocks in a row with the same seed and packet
/// size are one stretch of samples, though the target loss may change between
/// them.
pub proof fn law_packets_run_across_blocks(
    ops: Ops<u32>,
    wide: Ops<u64>,
    w: Weights,
    p: DropoutPluginParams,
    q: DropoutPluginParams,
    s: PluginState,
    m: PluginState,
    t: PluginState,
    head: Seq<u32>,
    head_status: BlockStatus,
    tail: Seq<u32>,
    tail_status: BlockStatus,
)
    requires
        tells_apart(ops, p.packet_ms, s.last_packet_ms),
        q.packet_ms == p.packet_ms,
        q.seed == p.seed,
        !p.bypass && !q.bypass,
        processed(ops, wide, w, p, s, m, head, head_status),
        processed(ops, wide, w, q, m, t, tail, tail_status),
    ensures
        exists|u: PluginState|
            {
                &&& #[trigger] picked_up(ops, wide, p, s, u)
                &&& stretch(
                    ops,
                    w,
                    steady(p.loss, head.len()) + steady(q.loss, tail.len()),
                    u.masker,
                    t.masker,
                    head + tail,
                )
                &&& t == (PluginState { masker: t.masker, ..u })
            },
{
    let head_percs = steady(p.loss, head.len());
    let tail_percs = steady(q.loss, tail.len());
    let u = choose|u: PluginState|
        {
            &&& #[trigger] picked_up(ops, wide, p, s, u)
            &&& stretch(ops, w, head_percs, u.masker, m.masker, head)
            &&& m == (PluginState { masker: m.masker, ..u })
        };
    let v = choose|v: PluginState|
        {
            &&& #[trigger] picked_up(ops, wide, q, m, v)
            &&& stretch(ops, w, tail_percs, v.masker, t.masker, tail)
            &&& t == (PluginState { masker: t.masker, ..v })
        };
    law_parameters_are_picked_up_once(ops, wide, p, q, s, u, m.masker, v);
    law_stretches_join(ops, w, head_percs, tail_percs, u.masker, m.masker, t.masker, head, tail);
}

/// Two blocks in a row with the same parameters can be one block: the same gains
/// and the meter of the second.
pub proof fn law_blocks_join(
    ops: Ops<u32>,
    wide: Ops<u64>,
    w: Weights,
    p: DropoutPluginParams,
    s: PluginState,
    m: PluginState,
    t: PluginState,
    head: Seq<u32>,
    head_status: BlockStatus,
    tail: Seq<u32>,
    tail_status: BlockStatus,
)
    requires
        tells_apart(ops, p.packet_ms, s.last_packet_ms),
        processed(ops, wide, w, p, s, m, head, head_status),
        processed(ops, wide, w, p, m, t, tail, tail_status),
    ensures
        processed(ops, wide, w, p, s, t, head + tail, tail_status),
{
    if !p.bypass {
        law_packets_run_across_blocks(
            ops,
            wide,
            w,
            p,
            p,
            s,
            m,
            t,
            head,
            head_status,
            tail,
            tail_status,
        );
        assert(steady(p.loss, head.len()) + steady(p.loss, tail.len()) =~= steady(
            p.loss,
            (head + tail).len(),
        ));
    }
}

/// A block can be cut anywhere into two with the same parameters: the same gains,
/// and the meter of the whole after the second.
pub proof fn law_blocks_split(
    ops: Ops<u32>,
    wide: Ops<u64>,
    w: Weights,
    p: DropoutPluginParams,
    s: PluginState,
    t: PluginState,
    gains: Seq<u32>,
    status: BlockStatus,
    k: int,
)
    requires
        packet_differs(ops, p.packet_ms, p.packet_ms, false),
        processed(ops, wide, w, p, s, t, gains, status),
        0 <= k <= gains.len(),
    ensures
        exists|m: PluginState, head_status: BlockStatus| #[trigger]
            processed(ops, wide, w, p, s, m, gains.take(k), head_status) && processed(
                ops,
                wide,
                w,
                p,
                m,
                t,
                gains.skip(k),
                status,
            ),
{
    let (head, tail) = (gains.take(k), gains.skip(k));
    if p.bypass {
        assert(processed(ops, wide, w, p, s, s, head, status));
    } else {
        let percs = steady(p.loss, gains.len());
        let u = choose|u: PluginState|
            {
                &&& #[trigger] picked_up(ops, wide, p, s, u)
                &&& stretch(ops, w, percs, u.masker, t.masker, gains)
                &&& t == (PluginState { masker: t.masker, ..u })
            };
        law_stretches_split(ops, w, percs, u.masker, t.masker, gains, k);
        let c = choose|c: MaskerState| #[trigger]
            stretch(ops, w, percs.take(k), u.masker, c, head) && stretch(
                ops,
                w,
                percs.skip(k),
                c,
                t.masker,
                tail,
            );
        assert(percs.take(k) =~= steady(p.loss, head.len()));
        assert(percs.skip(k) =~= steady(p.loss, tail.len()));
        let m = PluginState { masker: c, ..u };
        let head_status = BlockStatus { passthrough: false, activity: feedback(c.dropped) };
        assert(processed(ops, wide, w, p, s, m, head, head_status));
        assert(packet_differs(ops, p.packet_ms, m.last_packet_ms, false));
        assert(m.reseeded(p.seed) == m);
        assert(picked_up(ops, wide, p, m, m));
        assert(processed(ops, wide, w, p, m, t, tail, status));
    }
}

/// What is picked up is determined.
proof fn lemma_picked_up_once(
    ops: Ops<u32>,
    wide: Ops<u64>,
    p: DropoutPluginParams,
    s: PluginState,
    t: PluginState,
    u: PluginState,
)
    requires
        functional(ops),
        functional(wide),
        picked_up(ops, wide, p, s, t),
        picked_up(ops, wide, p, s, u),
    ensures
        t == u,
{
    if packet_differs(ops, p.packet_ms, s.last_packet_ms, true) {
        let r = s.reseeded(p.seed);
        let j = choose|j: int| #[trigger]
            packet_length(wide, s.sample_rate, p.packet_ms, j) && t == r.repacked(p.packet_ms, j);
        let k = choose|k: int| #[trigger]
            packet_length(wide, s.sample_rate, p.packet_ms, k) && u == r.repacked(p.packet_ms, k);
        law_packet_length_is_deterministic(wide, s.sample_rate, p.packet_ms, j, k);
    }
}

/// A block is determined: where each operation has one result, two plugins in one
/// state end in one state on the same parameters and number of samples, with the
/// same status, the same gains, and the same output for each input.
pub proof fn law_block_is_deterministic(
    ops: Ops<u32>,
    wide: Ops<u64>,
    w: Weights,
    p: DropoutPluginParams,
    s: PluginState,
    t: PluginState,
    gains: Seq<u32>,
    status: BlockStatus,
    u: PluginState,
    other_gains: Seq<u32>,
    other_status: BlockStatus,
)
    requires
        functional(ops),
        functional(wide),
        processed(ops, wide, w, p, s, t, gains, status),
        processed(ops, wide, w, p, s, u, other_gains, other_status),
        gains.len() == other_gains.len(),
    ensures
        t == u,
        status == other_status,
        !p.bypass ==> gains == other_gains,
        forall|input: Seq<u32>| #[trigger]
            rendered(status.passthrough, input, gains) == rendered(
                other_status.passthrough,
                input,
                other_gains,
            ),
{
    if !p.bypass {
        let percs = steady(p.loss, gains.len());
        let a = choose|a: PluginState|
            {
                &&& #[trigger] picked_up(ops, wide, p, s, a)
                &&& stretch(ops, w, percs, a.masker, t.masker, gains)
                &&& t == (PluginState { masker: t.masker, ..a })
            };
        let b = choose|b: PluginState|
            {
                &&& #[trigger] picked_up(ops, wide, p, s, b)
                &&& stretch(ops, w, percs, b.masker, u.masker, other_gains)
                &&& u == (PluginState { masker: u.masker, ..b })
            };
        lemma_picked_up_once(ops, wide, p, s, a, b);
        law_same_state_same_stretch(
            ops,
            w,
            percs,
            a.masker,
            t.masker,
            gains,
            u.masker,
            other_gains,
        );
    }
}

/// Channels do not mix: whatever the others are and however many, a channel's
/// output comes from its own input and the gains that all share.
pub proof fn law_channels_do_not_mix(
    passthrough: bool,
    gains: Seq<u32>,
    inputs: Seq<Seq<u32>>,
    other_inputs: Seq<Seq<u32>>,
    c: int,
    d: int,
)
    requires
        0 <= c < inputs.len(),
        0 <= d < other_inputs.len(),
        inputs[c] == other_inputs[d],
    ensures
        rendered_all(passthrough, inputs, gains)[c] == rendered(passthrough, inputs[c], gains),
        rendered_all(passthrough, inputs, gains)[c] == rendered_all(
            passthrough,
            other_inputs,
            gains,
        )[d],
{
}

/// The audio decides nothing: where each operation has one result, two plugins in
/// one state with the same parameters end in one state and report the same, for
/// any channels and samples; and wherever they have a channel in common, its
/// output is the same.
pub proof fn law_audio_decides_nothing(
    ops: Ops<u32>,
    wide: Ops<u64>,
    w: Weights,
    p: DropoutPluginParams,
    s: PluginState,
    t: PluginState,
    gains: Seq<u32>,
    status: BlockStatus,
    inputs: Seq<Seq<u32>>,
    u: PluginState,
    other_gains: Seq<u32>,
    other_status: BlockStatus,
    other_inputs: Seq<Seq<u32>>,
)
    requires
        functional(ops),
        functional(wide),
        processed(ops, wide, w, p, s, t, gains, status),
        processed(ops, wide, w, p, s, u, other_gains, other_status),
        gains.len() == other_gains.len(),
    ensures
        t == u,
        status == other_status,
        forall|c: int, d: int|
            0 <= c < inputs.len() && 0 <= d < other_inputs.len() && inputs[c] == other_inputs[d]
                ==> #[trigger] rendered_all(status.passthrough, inputs, gains)[c]
                == #[trigger] rendered_all(other_status.passthrough, other_inputs, other_gains)[d],
{
    law_block_is_deterministic(
        ops,
        wide,
        w,
        p,
        s,
        t,
        gains,
        status,
        u,
        other_gains,
        other_status,
    );
    assert forall|c: int, d: int|
        0 <= c < inputs.len() && 0 <= d < other_inputs.len() && inputs[c]
            == other_inputs[d] implies #[trigger] rendered_all(
        status.passthrough,
        inputs,
        gains,
    )[c] == #[trigger] rendered_all(other_status.passthrough, other_inputs, other_gains)[d] by {
        assert(rendered(status.passthrough, inputs[c], gains) == rendered(
            other_status.passthrough,
            inputs[c],
            other_gains,
        ));
    }
}

/// Output joins as gains do: a channel rendered in two pieces is the channel
/// rendered at once.
pub proof fn law_output_joins(
    passthrough: bool,
    head_input: Seq<u32>,
    head: Seq<u32>,
    tail_input: Seq<u32>,
    tail: Seq<u32>,
)
    requires
        head_input.len() == head.len(),
        tail_input.len() == tail.len(),
    ensures
        rendered(passthrough, head_input + tail_input, head + tail) == rendered(
            passthrough,
            head_input,
            head,
        ) + rendered(passthrough, tail_input, tail),
{
    assert(rendered(passthrough, head_input + tail_input, head + tail) =~= rendered(
        passthrough,
        head_input,
        head,
    ) + rendered(passthrough, tail_input, tail));
}

/// Where the host cuts the stream does not matter: where each operation has one
/// result and a packet size does not count as different from itself, a plugin
/// that is given two blocks at once gives on every channel what an equal one gives
/// on the first and then the second, ends in the same state and leaves the meter
/// the same.
pub proof fn law_output_does_not_depend_on_blocks(
    ops: Ops<u32>,
    wide: Ops<u64>,
    w: Weights,
    p: DropoutPluginParams,
    s: PluginState,
    whole: PluginState,
    gains: Seq<u32>,
    status: BlockStatus,
    m: PluginState,
    head: Seq<u32>,
    head_status: BlockStatus,
    t: PluginState,
    tail: Seq<u32>,
    tail_status: BlockStatus,
)
    requires
        functional(ops),
        functional(wide),
        !packet_differs(ops, p.packet_ms, p.packet_ms, true),
        processed(ops, wide, w, p, s, whole, gains, status),
        processed(ops, wide, w, p, s, m, head, head_status),
        processed(ops, wide, w, p, m, t, tail, tail_status),
        gains.len() == head.len() + tail.len(),
    ensures
        whole == t,
        status == tail_status,
        !p.bypass ==> gains == head + tail,
        forall|a: Seq<u32>, b: Seq<u32>|
            a.len() == head.len() && b.len() == tail.len() ==> #[trigger] rendered(
                status.passthrough,
                a + b,
                gains,
            ) == rendered(head_status.passthrough, a, head) + rendered(
                tail_status.passthrough,
                b,
                tail,
            ),
{
    law_blocks_join(ops, wide, w, p, s, m, t, head, head_status, tail, tail_status);
    law_block_is_deterministic(
        ops,
        wide,
        w,
        p,
        s,
        whole,
        gains,
        status,
        t,
        head + tail,
        tail_status,
    );
    assert forall|a: Seq<u32>, b: Seq<u32>|
        a.len() == head.len() && b.len() == tail.len() implies #[trigger] rendered(
        status.passthrough,
        a + b,
        gains,
    ) == rendered(head_status.passthrough, a, head) + rendered(
        tail_status.passthrough,
        b,
        tail,
    ) by {
        law_output_joins(status.passthrough, a, head, b, tail);
    }
}

/// A session is determined: where each operation has one result, two plugins in
/// one state pass through the same states, with the same statuses and outputs, as
/// long as their blocks have the same parameters and lengths.
pub proof fn law_session_is_deterministic(
    ops: Ops<u32>,
    wide: Ops<u64>,
    w: Weights,
    params: Seq<DropoutPluginParams>,
    states: Seq<PluginState>,
    gains: Seq<Seq<u32>>,
    statuses: Seq<BlockStatus>,
    other_states: Seq<PluginState>,
    other_gains: Seq<Seq<u32>>,
    other_statuses: Seq<BlockStatus>,
    i: int,
)
    requires
        functional(ops),
        functional(wide),
        session(ops, wide, w, params, states, gains, statuses),
        session(ops, wide, w, params, other_states, other_gains, other_statuses),
        states[0] == other_states[0],
        forall|j: int|
            0 <= j < params.len() ==> #[trigger] gains[j].len() == other_gains[j].len(),
        0 <= i <= params.len(),
    ensures
        states[i] == other_states[i],
        i < params.len() ==> {
            &&& statuses[i] == other_statuses[i]
            &&& !params[i].bypass ==> gains[i] == other_gains[i]
            &&& forall|input: Seq<u32>| #[trigger]
                rendered(statuses[i].passthrough, input, gains[i]) == rendered(
                    other_statuses[i].passthrough,
                    input,
                    other_gains[i],
                )
        },
    decreases i,
{
    if i > 0 {
        law_session_is_deterministic(
            ops,
            wide,
            w,
            params,
            states,
            gains,
            statuses,
            other_states,
            other_gains,
            other_statuses,
            i - 1,
        );
        lemma_session_step(
            ops,
            wide,
            w,
            params,
            states,
            gains,
            statuses,
            other_states,
            other_gains,
            other_statuses,
            i - 1,
        );
    }
    if i < params.len() {
        lemma_session_step(
            ops,
            wide,
            w,
            params,
            states,
            gains,
            statuses,
            other_states,
            other_gains,
            other_statuses,
            i,
        );
    }
}

/// One block of two sessions that agree up to it.
proof fn lemma_session_step(
    ops: Ops<u32>,
    wide: Ops<u64>,
    w: Weights,
    params: Seq<DropoutPluginParams>,
    states: Seq<PluginState>,
    gains: Seq<Seq<u32>>,
    statuses: Seq<BlockStatus>,
    other_states: Seq<PluginState>,
    other_gains: Seq<Seq<u32>>,
    other_statuses: Seq<BlockStatus>,
    i: int,
)
    requires
        functional(ops),
        functional(wide),
        session(ops, wide, w, params, states, gains, statuses),
        session(ops, wide, w, params, other_states, other_gains, other_statuses),
        0 <= i < params.len(),
        gains[i].len() == other_gains[i].len(),
        states[i] == other_states[i],
    ensures
        states[i + 1] == other_states[i + 1],
        statuses[i] == other_statuses[i],
        !params[i].bypass ==> gains[i] == other_gains[i],
        forall|input: Seq<u32>| #[trigger]
            rendered(statuses[i].passthrough, input, gains[i]) == rendered(
                other_statuses[i].passthrough,
                input,
                other_gains[i],
            ),
{
    let p = params[i];
    law_block_is_deterministic(
        ops,
        wide,
        w,
        p,
        states[i],
        states[i + 1],
        gains[i],
        statuses[i],
        other_states[i + 1],
        other_gains[i],
        other_statuses[i],
    );
}

/// A reset of the plugin forgets the past: where each operation has one result,
/// two plugins that are reset with one sample rate and the same parameters give
/// the same states, statuses and outputs from there on, however the parameters
/// change with the blocks, and whatever each did before.
pub proof fn law_plugin_reset_forgets_the_past(
    ops: Ops<u32>,
    wide: Ops<u64>,
    w: Weights,
    sample_rate: u64,
    p: DropoutPluginParams,
    params: Seq<DropoutPluginParams>,
    states: Seq<PluginState>,
    gains: Seq<Seq<u32>>,
    statuses: Seq<BlockStatus>,
    other_states: Seq<PluginState>,
    other_gains: Seq<Seq<u32>>,
    other_statuses: Seq<BlockStatus>,
    i: int,
)
    requires
        functional(ops),
        functional(wide),
        restarted(wide, sample_rate, p, states[0]),
        restarted(wide, sample_rate, p, other_states[0]),
        session(ops, wide, w, params, states, gains, statuses),
        session(ops, wide, w, params, other_states, other_gains, other_statuses),
        forall|j: int|
            0 <= j < params.len() ==> #[trigger] gains[j].len() == other_gains[j].len(),
        0 <= i <= params.len(),
    ensures
        states[i] == other_states[i],
        i < params.len() ==> {
            &&& statuses[i] == other_statuses[i]
            &&& !params[i].bypass ==> gains[i] == other_gains[i]
            &&& forall|input: Seq<u32>| #[trigger]
                rendered(statuses[i].passthrough, input, gains[i]) == rendered(
                    other_statuses[i].passthrough,
                    input,
                    other_gains[i],
                )
        },
{
    let m = choose|m: int| #[trigger]
        packet_length(wide, sample_rate, p.packet_ms, m) && states[0] == PluginState::fresh(
            sample_rate,
            p,
            m,
        );
    let n = choose|n: int| #[trigger]
        packet_length(wide, sample_rate, p.packet_ms, n) && other_states[0] == PluginState::fresh(
            sample_rate,
            p,
            n,
        );
    law_packet_length_is_deterministic(wide, sample_rate, p.packet_ms, m, n);
    law_session_is_deterministic(
        ops,
        wide,
        w,
        params,
        states,
        gains,
        statuses,
        other_states,
        other_gains,
        other_statuses,
        i,
    );
}

/// Two packet sizes of at least two milliseconds are either the same or more
/// than 2^-23 apart.
proof fn lemma_packet_sizes_apart(a: u32, b: u32)
    requires
        0x4000_0000 <= a < b < 0x7f80_0000,
    ensures
        value(b) - value(a) >= 2 * pow2(126),
{
    lemma_pow2_unfold(127);
    let unit = pow2(127) as int;
    lemma_pow2_pos(127);
    lemma_magnitude_increases(a, b);
    assert(a as int / 0x80_0000 >= 128 && b as int / 0x80_0000 >= 128);
    assert(a as int / 0x80_0000 < 256 && b as int / 0x80_0000 < 256);
    let (x, y) = (exponent(a) - 128, exponent(b) - 128);
    lemma_pow2_adds(127, x as nat);
    lemma_pow2_adds(127, y as nat);
    let ka = (fraction(a) + 0x80_0000) * pow2(x as nat);
    let kb = (fraction(b) + 0x80_0000) * pow2(y as nat);
    assert((fraction(a) + 0x80_0000) * (unit * pow2(x as nat)) == unit * ka) by (nonlinear_arith)
        requires
            ka == (fraction(a) + 0x80_0000) * pow2(x as nat),
    ;
    assert((fraction(b) + 0x80_0000) * (unit * pow2(y as nat)) == unit * kb) by (nonlinear_arith)
        requires
            kb == (fraction(b) + 0x80_0000) * pow2(y as nat),
    ;
    assert(unit * kb - unit * ka >= unit) by (nonlinear_arith)
        requires
            unit * kb > unit * ka,
            unit > 0,
    ;
}

/// Every change of the packet size counts: finite sizes of at least two
/// milliseconds that differ at all are told apart, where a difference is
/// computed to within half of its absolute value.
pub proof fn law_every_change_of_packet_size_counts(
    ops: Ops<u32>,
    packet_ms: u32,
    last: u32,
    differs: bool,
)
    requires
        0x4000_0000 <= packet_ms < 0x7f80_0000,
        0x4000_0000 <= last < 0x7f80_0000,
        packet_ms != last,
        forall|d: u32| #[trigger]
            ops(Op::Sub, packet_ms, last, d) ==> !is_nan(d) && 2 * magnitude(d) > value(packet_ms)
                - value(last) && 2 * magnitude(d) > value(last) - value(packet_ms),
        packet_differs(ops, packet_ms, last, differs),
    ensures
        differs,
{
    if packet_ms < last {
        lemma_packet_sizes_apart(packet_ms, last);
    } else {
        lemma_packet_sizes_apart(last, packet_ms);
    }
}

} // verus!
