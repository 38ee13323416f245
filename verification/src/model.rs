//! The recurrent packet-loss model.
//!
//! ```text
//! x = tanh(dense_in([last, perc]))         Linear(2 -> 8) + tanh
//! h1 = gru1(x,  h1)                        GRU(8  -> 8)
//! h2 = gru2(h1, h2)                        GRU(8  -> 16)
//! logit = dense_out(h2)                    Linear(16 -> 1)
//! ```
//!
//! One step of the model is one packet. Every buffer has a fixed size, so a
//! step allocates nothing.

use vstd::prelude::*;

use crate::arith::{
    affine, apply, apply_unary, dot, dot_of, dot_plus, evaluates, graph, minus, plus, sigma, sigmoid,
    sigmoid_of, tanh, times, total, Expr, Op, Ops,
};
use crate::single::{ONE, ZERO};

verus! {

/// Width of the first recurrent layer, and of the dense layer before it.
pub const GRU1_SIZE: usize = 8;

/// Width of the second recurrent layer.
pub const GRU2_SIZE: usize = 16;

/// The trained weights, by their patterns. Each row of a matrix holds the
/// weights of one output. The rows of a recurrent layer of width `n` are those
/// of its `n` reset gates, then of its `n` update gates, then of its `n` new
/// gates.
pub struct Weights {
    pub dense_in_w: [[u32; 2]; 8],
    pub dense_in_b: [u32; 8],
    pub gru1_w_ih: [[u32; 8]; 24],
    pub gru1_w_hh: [[u32; 8]; 24],
    pub gru1_b_ih: [u32; 24],
    pub gru1_b_hh: [u32; 24],
    pub gru2_w_ih: [[u32; 8]; 48],
    pub gru2_w_hh: [[u32; 16]; 48],
    pub gru2_b_ih: [u32; 48],
    pub gru2_b_hh: [u32; 48],
    pub dense_out_w: [[u32; 16]; 1],
    pub dense_out_b: [u32; 1],
}

/// The hidden states of the two recurrent layers.
pub struct ModelState {
    pub h1: Seq<u32>,
    pub h2: Seq<u32>,
}

/// The hidden states before the first packet.
pub open spec fn blank() -> ModelState {
    ModelState {
        h1: Seq::new(GRU1_SIZE as nat, |i: int| ZERO),
        h2: Seq::new(GRU2_SIZE as nat, |i: int| ZERO),
    }
}

/// The value of a reset or update gate:
/// `sigma(wi . x + bi + wh . h + bh)`.
pub open spec fn gate(
    wi: Seq<u32>,
    bi: u32,
    wh: Seq<u32>,
    bh: u32,
    x: Seq<u32>,
    h: Seq<u32>,
) -> Expr<u32> {
    sigma(plus(plus(affine(wi, x, bi), dot_of(wh, h)), Expr::Lit(bh)))
}

/// The value of a new gate, whose reset `r` scales the hidden contribution
/// only: `tanh(wi . x + bi + r * (wh . h + bh))`.
pub open spec fn new_gate(
    r: Expr<u32>,
    wi: Seq<u32>,
    bi: u32,
    wh: Seq<u32>,
    bh: u32,
    x: Seq<u32>,
    h: Seq<u32>,
) -> Expr<u32> {
    tanh(plus(affine(wi, x, bi), times(r, affine(wh, h, bh))))
}

/// The new state of a unit: `(1 - z) * n + z * h`.
pub open spec fn blend(z: u32, n: Expr<u32>, h: u32) -> Expr<u32> {
    plus(
        times(minus(Expr::Lit(ONE), Expr::Lit(z)), n),
        times(Expr::Lit(z), Expr::Lit(h)),
    )
}

/// Whether `out` can be the new state of unit `i` of a recurrent layer in state
/// `h` with input `x`.
pub open spec fn gru_unit<
    const IN: usize,
    const H: usize,
    const H3: usize,
>(
    ops: Ops<u32>,
    w_ih: [[u32; IN]; H3],
    w_hh: [[u32; H]; H3],
    b_ih: [u32; H3],
    b_hh: [u32; H3],
    x: Seq<u32>,
    h: Seq<u32>,
    i: int,
    out: u32,
) -> bool {
    let (ri, zi, ni) = (i, H + i, 2 * H + i);
    let r = gate(w_ih@[ri]@, b_ih@[ri], w_hh@[ri]@, b_hh@[ri], x, h);
    let n = new_gate(r, w_ih@[ni]@, b_ih@[ni], w_hh@[ni]@, b_hh@[ni], x, h);
    exists|z: u32| #[trigger]
        evaluates(ops, gate(w_ih@[zi]@, b_ih@[zi], w_hh@[zi]@, b_hh@[zi], x, h), z) && evaluates(
            ops,
            blend(z, n, h[i]),
            out,
        )
}

/// Whether a recurrent layer can go from state `h` to state `next` on input
/// `x`. Each unit reads the old state of the whole layer.
pub open spec fn gru_layer<
    const IN: usize,
    const H: usize,
    const H3: usize,
>(
    ops: Ops<u32>,
    w_ih: [[u32; IN]; H3],
    w_hh: [[u32; H]; H3],
    b_ih: [u32; H3],
    b_hh: [u32; H3],
    x: Seq<u32>,
    h: Seq<u32>,
    next: Seq<u32>,
) -> bool {
    &&& next.len() == H
    &&& forall|i: int|
        0 <= i < H ==> gru_unit(ops, w_ih, w_hh, b_ih, b_hh, x, h, i, #[trigger] next[i])
}

/// Whether `x` can be what the input layer makes of the last decision and the
/// target loss.
pub open spec fn dense_in(
    ops: Ops<u32>,
    w: Weights,
    last: u32,
    perc: u32,
    x: Seq<u32>,
) -> bool {
    &&& x.len() == GRU1_SIZE
    &&& forall|i: int|
        0 <= i < GRU1_SIZE ==> evaluates(
            ops,
            tanh(affine(w.dense_in_w@[i]@, seq![last, perc], w.dense_in_b@[i])),
            #[trigger] x[i],
        )
}

/// Whether one step of the model can go from `s` to `t` and give `logit`.
pub open spec fn model_step(
    ops: Ops<u32>,
    w: Weights,
    s: ModelState,
    last: u32,
    perc: u32,
    t: ModelState,
    logit: u32,
) -> bool {
    exists|x: Seq<u32>|
        {
            &&& #[trigger] dense_in(ops, w, last, perc, x)
            &&& gru_layer(ops, w.gru1_w_ih, w.gru1_w_hh, w.gru1_b_ih, w.gru1_b_hh, x, s.h1, t.h1)
            &&& gru_layer(ops, w.gru2_w_ih, w.gru2_w_hh, w.gru2_b_ih, w.gru2_b_hh, t.h1, s.h2, t.h2)
            &&& evaluates(ops, affine(w.dense_out_w@[0]@, t.h2, w.dense_out_b@[0]), logit)
        }
}

/// Whether one step of the model can go from `s` to `t` and give the drop
/// probability `p`.
pub open spec fn model_prob(
    ops: Ops<u32>,
    w: Weights,
    s: ModelState,
    last: u32,
    perc: u32,
    t: ModelState,
    p: u32,
) -> bool {
    exists|logit: u32| #[trigger]
        model_step(ops, w, s, last, perc, t, logit) && evaluates(ops, sigma(Expr::Lit(logit)), p)
}

/// Whether the model can pass through the states of `trace`, one step after the
/// other, with the logits of `logits`, where each of `inputs` is the last decision
/// and the target loss of a step.
pub open spec fn model_run(
    ops: Ops<u32>,
    w: Weights,
    inputs: Seq<(u32, u32)>,
    trace: Seq<ModelState>,
    logits: Seq<u32>,
) -> bool {
    &&& trace.len() == inputs.len() + 1
    &&& logits.len() == inputs.len()
    &&& forall|i: int|
        0 <= i < inputs.len() ==> model_step(
            ops,
            w,
            trace[i],
            inputs[i].0,
            inputs[i].1,
            trace[i + 1],
            #[trigger] logits[i],
        )
}

/// A reset or update gate.
fn gate_value<const IN: usize, const H: usize, F: Fn(Op, u32, u32) -> u32>(
    wi: &[u32; IN],
    bi: u32,
    wh: &[u32; H],
    bh: u32,
    x: &[u32; IN],
    h: &[u32; H],
    f: &F,
) -> (r: u32)
    requires
        total(*f),
    ensures
        evaluates(graph(*f), gate(wi@, bi, wh@, bh, x@, h@), r),
{
    let ghost input = affine(wi@, x@, bi);
    let ghost hidden = dot_of(wh@, h@);
    let a: u32 = dot_plus(wi, x, bi, f);
    let b: u32 = dot(wh, h, f);
    let c: u32 = apply(f, Op::Add, a, b, Ghost(input), Ghost(hidden));
    let d: u32 = apply(f, Op::Add, c, bh, Ghost(plus(input, hidden)), Ghost(Expr::Lit(bh)));
    sigmoid_of(f, d, Ghost(plus(plus(input, hidden), Expr::Lit(bh))))
}

/// One step of a recurrent layer, in place on `h`.
///
/// Gate rows are stacked `[ r ; z ; n ]`, each `H` tall, so row `i` is the
/// reset gate, `H + i` the update gate, `2H + i` the new gate.
pub fn gru_step<
    const IN: usize,
    const H: usize,
    const H3: usize,
    F: Fn(Op, u32, u32) -> u32,
>(
    h: &mut [u32; H],
    x: &[u32; IN],
    w_ih: &[[u32; IN]; H3],
    w_hh: &[[u32; H]; H3],
    b_ih: &[u32; H3],
    b_hh: &[u32; H3],
    f: &F,
)
    requires
        3 * H <= H3,
        total(*f),
    ensures
        gru_layer(graph(*f), *w_ih, *w_hh, *b_ih, *b_hh, x@, old(h)@, final(h)@),
{
    let mut next: [u32; H] = [ZERO; H];
    let mut i: usize = 0;
    while i < H
        invariant
            i <= H,
            3 * H <= H3,
            total(*f),
            h@ == old(h)@,
            forall|j: int|
                0 <= j < i ==> gru_unit(
                    graph(*f),
                    *w_ih,
                    *w_hh,
                    *b_ih,
                    *b_hh,
                    x@,
                    h@,
                    j,
                    #[trigger] next@[j],
                ),
        decreases H - i,
    {
        let ri: usize = i;
        let zi: usize = H + i;
        let ni: usize = 2 * H + i;

        let ghost r_expr = gate(
            w_ih@[ri as int]@,
            b_ih@[ri as int],
            w_hh@[ri as int]@,
            b_hh@[ri as int],
            x@,
            h@,
        );
        let ghost input = affine(w_ih@[ni as int]@, x@, b_ih@[ni as int]);
        let ghost hidden = affine(w_hh@[ni as int]@, h@, b_hh@[ni as int]);
        let ghost scaled = times(r_expr, hidden);
        let ghost n_expr = tanh(plus(input, scaled));

        let r: u32 = gate_value(&w_ih[ri], b_ih[ri], &w_hh[ri], b_hh[ri], x, h, f);
        let z: u32 = gate_value(&w_ih[zi], b_ih[zi], &w_hh[zi], b_hh[zi], x, h, f);
        let a: u32 = dot_plus(&w_ih[ni], x, b_ih[ni], f);
        let b: u32 = dot_plus(&w_hh[ni], h, b_hh[ni], f);
        let c: u32 = apply(f, Op::Mul, r, b, Ghost(r_expr), Ghost(hidden));
        let d: u32 = apply(f, Op::Add, a, c, Ghost(input), Ghost(scaled));
        let n: u32 = apply_unary(f, Op::Tanh, d, Ghost(plus(input, scaled)));

        let ghost z_lit = Expr::Lit(z);
        let ghost h_lit = Expr::Lit(h@[i as int]);
        let ghost keep = minus(Expr::Lit(ONE), z_lit);
        let k: u32 = apply(f, Op::Sub, ONE, z, Ghost(Expr::Lit(ONE)), Ghost(z_lit));
        let u: u32 = apply(f, Op::Mul, k, n, Ghost(keep), Ghost(n_expr));
        let v: u32 = apply(f, Op::Mul, z, h[i], Ghost(z_lit), Ghost(h_lit));
        let ghost kept = times(keep, n_expr);
        let out: u32 = apply(f, Op::Add, u, v, Ghost(kept), Ghost(times(z_lit, h_lit)));
        assert(gru_unit(graph(*f), *w_ih, *w_hh, *b_ih, *b_hh, x@, h@, i as int, out));

        next[i] = out;
        i += 1;
    }
    *h = next;
}

/// The loss model. Holds only the two hidden states.
pub struct LossGen {
    h1: [u32; 8],
    h2: [u32; 16],
}

impl View for LossGen {
    type V = ModelState;

    closed spec fn view(&self) -> ModelState {
        ModelState { h1: self.h1@, h2: self.h2@ }
    }
}

impl Default for LossGen {
    fn default() -> (model: Self)
        ensures
            model@ == blank(),
    {
        Self::new()
    }
}

impl LossGen {
    /// A model that has seen no packet.
    pub fn new() -> (model: Self)
        ensures
            model@ == blank(),
    {
        let model = LossGen { h1: [ZERO; 8], h2: [ZERO; 16] };
        assert(model@.h1 =~= blank().h1);
        assert(model@.h2 =~= blank().h2);
        model
    }

    /// Zeroes the hidden states.
    pub fn reset_state(&mut self)
        ensures
            final(self)@ == blank(),
    {
        self.h1 = [ZERO; 8];
        self.h2 = [ZERO; 16];
        assert(self@.h1 =~= blank().h1);
        assert(self@.h2 =~= blank().h2);
    }

    /// Advances one packet. `last` is the previous drop decision (0.0 keep /
    /// 1.0 drop), `perc` the target loss as a fraction. Returns the raw logit.
    pub fn step<F: Fn(Op, u32, u32) -> u32>(
        &mut self,
        last: u32,
        perc: u32,
        w: &Weights,
        f: &F,
    ) -> (logit: u32)
        requires
            total(*f),
        ensures
            model_step(graph(*f), *w, old(self)@, last, perc, final(self)@, logit),
    {
        let inp: [u32; 2] = [last, perc];
        assert(inp@ =~= seq![last, perc]);
        let mut x: [u32; 8] = [ZERO; 8];
        let mut i: usize = 0;
        while i < 8
            invariant
                i <= 8,
                total(*f),
                inp@ == seq![last, perc],
                *self == *old(self),
                forall|j: int|
                    0 <= j < i ==> evaluates(
                        graph(*f),
                        tanh(affine(w.dense_in_w@[j]@, seq![last, perc], w.dense_in_b@[j])),
                        #[trigger] x@[j],
                    ),
            decreases 8 - i,
        {
            let a: u32 = dot_plus(&w.dense_in_w[i], &inp, w.dense_in_b[i], f);
            let t: u32 = apply_unary(
                f,
                Op::Tanh,
                a,
                Ghost(affine(w.dense_in_w@[i as int]@, inp@, w.dense_in_b@[i as int])),
            );
            x[i] = t;
            i += 1;
        }
        assert(dense_in(graph(*f), *w, last, perc, x@));

        gru_step(&mut self.h1, &x, &w.gru1_w_ih, &w.gru1_w_hh, &w.gru1_b_ih, &w.gru1_b_hh, f);
        let g1: [u32; 8] = self.h1;
        gru_step(&mut self.h2, &g1, &w.gru2_w_ih, &w.gru2_w_hh, &w.gru2_b_ih, &w.gru2_b_hh, f);

        dot_plus(&w.dense_out_w[0], &self.h2, w.dense_out_b[0], f)
    }

    /// Advances one packet and returns its drop probability.
    pub fn prob<F: Fn(Op, u32, u32) -> u32>(
        &mut self,
        last: u32,
        perc: u32,
        w: &Weights,
        f: &F,
    ) -> (p: u32)
        requires
            total(*f),
        ensures
            model_prob(graph(*f), *w, old(self)@, last, perc, final(self)@, p),
    {
        let logit: u32 = self.step(last, perc, w, f);
        sigmoid(logit, f)
    }
}

} // verus!
