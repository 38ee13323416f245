//! The streaming packet-loss masker.
//!
//! Splits the incoming sample stream into packets of a fixed size and, at each
//! packet boundary, runs the [`LossGen`] model once to decide keep or drop. A
//! dropped packet has gain 0.0, a kept one 1.0. The model is fed its own last
//! decision, which is what makes the loss bursty.
//!
//! Everything here is allocation-free and runs on the audio thread.

use vstd::prelude::*;
use vstd::arithmetic::power2::pow2;

use crate::arith::{apply, apply_unary, evaluates, graph, over, times, total, unary, Expr, Op, Ops};
use crate::double::{as_count, count, widen, widens, THOUSAND};
use crate::model::{blank, model_prob, LossGen, ModelState, Weights, GRU1_SIZE, GRU2_SIZE};
use crate::rng::{advance, output, seeded, uniform, Pcg32, RngState};
use crate::single::{
    finite, is_finite, is_nan, is_negative, lt, magnitude, value, NAN, NEGATIVE_ZERO, ONE, ZERO,
};

verus! {

/// The length of a packet in samples, before it is made a count:
/// `round(sample_rate * packet_ms / 1000)`.
pub open spec fn length_of(sample_rate: u64, packet_ms: u64) -> Expr<u64> {
    unary(
        Op::Round,
        over(times(Expr::Lit(sample_rate), Expr::Lit(packet_ms)), Expr::Lit(THOUSAND)),
    )
}

/// Whether `samples` can be the length of a packet of `packet_ms` milliseconds
/// at `sample_rate`, computed in double precision with `wide`.
pub open spec fn packet_length(
    wide: Ops<u64>,
    sample_rate: u64,
    packet_ms: u32,
    samples: int,
) -> bool {
    exists|ms: u64, length: u64|
        {
            &&& widens(packet_ms, ms)
            &&& #[trigger] evaluates(wide, length_of(sample_rate, ms), length)
            &&& samples == count(length)
        }
}

/// What a masker has decided so far and where it stands.
pub struct MaskerState {
    /// The generator of the thresholds.
    pub rng: RngState,
    /// The hidden states of the model.
    pub model: ModelState,
    /// The latest decision.
    pub dropped: bool,
    /// Samples per packet.
    pub packet_size: int,
    /// Samples elapsed into the current packet.
    pub pos: int,
}

/// A packet is never empty.
pub open spec fn at_least_one(samples: int) -> int {
    if samples < 1 {
        1
    } else {
        samples
    }
}

/// A decision as the model reads it: 1.0 for a drop, 0.0 for a keep.
pub open spec fn feedback(dropped: bool) -> u32 {
    if dropped {
        ONE
    } else {
        ZERO
    }
}

/// The gain of a packet: 0.0 for a drop, 1.0 for a keep.
pub open spec fn gain_of(dropped: bool) -> u32 {
    if dropped {
        ZERO
    } else {
        ONE
    }
}

/// Whether a packet whose threshold comes from `word` is dropped at drop
/// probability `prob`: whether the threshold is below it. A probability that is
/// no number drops nothing.
pub open spec fn drops(word: u32, prob: u32) -> bool {
    !is_nan(prob) && uniform(word) < value(prob)
}

impl MaskerState {
    /// The cursor stands inside a packet of at least one sample, and the model
    /// has its layers.
    pub open spec fn wf(self) -> bool {
        &&& 1 <= self.packet_size
        &&& 0 <= self.pos < self.packet_size
        &&& self.model.h1.len() == GRU1_SIZE
        &&& self.model.h2.len() == GRU2_SIZE
    }

    /// The start of the pattern of `seed`, with packets of `samples`, but at
    /// least one.
    pub open spec fn fresh(samples: int, seed: u64) -> Self {
        MaskerState {
            rng: seeded(seed),
            model: blank(),
            dropped: false,
            packet_size: at_least_one(samples),
            pos: 0,
        }
    }

    /// With packets of `samples`, but at least one: the cursor stays where it
    /// is, and goes to a boundary if it would stand outside its packet.
    pub open spec fn resized(self, samples: int) -> Self {
        let size = at_least_one(samples);
        MaskerState {
            packet_size: size,
            pos: if self.pos >= size {
                0
            } else {
                self.pos
            },
            ..self
        }
    }

    /// With one threshold drawn and held against `prob`.
    pub open spec fn settled(self, prob: u32) -> Self {
        MaskerState {
            rng: advance(self.rng),
            dropped: drops(output(self.rng.state), prob),
            ..self
        }
    }

    /// One sample further, back to 0 at the end of the packet.
    pub open spec fn moved(self) -> Self {
        MaskerState {
            pos: if self.pos + 1 >= self.packet_size {
                0
            } else {
                self.pos + 1
            },
            ..self
        }
    }
}

/// Whether one decision at target loss `perc` can go from `s` to `t`: the model
/// takes a step on the last decision, and its probability is held against a
/// threshold.
pub open spec fn decision(
    ops: Ops<u32>,
    w: Weights,
    perc: u32,
    s: MaskerState,
    t: MaskerState,
) -> bool {
    exists|model: ModelState, prob: u32| #[trigger]
        model_prob(ops, w, s.model, feedback(s.dropped), perc, model, prob) && t == (MaskerState {
            model,
            ..s
        }).settled(prob)
}

/// Whether one sample at target loss `perc` can go from `s` to `t` with gain
/// `gain`: a decision at a packet boundary and none elsewhere, the gain of the
/// packet, and the cursor one further.
pub open spec fn sample(
    ops: Ops<u32>,
    w: Weights,
    perc: u32,
    s: MaskerState,
    t: MaskerState,
    gain: u32,
) -> bool {
    if s.pos == 0 {
        exists|d: MaskerState| #[trigger]
            decision(ops, w, perc, s, d) && gain == gain_of(d.dropped) && t == d.moved()
    } else {
        gain == gain_of(s.dropped) && t == s.moved()
    }
}

/// Whether the masker can pass through the states of `trace`, one sample after
/// the other, with the gains of `gains`, at the target losses of `percs`.
pub open spec fn walk(
    ops: Ops<u32>,
    w: Weights,
    percs: Seq<u32>,
    trace: Seq<MaskerState>,
    gains: Seq<u32>,
) -> bool {
    &&& percs.len() == gains.len()
    &&& trace.len() == gains.len() + 1
    &&& forall|i: int|
        0 <= i < gains.len() ==> sample(
            ops,
            w,
            percs[i],
            trace[i],
            trace[i + 1],
            #[trigger] gains[i],
        )
}

/// Whether a stretch of samples at the target losses of `percs` can go from `s`
/// to `t` with the gains of `gains`.
pub open spec fn stretch(
    ops: Ops<u32>,
    w: Weights,
    percs: Seq<u32>,
    s: MaskerState,
    t: MaskerState,
    gains: Seq<u32>,
) -> bool {
    exists|trace: Seq<MaskerState>| #[trigger]
        walk(ops, w, percs, trace, gains) && trace[0] == s && trace[gains.len() as int] == t
}

/// The same target loss for `n` samples.
pub open spec fn steady(perc: u32, n: nat) -> Seq<u32> {
    Seq::new(n, |i: int| perc)
}

/// Whether decisions one after the other, at the target losses of `percs`, can
/// pass through the states of `chain`.
pub open spec fn decisions(
    ops: Ops<u32>,
    w: Weights,
    percs: Seq<u32>,
    chain: Seq<MaskerState>,
) -> bool {
    &&& chain.len() == percs.len() + 1
    &&& forall|k: int|
        0 <= k < percs.len() ==> decision(ops, w, #[trigger] percs[k], chain[k], chain[k + 1])
}

/// The target losses in force at the packet boundaries, where a packet of `size`
/// samples begins at the first sample.
pub open spec fn at_boundaries(percs: Seq<u32>, size: int) -> Seq<u32> {
    Seq::new(((percs.len() + size - 1) / size) as nat, |k: int| percs[k * size])
}

/// Whether `t` can be `s` with packets of `packet_ms` milliseconds.
pub open spec fn repacketed(
    wide: Ops<u64>,
    sample_rate: u64,
    packet_ms: u32,
    s: MaskerState,
    t: MaskerState,
) -> bool {
    exists|samples: int| #[trigger]
        packet_length(wide, sample_rate, packet_ms, samples) && t == s.resized(samples)
}

/// Whether `s` can be the start of the pattern of `seed`, with packets of
/// `packet_ms` milliseconds.
pub open spec fn started(
    wide: Ops<u64>,
    sample_rate: u64,
    packet_ms: u32,
    seed: u64,
    s: MaskerState,
) -> bool {
    exists|samples: int| #[trigger]
        packet_length(wide, sample_rate, packet_ms, samples) && s == MaskerState::fresh(
            samples,
            seed,
        )
}

/// What can happen to a masker between changes of its packet size.
pub enum Event {
    /// The gain of the next sample is asked for.
    Sample { perc: u32, gain: u32 },
    /// The pattern is restarted.
    Reset { seed: u64 },
}

/// Whether `event` can take a masker from `s` to `t`.
pub open spec fn follows(
    ops: Ops<u32>,
    w: Weights,
    event: Event,
    s: MaskerState,
    t: MaskerState,
) -> bool {
    match event {
        Event::Sample { perc, gain } => sample(ops, w, perc, s, t, gain),
        Event::Reset { seed } => t == MaskerState::fresh(s.packet_size, seed),
    }
}

/// Whether the events, one after the other, can take a masker through the states
/// of `trace`.
pub open spec fn history(
    ops: Ops<u32>,
    w: Weights,
    events: Seq<Event>,
    trace: Seq<MaskerState>,
) -> bool {
    &&& trace.len() == events.len() + 1
    &&& forall|i: int|
        0 <= i < events.len() ==> follows(ops, w, #[trigger] events[i], trace[i], trace[i + 1])
}

/// An input times a gain of 0.0 or 1.0.
pub open spec fn product(input: u32, gain: u32) -> u32 {
    if gain == ONE {
        input
    } else if !is_finite(input) {
        NAN
    } else if is_negative(input) {
        NEGATIVE_ZERO
    } else {
        ZERO
    }
}

/// One output sample: the input times a gain of 0.0 or 1.0. A kept sample stays
/// as it is. A dropped one becomes a zero of its sign, or no number if it was
/// not finite.
pub fn masked(input: u32, gain: u32) -> (out: u32)
    requires
        gain == ZERO || gain == ONE,
    ensures
        out == product(input, gain),
        gain == ONE ==> out == input,
        gain == ZERO && is_finite(input) ==> magnitude(out) == 0 && is_negative(out) == is_negative(
            input,
        ),
        gain == ZERO && !is_finite(input) ==> is_nan(out),
{
    if gain == ONE {
        return input;
    }
    if !finite(input) {
        NAN
    } else if input >= 0x8000_0000 {
        NEGATIVE_ZERO
    } else {
        ZERO
    }
}

/// The length in samples of a packet of `packet_ms` milliseconds.
pub fn packet_samples<G: Fn(Op, u64, u64) -> u64>(
    sample_rate: u64,
    packet_ms: u32,
    g: &G,
) -> (samples: usize)
    requires
        total(*g),
    ensures
        packet_length(graph(*g), sample_rate, packet_ms, samples as int),
{
    let ms: u64 = widen(packet_ms);
    let ghost rate_lit = Expr::Lit(sample_rate);
    let ghost ms_lit = Expr::Lit(ms);
    let ghost thousand = Expr::Lit(THOUSAND);
    let ghost rate_ms = times(rate_lit, ms_lit);
    let product: u64 = apply(g, Op::Mul, sample_rate, ms, Ghost(rate_lit), Ghost(ms_lit));
    let quotient: u64 = apply(g, Op::Div, product, THOUSAND, Ghost(rate_ms), Ghost(thousand));
    let length: u64 = apply_unary(g, Op::Round, quotient, Ghost(over(rate_ms, thousand)));
    assert(evaluates(graph(*g), length_of(sample_rate, ms), length));
    as_count(length)
}

/// Per-packet keep/drop generator and gain of each sample.
pub struct PacketLossMasker {
    model: LossGen,
    rng: Pcg32,
    /// Previous drop decision fed back into the model (0.0 keep / 1.0 drop).
    last: u32,
    /// Samples per packet (>= 1).
    packet_size: usize,
    /// Samples elapsed into the current packet.
    pos: usize,
    /// Whether the current packet is dropped.
    current_dropped: bool,
}

impl View for PacketLossMasker {
    type V = MaskerState;

    closed spec fn view(&self) -> MaskerState {
        MaskerState {
            rng: self.rng@,
            model: self.model@,
            dropped: self.current_dropped,
            packet_size: self.packet_size as int,
            pos: self.pos as int,
        }
    }
}

impl PacketLossMasker {
    /// The state is well-formed, and the model will be fed the latest decision.
    pub closed spec fn wf(&self) -> bool {
        &&& self@.wf()
        &&& self.last == feedback(self.current_dropped)
    }

    /// A well-formed masker has a well-formed state.
    pub proof fn law_state_is_wf(&self)
        requires
            self.wf(),
        ensures
            self@.wf(),
            0 <= self@.pos < self@.packet_size,
    {
    }

    /// A masker at the start of the pattern of `seed`, with packets of
    /// `packet_ms` milliseconds.
    pub fn new<G: Fn(Op, u64, u64) -> u64>(
        sample_rate: u64,
        packet_ms: u32,
        seed: u64,
        g: &G,
    ) -> (m: Self)
        requires
            total(*g),
        ensures
            m.wf(),
            started(graph(*g), sample_rate, packet_ms, seed, m@),
    {
        let mut m = PacketLossMasker {
            model: LossGen::new(),
            rng: Pcg32::new(seed),
            last: ZERO,
            packet_size: 1,
            pos: 0,
            current_dropped: false,
        };
        m.set_packet_size(sample_rate, packet_ms, g);
        m.reset(seed);
        m
    }

    /// Recomputes the packet length in samples. Called on sample-rate or
    /// packet-size changes; the next sample lands on a fresh boundary if the
    /// cursor overran.
    pub fn set_packet_size<G: Fn(Op, u64, u64) -> u64>(
        &mut self,
        sample_rate: u64,
        packet_ms: u32,
        g: &G,
    )
        requires
            old(self).wf(),
            total(*g),
        ensures
            final(self).wf(),
            repacketed(graph(*g), sample_rate, packet_ms, old(self)@, final(self)@),
    {
        let samples: usize = packet_samples(sample_rate, packet_ms, g);
        self.resize(samples);
    }

    /// Sets the packet length to `samples`, but at least one.
    pub fn resize(&mut self, samples: usize)
        requires
            old(self).wf(),
        ensures
            final(self).wf(),
            final(self)@ == old(self)@.resized(samples as int),
            final(self)@.packet_size == if samples >= 1 {
                samples as int
            } else {
                1
            },
            final(self)@.rng == old(self)@.rng,
            final(self)@.model == old(self)@.model,
            final(self)@.dropped == old(self)@.dropped,
    {
        self.packet_size = if samples < 1 { 1 } else { samples };
        if self.pos >= self.packet_size {
            self.pos = 0;
        }
    }

    /// Restarts the loss pattern deterministically: reseeds the generator,
    /// zeroes the model state and feedback, and forces a fresh decision on the
    /// next sample.
    pub fn reset(&mut self, seed: u64)
        requires
            old(self).wf(),
        ensures
            final(self).wf(),
            final(self)@ == MaskerState::fresh(old(self)@.packet_size, seed),
            final(self)@.packet_size == old(self)@.packet_size,
            final(self)@.pos == 0,
            !final(self)@.dropped,
    {
        self.rng = Pcg32::new(seed);
        self.model.reset_state();
        self.last = ZERO;
        self.pos = 0;
        self.current_dropped = false;
    }

    /// Draws a threshold and drops the packet if it is below `prob`.
    pub fn settle(&mut self, prob: u32)
        requires
            old(self).wf(),
        ensures
            final(self).wf(),
            final(self)@ == old(self)@.settled(prob),
            final(self)@.dropped <==> !is_nan(prob) && (output(old(self)@.rng.state) as int / 256)
                * pow2(125) < value(prob),
    {
        let threshold: u32 = self.rng.next_f32();
        let dropped: bool = lt(threshold, prob);
        self.current_dropped = dropped;
        self.last = if dropped { ONE } else { ZERO };
    }

    /// Runs one packet decision. `perc` is the target loss as a fraction in
    /// [0, 1].
    pub fn decide<F: Fn(Op, u32, u32) -> u32>(&mut self, perc: u32, w: &Weights, f: &F)
        requires
            old(self).wf(),
            total(*f),
        ensures
            final(self).wf(),
            decision(graph(*f), *w, perc, old(self)@, final(self)@),
    {
        let prob: u32 = self.model.prob(self.last, perc, w, f);
        self.settle(prob);
    }

    /// Gain for the next output sample: 0.0 if the current packet is dropped,
    /// else 1.0. Advances the packet cursor and triggers a new decision at
    /// each boundary.
    pub fn next_sample_gain<F: Fn(Op, u32, u32) -> u32>(
        &mut self,
        perc: u32,
        w: &Weights,
        f: &F,
    ) -> (gain: u32)
        requires
            old(self).wf(),
            total(*f),
        ensures
            final(self).wf(),
            sample(graph(*f), *w, perc, old(self)@, final(self)@, gain),
    {
        if self.pos == 0 {
            self.decide(perc, w, f);
        }
        let ghost decided = self@;
        let gain: u32 = if self.current_dropped { ZERO } else { ONE };
        self.pos += 1;
        if self.pos >= self.packet_size {
            self.pos = 0;
        }
        assert(self@ == decided.moved());
        gain
    }

    /// Whether the most recent packet is dropped (for the UI indicator).
    pub fn is_dropping(&self) -> (r: bool)
        ensures
            r == self@.dropped,
    {
        self.current_dropped
    }

    /// Samples per packet.
    pub fn packet_size(&self) -> (r: usize)
        ensures
            r == self@.packet_size,
    {
        self.packet_size
    }
}

} // verus!
