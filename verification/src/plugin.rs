//! The plugin: parameters in, one gain per sample and the masked channels out.

use vstd::prelude::*;
use vstd::arithmetic::power2::pow2;

use crate::arith::{graph, total, Op, Ops};
use crate::dsp::{
    feedback, masked, packet_length, product, sample, steady, stretch, walk, MaskerState,
    PacketLossMasker,
};
use crate::model::Weights;
use crate::single::{
    abs, is_finite, is_nan, is_negative, lemma_constants, lt, magnitude, EPSILON, ONE, ZERO,
};

verus! {

/// The parameters of one block, as the host hands them over.
pub struct DropoutPluginParams {
    /// Target loss fraction in [0, 1], by its pattern.
    pub loss: u32,
    /// Packet size in milliseconds, by its pattern.
    pub packet_ms: u32,
    /// Seed of the deterministic loss pattern.
    pub seed: i64,
    /// Clean passthrough when set.
    pub bypass: bool,
}

/// What became of a block.
pub struct BlockStatus {
    /// Whether the input is to be copied to the output as it is.
    pub passthrough: bool,
    /// The reading of the activity meter: 1.0 while a packet is being dropped.
    pub activity: u32,
}

/// The state of the plugin between blocks.
pub struct PluginState {
    pub masker: MaskerState,
    /// The sample rate of the host, by its pattern.
    pub sample_rate: u64,
    /// The seed that the pattern was started with.
    pub last_seed: i64,
    /// The packet size in milliseconds that the masker was last given.
    pub last_packet_ms: u32,
}

/// The pattern of 48000.0, the sample rate until the host names one.
pub const INITIAL_SAMPLE_RATE: u64 = 0x40e7_7000_0000_0000;

impl PluginState {
    /// The start of the pattern of the seed in `p`, with packets of `samples`.
    pub open spec fn fresh(sample_rate: u64, p: DropoutPluginParams, samples: int) -> Self {
        PluginState {
            masker: MaskerState::fresh(samples, #[verifier::truncate] (p.seed as u64)),
            sample_rate,
            last_seed: p.seed,
            last_packet_ms: p.packet_ms,
        }
    }

    /// With the seed of the block: a new one restarts the pattern.
    pub open spec fn reseeded(self, seed: i64) -> Self {
        if seed != self.last_seed {
            PluginState {
                masker: MaskerState::fresh(
                    self.masker.packet_size,
                    #[verifier::truncate] (seed as u64),
                ),
                last_seed: seed,
                ..self
            }
        } else {
            self
        }
    }

    /// With a new packet size, `samples` long.
    pub open spec fn repacked(self, packet_ms: u32, samples: int) -> Self {
        PluginState { masker: self.masker.resized(samples), last_packet_ms: packet_ms, ..self }
    }
}

/// Whether `packet_ms` can count as different from `last`: whether a difference
/// of the two by `ops` exceeds 2^-23 in absolute value.
pub open spec fn packet_differs(
    ops: Ops<u32>,
    packet_ms: u32,
    last: u32,
    differs: bool,
) -> bool {
    exists|d: u32|
        {
            &&& #[trigger] ops(Op::Sub, packet_ms, last, d)
            &&& differs == (!is_nan(d) && magnitude(d) > pow2(126))
        }
}

/// Whether picking up the parameters of a block can go from `s` to `t`: a new
/// seed restarts the pattern, then a different packet size is set.
pub open spec fn picked_up(
    ops: Ops<u32>,
    wide: Ops<u64>,
    p: DropoutPluginParams,
    s: PluginState,
    t: PluginState,
) -> bool {
    exists|differs: bool|
        {
            &&& #[trigger] packet_differs(ops, p.packet_ms, s.last_packet_ms, differs)
            &&& if differs {
                exists|samples: int| #[trigger]
                    packet_length(wide, s.sample_rate, p.packet_ms, samples) && t == s.reseeded(
                        p.seed,
                    ).repacked(p.packet_ms, samples)
            } else {
                t == s.reseeded(p.seed)
            }
        }
}

/// Whether `s` can be the start of the pattern of the seed in `p` at
/// `sample_rate`, with the packet size in `p`.
pub open spec fn restarted(
    wide: Ops<u64>,
    sample_rate: u64,
    p: DropoutPluginParams,
    s: PluginState,
) -> bool {
    exists|samples: int| #[trigger]
        packet_length(wide, sample_rate, p.packet_ms, samples) && s == PluginState::fresh(
            sample_rate,
            p,
            samples,
        )
}

/// Whether a block of `gains.len()` samples with the parameters `p` can go from
/// `s` to `t` with the status `status`, and with the gains of `gains` unless it
/// is in bypass: bypass changes nothing; otherwise the parameters are picked up,
/// and every sample has the gain of its packet.
pub open spec fn processed(
    ops: Ops<u32>,
    wide: Ops<u64>,
    w: Weights,
    p: DropoutPluginParams,
    s: PluginState,
    t: PluginState,
    gains: Seq<u32>,
    status: BlockStatus,
) -> bool {
    &&& status.passthrough == p.bypass
    &&& if p.bypass {
        t == s && status.activity == ZERO
    } else {
        &&& status.activity == feedback(t.masker.dropped)
        &&& exists|u: PluginState|
            {
                &&& #[trigger] picked_up(ops, wide, p, s, u)
                &&& stretch(ops, w, steady(p.loss, gains.len()), u.masker, t.masker, gains)
                &&& t == (PluginState { masker: t.masker, ..u })
            }
    }
}

/// Whether blocks one after the other, with the parameters of `params`, can pass
/// through the states of `states` with those gains and statuses.
pub open spec fn session(
    ops: Ops<u32>,
    wide: Ops<u64>,
    w: Weights,
    params: Seq<DropoutPluginParams>,
    states: Seq<PluginState>,
    gains: Seq<Seq<u32>>,
    statuses: Seq<BlockStatus>,
) -> bool {
    &&& states.len() == params.len() + 1
    &&& gains.len() == params.len()
    &&& statuses.len() == params.len()
    &&& forall|i: int|
        0 <= i < params.len() ==> processed(
            ops,
            wide,
            w,
            #[trigger] params[i],
            states[i],
            states[i + 1],
            gains[i],
            statuses[i],
        )
}

/// One channel of a block's output: the input as it is where it is passed
/// through, else each sample times the gain of its position.
pub open spec fn rendered(passthrough: bool, input: Seq<u32>, gains: Seq<u32>) -> Seq<u32> {
    if passthrough {
        input
    } else {
        Seq::new(input.len(), |i: int| product(input[i], gains[i]))
    }
}

/// Every channel of a block's output.
pub open spec fn rendered_all(
    passthrough: bool,
    inputs: Seq<Seq<u32>>,
    gains: Seq<u32>,
) -> Seq<Seq<u32>> {
    Seq::new(inputs.len(), |c: int| rendered(passthrough, inputs[c], gains))
}

/// Renders one channel of a block: `status` and `gains` are what [`process`]
/// gave for it, and are shared by all channels.
///
/// [`process`]: DropoutPlugin::process
pub fn render(status: &BlockStatus, gains: &[u32], input: &[u32], out: &mut [u32])
    requires
        input@.len() == gains@.len(),
        old(out)@.len() == gains@.len(),
        !status.passthrough ==> forall|i: int|
            0 <= i < gains@.len() ==> #[trigger] gains@[i] == ZERO || gains@[i] == ONE,
    ensures
        final(out)@ == rendered(status.passthrough, input@, gains@),
        final(out)@.len() == input@.len(),
        forall|i: int|
            0 <= i < input@.len() && (status.passthrough || gains@[i] == ONE)
                ==> #[trigger] final(out)@[i] == input@[i],
        forall|i: int|
            0 <= i < input@.len() && !status.passthrough && gains@[i] == ZERO && is_finite(input@[i])
                ==> magnitude(#[trigger] final(out)@[i]) == 0 && is_negative(final(out)@[i])
                == is_negative(input@[i]),
{
    let n: usize = input.len();
    let mut i: usize = 0;
    while i < n
        invariant
            i <= n,
            n == input@.len(),
            n == gains@.len(),
            n == out@.len(),
            !status.passthrough ==> forall|j: int|
                0 <= j < n ==> #[trigger] gains@[j] == ZERO || gains@[j] == ONE,
            forall|j: int|
                0 <= j < i ==> #[trigger] out@[j] == rendered(
                    status.passthrough,
                    input@,
                    gains@,
                )[j],
        decreases n - i,
    {
        out[i] = if status.passthrough {
            input[i]
        } else {
            masked(input[i], gains[i])
        };
        i += 1;
    }
    assert(out@ =~= rendered(status.passthrough, input@, gains@));
}

/// The plugin between blocks.
pub struct DropoutPlugin {
    masker: PacketLossMasker,
    sample_rate: u64,
    last_seed: i64,
    last_packet_ms: u32,
}

impl View for DropoutPlugin {
    type V = PluginState;

    closed spec fn view(&self) -> PluginState {
        PluginState {
            masker: self.masker@,
            sample_rate: self.sample_rate,
            last_seed: self.last_seed,
            last_packet_ms: self.last_packet_ms,
        }
    }
}

impl DropoutPlugin {
    /// The masker is well-formed.
    pub closed spec fn wf(&self) -> bool {
        self.masker.wf()
    }

    /// A well-formed plugin has a masker in a well-formed state.
    pub proof fn law_state_is_wf(&self)
        requires
            self.wf(),
        ensures
            self@.masker.wf(),
            0 <= self@.masker.pos < self@.masker.packet_size,
    {
        self.masker.law_state_is_wf();
    }

    /// A plugin at the start of the pattern of the seed in `params`.
    pub fn new<G: Fn(Op, u64, u64) -> u64>(params: &DropoutPluginParams, g: &G) -> (plugin: Self)
        requires
            total(*g),
        ensures
            plugin.wf(),
            restarted(graph(*g), INITIAL_SAMPLE_RATE, *params, plugin@),
    {
        let seed: u64 = #[verifier::truncate] (params.seed as u64);
        DropoutPlugin {
            masker: PacketLossMasker::new(INITIAL_SAMPLE_RATE, params.packet_ms, seed, g),
            sample_rate: INITIAL_SAMPLE_RATE,
            last_seed: params.seed,
            last_packet_ms: params.packet_ms,
        }
    }

    /// Starts over at a sample rate, with the parameters of the host.
    pub fn reset<G: Fn(Op, u64, u64) -> u64>(
        &mut self,
        sample_rate: u64,
        params: &DropoutPluginParams,
        g: &G,
    )
        requires
            old(self).wf(),
            total(*g),
        ensures
            final(self).wf(),
            restarted(graph(*g), sample_rate, *params, final(self)@),
    {
        self.sample_rate = sample_rate;
        self.last_packet_ms = params.packet_ms;
        self.last_seed = params.seed;
        self.masker.set_packet_size(sample_rate, params.packet_ms, g);
        self.masker.reset(#[verifier::truncate] (params.seed as u64));
    }

    /// Picks up parameter changes at the block boundary.
    pub fn pick_up<F: Fn(Op, u32, u32) -> u32, G: Fn(Op, u64, u64) -> u64>(
        &mut self,
        params: &DropoutPluginParams,
        f: &F,
        g: &G,
    )
        requires
            old(self).wf(),
            total(*f),
            total(*g),
        ensures
            final(self).wf(),
            picked_up(graph(*f), graph(*g), *params, old(self)@, final(self)@),
            params.seed == old(self)@.last_seed ==> {
                &&& final(self)@.masker.rng == old(self)@.masker.rng
                &&& final(self)@.masker.model == old(self)@.masker.model
                &&& final(self)@.masker.dropped == old(self)@.masker.dropped
            },
    {
        let seed: i64 = params.seed;
        if seed != self.last_seed {
            self.last_seed = seed;
            self.masker.reset(#[verifier::truncate] (seed as u64));
        }
        let ghost reseeded = self@;
        assert(reseeded == old(self)@.reseeded(seed));
        let d: u32 = f(Op::Sub, params.packet_ms, self.last_packet_ms);
        assert(graph(*f)(Op::Sub, params.packet_ms, self.last_packet_ms, d));
        let differs: bool = lt(EPSILON, abs(d));
        proof {
            lemma_constants();
        }
        assert(packet_differs(graph(*f), params.packet_ms, old(self)@.last_packet_ms, differs));
        if differs {
            self.last_packet_ms = params.packet_ms;
            self.masker.set_packet_size(self.sample_rate, params.packet_ms, g);
            proof {
                let samples = choose|samples: int| #[trigger]
                    packet_length(graph(*g), reseeded.sample_rate, params.packet_ms, samples)
                        && self@.masker == reseeded.masker.resized(samples);
                assert(self@ == reseeded.repacked(params.packet_ms, samples));
            }
        }
    }

    /// Fills `gains` with the gains of the samples to come, one decision per
    /// sample position for all channels.
    pub fn fill<F: Fn(Op, u32, u32) -> u32>(
        &mut self,
        perc: u32,
        w: &Weights,
        f: &F,
        gains: &mut [u32],
    )
        requires
            old(self).wf(),
            total(*f),
        ensures
            final(self).wf(),
            final(gains)@.len() == old(gains)@.len(),
            stretch(
                graph(*f),
                *w,
                steady(perc, final(gains)@.len()),
                old(self)@.masker,
                final(self)@.masker,
                final(gains)@,
            ),
            forall|i: int|
                0 <= i < final(gains)@.len() ==> #[trigger] final(gains)@[i] == ZERO
                    || final(gains)@[i] == ONE,
            final(self)@ == (PluginState { masker: final(self)@.masker, ..old(self)@ }),
    {
        let n: usize = gains.len();
        let mut i: usize = 0;
        let ghost mut trace: Seq<MaskerState> = seq![self@.masker];
        while i < n
            invariant
                i <= n,
                n == gains@.len(),
                n == old(gains)@.len(),
                total(*f),
                self.wf(),
                self.sample_rate == old(self).sample_rate,
                self.last_seed == old(self).last_seed,
                self.last_packet_ms == old(self).last_packet_ms,
                trace.len() == i + 1,
                trace[0] == old(self)@.masker,
                trace[i as int] == self@.masker,
                forall|j: int|
                    0 <= j < i ==> sample(
                        graph(*f),
                        *w,
                        perc,
                        trace[j],
                        trace[j + 1],
                        #[trigger] gains@[j],
                    ),
                forall|j: int| 0 <= j < i ==> #[trigger] gains@[j] == ZERO || gains@[j] == ONE,
            decreases n - i,
        {
            let gain: u32 = self.masker.next_sample_gain(perc, w, f);
            gains[i] = gain;
            proof {
                trace = trace.push(self@.masker);
            }
            i += 1;
        }
        assert(walk(graph(*f), *w, steady(perc, gains@.len()), trace, gains@));
    }

    /// Processes one block: `gains` has room for one gain per sample position.
    /// In bypass neither the plugin nor `gains` changes.
    pub fn process<F: Fn(Op, u32, u32) -> u32, G: Fn(Op, u64, u64) -> u64>(
        &mut self,
        params: &DropoutPluginParams,
        w: &Weights,
        f: &F,
        g: &G,
        gains: &mut [u32],
    ) -> (status: BlockStatus)
        requires
            old(self).wf(),
            total(*f),
            total(*g),
        ensures
            final(self).wf(),
            final(gains)@.len() == old(gains)@.len(),
            processed(
                graph(*f),
                graph(*g),
                *w,
                *params,
                old(self)@,
                final(self)@,
                final(gains)@,
                status,
            ),
            params.bypass ==> final(gains)@ == old(gains)@,
            !params.bypass ==> forall|i: int|
                0 <= i < final(gains)@.len() ==> #[trigger] final(gains)@[i] == ZERO
                    || final(gains)@[i] == ONE,
    {
        if params.bypass {
            return BlockStatus { passthrough: true, activity: ZERO };
        }
        self.pick_up(params, f, g);
        self.fill(params.loss, w, f, gains);
        let activity: u32 = if self.masker.is_dropping() { ONE } else { ZERO };
        BlockStatus { passthrough: false, activity }
    }
}

} // verus!
