//! The two engines behind one switch.

use vstd::prelude::*;

use crate::dsp::spectral::{spec_block, spec_made, SpecMode, SpecParams, SpectralShifter};
use crate::dsp::ssb::{ssb_block, ssb_made, SsbParams, SsbShifter};
use crate::math::{between, rate_changed, rates_apart, BinMath, SampleMath};
use crate::value_laws::{lemma_rate_follows, rate_follows};

verus! {

/// Which engine is heard.
#[derive(Clone, Copy, Debug, PartialEq, Eq, Structural)]
pub enum EngineMode {
    Ssb,
    Spectral,
}

impl EngineMode {
    /// The name shown to the user.
    pub fn label(self) -> (s: &'static str)
        ensures
            s@ == match self {
                EngineMode::Ssb => "SSB (time-domain)"@,
                EngineMode::Spectral => "Spectral (FFT)"@,
            },
    {
        match self {
            EngineMode::Ssb => "SSB (time-domain)",
            EngineMode::Spectral => "Spectral (FFT)",
        }
    }
}

/// All the settings.
#[derive(Clone, Copy, Debug)]
pub struct Params<S> {
    pub mode: EngineMode,
    pub ssb: SsbParams<S>,
    pub spec: SpecParams<S>,
    pub output_gain: S,
}

impl<S: Copy> Params<S> {
    /// The time-domain engine, with the defaults of both engines, at 0.9.
    pub open spec fn is_default<M: SampleMath<S>>(&self, m: &M) -> bool {
        &&& self.mode == EngineMode::Ssb
        &&& call_ensures(M::ratio, (m, 80i32, 1u32), self.ssb.shift_hz)
        &&& call_ensures(M::ratio, (m, 0i32, 1u32), self.ssb.stereo_spread_hz)
        &&& call_ensures(M::ratio, (m, 1i32, 1u32), self.ssb.upper_level)
        &&& call_ensures(M::ratio, (m, 0i32, 1u32), self.ssb.lower_level)
        &&& call_ensures(M::ratio, (m, 0i32, 1u32), self.ssb.feedback)
        &&& call_ensures(M::ratio, (m, 1i32, 1u32), self.ssb.mix)
        &&& call_ensures(M::ratio, (m, 80i32, 1u32), self.spec.shift_hz)
        &&& self.spec.mode == SpecMode::Linear
        &&& call_ensures(M::ratio, (m, 1000i32, 1u32), self.spec.cutoff_hz)
        &&& call_ensures(M::ratio, (m, 1i32, 1u32), self.spec.mix)
        &&& self.spec.hop_size == 512
        &&& call_ensures(M::ratio, (m, 9i32, 10u32), self.output_gain)
    }

    /// The time-domain engine, with the defaults of both engines, at 0.9.
    pub fn default<M: SampleMath<S>>(m: &M) -> (p: Self)
        ensures
            p.is_default(m),
    {
        Params {
            mode: EngineMode::Ssb,
            ssb: SsbParams::default(m),
            spec: SpecParams::default(m),
            output_gain: m.ratio(9, 10),
        }
    }
}

/// `r` is the sample `x` at the given gain, held to the range from -1 to 1.
pub open spec fn limited<S, M: SampleMath<S>>(m: &M, x: S, gain: S, r: S) -> bool {
    exists|scaled: S, top: S, over: bool, bottom: S, under: bool| #[trigger]
        limited_by(m, x, gain, scaled, top, over, bottom, under, r)
}

/// [`limited`], with its intermediate values.
pub open spec fn limited_by<S, M: SampleMath<S>>(
    m: &M,
    x: S,
    gain: S,
    scaled: S,
    top: S,
    over: bool,
    bottom: S,
    under: bool,
    r: S,
) -> bool {
    &&& call_ensures(M::prod, (m, x, gain), scaled)
    &&& call_ensures(M::ratio, (m, 1i32, 1u32), top)
    &&& call_ensures(M::less, (m, top, scaled), over)
    &&& call_ensures(M::ratio, (m, -1i32, 1u32), bottom)
    &&& call_ensures(M::less, (m, scaled, bottom), under)
    &&& r == if over {
        top
    } else if under {
        bottom
    } else {
        scaled
    }
}

/// The output stage: a gain, then a safety clip that keeps runaway feedback out
/// of the user's speakers without affecting normal level material.
pub fn limit<S: Copy, M: SampleMath<S>>(m: &M, x: S, gain: S) -> (r: S)
    ensures
        limited(m, x, gain, r),
{
    let scaled = m.prod(x, gain);
    let top = m.ratio(1, 1);
    let over = m.less(top, scaled);
    let bottom = m.ratio(-1, 1);
    let under = m.less(scaled, bottom);
    let r = if over {
        top
    } else if under {
        bottom
    } else {
        scaled
    };
    assert(limited_by(m, x, gain, scaled, top, over, bottom, under, r));
    r
}

/// `r` is 1 or -1, or compares as neither above 1 nor below -1.
pub open spec fn within_one<S, M: SampleMath<S>>(m: &M, r: S) -> bool {
    exists|top: S, bottom: S| #[trigger] between(m, bottom, top, r) && call_ensures(
        M::ratio,
        (m, 1i32, 1u32),
        top,
    ) && call_ensures(M::ratio, (m, -1i32, 1u32), bottom)
}

/// The output stage holds every sample.
pub proof fn lemma_limited_is_within_one<S, M: SampleMath<S>>(m: &M, x: S, gain: S, r: S)
    requires
        limited(m, x, gain, r),
    ensures
        within_one(m, r),
{
    let (scaled, top, over, bottom, under) = choose|
        scaled: S,
        top: S,
        over: bool,
        bottom: S,
        under: bool,
    | #[trigger]
        limited_by(m, x, gain, scaled, top, over, bottom, under, r);
    assert(between(m, bottom, top, r));
}

/// Every sample of `out` is that of `wet`, after the output stage.
pub open spec fn all_limited<S, M: SampleMath<S>>(
    m: &M,
    wet: Seq<S>,
    gain: S,
    out: Seq<S>,
) -> bool {
    &&& out.len() == wet.len()
    &&& forall|i: int| 0 <= i < out.len() ==> limited(m, wet[i], gain, #[trigger] out[i])
}

/// Puts a whole buffer through the output stage.
pub fn limit_all<S: Copy, M: SampleMath<S>>(m: &M, out: &mut [S], gain: S)
    ensures
        all_limited(m, old(out)@, gain, final(out)@),
{
    let n = out.len();
    let mut i: usize = 0;
    while i < n
        invariant
            n == out@.len(),
            n == old(out)@.len(),
            i <= n,
            forall|j: int| i <= j < n ==> out@[j] == old(out)@[j],
            forall|j: int| 0 <= j < i ==> limited(m, old(out)@[j], gain, #[trigger] out@[j]),
        decreases n - i,
    {
        let r = limit(m, out[i], gain);
        out[i] = r;
        i = i + 1;
    }
}

/// Both engines, one of which is heard.
pub struct Engine<S> {
    sample_rate: S,
    ssb: SsbShifter<S>,
    spec: SpectralShifter<S>,
    last_mode: EngineMode,
}

/// `r` is a new engine at the given sample rate.
pub open spec fn engine_made<S: Copy, M: SampleMath<S>>(m: &M, rate: S, r: Engine<S>) -> bool {
    &&& r.rate() == rate
    &&& r.mode() == EngineMode::Ssb
    &&& ssb_made(m, rate, r.time_domain())
    &&& spec_made(m, rate, 2, r.spectral())
}

/// `post` is `pre` at the sample rate `sr`, with nothing heard, if the two rates
/// are more than half a hertz apart; else it is `pre`.
pub open spec fn rate_taken_on<S: Copy, M: SampleMath<S>>(
    m: &M,
    pre: Engine<S>,
    sr: S,
    post: Engine<S>,
) -> bool {
    exists|changed: bool| #[trigger]
        rates_apart(m, sr, pre.rate(), changed) && if changed {
            &&& post.rate() == sr
            &&& post.mode() == pre.mode()
            &&& post.time_domain().fresh()
            &&& post.time_domain().same_filters(&pre.time_domain())
            &&& post.spectral().fresh()
            &&& post.spectral().same_windows(&pre.spectral())
            &&& post.spectral().hop() == pre.spectral().hop()
            &&& post.spectral().cola() == pre.spectral().cola()
        } else {
            post == pre
        }
}

/// The engines take the block `in_l`, `in_r` in state `pre` and give `wet_l`,
/// `wet_r` in state `post`: the chosen engine processes the block, and the one
/// that is left forgets what it heard.
pub open spec fn engine_block<S: Copy, C, M: BinMath<S, C>>(
    m: &M,
    params: Params<S>,
    pre: Engine<S>,
    in_l: Seq<S>,
    in_r: Seq<S>,
    wet_l: Seq<S>,
    wet_r: Seq<S>,
    post: Engine<S>,
) -> bool {
    &&& post.rate() == pre.rate()
    &&& post.mode() == params.mode
    &&& match params.mode {
        EngineMode::Ssb => {
            &&& ssb_block(m, params.ssb, pre.time_domain(), in_l, in_r, wet_l, wet_r,
                post.time_domain())
            &&& if pre.mode() == EngineMode::Ssb {
                post.spectral() == pre.spectral()
            } else {
                &&& post.spectral().fresh()
                &&& post.spectral().same_setup(&pre.spectral())
            }
        },
        EngineMode::Spectral => {
            &&& spec_block::<S, C, M>(m, params.spec, pre.spectral(), in_l, in_r, wet_l, wet_r,
                post.spectral())
            &&& if pre.mode() == EngineMode::Spectral {
                post.time_domain() == pre.time_domain()
            } else {
                &&& post.time_domain().fresh()
                &&& post.time_domain().same_setup(&pre.time_domain())
            }
        },
    }
}

/// [`Engine::process_stereo`] as a relation of what goes in and what comes out:
/// there is a wet block that comes out of the chosen engine, and the buffers
/// that hold it have gone through the output stage.
pub open spec fn engine_out<S: Copy, C, M: BinMath<S, C>>(
    m: &M,
    params: Params<S>,
    pre: Engine<S>,
    in_l: Seq<S>,
    in_r: Seq<S>,
    held_l: Seq<S>,
    held_r: Seq<S>,
    out_l: Seq<S>,
    out_r: Seq<S>,
    post: Engine<S>,
) -> bool {
    exists|wet_l: Seq<S>, wet_r: Seq<S>| #[trigger]
        engine_block::<S, C, M>(m, params, pre, in_l, in_r, wet_l, wet_r, post) && all_limited(
            m,
            wet_l + held_l.skip(in_l.len() as int),
            params.output_gain,
            out_l,
        ) && all_limited(
            m,
            wet_r + held_r.skip(in_l.len() as int),
            params.output_gain,
            out_r,
        )
}

impl<S: Copy> Engine<S> {
    /// The sample rate.
    pub closed spec fn rate(&self) -> S {
        self.sample_rate
    }

    /// The time-domain engine.
    pub closed spec fn time_domain(&self) -> SsbShifter<S> {
        self.ssb
    }

    /// The spectral engine.
    pub closed spec fn spectral(&self) -> SpectralShifter<S> {
        self.spec
    }

    /// The engine that was heard last.
    pub closed spec fn mode(&self) -> EngineMode {
        self.last_mode
    }

    /// Both engines are well-formed and work at the same sample rate, and the
    /// one that is not heard remembers nothing.
    pub open spec fn wf(&self) -> bool {
        &&& self.time_domain().wf()
        &&& self.spectral().wf()
        &&& self.spectral().chans().len() == 2
        &&& self.time_domain().rate() == self.rate()
        &&& self.spectral().rate() == self.rate()
        &&& match self.mode() {
            EngineMode::Ssb => self.spectral().fresh(),
            EngineMode::Spectral => self.time_domain().fresh(),
        }
    }

    /// Both engines, at the given sample rate, before anything was heard.
    pub fn new<M: SampleMath<S>>(m: &M, sample_rate: S) -> (r: Self)
        ensures
            r.wf(),
            engine_made(m, sample_rate, r),
    {
        Engine {
            sample_rate,
            ssb: SsbShifter::new(m, sample_rate),
            spec: SpectralShifter::new(m, sample_rate, 2),
            last_mode: EngineMode::Ssb,
        }
    }

    /// The sample rate.
    pub fn sample_rate(&self) -> (sr: S)
        ensures
            sr == self.rate(),
    {
        self.sample_rate
    }

    /// Takes on another sample rate and forgets what was heard, if the two
    /// rates are more than half a hertz apart.
    pub fn set_sample_rate<M: SampleMath<S>>(&mut self, m: &M, sr: S)
        requires
            old(self).wf(),
        ensures
            final(self).wf(),
            rate_taken_on(m, *old(self), sr, *final(self)),
            rate_follows(m, sr, old(self).rate(), final(self).rate()),
            final(self).time_domain().rate() == final(self).rate(),
            final(self).spectral().rate() == final(self).rate(),
    {
        let changed = rate_changed(m, sr, self.sample_rate);
        assert(rates_apart(m, sr, old(self).rate(), changed));
        if changed {
            self.sample_rate = sr;
            self.ssb.retune(sr);
            self.spec.retune(sr);
        }
        proof {
            lemma_rate_follows(m, sr, old(self).rate(), self.rate(), changed);
        }
    }

    /// Processes a stereo block, input to output.
    pub fn process_stereo<C: Copy, M: BinMath<S, C>>(
        &mut self,
        m: &M,
        in_l: &[S],
        in_r: &[S],
        out_l: &mut [S],
        out_r: &mut [S],
        params: &Params<S>,
    )
        requires
            old(self).wf(),
            in_l@.len() <= in_r@.len(),
            in_l@.len() <= old(out_l)@.len(),
            in_l@.len() <= old(out_r)@.len(),
        ensures
            final(self).wf(),
            final(out_l)@.len() == old(out_l)@.len(),
            final(out_r)@.len() == old(out_r)@.len(),
            engine_out::<S, C, M>(
                m,
                *params,
                *old(self),
                in_l@,
                in_r@.take(in_l@.len() as int),
                old(out_l)@,
                old(out_r)@,
                final(out_l)@,
                final(out_r)@,
                *final(self),
            ),
    {
        // The engine that is left is reset, so that coming back to it later
        // does not click with what its buffers still held.
        if params.mode != self.last_mode {
            match self.last_mode {
                EngineMode::Ssb => self.ssb.reset(),
                EngineMode::Spectral => self.spec.reset(),
            }
            self.last_mode = params.mode;
        }
        match params.mode {
            EngineMode::Ssb => {
                self.ssb.process_stereo(m, in_l, in_r, out_l, out_r, &params.ssb);
            },
            EngineMode::Spectral => {
                self.spec.process_stereo(m, in_l, in_r, out_l, out_r, &params.spec);
            },
        }
        let ghost n = in_l@.len() as int;
        let ghost wet_l = out_l@.take(n);
        let ghost wet_r = out_r@.take(n);
        proof {
            assert(engine_block::<S, C, M>(
                m,
                *params,
                *old(self),
                in_l@,
                in_r@.take(n),
                wet_l,
                wet_r,
                *self,
            ));
            assert(out_l@ =~= wet_l + old(out_l)@.skip(n)) by {
                assert(out_l@ =~= out_l@.take(n) + out_l@.skip(n));
            }
            assert(out_r@ =~= wet_r + old(out_r)@.skip(n)) by {
                assert(out_r@ =~= out_r@.take(n) + out_r@.skip(n));
            }
        }
        limit_all(m, out_l, params.output_gain);
        limit_all(m, out_r, params.output_gain);
    }
}

} // verus!
