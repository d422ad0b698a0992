//! The time-domain shifter.

use vstd::prelude::*;

use crate::dsp::hilbert::{convolved, is_tap, HilbertFir};
use crate::math::{
    blend, blended, clamp_sample, clamped, phase_step, rate_changed, rates_apart, turns_by,
    wrap_turn, wrapped_in_turn, SampleMath,
};
use crate::ring::{delayed, pushed};
use crate::value_laws::{lemma_rate_follows, rate_follows};
use crate::stream::{lemma_streamed_none, lemma_streamed_push, streamed, Stepper};

verus! {

/// How many taps each Hilbert transformer has.
pub const HILBERT_TAPS: usize = 63;

/// The settings of the time-domain shifter.
#[derive(Clone, Copy, Debug)]
pub struct SsbParams<S> {
    pub shift_hz: S,
    pub stereo_spread_hz: S,
    pub upper_level: S,
    pub lower_level: S,
    pub feedback: S,
    pub mix: S,
}

impl<S: Copy> SsbParams<S> {
    /// 80 Hz up, upper sideband only, no spread, no feedback, all wet.
    pub fn default<M: SampleMath<S>>(m: &M) -> (p: Self)
        ensures
            call_ensures(M::ratio, (m, 80i32, 1u32), p.shift_hz),
            call_ensures(M::ratio, (m, 0i32, 1u32), p.stereo_spread_hz),
            call_ensures(M::ratio, (m, 1i32, 1u32), p.upper_level),
            call_ensures(M::ratio, (m, 0i32, 1u32), p.lower_level),
            call_ensures(M::ratio, (m, 0i32, 1u32), p.feedback),
            call_ensures(M::ratio, (m, 1i32, 1u32), p.mix),
    {
        SsbParams {
            shift_hz: m.ratio(80, 1),
            stereo_spread_hz: m.ratio(0, 1),
            upper_level: m.ratio(1, 1),
            lower_level: m.ratio(0, 1),
            feedback: m.ratio(0, 1),
            mix: m.ratio(1, 1),
        }
    }
}

/// `r` is `x` bent towards a bound: with `y` for `x` held to the range from -3
/// to 3, it is `y - y * y * y / 27`.
pub open spec fn soft_clipped<S, M: SampleMath<S>>(m: &M, x: S, r: S) -> bool {
    exists|lo: S, hi: S, y: S, square: S, cube: S, share: S, bend: S| #[trigger]
        soft_clipped_by(m, x, lo, hi, y, square, cube, share, bend, r)
}

/// [`soft_clipped`], with its intermediate values.
pub open spec fn soft_clipped_by<S, M: SampleMath<S>>(
    m: &M,
    x: S,
    lo: S,
    hi: S,
    y: S,
    square: S,
    cube: S,
    share: S,
    bend: S,
    r: S,
) -> bool {
    &&& call_ensures(M::ratio, (m, -3i32, 1u32), lo)
    &&& call_ensures(M::ratio, (m, 3i32, 1u32), hi)
    &&& clamped(m, x, lo, hi, y)
    &&& call_ensures(M::prod, (m, y, y), square)
    &&& call_ensures(M::prod, (m, square, y), cube)
    &&& call_ensures(M::ratio, (m, 1i32, 27u32), share)
    &&& call_ensures(M::prod, (m, cube, share), bend)
    &&& call_ensures(M::diff, (m, y, bend), r)
}

/// A saturator in the shape of a hyperbolic tangent, cheap and bounded.
pub fn soft_clip<S: Copy, M: SampleMath<S>>(m: &M, x: S) -> (r: S)
    ensures
        soft_clipped(m, x, r),
{
    let lo = m.ratio(-3, 1);
    let hi = m.ratio(3, 1);
    let y = clamp_sample(m, x, lo, hi);
    let square = m.prod(y, y);
    let cube = m.prod(square, y);
    let share = m.ratio(1, 27);
    let bend = m.prod(cube, share);
    let r = m.diff(y, bend);
    assert(soft_clipped_by(m, x, lo, hi, y, square, cube, share, bend, r));
    r
}

/// `upper` and `lower` are the two sidebands of the analytic pair `(re, im)`
/// on a carrier at `phase`: `re * cos - im * sin` and `re * cos + im * sin`.
pub open spec fn sidebands<S, M: SampleMath<S>>(
    m: &M,
    re: S,
    im: S,
    phase: S,
    upper: S,
    lower: S,
) -> bool {
    exists|sin: S, cos: S, in_phase: S, quadrature: S| #[trigger]
        sidebands_by(m, re, im, phase, sin, cos, in_phase, quadrature, upper, lower)
}

/// [`sidebands`], with the carrier and the two products.
pub open spec fn sidebands_by<S, M: SampleMath<S>>(
    m: &M,
    re: S,
    im: S,
    phase: S,
    sin: S,
    cos: S,
    in_phase: S,
    quadrature: S,
    upper: S,
    lower: S,
) -> bool {
    &&& call_ensures(M::sin_cos, (m, phase), (sin, cos))
    &&& call_ensures(M::prod, (m, re, cos), in_phase)
    &&& call_ensures(M::prod, (m, im, sin), quadrature)
    &&& call_ensures(M::diff, (m, in_phase, quadrature), upper)
    &&& call_ensures(M::sum, (m, in_phase, quadrature), lower)
}

/// Modulates the analytic pair `(re, im)` with a carrier at `phase`.
pub fn modulate<S: Copy, M: SampleMath<S>>(m: &M, re: S, im: S, phase: S) -> (bands: (S, S))
    ensures
        sidebands(m, re, im, phase, bands.0, bands.1),
{
    let (sin, cos) = m.sin_cos(phase);
    let in_phase = m.prod(re, cos);
    let quadrature = m.prod(im, sin);
    let upper = m.diff(in_phase, quadrature);
    let lower = m.sum(in_phase, quadrature);
    assert(sidebands_by(m, re, im, phase, sin, cos, in_phase, quadrature, upper, lower));
    (upper, lower)
}

/// What one channel of the shifter remembers: the filter's samples, the phase
/// of the carrier, and the sample that is fed back.
pub struct VoiceState<S> {
    pub held: Seq<S>,
    pub phase: S,
    pub echo: S,
}

/// What is the same for all samples of a block, for one channel.
pub struct VoiceTuning<S> {
    pub taps: Seq<S>,
    pub zero: S,
    pub params: SsbParams<S>,
    pub feedback: S,
    pub step: S,
}

/// The channel takes `x` in state `s` and gives `out` in state `next`.
///
/// The fed-back sample is added to `x` before the filter. The two sidebands of
/// the filter's analytic pair are mixed by their levels into the wet signal,
/// which is blended with the delayed real part and, clipped, fed back. The
/// carrier then moves on by one step.
#[verifier::opaque]
pub open spec fn voice_step<S, M: SampleMath<S>>(
    m: &M,
    t: VoiceTuning<S>,
    s: VoiceState<S>,
    x: S,
    next: VoiceState<S>,
    out: S,
) -> bool {
    exists|y: S, im: S, upper: S, lower: S, part: S, wet: S, turned: S| #[trigger]
        voice_step_by(m, t, s, x, y, im, upper, lower, part, wet, turned, next, out)
}

/// [`voice_step`], with its intermediate values.
pub open spec fn voice_step_by<S, M: SampleMath<S>>(
    m: &M,
    t: VoiceTuning<S>,
    s: VoiceState<S>,
    x: S,
    y: S,
    im: S,
    upper: S,
    lower: S,
    part: S,
    wet: S,
    turned: S,
    next: VoiceState<S>,
    out: S,
) -> bool {
    let re = delayed(next.held, (t.taps.len() - 1) / 2);
    &&& call_ensures(M::mul_add, (m, x, t.feedback, s.echo), y)
    &&& next.held == pushed(s.held, y)
    &&& convolved(m, t.taps, next.held, t.zero, im)
    &&& sidebands(m, re, im, s.phase, upper, lower)
    &&& call_ensures(M::prod, (m, t.params.upper_level, upper), part)
    &&& call_ensures(M::mul_add, (m, part, t.params.lower_level, lower), wet)
    &&& blended(m, t.params.mix, re, wet, out)
    &&& soft_clipped(m, wet, next.echo)
    &&& call_ensures(M::sum, (m, s.phase, t.step), turned)
    &&& wrapped_in_turn(m, turned, next.phase)
}

/// [`voice_step`] as a machine.
pub open spec fn voice_stepper<S, M: SampleMath<S>>(
    m: &M,
    t: VoiceTuning<S>,
) -> Stepper<VoiceState<S>, S> {
    |s: VoiceState<S>, x: S, next: VoiceState<S>, out: S| voice_step(m, t, s, x, next, out)
}

/// One channel of the shifter.
struct Voice<S> {
    filter: HilbertFir<S>,
    phase: S,
    echo: S,
}

impl<S: Copy> Voice<S> {
    spec fn wf(&self) -> bool {
        self.filter.wf()
    }

    spec fn state(&self) -> VoiceState<S> {
        VoiceState { held: self.filter.held(), phase: self.phase, echo: self.echo }
    }

    spec fn fresh(&self) -> bool {
        &&& self.filter.silent()
        &&& self.phase == self.filter.zero()
        &&& self.echo == self.filter.zero()
    }

    spec fn tuning(&self, params: SsbParams<S>, feedback: S, step: S) -> VoiceTuning<S> {
        VoiceTuning {
            taps: self.filter.taps(),
            zero: self.filter.zero(),
            params,
            feedback,
            step,
        }
    }

    fn new<M: SampleMath<S>>(m: &M) -> (r: Self)
        ensures
            r.wf(),
            r.fresh(),
            filter_made(m, r.filter),
    {
        let filter = HilbertFir::new(m, HILBERT_TAPS);
        let zero = filter.silence();
        Voice { filter, phase: zero, echo: zero }
    }

    fn reset(&mut self)
        requires
            old(self).wf(),
        ensures
            final(self).wf(),
            final(self).fresh(),
            final(self).filter.same_filter(&old(self).filter),
    {
        self.filter.reset();
        let zero = self.filter.silence();
        self.phase = zero;
        self.echo = zero;
    }

    fn step<M: SampleMath<S>>(
        &mut self,
        m: &M,
        params: &SsbParams<S>,
        feedback: S,
        step: S,
        x: S,
    ) -> (out: S)
        requires
            old(self).wf(),
        ensures
            final(self).wf(),
            final(self).filter.same_filter(&old(self).filter),
            voice_step(
                m,
                old(self).tuning(*params, feedback, step),
                old(self).state(),
                x,
                final(self).state(),
                out,
            ),
    {
        let y = m.mul_add(x, feedback, self.echo);
        let (re, im) = self.filter.process(m, y);
        let (upper, lower) = modulate(m, re, im, self.phase);
        let part = m.prod(params.upper_level, upper);
        let wet = m.mul_add(part, params.lower_level, lower);
        // The group-delayed input is the dry signal, so wet and dry stay aligned.
        let out = blend(m, params.mix, re, wet);
        // The feedback path is clipped so that it stays bounded at high feedback.
        self.echo = soft_clip(m, wet);
        let turned = m.sum(self.phase, step);
        self.phase = wrap_turn(m, turned);
        proof {
            reveal(voice_step);
        }
        assert(voice_step_by(
            m,
            old(self).tuning(*params, feedback, step),
            old(self).state(),
            x,
            y,
            im,
            upper,
            lower,
            part,
            wet,
            turned,
            self.state(),
            out,
        ));
        out
    }
}

/// `r` is the amount of feedback: the setting, held to the range from 0 to 0.92.
pub open spec fn feedback_of<S, M: SampleMath<S>>(m: &M, p: SsbParams<S>, r: S) -> bool {
    exists|lo: S, hi: S|
        call_ensures(M::ratio, (m, 0i32, 1u32), lo) && call_ensures(
            M::ratio,
            (m, 92i32, 100u32),
            hi,
        ) && #[trigger] clamped(m, p.feedback, lo, hi, r)
}

/// `hz` is what the left channel is shifted by: `shift + spread / 2`.
pub open spec fn left_hz<S, M: SampleMath<S>>(m: &M, p: SsbParams<S>, hz: S) -> bool {
    exists|half: S|
        call_ensures(M::ratio, (m, 1i32, 2u32), half) && #[trigger] call_ensures(
            M::mul_add,
            (m, p.shift_hz, p.stereo_spread_hz, half),
            hz,
        )
}

/// `hz` is what the right channel is shifted by: `shift - spread / 2`.
pub open spec fn right_hz<S, M: SampleMath<S>>(m: &M, p: SsbParams<S>, hz: S) -> bool {
    exists|half: S, off: S|
        call_ensures(M::ratio, (m, 1i32, 2u32), half) && #[trigger] call_ensures(
            M::prod,
            (m, p.stereo_spread_hz, half),
            off,
        ) && call_ensures(M::diff, (m, p.shift_hz, off), hz)
}

/// `step` is how far the left carrier moves per sample.
pub open spec fn left_step<S, M: SampleMath<S>>(
    m: &M,
    p: SsbParams<S>,
    rate: S,
    step: S,
) -> bool {
    exists|hz: S| #[trigger] left_hz(m, p, hz) && turns_by(m, hz, rate, step)
}

/// `step` is how far the right carrier moves per sample.
pub open spec fn right_step<S, M: SampleMath<S>>(
    m: &M,
    p: SsbParams<S>,
    rate: S,
    step: S,
) -> bool {
    exists|hz: S| #[trigger] right_hz(m, p, hz) && turns_by(m, hz, rate, step)
}

/// Time-domain single-sideband frequency shifter (Bode-style).
///
/// For each channel, builds the analytic signal `(re, im)` via a Hilbert FIR,
/// then multiplies by a complex carrier. Both sidebands are mixed back together
/// by `upper_level` and `lower_level`, allowing pure SSB, pure ring-mod-style
/// DSB, or any blend in between.
///
/// Stereo: the left channel is shifted by `shift + spread/2`, the right by
/// `shift - spread/2`. With non-zero spread you get a slow stereo chorus.
pub struct SsbShifter<S> {
    sample_rate: S,
    left: Voice<S>,
    right: Voice<S>,
}

/// `r` is a new shifter: it works at the given rate, has heard nothing, and has
/// two filters of [`HILBERT_TAPS`] taps.
pub open spec fn ssb_made<S: Copy, M: SampleMath<S>>(m: &M, rate: S, r: SsbShifter<S>) -> bool {
    &&& r.fresh()
    &&& r.rate() == rate
    &&& filter_made(m, r.filters().0)
    &&& filter_made(m, r.filters().1)
}

/// `f` has the taps of a Hilbert transformer of [`HILBERT_TAPS`] taps.
pub open spec fn filter_made<S: Copy, M: SampleMath<S>>(m: &M, f: HilbertFir<S>) -> bool {
    &&& f.taps().len() == HILBERT_TAPS
    &&& forall|k: int|
        0 <= k < HILBERT_TAPS ==> is_tap(m, HILBERT_TAPS as int, k, #[trigger] f.taps()[k])
    &&& call_ensures(M::ratio, (m, 0i32, 1u32), f.zero())
}

/// The shifter takes the block `in_l`, `in_r` in state `pre` and gives `out_l`,
/// `out_r` in state `post`, with the feedback and the carrier steps given.
pub open spec fn ssb_block_by<S: Copy, M: SampleMath<S>>(
    m: &M,
    p: SsbParams<S>,
    pre: SsbShifter<S>,
    in_l: Seq<S>,
    in_r: Seq<S>,
    feedback: S,
    step_l: S,
    step_r: S,
    out_l: Seq<S>,
    out_r: Seq<S>,
    post: SsbShifter<S>,
) -> bool {
    &&& feedback_of(m, p, feedback)
    &&& left_step(m, p, pre.rate(), step_l)
    &&& right_step(m, p, pre.rate(), step_r)
    &&& streamed(
        voice_stepper(m, pre.left_tuning(p, feedback, step_l)),
        pre.left(),
        in_l,
        out_l,
        post.left(),
    )
    &&& streamed(
        voice_stepper(m, pre.right_tuning(p, feedback, step_r)),
        pre.right(),
        in_r,
        out_r,
        post.right(),
    )
}

/// The shifter takes the block `in_l`, `in_r` in state `pre` and gives `out_l`,
/// `out_r` in state `post`: the two channels stream on their own, with the
/// settings of the block.
pub open spec fn ssb_block<S: Copy, M: SampleMath<S>>(
    m: &M,
    p: SsbParams<S>,
    pre: SsbShifter<S>,
    in_l: Seq<S>,
    in_r: Seq<S>,
    out_l: Seq<S>,
    out_r: Seq<S>,
    post: SsbShifter<S>,
) -> bool {
    &&& post.same_setup(&pre)
    &&& exists|feedback: S, step_l: S, step_r: S| #[trigger]
        ssb_block_by(m, p, pre, in_l, in_r, feedback, step_l, step_r, out_l, out_r, post)
}

impl<S: Copy> SsbShifter<S> {
    /// The sample rate.
    pub closed spec fn rate(&self) -> S {
        self.sample_rate
    }

    /// What the left channel remembers.
    pub closed spec fn left(&self) -> VoiceState<S> {
        self.left.state()
    }

    /// What the right channel remembers.
    pub closed spec fn right(&self) -> VoiceState<S> {
        self.right.state()
    }

    /// What the left channel works with.
    pub closed spec fn left_tuning(
        &self,
        params: SsbParams<S>,
        feedback: S,
        step: S,
    ) -> VoiceTuning<S> {
        self.left.tuning(params, feedback, step)
    }

    /// What the right channel works with.
    pub closed spec fn right_tuning(
        &self,
        params: SsbParams<S>,
        feedback: S,
        step: S,
    ) -> VoiceTuning<S> {
        self.right.tuning(params, feedback, step)
    }

    /// The filters of the left and of the right channel.
    pub closed spec fn filters(&self) -> (HilbertFir<S>, HilbertFir<S>) {
        (self.left.filter, self.right.filter)
    }

    /// Both filters are well-formed.
    pub closed spec fn wf(&self) -> bool {
        &&& self.left.wf()
        &&& self.right.wf()
    }

    /// Nothing has been heard: the filters hold silence, the carriers are at
    /// zero, and nothing is fed back.
    pub open spec fn fresh(&self) -> bool {
        &&& self.filters().0.silent()
        &&& self.filters().1.silent()
        &&& self.left().phase == self.filters().0.zero()
        &&& self.left().echo == self.filters().0.zero()
        &&& self.right().phase == self.filters().1.zero()
        &&& self.right().echo == self.filters().1.zero()
    }

    /// The filters are the same, whatever they hold.
    pub open spec fn same_filters(&self, other: &Self) -> bool {
        &&& self.filters().0.same_filter(&other.filters().0)
        &&& self.filters().1.same_filter(&other.filters().1)
    }

    /// The filters and the sample rate are the same.
    pub open spec fn same_setup(&self, other: &Self) -> bool {
        &&& self.rate() == other.rate()
        &&& self.same_filters(other)
    }

    /// What the channels remember and work with, in terms of their filters.
    pub proof fn lemma_parts(&self, params: SsbParams<S>, feedback: S, step: S)
        ensures
            self.left().held == self.filters().0.held(),
            self.right().held == self.filters().1.held(),
            self.left_tuning(params, feedback, step) == (VoiceTuning {
                taps: self.filters().0.taps(),
                zero: self.filters().0.zero(),
                params,
                feedback,
                step,
            }),
            self.right_tuning(params, feedback, step) == (VoiceTuning {
                taps: self.filters().1.taps(),
                zero: self.filters().1.zero(),
                params,
                feedback,
                step,
            }),
            self.wf() ==> self.filters().0.wf() && self.filters().1.wf(),
    {
    }

    /// Two shifters with the same filters are tuned in the same way.
    pub proof fn lemma_same_tuning(
        a: &Self,
        b: &Self,
        params: SsbParams<S>,
        feedback: S,
        step_l: S,
        step_r: S,
    )
        requires
            a.same_filters(b) || b.same_filters(a),
        ensures
            a.left_tuning(params, feedback, step_l) == b.left_tuning(params, feedback, step_l),
            a.right_tuning(params, feedback, step_r) == b.right_tuning(params, feedback, step_r),
    {
    }

    /// A shifter at the given sample rate that has heard nothing.
    pub fn new<M: SampleMath<S>>(m: &M, sample_rate: S) -> (r: Self)
        ensures
            r.wf(),
            ssb_made(m, sample_rate, r),
    {
        SsbShifter { sample_rate, left: Voice::new(m), right: Voice::new(m) }
    }

    /// Takes on another sample rate, and forgets what was heard.
    pub fn retune(&mut self, sr: S)
        requires
            old(self).wf(),
        ensures
            final(self).wf(),
            final(self).fresh(),
            final(self).rate() == sr,
            final(self).same_filters(old(self)),
    {
        self.sample_rate = sr;
        self.reset();
    }

    /// Takes on another sample rate and forgets what was heard, if the two
    /// rates are more than half a hertz apart.
    pub fn set_sample_rate<M: SampleMath<S>>(&mut self, m: &M, sr: S)
        requires
            old(self).wf(),
        ensures
            final(self).wf(),
            exists|changed: bool| #[trigger]
                rates_apart(m, sr, old(self).rate(), changed) && if changed {
                    &&& final(self).fresh()
                    &&& final(self).rate() == sr
                    &&& final(self).same_filters(old(self))
                } else {
                    *final(self) == *old(self)
                },
            rate_follows(m, sr, old(self).rate(), final(self).rate()),
    {
        let changed = rate_changed(m, sr, self.sample_rate);
        assert(rates_apart(m, sr, old(self).rate(), changed));
        if changed {
            self.retune(sr);
        }
        proof {
            lemma_rate_follows(m, sr, old(self).rate(), self.rate(), changed);
        }
    }

    /// Forgets what was heard.
    pub fn reset(&mut self)
        requires
            old(self).wf(),
        ensures
            final(self).wf(),
            final(self).fresh(),
            final(self).same_setup(old(self)),
    {
        self.left.reset();
        self.right.reset();
    }

    /// Shifts a block. What the output buffers hold past the block stays.
    pub fn process_stereo<M: SampleMath<S>>(
        &mut self,
        m: &M,
        in_l: &[S],
        in_r: &[S],
        out_l: &mut [S],
        out_r: &mut [S],
        p: &SsbParams<S>,
    )
        requires
            old(self).wf(),
            in_l@.len() <= in_r@.len(),
            in_l@.len() <= old(out_l)@.len(),
            in_l@.len() <= old(out_r)@.len(),
        ensures
            final(self).wf(),
            final(out_l)@.len() == old(out_l)@.len(),
            final(out_r)@.len() == old(out_r)@.len(),
            ssb_block(
                m,
                *p,
                *old(self),
                in_l@,
                in_r@.take(in_l@.len() as int),
                final(out_l)@.take(in_l@.len() as int),
                final(out_r)@.take(in_l@.len() as int),
                *final(self),
            ),
            final(out_l)@.skip(in_l@.len() as int) == old(out_l)@.skip(in_l@.len() as int),
            final(out_r)@.skip(in_l@.len() as int) == old(out_r)@.skip(in_l@.len() as int),
    {
        let half = m.ratio(1, 2);
        let hz_l = m.mul_add(p.shift_hz, p.stereo_spread_hz, half);
        let step_l = phase_step(m, hz_l, self.sample_rate);
        assert(left_hz(m, *p, hz_l));
        let off = m.prod(p.stereo_spread_hz, half);
        let hz_r = m.diff(p.shift_hz, off);
        let step_r = phase_step(m, hz_r, self.sample_rate);
        assert(right_hz(m, *p, hz_r));
        let lo = m.ratio(0, 1);
        let hi = m.ratio(92, 100);
        let feedback = clamp_sample(m, p.feedback, lo, hi);
        assert(feedback_of(m, *p, feedback));
        let n = in_l.len();
        let ghost go_l = voice_stepper(m, self.left.tuning(*p, feedback, step_l));
        let ghost go_r = voice_stepper(m, self.right.tuning(*p, feedback, step_r));
        let mut i: usize = 0;
        proof {
            lemma_streamed_none(go_l, self.left.state());
            lemma_streamed_none(go_r, self.right.state());
            assert(in_l@.take(0) =~= Seq::<S>::empty());
            assert(in_r@.take(0) =~= Seq::<S>::empty());
            assert(out_l@.take(0) =~= Seq::<S>::empty());
            assert(out_r@.take(0) =~= Seq::<S>::empty());
        }
        while i < n
            invariant
                self.wf(),
                self.same_setup(old(self)),
                go_l == voice_stepper(m, old(self).left_tuning(*p, feedback, step_l)),
                go_r == voice_stepper(m, old(self).right_tuning(*p, feedback, step_r)),
                i <= n,
                n == in_l@.len(),
                n <= in_r@.len(),
                n <= out_l@.len(),
                n <= out_r@.len(),
                out_l@.len() == old(out_l)@.len(),
                out_r@.len() == old(out_r)@.len(),
                out_l@.skip(n as int) == old(out_l)@.skip(n as int),
                out_r@.skip(n as int) == old(out_r)@.skip(n as int),
                streamed(
                    go_l,
                    old(self).left(),
                    in_l@.take(i as int),
                    out_l@.take(i as int),
                    self.left(),
                ),
                streamed(
                    go_r,
                    old(self).right(),
                    in_r@.take(i as int),
                    out_r@.take(i as int),
                    self.right(),
                ),
            decreases n - i,
        {
            let ghost was_l = self.left.state();
            let ghost was_r = self.right.state();
            let ghost before_l = out_l@;
            let ghost before_r = out_r@;
            let y_l = self.left.step(m, p, feedback, step_l, in_l[i]);
            out_l[i] = y_l;
            let y_r = self.right.step(m, p, feedback, step_r, in_r[i]);
            out_r[i] = y_r;
            proof {
                let k = i as int;
                assert(go_l(was_l, in_l@[k], self.left.state(), y_l));
                assert(go_r(was_r, in_r@[k], self.right.state(), y_r));
                lemma_streamed_push(
                    go_l,
                    old(self).left(),
                    in_l@.take(k),
                    before_l.take(k),
                    was_l,
                    in_l@[k],
                    y_l,
                    self.left.state(),
                );
                lemma_streamed_push(
                    go_r,
                    old(self).right(),
                    in_r@.take(k),
                    before_r.take(k),
                    was_r,
                    in_r@[k],
                    y_r,
                    self.right.state(),
                );
                assert(in_l@.take(k + 1) =~= in_l@.take(k).push(in_l@[k]));
                assert(in_r@.take(k + 1) =~= in_r@.take(k).push(in_r@[k]));
                assert(out_l@.take(k + 1) =~= before_l.take(k).push(y_l));
                assert(out_r@.take(k + 1) =~= before_r.take(k).push(y_r));
                assert(out_l@.skip(n as int) =~= before_l.skip(n as int));
                assert(out_r@.skip(n as int) =~= before_r.skip(n as int));
            }
            i = i + 1;
        }
        assert(in_l@.take(n as int) =~= in_l@);
        assert(ssb_block_by(
            m,
            *p,
            *old(self),
            in_l@,
            in_r@.take(n as int),
            feedback,
            step_l,
            step_r,
            out_l@.take(n as int),
            out_r@.take(n as int),
            *self,
        ));
    }
}

} // verus!
