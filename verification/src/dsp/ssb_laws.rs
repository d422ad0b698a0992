//! What holds of the time-domain engine.

use vstd::prelude::*;

use crate::dsp::alike::{
    lemma_one_feedback, lemma_one_left_step, lemma_one_right_step, lemma_one_voice_stream,
    ssb_alike,
};
use crate::dsp::ssb::{
    feedback_of, left_hz, left_step, right_hz, right_step, ssb_block, ssb_block_by, ssb_made,
    voice_step, voice_step_by, voice_stepper, SsbParams, SsbShifter, VoiceState, VoiceTuning,
    HILBERT_TAPS,
};
use crate::math::{blended, clamped, turns_by, SampleMath};
use crate::repeat::{
    law_clamping_twice_is_clamping_once, lemma_one_turn, never_below_itself, repeatable,
};
use crate::ring::{constant, delayed, fed, law_ring_delays};
use crate::stream::{lemma_streamed_pop, streamed};

verus! {

// ---------------------------------------------------------------- the delay

/// `ys` is what went into the filter of a channel that had held silence, while it
/// took `ins` and gave `outs`: each input with some sample fed back, and each
/// output the blend of some wet sample with what went in half the span of the
/// taps before.
pub open spec fn late_by_half<S, M: SampleMath<S>>(
    m: &M,
    t: VoiceTuning<S>,
    ins: Seq<S>,
    ys: Seq<S>,
    outs: Seq<S>,
) -> bool {
    let lag = (t.taps.len() - 1) / 2;
    &&& ys.len() == ins.len()
    &&& outs.len() == ins.len()
    &&& forall|i: int|
        0 <= i < ins.len() ==> fed_back(m, t.feedback, ins[i], #[trigger] ys[i])
    &&& forall|i: int|
        0 <= i < ins.len() ==> dry_in(
            m,
            t.params.mix,
            if lag <= i {
                ys[i - lag]
            } else {
                t.zero
            },
            #[trigger] outs[i],
        )
}

/// `y` is `x` with some sample fed back.
pub open spec fn fed_back<S, M: SampleMath<S>>(m: &M, feedback: S, x: S, y: S) -> bool {
    exists|echo: S| #[trigger] call_ensures(M::mul_add, (m, x, feedback, echo), y)
}

/// `out` is the blend of `dry` with some wet sample.
pub open spec fn dry_in<S, M: SampleMath<S>>(m: &M, mix: S, dry: S, out: S) -> bool {
    exists|wet: S| #[trigger] blended(m, mix, dry, wet, out)
}

/// The dry part of what a channel gives is what went into its filter, late by half
/// the span of the taps: dry and wet stay aligned.
pub proof fn law_dry_is_late_by_half_the_taps<S, M: SampleMath<S>>(
    m: &M,
    t: VoiceTuning<S>,
    from: VoiceState<S>,
    ins: Seq<S>,
    outs: Seq<S>,
    to: VoiceState<S>,
) -> (ys: Seq<S>)
    requires
        t.taps.len() % 2 == 1,
        from.held == constant(t.taps.len(), t.zero),
        streamed(voice_stepper(m, t), from, ins, outs, to),
    ensures
        to.held == fed(from.held, ys),
        late_by_half(m, t, ins, ys, outs),
    decreases ins.len(),
{
    let go = voice_stepper(m, t);
    if ins.len() == 0 {
        Seq::<S>::empty()
    } else {
        let mid = lemma_streamed_pop(go, from, ins, outs, to);
        let before = law_dry_is_late_by_half_the_taps(
            m,
            t,
            from,
            ins.drop_last(),
            outs.drop_last(),
            mid,
        );
        let x = ins.last();
        reveal(voice_step);
        let (y, i, u, l, p, w, q) = choose|y: S, i: S, u: S, l: S, p: S, w: S, q: S| #[trigger]
            voice_step_by(m, t, mid, x, y, i, u, l, p, w, q, to, outs.last());
        let ys = before.push(y);
        let lag = (t.taps.len() - 1) / 2;
        assert(ys.drop_last() =~= before);
        assert(to.held == fed(from.held, ys));
        law_ring_delays(t.taps.len(), t.zero, ys, lag);
        let n = ins.len() - 1;
        assert forall|k: int| 0 <= k < ins.len() implies fed_back(
            m,
            t.feedback,
            ins[k],
            #[trigger] ys[k],
        ) by {
            if k < n {
                assert(fed_back(m, t.feedback, ins.drop_last()[k], before[k]));
            } else {
                assert(call_ensures(M::mul_add, (m, x, t.feedback, mid.echo), y));
            }
        }
        assert forall|k: int| 0 <= k < ins.len() implies dry_in(
            m,
            t.params.mix,
            if lag <= k {
                ys[k - lag]
            } else {
                t.zero
            },
            #[trigger] outs[k],
        ) by {
            if k < n {
                assert(outs.drop_last()[k] == outs[k]);
                if lag <= k {
                    assert(ys[k - lag] == before[k - lag]);
                }
            } else {
                assert(blended(m, t.params.mix, delayed(to.held, lag), w, outs[k]));
            }
        }
        ys
    }
}

/// What a new shifter gives is late by half the span of its taps, on both sides:
/// 31 samples.
pub proof fn law_a_new_shifter_is_late_by_half_its_taps<S: Copy, M: SampleMath<S>>(
    m: &M,
    p: SsbParams<S>,
    rate: S,
    pre: SsbShifter<S>,
    in_l: Seq<S>,
    in_r: Seq<S>,
    feedback: S,
    step_l: S,
    step_r: S,
    out_l: Seq<S>,
    out_r: Seq<S>,
    post: SsbShifter<S>,
) -> (ys: (Seq<S>, Seq<S>))
    requires
        ssb_made(m, rate, pre),
        ssb_block_by(m, p, pre, in_l, in_r, feedback, step_l, step_r, out_l, out_r, post),
    ensures
        pre.left_tuning(p, feedback, step_l).taps.len() == HILBERT_TAPS,
        pre.right_tuning(p, feedback, step_r).taps.len() == HILBERT_TAPS,
        (HILBERT_TAPS - 1) / 2 == 31,
        late_by_half(m, pre.left_tuning(p, feedback, step_l), in_l, ys.0, out_l),
        late_by_half(m, pre.right_tuning(p, feedback, step_r), in_r, ys.1, out_r),
{
    pre.lemma_parts(p, feedback, step_l);
    pre.lemma_parts(p, feedback, step_r);
    let ys_l = law_dry_is_late_by_half_the_taps(
        m,
        pre.left_tuning(p, feedback, step_l),
        pre.left(),
        in_l,
        out_l,
        post.left(),
    );
    let ys_r = law_dry_is_late_by_half_the_taps(
        m,
        pre.right_tuning(p, feedback, step_r),
        pre.right(),
        in_r,
        out_r,
        post.right(),
    );
    (ys_l, ys_r)
}

// ------------------------------------------------------------------- stereo

/// Two settings agree but for the shift and the spread.
pub open spec fn same_but_for_the_shift<S>(p: SsbParams<S>, q: SsbParams<S>) -> bool {
    &&& p.upper_level == q.upper_level
    &&& p.lower_level == q.lower_level
    &&& p.feedback == q.feedback
    &&& p.mix == q.mix
}

/// The left channel hears its own input alone, and of shift and spread only what
/// they come to for it: under two settings that shift it by the same `hz`, it gives
/// the same, whatever is on the right. So the spread is a shift of the left channel
/// by half of it.
pub proof fn law_the_left_channel_is_its_own<S: Copy, M: SampleMath<S>>(
    m: &M,
    p: SsbParams<S>,
    q: SsbParams<S>,
    hz: S,
    a: SsbShifter<S>,
    b: SsbShifter<S>,
    in_l: Seq<S>,
    in_r: Seq<S>,
    out_l: Seq<S>,
    out_r: Seq<S>,
    a1: SsbShifter<S>,
    other_r: Seq<S>,
    out2_l: Seq<S>,
    out2_r: Seq<S>,
    b1: SsbShifter<S>,
)
    requires
        repeatable::<S, M>(m),
        same_but_for_the_shift(p, q),
        left_hz(m, p, hz),
        left_hz(m, q, hz),
        a.rate() == b.rate(),
        a.filters().0.same_filter(&b.filters().0),
        a.left() == b.left(),
        ssb_block(m, p, a, in_l, in_r, out_l, out_r, a1),
        ssb_block(m, q, b, in_l, other_r, out2_l, out2_r, b1),
    ensures
        out_l == out2_l,
        a1.left() == b1.left(),
{
    let (f1, sl1, sr1) = choose|f: S, sl: S, sr: S| #[trigger]
        ssb_block_by(m, p, a, in_l, in_r, f, sl, sr, out_l, out_r, a1);
    let (f2, sl2, sr2) = choose|f: S, sl: S, sr: S| #[trigger]
        ssb_block_by(m, q, b, in_l, other_r, f, sl, sr, out2_l, out2_r, b1);
    lemma_same_feedback(m, p, q, f1, f2);
    lemma_left_step_of(m, p, hz, a.rate(), sl1);
    lemma_left_step_of(m, q, hz, a.rate(), sl2);
    lemma_one_turn(m, hz, a.rate(), sl1, sl2);
    a.lemma_parts(p, f1, sl1);
    b.lemma_parts(q, f2, sl2);
    lemma_one_voice_stream(
        m,
        a.left_tuning(p, f1, sl1),
        b.left_tuning(q, f2, sl2),
        a.left(),
        in_l,
        out_l,
        a1.left(),
        out2_l,
        b1.left(),
    );
}

/// The right channel hears its own input alone, and of shift and spread only what
/// they come to for it. So the spread is a shift of the right channel by half of
/// it, the other way.
pub proof fn law_the_right_channel_is_its_own<S: Copy, M: SampleMath<S>>(
    m: &M,
    p: SsbParams<S>,
    q: SsbParams<S>,
    hz: S,
    a: SsbShifter<S>,
    b: SsbShifter<S>,
    in_l: Seq<S>,
    in_r: Seq<S>,
    out_l: Seq<S>,
    out_r: Seq<S>,
    a1: SsbShifter<S>,
    other_l: Seq<S>,
    out2_l: Seq<S>,
    out2_r: Seq<S>,
    b1: SsbShifter<S>,
)
    requires
        repeatable::<S, M>(m),
        same_but_for_the_shift(p, q),
        right_hz(m, p, hz),
        right_hz(m, q, hz),
        a.rate() == b.rate(),
        a.filters().1.same_filter(&b.filters().1),
        a.right() == b.right(),
        ssb_block(m, p, a, in_l, in_r, out_l, out_r, a1),
        ssb_block(m, q, b, other_l, in_r, out2_l, out2_r, b1),
    ensures
        out_r == out2_r,
        a1.right() == b1.right(),
{
    let (f1, sl1, sr1) = choose|f: S, sl: S, sr: S| #[trigger]
        ssb_block_by(m, p, a, in_l, in_r, f, sl, sr, out_l, out_r, a1);
    let (f2, sl2, sr2) = choose|f: S, sl: S, sr: S| #[trigger]
        ssb_block_by(m, q, b, other_l, in_r, f, sl, sr, out2_l, out2_r, b1);
    lemma_same_feedback(m, p, q, f1, f2);
    lemma_right_step_of(m, p, hz, a.rate(), sr1);
    lemma_right_step_of(m, q, hz, a.rate(), sr2);
    lemma_one_turn(m, hz, a.rate(), sr1, sr2);
    a.lemma_parts(p, f1, sr1);
    b.lemma_parts(q, f2, sr2);
    lemma_one_voice_stream(
        m,
        a.right_tuning(p, f1, sr1),
        b.right_tuning(q, f2, sr2),
        a.right(),
        in_r,
        out_r,
        a1.right(),
        out2_r,
        b1.right(),
    );
}

/// Without a spread, one input on both sides comes out the same on both sides:
/// where the two channels are shifted by the same `hz` and have heard the same, they
/// give the same.
pub proof fn law_equal_channels_stay_equal<S: Copy, M: SampleMath<S>>(
    m: &M,
    p: SsbParams<S>,
    hz: S,
    a: SsbShifter<S>,
    ins: Seq<S>,
    out_l: Seq<S>,
    out_r: Seq<S>,
    a1: SsbShifter<S>,
)
    requires
        repeatable::<S, M>(m),
        left_hz(m, p, hz),
        right_hz(m, p, hz),
        a.filters().0.same_filter(&a.filters().1),
        a.left() == a.right(),
        ssb_block(m, p, a, ins, ins, out_l, out_r, a1),
    ensures
        out_l == out_r,
        a1.left() == a1.right(),
{
    let (f, sl, sr) = choose|f: S, sl: S, sr: S| #[trigger]
        ssb_block_by(m, p, a, ins, ins, f, sl, sr, out_l, out_r, a1);
    lemma_left_step_of(m, p, hz, a.rate(), sl);
    lemma_right_step_of(m, p, hz, a.rate(), sr);
    lemma_one_turn(m, hz, a.rate(), sl, sr);
    a.lemma_parts(p, f, sl);
    lemma_one_voice_stream(
        m,
        a.left_tuning(p, f, sl),
        a.right_tuning(p, f, sr),
        a.left(),
        ins,
        out_l,
        a1.left(),
        out_r,
        a1.right(),
    );
}

/// The same setting of the feedback comes to the same amount.
proof fn lemma_same_feedback<S, M: SampleMath<S>>(
    m: &M,
    p: SsbParams<S>,
    q: SsbParams<S>,
    r: S,
    s: S,
)
    requires
        repeatable::<S, M>(m),
        p.feedback == q.feedback,
        feedback_of(m, p, r),
        feedback_of(m, q, s),
    ensures
        r == s,
{
    assert(feedback_of(m, p, s));
    lemma_one_feedback(m, p, r, s);
}

/// The left carrier moves by what the left channel is shifted by.
proof fn lemma_left_step_of<S, M: SampleMath<S>>(m: &M, p: SsbParams<S>, hz: S, rate: S, step: S)
    requires
        repeatable::<S, M>(m),
        left_hz(m, p, hz),
        left_step(m, p, rate, step),
    ensures
        turns_by(m, hz, rate, step),
{
    let other = choose|other: S| #[trigger]
        left_hz(m, p, other) && turns_by(m, other, rate, step);
    assert(other == hz);
}

/// The right carrier moves by what the right channel is shifted by.
proof fn lemma_right_step_of<S, M: SampleMath<S>>(m: &M, p: SsbParams<S>, hz: S, rate: S, step: S)
    requires
        repeatable::<S, M>(m),
        right_hz(m, p, hz),
        right_step(m, p, rate, step),
    ensures
        turns_by(m, hz, rate, step),
{
    let other = choose|other: S| #[trigger]
        right_hz(m, p, other) && turns_by(m, other, rate, step);
    assert(other == hz);
}

// ----------------------------------------------------------------- feedback

/// A setting of the feedback beyond 0 or 0.92 acts as that end, now and ever after:
/// two shifters in the same state, one under `p` and one under `q`, which is `p` with
/// its feedback held to the range, give the same and end in the same state.
pub proof fn law_feedback_acts_as_it_is_held<S: Copy, M: SampleMath<S>>(
    m: &M,
    p: SsbParams<S>,
    q: SsbParams<S>,
    a: SsbShifter<S>,
    b: SsbShifter<S>,
    in_l: Seq<S>,
    in_r: Seq<S>,
    out_l: Seq<S>,
    out_r: Seq<S>,
    a1: SsbShifter<S>,
    out2_l: Seq<S>,
    out2_r: Seq<S>,
    b1: SsbShifter<S>,
)
    requires
        repeatable::<S, M>(m),
        never_below_itself::<S, M>(m),
        q == (SsbParams { feedback: q.feedback, ..p }),
        feedback_of(m, p, q.feedback),
        ssb_alike(a, b),
        ssb_block(m, p, a, in_l, in_r, out_l, out_r, a1),
        ssb_block(m, q, b, in_l, in_r, out2_l, out2_r, b1),
    ensures
        out_l == out2_l,
        out_r == out2_r,
        ssb_alike(a1, b1),
{
    let (f1, sl1, sr1) = choose|f: S, sl: S, sr: S| #[trigger]
        ssb_block_by(m, p, a, in_l, in_r, f, sl, sr, out_l, out_r, a1);
    let (f2, sl2, sr2) = choose|f: S, sl: S, sr: S| #[trigger]
        ssb_block_by(m, q, b, in_l, in_r, f, sl, sr, out2_l, out2_r, b1);
    lemma_one_feedback(m, p, f1, q.feedback);
    let (lo, hi) = choose|lo: S, hi: S|
        call_ensures(M::ratio, (m, 0i32, 1u32), lo) && call_ensures(
            M::ratio,
            (m, 92i32, 100u32),
            hi,
        ) && #[trigger] clamped(m, p.feedback, lo, hi, f1);
    let (lo2, hi2) = choose|lo: S, hi: S|
        call_ensures(M::ratio, (m, 0i32, 1u32), lo) && call_ensures(
            M::ratio,
            (m, 92i32, 100u32),
            hi,
        ) && #[trigger] clamped(m, q.feedback, lo, hi, f2);
    assert(lo == lo2 && hi == hi2);
    law_clamping_twice_is_clamping_once(m, p.feedback, lo, hi, f1, f2);
    assert(left_hz(m, q, choose|hz: S| #[trigger] left_hz(m, p, hz) && turns_by(m, hz, a.rate(), sl1)));
    assert(left_step(m, q, a.rate(), sl1));
    assert(right_hz(m, q, choose|hz: S| #[trigger] right_hz(m, p, hz) && turns_by(m, hz, a.rate(), sr1)));
    assert(right_step(m, q, a.rate(), sr1));
    lemma_one_left_step(m, q, a.rate(), sl1, sl2);
    lemma_one_right_step(m, q, a.rate(), sr1, sr2);
    a.lemma_parts(p, f1, sl1);
    a.lemma_parts(p, f1, sr1);
    b.lemma_parts(q, f2, sl2);
    b.lemma_parts(q, f2, sr2);
    lemma_one_voice_stream(
        m,
        a.left_tuning(p, f1, sl1),
        b.left_tuning(q, f2, sl2),
        a.left(),
        in_l,
        out_l,
        a1.left(),
        out2_l,
        b1.left(),
    );
    lemma_one_voice_stream(
        m,
        a.right_tuning(p, f1, sr1),
        b.right_tuning(q, f2, sr2),
        a.right(),
        in_r,
        out_r,
        a1.right(),
        out2_r,
        b1.right(),
    );
}

} // verus!
