//! What holds of the engines behind the switch, when the arithmetic gives the same
//! result for the same arguments.

use vstd::prelude::*;

use crate::dsp::alike::{
    engine_built, engines_alike, lemma_fresh_engines_alike, lemma_fresh_ssb_alike,
    lemma_hop_keeps_built, lemma_one_feedback, lemma_one_left_step, lemma_one_limited,
    lemma_one_right_step, lemma_one_spec_block, lemma_one_ssb_block, spec_alike, ssb_alike,
};
use crate::dsp::engine::{
    all_limited, engine_block, engine_made, engine_out, limited, rate_taken_on, Engine, EngineMode,
    Params,
};
use crate::dsp::laws::{law_spectral_blocks_join, law_ssb_blocks_join};
use crate::dsp::modes::SpecParams;
use crate::dsp::spectral::{hop_applied, spec_block, spec_block_by, SpectralShifter};
use crate::dsp::ssb::{
    feedback_of, left_step, right_step, ssb_block, ssb_block_by, SsbParams, SsbShifter,
    VoiceTuning, HILBERT_TAPS,
};
use crate::dsp::ssb_laws::{late_by_half, law_a_new_shifter_is_late_by_half_its_taps};
use crate::math::{rates_apart, BinMath, SampleMath};
use crate::repeat::{lemma_one_rates_apart, repeatable, repeatable_bins};

verus! {

/// A new engine is built as engines are.
pub proof fn law_new_engines_are_built<S: Copy, M: SampleMath<S>>(m: &M, rate: S, e: Engine<S>)
    requires
        engine_made(m, rate, e),
    ensures
        engine_built(m, e),
{
}

/// Whatever an engine processes, it stays built as it was.
pub proof fn law_engines_stay_built<S: Copy, C, M: BinMath<S, C>>(
    m: &M,
    params: Params<S>,
    pre: Engine<S>,
    in_l: Seq<S>,
    in_r: Seq<S>,
    held_l: Seq<S>,
    held_r: Seq<S>,
    out_l: Seq<S>,
    out_r: Seq<S>,
    post: Engine<S>,
)
    requires
        engine_built(m, pre),
        engine_out::<S, C, M>(m, params, pre, in_l, in_r, held_l, held_r, out_l, out_r, post),
    ensures
        engine_built(m, post),
{
    let (wl, wr) = wet_of::<S, C, M>(
        m, params, pre, in_l, in_r, held_l, held_r, out_l, out_r, post);
    if params.mode == EngineMode::Spectral {
        let s = choose|s: SpectralShifter<S>|
            hop_applied(m, pre.spectral(), params.spec.hop_size as int, s)
                && #[trigger] spec_block_by::<S, C, M>(
                m, params.spec, s, in_l, in_r, wl, wr, post.spectral());
        lemma_hop_keeps_built(m, pre.spectral(), params.spec.hop_size as int, s);
    }
}

/// Taking on a sample rate leaves an engine built as it was.
pub proof fn law_new_rates_keep_engines_built<S: Copy, M: SampleMath<S>>(
    m: &M,
    pre: Engine<S>,
    sr: S,
    post: Engine<S>,
)
    requires
        engine_built(m, pre),
        rate_taken_on(m, pre, sr, post),
    ensures
        engine_built(m, post),
{
}

/// The wet block behind what an engine gave.
proof fn wet_of<S: Copy, C, M: BinMath<S, C>>(
    m: &M,
    params: Params<S>,
    pre: Engine<S>,
    in_l: Seq<S>,
    in_r: Seq<S>,
    held_l: Seq<S>,
    held_r: Seq<S>,
    out_l: Seq<S>,
    out_r: Seq<S>,
    post: Engine<S>,
) -> (wet: (Seq<S>, Seq<S>))
    requires
        engine_out::<S, C, M>(m, params, pre, in_l, in_r, held_l, held_r, out_l, out_r, post),
    ensures
        engine_block::<S, C, M>(m, params, pre, in_l, in_r, wet.0, wet.1, post),
        all_limited(m, wet.0 + held_l.skip(in_l.len() as int), params.output_gain, out_l),
        all_limited(m, wet.1 + held_r.skip(in_l.len() as int), params.output_gain, out_r),
{
    choose|wet_l: Seq<S>, wet_r: Seq<S>| #[trigger]
        engine_block::<S, C, M>(m, params, pre, in_l, in_r, wet_l, wet_r, post) && all_limited(
            m,
            wet_l + held_l.skip(in_l.len() as int),
            params.output_gain,
            out_l,
        ) && all_limited(
            m,
            wet_r + held_r.skip(in_l.len() as int),
            params.output_gain,
            out_r,
        )
}

/// Engines of the same rate whose chosen shifter will sound alike give the same
/// under the same settings, and then sound alike under any.
proof fn lemma_heard_alike<S: Copy, C, M: BinMath<S, C>>(
    m: &M,
    params: Params<S>,
    a: Engine<S>,
    b: Engine<S>,
    in_l: Seq<S>,
    in_r: Seq<S>,
    held_l: Seq<S>,
    held_r: Seq<S>,
    l1: Seq<S>,
    r1: Seq<S>,
    a1: Engine<S>,
    l2: Seq<S>,
    r2: Seq<S>,
    b1: Engine<S>,
)
    requires
        repeatable_bins::<S, C, M>(m),
        a.wf(),
        b.wf(),
        engine_built(m, a),
        engine_built(m, b),
        a.rate() == b.rate(),
        match params.mode {
            EngineMode::Ssb => ssb_alike(a.time_domain(), b.time_domain()),
            EngineMode::Spectral => spec_alike(a.spectral(), b.spectral()),
        },
        engine_out::<S, C, M>(m, params, a, in_l, in_r, held_l, held_r, l1, r1, a1),
        engine_out::<S, C, M>(m, params, b, in_l, in_r, held_l, held_r, l2, r2, b1),
    ensures
        l1 == l2,
        r1 == r2,
        engines_alike(a1, b1),
        engine_built(m, a1),
        engine_built(m, b1),
{
    law_engines_stay_built::<S, C, M>(m, params, a, in_l, in_r, held_l, held_r, l1, r1, a1);
    law_engines_stay_built::<S, C, M>(m, params, b, in_l, in_r, held_l, held_r, l2, r2, b1);
    let (wl1, wr1) = wet_of::<S, C, M>(m, params, a, in_l, in_r, held_l, held_r, l1, r1, a1);
    let (wl2, wr2) = wet_of::<S, C, M>(m, params, b, in_l, in_r, held_l, held_r, l2, r2, b1);
    match params.mode {
        EngineMode::Ssb => {
            lemma_one_ssb_block(
                m, params.ssb, a.time_domain(), b.time_domain(), in_l, in_r, wl1, wr1,
                a1.time_domain(), wl2, wr2, b1.time_domain());
            assert(a1.spectral().fresh() && b1.spectral().fresh());
            assert(a1.spectral().chans().len() == 2 && b1.spectral().chans().len() == 2);
        },
        EngineMode::Spectral => {
            lemma_one_spec_block::<S, C, M>(
                m, params.spec, a.spectral(), b.spectral(), in_l, in_r, wl1, wr1, a1.spectral(),
                wl2, wr2, b1.spectral());
            assert(a1.time_domain().fresh() && b1.time_domain().fresh());
            lemma_fresh_ssb_alike(m, a1.time_domain(), b1.time_domain());
        },
    }
    let n = in_l.len() as int;
    lemma_one_limited(m, wl1 + held_l.skip(n), params.output_gain, l1, l2);
    lemma_one_limited(m, wr1 + held_r.skip(n), params.output_gain, r1, r2);
}

/// Engines that sound alike give the same for the same input and settings, and
/// sound alike ever after.
pub proof fn law_alike_engines_stay_alike<S: Copy, C, M: BinMath<S, C>>(
    m: &M,
    params: Params<S>,
    a: Engine<S>,
    b: Engine<S>,
    in_l: Seq<S>,
    in_r: Seq<S>,
    held_l: Seq<S>,
    held_r: Seq<S>,
    l1: Seq<S>,
    r1: Seq<S>,
    a1: Engine<S>,
    l2: Seq<S>,
    r2: Seq<S>,
    b1: Engine<S>,
)
    requires
        repeatable_bins::<S, C, M>(m),
        a.wf(),
        b.wf(),
        engine_built(m, a),
        engine_built(m, b),
        engines_alike(a, b),
        engine_out::<S, C, M>(m, params, a, in_l, in_r, held_l, held_r, l1, r1, a1),
        engine_out::<S, C, M>(m, params, b, in_l, in_r, held_l, held_r, l2, r2, b1),
    ensures
        l1 == l2,
        r1 == r2,
        engines_alike(a1, b1),
        engine_built(m, a1),
        engine_built(m, b1),
{
    lemma_heard_alike::<S, C, M>(
        m, params, a, b, in_l, in_r, held_l, held_r, l1, r1, a1, l2, r2, b1);
}

/// After a toggle nothing of earlier blocks is heard: the output is what a new
/// engine at the same rate gives, and from then on the two sound alike.
pub proof fn law_toggling_is_starting_anew<S: Copy, C, M: BinMath<S, C>>(
    m: &M,
    params: Params<S>,
    pre: Engine<S>,
    newly: Engine<S>,
    in_l: Seq<S>,
    in_r: Seq<S>,
    held_l: Seq<S>,
    held_r: Seq<S>,
    out_l: Seq<S>,
    out_r: Seq<S>,
    post: Engine<S>,
    new_l: Seq<S>,
    new_r: Seq<S>,
    newly_post: Engine<S>,
)
    requires
        repeatable_bins::<S, C, M>(m),
        pre.wf(),
        newly.wf(),
        engine_built(m, pre),
        params.mode != pre.mode(),
        engine_made(m, pre.rate(), newly),
        engine_out::<S, C, M>(m, params, pre, in_l, in_r, held_l, held_r, out_l, out_r, post),
        engine_out::<S, C, M>(
            m, params, newly, in_l, in_r, held_l, held_r, new_l, new_r, newly_post),
    ensures
        out_l == new_l,
        out_r == new_r,
        engines_alike(post, newly_post),
        engine_built(m, post),
        engine_built(m, newly_post),
{
    if params.mode == EngineMode::Ssb {
        lemma_fresh_ssb_alike(m, pre.time_domain(), newly.time_domain());
    }
    lemma_heard_alike::<S, C, M>(
        m, params, pre, newly, in_l, in_r, held_l, held_r, out_l, out_r, post, new_l, new_r,
        newly_post);
}

/// An engine that takes on another sample rate sounds like a new one at that rate.
pub proof fn law_a_new_rate_is_starting_anew<S: Copy, M: SampleMath<S>>(
    m: &M,
    pre: Engine<S>,
    sr: S,
    post: Engine<S>,
    newly: Engine<S>,
)
    requires
        repeatable::<S, M>(m),
        pre.wf(),
        post.wf(),
        newly.wf(),
        engine_built(m, pre),
        rates_apart(m, sr, pre.rate(), true),
        rate_taken_on(m, pre, sr, post),
        engine_made(m, sr, newly),
    ensures
        engines_alike(post, newly),
        engine_built(m, post),
        engine_built(m, newly),
{
    let changed = choose|changed: bool| #[trigger]
        rates_apart(m, sr, pre.rate(), changed) && if changed {
            &&& post.rate() == sr
            &&& post.mode() == pre.mode()
            &&& post.time_domain().fresh()
            &&& post.time_domain().same_filters(&pre.time_domain())
            &&& post.spectral().fresh()
            &&& post.spectral().same_windows(&pre.spectral())
            &&& post.spectral().hop() == pre.spectral().hop()
            &&& post.spectral().cola() == pre.spectral().cola()
        } else {
            post == pre
        };
    lemma_one_rates_apart(m, sr, pre.rate(), changed, true);
    lemma_fresh_engines_alike(m, post, newly);
}

/// `out` is what goes into the filter of a channel, late by half the span of its
/// taps and blended with the wet signal, after the output stage.
pub open spec fn late_and_limited<S, M: SampleMath<S>>(
    m: &M,
    t: VoiceTuning<S>,
    gain: S,
    ins: Seq<S>,
    out: Seq<S>,
) -> bool {
    exists|ys: Seq<S>, wet: Seq<S>| #[trigger]
        late_by_half(m, t, ins, ys, wet) && all_limited(m, wet, gain, out)
}

/// What a new engine gives in the time domain is late by half the span of its taps,
/// on both sides, and then goes through the output stage.
pub proof fn law_a_new_engine_is_late_by_half_its_taps<S: Copy, C, M: BinMath<S, C>>(
    m: &M,
    params: Params<S>,
    rate: S,
    pre: Engine<S>,
    in_l: Seq<S>,
    in_r: Seq<S>,
    held_l: Seq<S>,
    held_r: Seq<S>,
    out_l: Seq<S>,
    out_r: Seq<S>,
    post: Engine<S>,
) -> (drawn: (S, S, S))
    requires
        engine_made(m, rate, pre),
        params.mode == EngineMode::Ssb,
        in_r.len() == in_l.len() == held_l.len() == held_r.len(),
        engine_out::<S, C, M>(m, params, pre, in_l, in_r, held_l, held_r, out_l, out_r, post),
    ensures
        ({
            let (feedback, step_l, step_r) = drawn;
            let p = params.ssb;
            let e = pre.time_domain();
            &&& feedback_of(m, p, feedback)
            &&& left_step(m, p, rate, step_l)
            &&& right_step(m, p, rate, step_r)
            &&& e.left_tuning(p, feedback, step_l).taps.len() == HILBERT_TAPS
            &&& e.right_tuning(p, feedback, step_r).taps.len() == HILBERT_TAPS
            &&& late_and_limited(
                m,
                e.left_tuning(p, feedback, step_l),
                params.output_gain,
                in_l,
                out_l,
            )
            &&& late_and_limited(
                m,
                e.right_tuning(p, feedback, step_r),
                params.output_gain,
                in_r,
                out_r,
            )
        }),
{
    let (wl, wr) = wet_of::<S, C, M>(
        m, params, pre, in_l, in_r, held_l, held_r, out_l, out_r, post);
    lemma_wet_lengths::<S, C, M>(m, params, pre, in_l, in_r, wl, wr, post);
    let n = in_l.len() as int;
    assert(wl + held_l.skip(n) =~= wl);
    assert(wr + held_r.skip(n) =~= wr);
    let e = pre.time_domain();
    let (f, sl, sr) = choose|f: S, sl: S, sr: S| #[trigger]
        ssb_block_by(m, params.ssb, e, in_l, in_r, f, sl, sr, wl, wr, post.time_domain());
    let (ys_l, ys_r) = law_a_new_shifter_is_late_by_half_its_taps(
        m, params.ssb, rate, e, in_l, in_r, f, sl, sr, wl, wr, post.time_domain());
    assert(late_by_half(m, e.left_tuning(params.ssb, f, sl), in_l, ys_l, wl));
    assert(late_by_half(m, e.right_tuning(params.ssb, f, sr), in_r, ys_r, wr));
    (f, sl, sr)
}

/// Two time-domain blocks are one.
proof fn lemma_ssb_blocks_join<S: Copy, M: SampleMath<S>>(
    m: &M,
    p: SsbParams<S>,
    pre: SsbShifter<S>,
    in_l: Seq<S>,
    in_r: Seq<S>,
    out_l: Seq<S>,
    out_r: Seq<S>,
    mid: SsbShifter<S>,
    more_l: Seq<S>,
    more_r: Seq<S>,
    more_out_l: Seq<S>,
    more_out_r: Seq<S>,
    post: SsbShifter<S>,
)
    requires
        repeatable::<S, M>(m),
        ssb_block(m, p, pre, in_l, in_r, out_l, out_r, mid),
        ssb_block(m, p, mid, more_l, more_r, more_out_l, more_out_r, post),
    ensures
        ssb_block(
            m,
            p,
            pre,
            in_l + more_l,
            in_r + more_r,
            out_l + more_out_l,
            out_r + more_out_r,
            post,
        ),
{
    let (f1, sl1, sr1) = choose|f: S, sl: S, sr: S| #[trigger]
        ssb_block_by(m, p, pre, in_l, in_r, f, sl, sr, out_l, out_r, mid);
    let (f2, sl2, sr2) = choose|f: S, sl: S, sr: S| #[trigger]
        ssb_block_by(m, p, mid, more_l, more_r, f, sl, sr, more_out_l, more_out_r, post);
    lemma_one_feedback(m, p, f1, f2);
    lemma_one_left_step(m, p, pre.rate(), sl1, sl2);
    lemma_one_right_step(m, p, pre.rate(), sr1, sr2);
    law_ssb_blocks_join(
        m, p, f1, sl1, sr1, pre, in_l, in_r, out_l, out_r, mid, more_l, more_r, more_out_l,
        more_out_r, post);
}

/// Two spectral blocks are one.
proof fn lemma_spec_blocks_join<S: Copy, C, M: BinMath<S, C>>(
    m: &M,
    p: SpecParams<S>,
    pre: SpectralShifter<S>,
    in_l: Seq<S>,
    in_r: Seq<S>,
    out_l: Seq<S>,
    out_r: Seq<S>,
    mid: SpectralShifter<S>,
    more_l: Seq<S>,
    more_r: Seq<S>,
    more_out_l: Seq<S>,
    more_out_r: Seq<S>,
    post: SpectralShifter<S>,
)
    requires
        spec_block::<S, C, M>(m, p, pre, in_l, in_r, out_l, out_r, mid),
        spec_block::<S, C, M>(m, p, mid, more_l, more_r, more_out_l, more_out_r, post),
    ensures
        spec_block::<S, C, M>(
            m,
            p,
            pre,
            in_l + more_l,
            in_r + more_r,
            out_l + more_out_l,
            out_r + more_out_r,
            post,
        ),
{
    let s = choose|s: SpectralShifter<S>|
        hop_applied(m, pre, p.hop_size as int, s) && #[trigger] spec_block_by::<S, C, M>(
            m, p, s, in_l, in_r, out_l, out_r, mid);
    let t = choose|t: SpectralShifter<S>|
        hop_applied(m, mid, p.hop_size as int, t) && #[trigger] spec_block_by::<S, C, M>(
            m, p, t, more_l, more_r, more_out_l, more_out_r, post);
    assert(t == mid);
    law_spectral_blocks_join::<S, C, M>(
        m, p, s, in_l, in_r, out_l, out_r, mid, more_l, more_r, more_out_l, more_out_r, post);
}

/// Two buffers that went through the output stage are one.
proof fn lemma_limited_join<S, M: SampleMath<S>>(
    m: &M,
    wet: Seq<S>,
    gain: S,
    out: Seq<S>,
    more_wet: Seq<S>,
    more_out: Seq<S>,
)
    requires
        all_limited(m, wet, gain, out),
        all_limited(m, more_wet, gain, more_out),
    ensures
        all_limited(m, wet + more_wet, gain, out + more_out),
{
    let all = out + more_out;
    assert forall|i: int| 0 <= i < all.len() implies limited(
        m,
        (wet + more_wet)[i],
        gain,
        #[trigger] all[i],
    ) by {
        if i < out.len() {
            assert(limited(m, wet[i], gain, out[i]));
        } else {
            assert(limited(m, more_wet[i - out.len()], gain, more_out[i - out.len()]));
        }
    }
}

/// Two blocks with the same settings, one after the other, are one block.
proof fn lemma_engine_blocks_join<S: Copy, C, M: BinMath<S, C>>(
    m: &M,
    params: Params<S>,
    pre: Engine<S>,
    in_l: Seq<S>,
    in_r: Seq<S>,
    wet_l: Seq<S>,
    wet_r: Seq<S>,
    mid: Engine<S>,
    more_l: Seq<S>,
    more_r: Seq<S>,
    more_wet_l: Seq<S>,
    more_wet_r: Seq<S>,
    post: Engine<S>,
)
    requires
        repeatable_bins::<S, C, M>(m),
        engine_block::<S, C, M>(m, params, pre, in_l, in_r, wet_l, wet_r, mid),
        engine_block::<S, C, M>(m, params, mid, more_l, more_r, more_wet_l, more_wet_r, post),
    ensures
        engine_block::<S, C, M>(
            m,
            params,
            pre,
            in_l + more_l,
            in_r + more_r,
            wet_l + more_wet_l,
            wet_r + more_wet_r,
            post,
        ),
{
    match params.mode {
        EngineMode::Ssb => {
            lemma_ssb_blocks_join(
                m, params.ssb, pre.time_domain(), in_l, in_r, wet_l, wet_r, mid.time_domain(),
                more_l, more_r, more_wet_l, more_wet_r, post.time_domain());
        },
        EngineMode::Spectral => {
            lemma_spec_blocks_join::<S, C, M>(
                m, params.spec, pre.spectral(), in_l, in_r, wet_l, wet_r, mid.spectral(), more_l,
                more_r, more_wet_l, more_wet_r, post.spectral());
        },
    }
}

/// A wet block is as long as its input.
proof fn lemma_wet_lengths<S: Copy, C, M: BinMath<S, C>>(
    m: &M,
    params: Params<S>,
    pre: Engine<S>,
    in_l: Seq<S>,
    in_r: Seq<S>,
    wet_l: Seq<S>,
    wet_r: Seq<S>,
    post: Engine<S>,
)
    requires
        engine_block::<S, C, M>(m, params, pre, in_l, in_r, wet_l, wet_r, post),
    ensures
        wet_l.len() == in_l.len(),
        wet_r.len() == in_r.len(),
{
}

/// Block boundaries are not audible: of two engines that sound alike, one that is
/// given an input in two blocks and one that is given it in one block give the
/// same under the same settings, and sound alike afterwards.
pub proof fn law_engine_blocks_join<S: Copy, C, M: BinMath<S, C>>(
    m: &M,
    params: Params<S>,
    a: Engine<S>,
    b: Engine<S>,
    in_l: Seq<S>,
    in_r: Seq<S>,
    held_l: Seq<S>,
    held_r: Seq<S>,
    out_l: Seq<S>,
    out_r: Seq<S>,
    mid: Engine<S>,
    more_l: Seq<S>,
    more_r: Seq<S>,
    more_held_l: Seq<S>,
    more_held_r: Seq<S>,
    more_out_l: Seq<S>,
    more_out_r: Seq<S>,
    post: Engine<S>,
    all_held_l: Seq<S>,
    all_held_r: Seq<S>,
    all_out_l: Seq<S>,
    all_out_r: Seq<S>,
    all_post: Engine<S>,
)
    requires
        repeatable_bins::<S, C, M>(m),
        a.wf(),
        b.wf(),
        engine_built(m, a),
        engine_built(m, b),
        engines_alike(a, b),
        in_r.len() == in_l.len() == held_l.len() == held_r.len(),
        more_r.len() == more_l.len() == more_held_l.len() == more_held_r.len(),
        all_held_l.len() == all_held_r.len() == in_l.len() + more_l.len(),
        engine_out::<S, C, M>(m, params, a, in_l, in_r, held_l, held_r, out_l, out_r, mid),
        engine_out::<S, C, M>(
            m, params, mid, more_l, more_r, more_held_l, more_held_r, more_out_l, more_out_r, post),
        engine_out::<S, C, M>(
            m, params, b, in_l + more_l, in_r + more_r, all_held_l, all_held_r, all_out_l,
            all_out_r, all_post),
    ensures
        all_out_l == out_l + more_out_l,
        all_out_r == out_r + more_out_r,
        engines_alike(post, all_post),
{
    let (wl, wr) = wet_of::<S, C, M>(
        m, params, a, in_l, in_r, held_l, held_r, out_l, out_r, mid);
    let (xl, xr) = wet_of::<S, C, M>(
        m, params, mid, more_l, more_r, more_held_l, more_held_r, more_out_l, more_out_r, post);
    lemma_wet_lengths::<S, C, M>(m, params, a, in_l, in_r, wl, wr, mid);
    lemma_wet_lengths::<S, C, M>(m, params, mid, more_l, more_r, xl, xr, post);
    let n = in_l.len() as int;
    let k = more_l.len() as int;
    let g = params.output_gain;
    assert(wl + held_l.skip(n) =~= wl);
    assert(wr + held_r.skip(n) =~= wr);
    assert(xl + more_held_l.skip(k) =~= xl);
    assert(xr + more_held_r.skip(k) =~= xr);
    lemma_engine_blocks_join::<S, C, M>(
        m, params, a, in_l, in_r, wl, wr, mid, more_l, more_r, xl, xr, post);
    lemma_limited_join(m, wl, g, out_l, xl, more_out_l);
    lemma_limited_join(m, wr, g, out_r, xr, more_out_r);
    assert((wl + xl) + all_held_l.skip((in_l + more_l).len() as int) =~= wl + xl);
    assert((wr + xr) + all_held_r.skip((in_l + more_l).len() as int) =~= wr + xr);
    assert(engine_out::<S, C, M>(
        m, params, a, in_l + more_l, in_r + more_r, all_held_l, all_held_r, out_l + more_out_l,
        out_r + more_out_r, post));
    law_alike_engines_stay_alike::<S, C, M>(
        m, params, a, b, in_l + more_l, in_r + more_r, all_held_l, all_held_r, out_l + more_out_l,
        out_r + more_out_r, post, all_out_l, all_out_r, all_post);
}

} // verus!
