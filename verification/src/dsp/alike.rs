//! Engines that sound alike.
//!
//! With arithmetic that gives the same result for the same arguments, what an
//! engine does is a function of its state, its settings and its input. These are
//! the steps towards the laws that say so.

use vstd::prelude::*;

use crate::dsp::bins::{
    arrival, bin_freq, bin_moves, bin_step, bin_step_by, bin_turned, half_shifted, interpolated,
    made_real, mirrored, source_of, BinTuning, N_POS,
};
use crate::dsp::cola::{cola_of, cola_of_by, covering, overlap_at};
use crate::dsp::engine::{all_limited, limited, Engine};
use crate::dsp::hilbert::{is_tap, is_tap_by, HilbertFir};
use crate::dsp::modes::SpecParams;
use crate::dsp::spectral::{
    analysed, chan_step, chan_step_by, chan_stepper, dry_of, hop_applied, hop_scales, hopped,
    hopped_by, overlap_added, overlapped, quiet, spec_block, spec_block_by, taken, windowed,
    ChanState, ChanTuning, SpectralShifter, FFT_SIZE,
};
use crate::dsp::ssb::{
    feedback_of, filter_made, left_step, right_step, sidebands, soft_clipped, soft_clipped_by,
    ssb_block, ssb_block_by, voice_step, voice_step_by, voice_stepper, SsbParams, SsbShifter,
    VoiceState, VoiceTuning,
};
use crate::frame::Frame;
use crate::math::{clamped, hann_at, BinMath, SampleMath};
use crate::repeat::{
    law_machines_stay_in_step, lemma_one_accumulated, lemma_one_added_up,
    lemma_one_blended, lemma_one_clamped, lemma_one_hann,
    lemma_one_wrapped_in_half_turn, lemma_one_wrapped_in_turn, repeatable, repeatable_bins,
};
use crate::ring::delayed;
use crate::stream::streamed;

verus! {

// ------------------------------------------------------------ the time domain

/// A sample is clipped in one way.
pub proof fn lemma_one_soft_clipped<S, M: SampleMath<S>>(m: &M, x: S, r: S, s: S)
    requires
        repeatable::<S, M>(m),
        soft_clipped(m, x, r),
        soft_clipped(m, x, s),
    ensures
        r == s,
{
    let (lo, hi, y, sq, cu, sh, be) = choose|lo: S, hi: S, y: S, sq: S, cu: S, sh: S, be: S|
        #[trigger]
        soft_clipped_by(m, x, lo, hi, y, sq, cu, sh, be, r);
    let (lo2, hi2, y2, sq2, cu2, sh2, be2) = choose|
        lo: S,
        hi: S,
        y: S,
        sq: S,
        cu: S,
        sh: S,
        be: S,
    | #[trigger]
        soft_clipped_by(m, x, lo, hi, y, sq, cu, sh, be, s);
    assert(lo == lo2 && hi == hi2);
    lemma_one_clamped(m, x, lo, hi, y, y2);
}

/// There is one pair of sidebands.
proof fn lemma_one_sidebands<S, M: SampleMath<S>>(
    m: &M,
    re: S,
    im: S,
    phase: S,
    u: S,
    l: S,
    u2: S,
    l2: S,
)
    requires
        repeatable::<S, M>(m),
        sidebands(m, re, im, phase, u, l),
        sidebands(m, re, im, phase, u2, l2),
    ensures
        u == u2,
        l == l2,
{
}

/// Two channels of the time-domain engine work alike: of the settings, a channel
/// sees the two levels and the mix.
pub open spec fn tuned_alike<S>(t: VoiceTuning<S>, u: VoiceTuning<S>) -> bool {
    &&& t.taps == u.taps
    &&& t.zero == u.zero
    &&& t.feedback == u.feedback
    &&& t.step == u.step
    &&& t.params.upper_level == u.params.upper_level
    &&& t.params.lower_level == u.params.lower_level
    &&& t.params.mix == u.params.mix
}

/// Channels of the time-domain engine that work alike give one thing for one
/// input.
pub proof fn lemma_one_voice_step<S, M: SampleMath<S>>(
    m: &M,
    t: VoiceTuning<S>,
    u: VoiceTuning<S>,
    s: VoiceState<S>,
    x: S,
    n1: VoiceState<S>,
    o1: S,
    n2: VoiceState<S>,
    o2: S,
)
    requires
        repeatable::<S, M>(m),
        tuned_alike(t, u),
        voice_step(m, t, s, x, n1, o1),
        voice_step(m, u, s, x, n2, o2),
    ensures
        n1 == n2,
        o1 == o2,
{
    reveal(voice_step);
    let (y1, i1, u1, l1, p1, w1, t1) = choose|y: S, i: S, u: S, l: S, p: S, w: S, q: S| #[trigger]
        voice_step_by(m, t, s, x, y, i, u, l, p, w, q, n1, o1);
    let (y2, i2, u2, l2, p2, w2, t2) = choose|y: S, i: S, v: S, l: S, p: S, w: S, q: S| #[trigger]
        voice_step_by(m, u, s, x, y, i, v, l, p, w, q, n2, o2);
    assert(y1 == y2);
    let re = delayed(n1.held, (t.taps.len() - 1) / 2);
    lemma_one_accumulated(m, t.taps, n1.held.reverse(), t.zero, i1, i2);
    lemma_one_sidebands(m, re, i1, s.phase, u1, l1, u2, l2);
    assert(p1 == p2);
    assert(w1 == w2);
    lemma_one_blended(m, t.params.mix, re, w1, o1, o2);
    lemma_one_soft_clipped(m, w1, n1.echo, n2.echo);
    assert(t1 == t2);
    lemma_one_wrapped_in_turn(m, t1, n1.phase, n2.phase);
}

/// Two channels with the same tuning give the same from the same state.
pub proof fn lemma_one_voice_stream<S, M: SampleMath<S>>(
    m: &M,
    t: VoiceTuning<S>,
    u: VoiceTuning<S>,
    from: VoiceState<S>,
    ins: Seq<S>,
    o1: Seq<S>,
    n1: VoiceState<S>,
    o2: Seq<S>,
    n2: VoiceState<S>,
)
    requires
        repeatable::<S, M>(m),
        tuned_alike(t, u),
        streamed(voice_stepper(m, t), from, ins, o1, n1),
        streamed(voice_stepper(m, u), from, ins, o2, n2),
    ensures
        o1 == o2,
        n1 == n2,
{
    let go = voice_stepper(m, t);
    let gone = voice_stepper(m, u);
    let rel = |a: VoiceState<S>, b: VoiceState<S>| a == b;
    assert forall|
        a: VoiceState<S>,
        b: VoiceState<S>,
        x: S,
        na: VoiceState<S>,
        oa: S,
        nb: VoiceState<S>,
        ob: S,
    |
        #![trigger go(a, x, na, oa), gone(b, x, nb, ob)]
        rel(a, b) && go(a, x, na, oa) && gone(b, x, nb, ob) implies rel(na, nb) && oa == ob by {
        lemma_one_voice_step(m, t, u, a, x, na, oa, nb, ob);
    }
    law_machines_stay_in_step(go, gone, rel, |x: S, y: S| x == y, from, from, ins, o1, n1, o2, n2);
    assert(o1 =~= o2);
}

/// A setting comes to one amount of feedback.
pub proof fn lemma_one_feedback<S, M: SampleMath<S>>(m: &M, p: SsbParams<S>, r: S, s: S)
    requires
        repeatable::<S, M>(m),
        feedback_of(m, p, r),
        feedback_of(m, p, s),
    ensures
        r == s,
{
    let (lo, hi) = choose|lo: S, hi: S|
        call_ensures(M::ratio, (m, 0i32, 1u32), lo) && call_ensures(
            M::ratio,
            (m, 92i32, 100u32),
            hi,
        ) && #[trigger] clamped(m, p.feedback, lo, hi, r);
    let (lo2, hi2) = choose|lo: S, hi: S|
        call_ensures(M::ratio, (m, 0i32, 1u32), lo) && call_ensures(
            M::ratio,
            (m, 92i32, 100u32),
            hi,
        ) && #[trigger] clamped(m, p.feedback, lo, hi, s);
    assert(lo == lo2 && hi == hi2);
    lemma_one_clamped(m, p.feedback, lo, hi, r, s);
}

/// A setting moves the left carrier in one way.
pub proof fn lemma_one_left_step<S, M: SampleMath<S>>(
    m: &M,
    p: SsbParams<S>,
    rate: S,
    r: S,
    s: S,
)
    requires
        repeatable::<S, M>(m),
        left_step(m, p, rate, r),
        left_step(m, p, rate, s),
    ensures
        r == s,
{
}

/// A setting moves the right carrier in one way.
pub proof fn lemma_one_right_step<S, M: SampleMath<S>>(
    m: &M,
    p: SsbParams<S>,
    rate: S,
    r: S,
    s: S,
)
    requires
        repeatable::<S, M>(m),
        right_step(m, p, rate, r),
        right_step(m, p, rate, s),
    ensures
        r == s,
{
}

/// Two time-domain shifters are in the same state.
pub open spec fn ssb_alike<S: Copy>(a: SsbShifter<S>, b: SsbShifter<S>) -> bool {
    &&& a.same_setup(&b)
    &&& a.left() == b.left()
    &&& a.right() == b.right()
}

/// Shifters in the same state give the same, and end in the same state.
pub proof fn lemma_one_ssb_block<S: Copy, M: SampleMath<S>>(
    m: &M,
    p: SsbParams<S>,
    a: SsbShifter<S>,
    b: SsbShifter<S>,
    in_l: Seq<S>,
    in_r: Seq<S>,
    l1: Seq<S>,
    r1: Seq<S>,
    a1: SsbShifter<S>,
    l2: Seq<S>,
    r2: Seq<S>,
    b1: SsbShifter<S>,
)
    requires
        repeatable::<S, M>(m),
        ssb_alike(a, b),
        ssb_block(m, p, a, in_l, in_r, l1, r1, a1),
        ssb_block(m, p, b, in_l, in_r, l2, r2, b1),
    ensures
        l1 == l2,
        r1 == r2,
        ssb_alike(a1, b1),
{
    let (f1, sl1, sr1) = choose|f: S, sl: S, sr: S| #[trigger]
        ssb_block_by(m, p, a, in_l, in_r, f, sl, sr, l1, r1, a1);
    let (f2, sl2, sr2) = choose|f: S, sl: S, sr: S| #[trigger]
        ssb_block_by(m, p, b, in_l, in_r, f, sl, sr, l2, r2, b1);
    lemma_one_feedback(m, p, f1, f2);
    lemma_one_left_step(m, p, a.rate(), sl1, sl2);
    lemma_one_right_step(m, p, a.rate(), sr1, sr2);
    SsbShifter::lemma_same_tuning(&a, &b, p, f1, sl1, sr1);
    lemma_one_voice_stream(
        m,
        a.left_tuning(p, f1, sl1),
        b.left_tuning(p, f1, sl1),
        a.left(),
        in_l,
        l1,
        a1.left(),
        l2,
        b1.left(),
    );
    lemma_one_voice_stream(
        m,
        a.right_tuning(p, f1, sr1),
        b.right_tuning(p, f1, sr1),
        a.right(),
        in_r,
        r1,
        a1.right(),
        r2,
        b1.right(),
    );
}

/// There is one tap for a place.
proof fn lemma_one_tap<S, M: SampleMath<S>>(m: &M, n: int, k: int, r: S, s: S)
    requires
        repeatable::<S, M>(m),
        is_tap(m, n, k, r),
        is_tap(m, n, k, s),
    ensures
        r == s,
{
    let (h1, w1) = choose|h: S, w: S| #[trigger] is_tap_by(m, n, k, h, w, r);
    let (h2, w2) = choose|h: S, w: S| #[trigger] is_tap_by(m, n, k, h, w, s);
    lemma_one_hann(m, k as usize, (n - 1) as usize, w1, w2);
    assert(h1 == h2);
}

/// There is one filter of the engine's length.
pub proof fn lemma_one_filter<S: Copy, M: SampleMath<S>>(m: &M, f: HilbertFir<S>, g: HilbertFir<S>)
    requires
        repeatable::<S, M>(m),
        filter_made(m, f),
        filter_made(m, g),
    ensures
        f.same_filter(&g),
{
    assert forall|k: int| 0 <= k < f.taps().len() implies f.taps()[k] == g.taps()[k] by {
        lemma_one_tap(m, f.taps().len() as int, k, f.taps()[k], g.taps()[k]);
    }
    assert(f.taps() =~= g.taps());
}

/// The filters of a time-domain shifter are those that a new one has.
pub open spec fn ssb_built<S: Copy, M: SampleMath<S>>(m: &M, s: SsbShifter<S>) -> bool {
    &&& filter_made(m, s.filters().0)
    &&& filter_made(m, s.filters().1)
}

/// Shifters that have heard nothing are in the same state.
pub proof fn lemma_fresh_ssb_alike<S: Copy, M: SampleMath<S>>(
    m: &M,
    a: SsbShifter<S>,
    b: SsbShifter<S>,
)
    requires
        repeatable::<S, M>(m),
        ssb_built(m, a),
        ssb_built(m, b),
        a.rate() == b.rate(),
        a.fresh(),
        b.fresh(),
    ensures
        ssb_alike(a, b),
{
    lemma_one_filter(m, a.filters().0, b.filters().0);
    lemma_one_filter(m, a.filters().1, b.filters().1);
    let p = arbitrary::<SsbParams<S>>();
    let x = arbitrary::<S>();
    a.lemma_parts(p, x, x);
    b.lemma_parts(p, x, x);
}

// -------------------------------------------------------- the frequency domain

/// A spectrum is worth one thing between its bins.
proof fn lemma_one_interpolated<S, C, M: BinMath<S, C>>(
    m: &M,
    spectrum: Seq<C>,
    zero: S,
    src: S,
    r: C,
    s: C,
)
    requires
        repeatable_bins::<S, C, M>(m),
        interpolated(m, spectrum, zero, src, r),
        interpolated(m, spectrum, zero, src, s),
    ensures
        r == s,
{
}

/// A bin is turned in one way.
proof fn lemma_one_bin_turned<S, C, M: BinMath<S, C>>(m: &M, c: C, angle: S, r: C, s: C)
    requires
        repeatable_bins::<S, C, M>(m),
        bin_turned(m, c, angle, r),
        bin_turned(m, c, angle, s),
    ensures
        r == s,
{
}

/// One thing arrives.
proof fn lemma_one_arrival<S, C, M: BinMath<S, C>>(
    m: &M,
    spectrum: Seq<C>,
    zero: S,
    src: S,
    arrives: bool,
    phase: S,
    r: C,
    s: C,
)
    requires
        repeatable_bins::<S, C, M>(m),
        arrival(m, spectrum, zero, src, arrives, phase, r),
        arrival(m, spectrum, zero, src, arrives, phase, s),
    ensures
        r == s,
{
    if arrives {
        let d1 = choose|d: C| #[trigger]
            interpolated(m, spectrum, zero, src, d) && bin_turned(m, d, phase, r);
        let d2 = choose|d: C| #[trigger]
            interpolated(m, spectrum, zero, src, d) && bin_turned(m, d, phase, s);
        lemma_one_interpolated(m, spectrum, zero, src, d1, d2);
        lemma_one_bin_turned(m, d1, phase, r, s);
    }
}

/// A frequency moves or it does not.
pub proof fn lemma_one_bin_moves<S, M: SampleMath<S>>(
    m: &M,
    p: SpecParams<S>,
    freq: S,
    r: bool,
    s: bool,
)
    requires
        repeatable::<S, M>(m),
        bin_moves(m, p, freq, r),
        bin_moves(m, p, freq, s),
    ensures
        r == s,
{
}

/// A bin has one source.
proof fn lemma_one_source<S, M: SampleMath<S>>(m: &M, hz: S, k: int, shift: S, r: S, s: S)
    requires
        repeatable::<S, M>(m),
        source_of(m, hz, k, shift, r),
        source_of(m, hz, k, shift, s),
    ensures
        r == s,
{
}

/// A bin has one frequency.
proof fn lemma_one_bin_freq<S, M: SampleMath<S>>(m: &M, hz: S, k: int, r: S, s: S)
    requires
        repeatable::<S, M>(m),
        bin_freq(m, hz, k, r),
        bin_freq(m, hz, k, s),
    ensures
        r == s,
{
}

/// A bin is shifted in one way.
proof fn lemma_one_bin_step<S, C, M: BinMath<S, C>>(
    m: &M,
    t: BinTuning<S>,
    spectrum: Seq<C>,
    k: int,
    phase: S,
    n1: S,
    o1: C,
    n2: S,
    o2: C,
)
    requires
        repeatable_bins::<S, C, M>(m),
        bin_step(m, t, spectrum, k, phase, n1, o1),
        bin_step(m, t, spectrum, k, phase, n2, o2),
    ensures
        n1 == n2,
        o1 == o2,
{
    let (s1, f1, a1, g1, h1, c1, w1, v1) = choose|
        src: S,
        from: S,
        arrives: bool,
        gain: S,
        gathered: S,
        come: C,
        own: S,
        leaves: bool,
    | #[trigger]
        bin_step_by(
            m, t, spectrum, k, phase, src, from, arrives, gain, gathered, n1, come, own, leaves, o1);
    let (s2, f2, a2, g2, h2, c2, w2, v2) = choose|
        src: S,
        from: S,
        arrives: bool,
        gain: S,
        gathered: S,
        come: C,
        own: S,
        leaves: bool,
    | #[trigger]
        bin_step_by(
            m, t, spectrum, k, phase, src, from, arrives, gain, gathered, n2, come, own, leaves, o2);
    lemma_one_source(m, t.hz, k, t.params.shift_hz, s1, s2);
    assert(f1 == f2);
    lemma_one_bin_moves(m, t.params, f1, a1, a2);
    assert(g1 == g2);
    assert(h1 == h2);
    lemma_one_wrapped_in_half_turn(m, h1, n1, n2);
    lemma_one_arrival(m, spectrum, t.zero, s1, a1, n1, c1, c2);
    lemma_one_bin_freq(m, t.hz, k, w1, w2);
    lemma_one_bin_moves(m, t.params, w1, v1, v2);
}

/// A spectrum is shifted in one way.
proof fn lemma_one_half<S, C, M: BinMath<S, C>>(
    m: &M,
    t: BinTuning<S>,
    spectrum: Seq<C>,
    phases: Seq<S>,
    n1: Seq<S>,
    h1: Seq<C>,
    n2: Seq<S>,
    h2: Seq<C>,
)
    requires
        repeatable_bins::<S, C, M>(m),
        half_shifted(m, t, spectrum, phases, n1, h1),
        half_shifted(m, t, spectrum, phases, n2, h2),
    ensures
        n1 == n2,
        h1 == h2,
{
    assert forall|k: int| 0 <= k < N_POS implies n1[k] == n2[k] && h1[k] == h2[k] by {
        assert(bin_step(m, t, spectrum, k, phases[k], n1[k], h1[k]));
        assert(bin_step(m, t, spectrum, k, phases[k], n2[k], h2[k]));
        lemma_one_bin_step(m, t, spectrum, k, phases[k], n1[k], h1[k], n2[k], h2[k]);
    }
    assert(n1 =~= n2);
    assert(h1 =~= h2);
}

/// A half has one mirror image.
proof fn lemma_one_mirror<S, C, M: BinMath<S, C>>(m: &M, half: Seq<C>, f: Seq<C>, g: Seq<C>)
    requires
        repeatable_bins::<S, C, M>(m),
        mirrored(m, half, f),
        mirrored(m, half, g),
    ensures
        f == g,
{
    assert forall|k: int| 0 <= k < FFT_SIZE implies f[k] == g[k] by {
        if k == 0 {
            assert(made_real(m, half[0], f[0]) && made_real(m, half[0], g[0]));
        } else if k == N_POS - 1 {
            assert(made_real(m, half[N_POS - 1], f[k]) && made_real(m, half[N_POS - 1], g[k]));
        } else if k < N_POS - 1 {
            assert(f[k] == half[k] && g[k] == half[k]);
        } else {
            let j = FFT_SIZE - k;
            assert(call_ensures(M::bin_conj, (m, half[j]), f[FFT_SIZE - j]));
            assert(call_ensures(M::bin_conj, (m, half[j]), g[FFT_SIZE - j]));
        }
    }
    assert(f =~= g);
}

/// What is held has one windowed frame.
proof fn lemma_one_analysis<S, C, M: BinMath<S, C>>(
    m: &M,
    held: Seq<S>,
    win: Seq<S>,
    f: Seq<C>,
    g: Seq<C>,
)
    requires
        repeatable_bins::<S, C, M>(m),
        analysed(m, held, win, f),
        analysed(m, held, win, g),
    ensures
        f == g,
{
    assert forall|k: int| 0 <= k < FFT_SIZE implies f[k] == g[k] by {
        assert(windowed(m, held[k], win[k], f[k]));
        assert(windowed(m, held[k], win[k], g[k]));
    }
    assert(f =~= g);
}

/// A frame is laid over the pending output in one way.
proof fn lemma_one_overlap<S, C, M: BinMath<S, C>>(
    m: &M,
    pending: Seq<S>,
    time: Seq<C>,
    share: S,
    win: Seq<S>,
    cola: S,
    f: Seq<S>,
    g: Seq<S>,
)
    requires
        repeatable_bins::<S, C, M>(m),
        overlap_added(m, pending, time, share, win, cola, f),
        overlap_added(m, pending, time, share, win, cola, g),
    ensures
        f == g,
{
    assert forall|k: int| 0 <= k < FFT_SIZE implies f[k] == g[k] by {
        assert(overlapped(m, pending[k], time[k], share, win[k], cola, f[k]));
        assert(overlapped(m, pending[k], time[k], share, win[k], cola, g[k]));
    }
    assert(f =~= g);
}

/// A hop works with one set of scales.
proof fn lemma_one_hop_scales<S, M: SampleMath<S>>(
    m: &M,
    t: ChanTuning<S>,
    hz: S,
    turn: S,
    share: S,
    hz2: S,
    turn2: S,
    share2: S,
)
    requires
        repeatable::<S, M>(m),
        hop_scales(m, t, hz, turn, share),
        hop_scales(m, t, hz2, turn2, share2),
    ensures
        hz == hz2,
        turn == turn2,
        share == share2,
{
}

/// A hop takes a state to one state.
proof fn lemma_one_hop<S, C, M: BinMath<S, C>>(
    m: &M,
    t: ChanTuning<S>,
    s: ChanState<S>,
    n1: ChanState<S>,
    n2: ChanState<S>,
)
    requires
        repeatable_bins::<S, C, M>(m),
        hopped::<S, C, M>(m, t, s, n1),
        hopped::<S, C, M>(m, t, s, n2),
    ensures
        n1 == n2,
{
    reveal(hopped);
    let (z1, u1, h1, f1, s1, p1, g1, t1) = choose|
        hz: S,
        turn: S,
        share: S,
        frame: Frame<C>,
        spectrum: Frame<C>,
        half: Seq<C>,
        full: Frame<C>,
        time: Frame<C>,
    | #[trigger]
        hopped_by(m, t, s, hz, turn, share, frame, spectrum, half, full, time, n1);
    let (z2, u2, h2, f2, s2, p2, g2, t2) = choose|
        hz: S,
        turn: S,
        share: S,
        frame: Frame<C>,
        spectrum: Frame<C>,
        half: Seq<C>,
        full: Frame<C>,
        time: Frame<C>,
    | #[trigger]
        hopped_by(m, t, s, hz, turn, share, frame, spectrum, half, full, time, n2);
    lemma_one_hop_scales(m, t, z1, u1, h1, z2, u2, h2);
    lemma_one_analysis(m, s.held, t.win_a, f1@, f2@);
    assert(s1@ == s2@);
    let b = BinTuning { params: t.params, hz: z1, turn: u1, zero: t.zero };
    lemma_one_half(m, b, s1@, s.phases, n1.phases, p1, n2.phases, p2);
    lemma_one_mirror(m, p1, g1@, g2@);
    assert(t1@ == t2@);
    lemma_one_overlap(m, s.pending, t1@, h1, t.win_s, t.cola, n1.pending, n2.pending);
}

/// A channel of the spectral engine gives one thing for one input.
pub proof fn lemma_one_chan_step<S, C, M: BinMath<S, C>>(
    m: &M,
    t: ChanTuning<S>,
    s: ChanState<S>,
    x: S,
    n1: ChanState<S>,
    o1: S,
    n2: ChanState<S>,
    o2: S,
)
    requires
        repeatable_bins::<S, C, M>(m),
        chan_step::<S, C, M>(m, t, s, x, n1, o1),
        chan_step::<S, C, M>(m, t, s, x, n2, o2),
    ensures
        n1 == n2,
        o1 == o2,
{
    let m1 = choose|mid: ChanState<S>| #[trigger]
        chan_step_by::<S, C, M>(m, t, s, x, mid, n1, o1);
    let m2 = choose|mid: ChanState<S>| #[trigger]
        chan_step_by::<S, C, M>(m, t, s, x, mid, n2, o2);
    let took = taken(t.hop, s, x);
    if took.since == 0 {
        lemma_one_hop::<S, C, M>(m, t, took, m1, m2);
    }
    assert(m1 == m2);
    let dry = dry_of(t.hop, s, x);
    lemma_one_blended(m, t.params.mix, dry, m1.pending[0], o1, o2);
}

/// Two channels with the same tuning give the same from the same state.
pub proof fn lemma_one_chan_stream<S, C, M: BinMath<S, C>>(
    m: &M,
    t: ChanTuning<S>,
    from: ChanState<S>,
    ins: Seq<S>,
    o1: Seq<S>,
    n1: ChanState<S>,
    o2: Seq<S>,
    n2: ChanState<S>,
)
    requires
        repeatable_bins::<S, C, M>(m),
        streamed(chan_stepper::<S, C, M>(m, t), from, ins, o1, n1),
        streamed(chan_stepper::<S, C, M>(m, t), from, ins, o2, n2),
    ensures
        o1 == o2,
        n1 == n2,
{
    let go = chan_stepper::<S, C, M>(m, t);
    let rel = |a: ChanState<S>, b: ChanState<S>| a == b;
    assert forall|
        a: ChanState<S>,
        b: ChanState<S>,
        x: S,
        na: ChanState<S>,
        oa: S,
        nb: ChanState<S>,
        ob: S,
    |
        #![trigger go(a, x, na, oa), go(b, x, nb, ob)]
        rel(a, b) && go(a, x, na, oa) && go(b, x, nb, ob) implies rel(na, nb) && oa == ob by {
        lemma_one_chan_step::<S, C, M>(m, t, a, x, na, oa, nb, ob);
    }
    law_machines_stay_in_step(go, go, rel, |x: S, y: S| x == y, from, from, ins, o1, n1, o2, n2);
    assert(o1 =~= o2);
}

/// There is one gain for two windows and a hop.
pub proof fn lemma_one_cola<S, M: SampleMath<S>>(
    m: &M,
    win_a: Seq<S>,
    win_s: Seq<S>,
    hop: nat,
    r: S,
    s: S,
)
    requires
        repeatable::<S, M>(m),
        cola_of(m, win_a, win_s, hop, r),
        cola_of(m, win_a, win_s, hop, s),
    ensures
        r == s,
{
    reveal(cola_of);
    if hop > 0 {
        let (z1, p1, t1, c1, n1, l1, h1, o1) = choose|
            zero: S,
            probe: Seq<S>,
            total: S,
            count: S,
            mean: S,
            least: S,
            heard: bool,
            one: S,
        | #[trigger]
            cola_of_by(m, win_a, win_s, hop, zero, probe, total, count, mean, least, heard, one, r);
        let (z2, p2, t2, c2, n2, l2, h2, o2) = choose|
            zero: S,
            probe: Seq<S>,
            total: S,
            count: S,
            mean: S,
            least: S,
            heard: bool,
            one: S,
        | #[trigger]
            cola_of_by(m, win_a, win_s, hop, zero, probe, total, count, mean, least, heard, one, s);
        assert(z1 == z2);
        assert forall|i: int| 0 <= i < p1.len() implies p1[i] == p2[i] by {
            assert(overlap_at(m, win_a, win_s, hop, i, z1, p1[i]));
            assert(overlap_at(m, win_a, win_s, hop, i, z1, p2[i]));
            lemma_one_accumulated(
                m,
                covering(win_a, hop, i),
                covering(win_s.take(win_a.len() as int), hop, i),
                z1,
                p1[i],
                p2[i],
            );
        }
        assert(p1 =~= p2);
        lemma_one_added_up(m, p1, z1, t1, t2);
    }
}

/// The windows of a spectral shifter are those that a new one has, and its gain
/// goes with its hop.
pub open spec fn spec_built<S: Copy, M: SampleMath<S>>(m: &M, s: SpectralShifter<S>) -> bool {
    &&& s.win_a().len() == FFT_SIZE
    &&& forall|k: int|
        0 <= k < FFT_SIZE ==> hann_at(
            m,
            k as usize,
            FFT_SIZE,
            #[trigger] s.win_a()[k],
        )
    &&& s.win_s() == s.win_a()
    &&& 0 <= s.hop()
    &&& cola_of(m, s.win_a(), s.win_s(), s.hop() as nat, s.cola())
    &&& call_ensures(M::ratio, (m, 0i32, 1u32), s.zero())
}

/// Two spectral shifters will sound alike: they are in the same state, or both
/// have heard nothing, whatever their hops.
pub open spec fn spec_alike<S: Copy>(a: SpectralShifter<S>, b: SpectralShifter<S>) -> bool {
    &&& a.rate() == b.rate()
    &&& a.chans().len() == b.chans().len()
    &&& a.hop() == b.hop() && a.chans() == b.chans() || a.fresh() && b.fresh()
}

/// Shifters that are built alike have the same windows and silence.
proof fn lemma_one_window<S: Copy, M: SampleMath<S>>(
    m: &M,
    a: SpectralShifter<S>,
    b: SpectralShifter<S>,
)
    requires
        repeatable::<S, M>(m),
        spec_built(m, a),
        spec_built(m, b),
    ensures
        a.win_a() == b.win_a(),
        a.win_s() == b.win_s(),
        a.zero() == b.zero(),
        a.hop() == b.hop() ==> a.cola() == b.cola(),
{
    assert forall|k: int| 0 <= k < FFT_SIZE implies a.win_a()[k] == b.win_a()[k] by {
        lemma_one_hann(m, k as usize, FFT_SIZE, a.win_a()[k], b.win_a()[k]);
    }
    assert(a.win_a() =~= b.win_a());
    if a.hop() == b.hop() {
        lemma_one_cola(m, a.win_a(), a.win_s(), a.hop() as nat, a.cola(), b.cola());
    }
}

/// Taking on a hop keeps a shifter built.
pub proof fn lemma_hop_keeps_built<S: Copy, M: SampleMath<S>>(
    m: &M,
    pre: SpectralShifter<S>,
    hop: int,
    post: SpectralShifter<S>,
)
    requires
        spec_built(m, pre),
        hop_applied(m, pre, hop, post),
    ensures
        spec_built(m, post),
{
}

/// Shifters that will sound alike are in the same state once they take on the
/// same hop.
proof fn lemma_hops_alike<S: Copy, M: SampleMath<S>>(
    m: &M,
    a: SpectralShifter<S>,
    b: SpectralShifter<S>,
    hop: int,
    a1: SpectralShifter<S>,
    b1: SpectralShifter<S>,
)
    requires
        repeatable::<S, M>(m),
        spec_built(m, a),
        spec_built(m, b),
        spec_alike(a, b),
        hop_applied(m, a, hop, a1),
        hop_applied(m, b, hop, b1),
    ensures
        spec_built(m, a1),
        spec_built(m, b1),
        a1.same_setup(&b1),
        a1.chans() == b1.chans(),
{
    lemma_hop_keeps_built(m, a, hop, a1);
    lemma_hop_keeps_built(m, b, hop, b1);
    lemma_one_window(m, a1, b1);
    if a.hop() == b.hop() && a.chans() == b.chans() && a1 == a {
    } else {
        assert(a1.fresh() && b1.fresh());
        assert forall|i: int| 0 <= i < a1.chans().len() implies a1.chans()[i] == b1.chans()[i] by {
            assert(a1.chans()[i] == quiet(a1.zero()));
            assert(b1.chans()[i] == quiet(b1.zero()));
        }
    }
    assert(a1.chans() =~= b1.chans());
}

/// Shifters that will sound alike give the same, and end in the same state.
pub proof fn lemma_one_spec_block<S: Copy, C, M: BinMath<S, C>>(
    m: &M,
    p: SpecParams<S>,
    a: SpectralShifter<S>,
    b: SpectralShifter<S>,
    in_l: Seq<S>,
    in_r: Seq<S>,
    l1: Seq<S>,
    r1: Seq<S>,
    a1: SpectralShifter<S>,
    l2: Seq<S>,
    r2: Seq<S>,
    b1: SpectralShifter<S>,
)
    requires
        repeatable_bins::<S, C, M>(m),
        spec_built(m, a),
        spec_built(m, b),
        spec_alike(a, b),
        spec_block::<S, C, M>(m, p, a, in_l, in_r, l1, r1, a1),
        spec_block::<S, C, M>(m, p, b, in_l, in_r, l2, r2, b1),
    ensures
        l1 == l2,
        r1 == r2,
        spec_built(m, a1),
        spec_built(m, b1),
        a1.same_setup(&b1),
        a1.chans() == b1.chans(),
        spec_alike(a1, b1),
{
    let s = choose|s: SpectralShifter<S>|
        hop_applied(m, a, p.hop_size as int, s) && #[trigger] spec_block_by::<S, C, M>(
            m, p, s, in_l, in_r, l1, r1, a1);
    let t = choose|s: SpectralShifter<S>|
        hop_applied(m, b, p.hop_size as int, s) && #[trigger] spec_block_by::<S, C, M>(
            m, p, s, in_l, in_r, l2, r2, b1);
    lemma_hops_alike(m, a, b, p.hop_size as int, s, t);
    assert(s.tuning(p) == t.tuning(p));
    lemma_one_chan_stream::<S, C, M>(
        m, s.tuning(p), s.chans()[0], in_l, l1, a1.chans()[0], l2, b1.chans()[0]);
    lemma_one_chan_stream::<S, C, M>(
        m, s.tuning(p), s.chans()[1], in_r, r1, a1.chans()[1], r2, b1.chans()[1]);
    assert forall|i: int| 0 <= i < a1.chans().len() implies a1.chans()[i] == b1.chans()[i] by {
        if i >= 2 {
            assert(a1.chans()[i] == s.chans()[i]);
            assert(b1.chans()[i] == t.chans()[i]);
        }
    }
    assert(a1.chans() =~= b1.chans());
}

// -------------------------------------------------------------------- engines

/// The output stage gives one thing.
pub proof fn lemma_one_limited<S, M: SampleMath<S>>(
    m: &M,
    wet: Seq<S>,
    gain: S,
    r: Seq<S>,
    s: Seq<S>,
)
    requires
        repeatable::<S, M>(m),
        all_limited(m, wet, gain, r),
        all_limited(m, wet, gain, s),
    ensures
        r == s,
{
    assert forall|i: int| 0 <= i < r.len() implies r[i] == s[i] by {
        assert(limited(m, wet[i], gain, r[i]));
        assert(limited(m, wet[i], gain, s[i]));
    }
    assert(r =~= s);
}

/// The filters, the windows and the gain of an engine are those that a new one
/// would have.
pub open spec fn engine_built<S: Copy, M: SampleMath<S>>(m: &M, e: Engine<S>) -> bool {
    &&& ssb_built(m, e.time_domain())
    &&& spec_built(m, e.spectral())
}

/// Two engines will sound alike, whatever the settings.
pub open spec fn engines_alike<S: Copy>(a: Engine<S>, b: Engine<S>) -> bool {
    &&& a.rate() == b.rate()
    &&& ssb_alike(a.time_domain(), b.time_domain())
    &&& spec_alike(a.spectral(), b.spectral())
}

/// A new engine is built, and one of the same rate that has heard nothing will
/// sound like it.
pub proof fn lemma_fresh_engines_alike<S: Copy, M: SampleMath<S>>(
    m: &M,
    a: Engine<S>,
    b: Engine<S>,
)
    requires
        repeatable::<S, M>(m),
        a.wf(),
        b.wf(),
        engine_built(m, a),
        engine_built(m, b),
        a.rate() == b.rate(),
        a.time_domain().fresh(),
        b.time_domain().fresh(),
        a.spectral().fresh(),
        b.spectral().fresh(),
    ensures
        engines_alike(a, b),
{
    lemma_fresh_ssb_alike(m, a.time_domain(), b.time_domain());
}

} // verus!
