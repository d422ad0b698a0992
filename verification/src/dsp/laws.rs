//! What holds of the signal path over whole streams.

use vstd::prelude::*;

use crate::dsp::alike::lemma_one_bin_moves;
use crate::dsp::bins::{
    arrival, bin_freq, bin_moves, bin_step, bin_step_by, half_shifted, mirrored, source_of,
    BinTuning, N_POS,
};
use crate::dsp::engine::{
    all_limited, engine_block, engine_out, lemma_limited_is_within_one, within_one, Engine,
    EngineMode, Params,
};
use crate::dsp::hilbert::HilbertFir;
use crate::dsp::modes::{SpecMode, SpecParams};
use crate::dsp::spectral::{
    allowed_hop, chan_ok, chan_step, chan_step_by, chan_stepper, dry_of, given, hop_applied,
    hopped, hopped_by, quiet, spec_block_by, taken, ChanState, ChanTuning, SpectralShifter,
    FFT_SIZE, MIN_HOP,
};
use crate::dsp::ssb::{ssb_block_by, voice_stepper, SsbParams, SsbShifter};
use crate::frame::Frame;
use crate::math::{
    blended, unwound, wrapped, wrapped_by, wrapped_in_half_turn, BinMath, SampleMath, MAX_TURNS,
};
use crate::repeat::repeatable;
use crate::ring::{constant, delayed, fed, law_ring_delays, pushed};
use crate::stream::{law_blocks_join, lemma_streamed_pop, streamed};

verus! {

/// The real part that a Hilbert transformer gives is its input, delayed by half
/// the span of its taps: once `xs` have gone into a filter that held silence, it
/// is the sample [`HilbertFir::lag`] places before the last one, or silence where
/// there was none.
pub proof fn law_real_part_is_delayed<S: Copy>(f: HilbertFir<S>, xs: Seq<S>)
    requires
        f.wf(),
        f.silent(),
    ensures
        delayed(fed(f.held(), xs), f.lag()) == if f.lag() < xs.len() {
            xs[xs.len() - 1 - f.lag()]
        } else {
            f.zero()
        },
{
    f.lemma_shape();
    law_ring_delays(f.taps().len(), f.zero(), xs, f.lag());
}

/// One more sample: the count goes on, less a whole hop where it is reached.
proof fn lemma_count_goes_on(a: int, d: int)
    requires
        0 < d,
    ensures
        (a + 1) % d == if a % d + 1 >= d {
            0
        } else {
            a % d + 1
        },
{
    vstd::arithmetic::div_mod::lemma_fundamental_div_mod(a, d);
    if a % d + 1 >= d {
        assert(a + 1 == (a / d + 1) * d + 0) by (nonlinear_arith)
            requires
                a == d * (a / d) + a % d,
                a % d + 1 == d,
        ;
        vstd::arithmetic::div_mod::lemma_fundamental_div_mod_converse(a + 1, d, a / d + 1, 0);
    } else {
        assert(a + 1 == (a / d) * d + (a % d + 1)) by (nonlinear_arith)
            requires
                a == d * (a / d) + a % d,
        ;
        vstd::arithmetic::div_mod::lemma_fundamental_div_mod_converse(a + 1, d, a / d, a % d + 1);
    }
}

/// What one step does, whether or not a hop is run.
proof fn lemma_chan_step<S, C, M: BinMath<S, C>>(
    m: &M,
    t: ChanTuning<S>,
    s: ChanState<S>,
    x: S,
    next: ChanState<S>,
    out: S,
)
    requires
        chan_step::<S, C, M>(m, t, s, x, next, out),
    ensures
        next.held == pushed(s.held, x),
        next.since == taken(t.hop, s, x).since,
        taken(t.hop, s, x).since != 0 ==> {
            &&& next.pending == pushed(s.pending, t.zero)
            &&& next.phases == s.phases
            &&& blended(m, t.params.mix, dry_of(t.hop, s, x), s.pending[0], out)
        },
{
    reveal(hopped);
    let mid = choose|mid: ChanState<S>| #[trigger]
        chan_step_by::<S, C, M>(m, t, s, x, mid, next, out);
    assert(chan_step_by::<S, C, M>(m, t, s, x, mid, next, out));
}

/// A hop is run every `t.hop` samples: the count after a stream is what it was
/// before plus the number of samples, less all whole hops.
pub proof fn law_hops_are_evenly_spaced<S, C, M: BinMath<S, C>>(
    m: &M,
    t: ChanTuning<S>,
    from: ChanState<S>,
    ins: Seq<S>,
    outs: Seq<S>,
    to: ChanState<S>,
)
    requires
        MIN_HOP <= t.hop <= FFT_SIZE,
        chan_ok(t.hop, from),
        streamed(chan_stepper::<S, C, M>(m, t), from, ins, outs, to),
    ensures
        to.since == (from.since + ins.len()) % t.hop,
    decreases ins.len(),
{
    if ins.len() == 0 {
        vstd::arithmetic::div_mod::lemma_small_mod(from.since as nat, t.hop as nat);
    } else {
        let mid = lemma_streamed_pop(chan_stepper::<S, C, M>(m, t), from, ins, outs, to);
        law_hops_are_evenly_spaced::<S, C, M>(
            m,
            t,
            from,
            ins.drop_last(),
            outs.drop_last(),
            mid,
        );
        lemma_chan_step::<S, C, M>(m, t, mid, ins.last(), to, outs.last());
        lemma_count_goes_on(from.since + ins.len() - 1, t.hop);
    }
}

/// Blocks of any length keep to the same grid of hops: the counts of both
/// channels go on from block to block, whatever the blocks hold.
pub proof fn law_blocks_keep_the_hop_grid<S: Copy, C, M: BinMath<S, C>>(
    m: &M,
    p: SpecParams<S>,
    start: SpectralShifter<S>,
    in_l: Seq<S>,
    in_r: Seq<S>,
    out_l: Seq<S>,
    out_r: Seq<S>,
    post: SpectralShifter<S>,
)
    requires
        start.wf(),
        2 <= start.chans().len(),
        spec_block_by::<S, C, M>(m, p, start, in_l, in_r, out_l, out_r, post),
    ensures
        post.hop() == start.hop(),
        post.chans()[0].since == (start.chans()[0].since + in_l.len()) % start.hop(),
        post.chans()[1].since == (start.chans()[1].since + in_r.len()) % start.hop(),
{
    start.lemma_shape();
    let t = start.tuning(p);
    law_hops_are_evenly_spaced::<S, C, M>(
        m,
        t,
        start.chans()[0],
        in_l,
        out_l,
        post.chans()[0],
    );
    law_hops_are_evenly_spaced::<S, C, M>(
        m,
        t,
        start.chans()[1],
        in_r,
        out_r,
        post.chans()[1],
    );
}

/// What a channel holds after a stream is the last frame of what went in.
pub proof fn law_channel_holds_its_input<S, C, M: BinMath<S, C>>(
    m: &M,
    t: ChanTuning<S>,
    from: ChanState<S>,
    ins: Seq<S>,
    outs: Seq<S>,
    to: ChanState<S>,
)
    requires
        streamed(chan_stepper::<S, C, M>(m, t), from, ins, outs, to),
    ensures
        to.held == fed(from.held, ins),
    decreases ins.len(),
{
    if ins.len() > 0 {
        let mid = lemma_streamed_pop(chan_stepper::<S, C, M>(m, t), from, ins, outs, to);
        law_channel_holds_its_input::<S, C, M>(
            m,
            t,
            from,
            ins.drop_last(),
            outs.drop_last(),
            mid,
        );
        lemma_chan_step::<S, C, M>(m, t, mid, ins.last(), to, outs.last());
    }
}

/// The dry signal of the spectral engine is the input, `frame - hop` samples
/// late: on a channel that had heard nothing, when `x` comes in after `ins`, it
/// is the sample that many places before `x`, or silence where there was none.
pub proof fn law_dry_is_delayed<S, C, M: BinMath<S, C>>(
    m: &M,
    t: ChanTuning<S>,
    ins: Seq<S>,
    outs: Seq<S>,
    to: ChanState<S>,
    x: S,
)
    requires
        MIN_HOP <= t.hop <= FFT_SIZE,
        streamed(chan_stepper::<S, C, M>(m, t), quiet(t.zero), ins, outs, to),
    ensures
        ({
            let late = FFT_SIZE - t.hop;
            dry_of(t.hop, to, x) == if late <= ins.len() {
                ins.push(x)[ins.len() - late]
            } else {
                t.zero
            }
        }),
{
    law_channel_holds_its_input::<S, C, M>(m, t, quiet(t.zero), ins, outs, to);
    assert(ins.push(x).drop_last() =~= ins);
    assert(ins.push(x).last() == x);
    assert(fed(quiet(t.zero).held, ins.push(x)) == pushed(to.held, x));
    law_ring_delays(FFT_SIZE as nat, t.zero, ins.push(x), FFT_SIZE - t.hop);
}

/// Until its first hop, a channel that had heard nothing has nothing to say: no
/// output is pending, and no phase has been gathered.
pub proof fn law_silent_until_the_first_hop<S, C, M: BinMath<S, C>>(
    m: &M,
    t: ChanTuning<S>,
    ins: Seq<S>,
    outs: Seq<S>,
    to: ChanState<S>,
)
    requires
        MIN_HOP <= t.hop <= FFT_SIZE,
        ins.len() < t.hop,
        streamed(chan_stepper::<S, C, M>(m, t), quiet(t.zero), ins, outs, to),
    ensures
        to.pending == quiet(t.zero).pending,
        to.phases == quiet(t.zero).phases,
        to.since == ins.len(),
    decreases ins.len(),
{
    if ins.len() > 0 {
        let go = chan_stepper::<S, C, M>(m, t);
        let was = lemma_streamed_pop(go, quiet(t.zero), ins, outs, to);
        law_silent_until_the_first_hop::<S, C, M>(m, t, ins.drop_last(), outs.drop_last(), was);
        lemma_chan_step::<S, C, M>(m, t, was, ins.last(), to, outs.last());
        assert(to.pending =~= quiet(t.zero).pending);
    }
}

/// Until its first hop, what comes out of a channel that had heard nothing is
/// the dry signal, blended with silence.
pub proof fn law_dry_until_the_first_hop<S, C, M: BinMath<S, C>>(
    m: &M,
    t: ChanTuning<S>,
    ins: Seq<S>,
    outs: Seq<S>,
    mid: ChanState<S>,
    x: S,
    out: S,
    to: ChanState<S>,
)
    requires
        MIN_HOP <= t.hop <= FFT_SIZE,
        ins.len() + 1 < t.hop,
        streamed(chan_stepper::<S, C, M>(m, t), quiet(t.zero), ins, outs, mid),
        chan_step::<S, C, M>(m, t, mid, x, to, out),
    ensures
        blended(
            m,
            t.params.mix,
            if FFT_SIZE - t.hop <= ins.len() {
                ins.push(x)[ins.len() - (FFT_SIZE - t.hop)]
            } else {
                t.zero
            },
            t.zero,
            out,
        ),
{
    law_silent_until_the_first_hop::<S, C, M>(m, t, ins, outs, mid);
    law_dry_is_delayed::<S, C, M>(m, t, ins, outs, mid, x);
    lemma_chan_step::<S, C, M>(m, t, mid, x, to, out);
}

/// Where the time-domain engine's input is cut into blocks makes no difference,
/// as long as the settings stay.
pub proof fn law_ssb_blocks_join<S: Copy, M: SampleMath<S>>(
    m: &M,
    p: SsbParams<S>,
    feedback: S,
    step_l: S,
    step_r: S,
    pre: SsbShifter<S>,
    in_l: Seq<S>,
    in_r: Seq<S>,
    out_l: Seq<S>,
    out_r: Seq<S>,
    mid: SsbShifter<S>,
    more_l: Seq<S>,
    more_r: Seq<S>,
    more_out_l: Seq<S>,
    more_out_r: Seq<S>,
    post: SsbShifter<S>,
)
    requires
        mid.same_setup(&pre),
        ssb_block_by(m, p, pre, in_l, in_r, feedback, step_l, step_r, out_l, out_r, mid),
        ssb_block_by(
            m,
            p,
            mid,
            more_l,
            more_r,
            feedback,
            step_l,
            step_r,
            more_out_l,
            more_out_r,
            post,
        ),
    ensures
        ssb_block_by(
            m,
            p,
            pre,
            in_l + more_l,
            in_r + more_r,
            feedback,
            step_l,
            step_r,
            out_l + more_out_l,
            out_r + more_out_r,
            post,
        ),
{
    SsbShifter::lemma_same_tuning(&pre, &mid, p, feedback, step_l, step_r);
    law_blocks_join(
        voice_stepper(m, pre.left_tuning(p, feedback, step_l)),
        pre.left(),
        in_l,
        out_l,
        mid.left(),
        more_l,
        more_out_l,
        post.left(),
    );
    law_blocks_join(
        voice_stepper(m, pre.right_tuning(p, feedback, step_r)),
        pre.right(),
        in_r,
        out_r,
        mid.right(),
        more_r,
        more_out_r,
        post.right(),
    );
}

/// Where the spectral engine's input is cut into blocks makes no difference, as
/// long as the settings stay.
pub proof fn law_spectral_blocks_join<S: Copy, C, M: BinMath<S, C>>(
    m: &M,
    p: SpecParams<S>,
    pre: SpectralShifter<S>,
    in_l: Seq<S>,
    in_r: Seq<S>,
    out_l: Seq<S>,
    out_r: Seq<S>,
    mid: SpectralShifter<S>,
    more_l: Seq<S>,
    more_r: Seq<S>,
    more_out_l: Seq<S>,
    more_out_r: Seq<S>,
    post: SpectralShifter<S>,
)
    requires
        spec_block_by::<S, C, M>(m, p, pre, in_l, in_r, out_l, out_r, mid),
        spec_block_by::<S, C, M>(m, p, mid, more_l, more_r, more_out_l, more_out_r, post),
    ensures
        spec_block_by::<S, C, M>(
            m,
            p,
            pre,
            in_l + more_l,
            in_r + more_r,
            out_l + more_out_l,
            out_r + more_out_r,
            post,
        ),
{
    let go = chan_stepper::<S, C, M>(m, pre.tuning(p));
    assert(mid.tuning(p) == pre.tuning(p));
    law_blocks_join(
        go,
        pre.chans()[0],
        in_l,
        out_l,
        mid.chans()[0],
        more_l,
        more_out_l,
        post.chans()[0],
    );
    law_blocks_join(
        go,
        pre.chans()[1],
        in_r,
        out_r,
        mid.chans()[1],
        more_r,
        more_out_r,
        post.chans()[1],
    );
    assert forall|i: int| 2 <= i < pre.chans().len() implies #[trigger] post.chans()[i]
        == pre.chans()[i] by {
        assert(mid.chans()[i] == pre.chans()[i]);
    }
}

/// Asking for the same hop twice changes nothing the second time.
pub proof fn law_hop_is_taken_on_once<S: Copy, M: SampleMath<S>>(
    m: &M,
    pre: SpectralShifter<S>,
    hop: int,
    mid: SpectralShifter<S>,
    post: SpectralShifter<S>,
)
    requires
        hop_applied(m, pre, hop, mid),
        hop_applied(m, mid, hop, post),
    ensures
        mid.hop() == allowed_hop(hop),
        post == mid,
{
}

/// The engine that is not heard remembers nothing, whatever was processed: so
/// coming back to it starts from silence.
pub proof fn law_idle_engine_is_silent<S: Copy>(e: Engine<S>)
    requires
        e.wf(),
    ensures
        e.mode() == EngineMode::Ssb ==> e.spectral().fresh(),
        e.mode() == EngineMode::Spectral ==> e.time_domain().fresh(),
{
}

/// Switching engines leaves the one that was heard as silent as a new one.
pub proof fn law_switching_clears<S: Copy, C, M: BinMath<S, C>>(
    m: &M,
    params: Params<S>,
    pre: Engine<S>,
    in_l: Seq<S>,
    in_r: Seq<S>,
    held_l: Seq<S>,
    held_r: Seq<S>,
    out_l: Seq<S>,
    out_r: Seq<S>,
    post: Engine<S>,
)
    requires
        engine_out::<S, C, M>(
            m,
            params,
            pre,
            in_l,
            in_r,
            held_l,
            held_r,
            out_l,
            out_r,
            post,
        ),
        params.mode != pre.mode(),
    ensures
        pre.mode() == EngineMode::Ssb ==> post.time_domain().fresh(),
        pre.mode() == EngineMode::Spectral ==> post.spectral().fresh(),
{
}

/// Whatever an engine does, what comes out is held to the range from -1 to 1:
/// each sample is one of the two ends, or compares as neither above the upper
/// nor below the lower one.
pub proof fn law_output_is_held<S: Copy, C, M: BinMath<S, C>>(
    m: &M,
    params: Params<S>,
    pre: Engine<S>,
    in_l: Seq<S>,
    in_r: Seq<S>,
    held_l: Seq<S>,
    held_r: Seq<S>,
    out_l: Seq<S>,
    out_r: Seq<S>,
    post: Engine<S>,
)
    requires
        engine_out::<S, C, M>(
            m,
            params,
            pre,
            in_l,
            in_r,
            held_l,
            held_r,
            out_l,
            out_r,
            post,
        ),
    ensures
        forall|i: int| 0 <= i < out_l.len() ==> within_one(m, #[trigger] out_l[i]),
        forall|i: int| 0 <= i < out_r.len() ==> within_one(m, #[trigger] out_r[i]),
{
    let (wet_l, wet_r) = choose|wet_l: Seq<S>, wet_r: Seq<S>| #[trigger]
        engine_block::<S, C, M>(m, params, pre, in_l, in_r, wet_l, wet_r, post) && all_limited(
            m,
            wet_l + held_l.skip(in_l.len() as int),
            params.output_gain,
            out_l,
        ) && all_limited(
            m,
            wet_r + held_r.skip(in_l.len() as int),
            params.output_gain,
            out_r,
        );
    let all_l = wet_l + held_l.skip(in_l.len() as int);
    let all_r = wet_r + held_r.skip(in_l.len() as int);
    assert forall|i: int| 0 <= i < out_l.len() implies within_one(m, #[trigger] out_l[i]) by {
        lemma_limited_is_within_one(m, all_l[i], params.output_gain, out_l[i]);
    }
    assert forall|i: int| 0 <= i < out_r.len() implies within_one(m, #[trigger] out_r[i]) by {
        lemma_limited_is_within_one(m, all_r[i], params.output_gain, out_r[i]);
    }
}

/// The linear profile moves every frequency.
pub proof fn law_linear_profile_moves_everything<S, M: SampleMath<S>>(
    m: &M,
    p: SpecParams<S>,
    freq: S,
    moves: bool,
)
    requires
        p.mode == SpecMode::Linear,
        bin_moves(m, p, freq, moves),
    ensures
        moves,
{
}

/// A shifted spectrum is that of a real signal: the conjugate of each bin between
/// the first one and half the sample rate is its mirror image.
pub proof fn law_shifted_spectrum_is_hermitian<S, C, M: BinMath<S, C>>(
    m: &M,
    half: Seq<C>,
    full: Seq<C>,
    k: int,
)
    requires
        mirrored(m, half, full),
        1 <= k < FFT_SIZE / 2,
    ensures
        call_ensures(M::bin_conj, (m, full[k]), full[FFT_SIZE - k]),
{
    assert(full[k] == half[k]);
}

/// `come` is what comes to bin `k`, at the phase `phase` that it has gathered: the
/// spectrum where it comes from, if the frequency there moves.
pub open spec fn comes_to<S, C, M: BinMath<S, C>>(
    m: &M,
    t: BinTuning<S>,
    spectrum: Seq<C>,
    k: int,
    phase: S,
    come: C,
) -> bool {
    exists|src: S, from: S, arrives: bool|
        source_of(m, t.hz, k, t.params.shift_hz, src) && #[trigger] call_ensures(
            M::prod,
            (m, src, t.hz),
            from,
        ) && #[trigger] bin_moves(m, t.params, from, arrives) && arrival(
            m,
            spectrum,
            t.zero,
            src,
            arrives,
            phase,
            come,
        )
}

/// What a spectrum has in bin `k` stays there if and only if the frequency `own` of
/// that bin does not move: the shifted bin is what comes there, with bin `k` added
/// where `own` stays, and nothing added where it `leaves`.
pub proof fn law_a_bin_stays_if_its_frequency_does<S, C, M: BinMath<S, C>>(
    m: &M,
    t: BinTuning<S>,
    spectrum: Seq<C>,
    phases: Seq<S>,
    next_phases: Seq<S>,
    half: Seq<C>,
    k: int,
    own: S,
    leaves: bool,
) -> (come: C)
    requires
        repeatable::<S, M>(m),
        half_shifted(m, t, spectrum, phases, next_phases, half),
        0 <= k < N_POS,
        bin_freq(m, t.hz, k, own),
        bin_moves(m, t.params, own, leaves),
    ensures
        comes_to(m, t, spectrum, k, next_phases[k], come),
        leaves ==> half[k] == come,
        !leaves ==> call_ensures(M::bin_sum, (m, come, spectrum[k]), half[k]),
{
    assert(bin_step(m, t, spectrum, k, phases[k], next_phases[k], half[k]));
    let (src, from, arrives, gain, gathered, come, freq, moves) = choose|
        src: S,
        from: S,
        arrives: bool,
        gain: S,
        gathered: S,
        come: C,
        freq: S,
        moves: bool,
    | #[trigger]
        bin_step_by(
            m,
            t,
            spectrum,
            k,
            phases[k],
            src,
            from,
            arrives,
            gain,
            gathered,
            next_phases[k],
            come,
            freq,
            moves,
            half[k],
        );
    assert(call_ensures(M::prod, (m, src, t.hz), from) && bin_moves(m, t.params, from, arrives));
    assert(freq == own);
    lemma_one_bin_moves(m, t.params, own, leaves, moves);
    come
}

/// A frequency either moves or stays: what bin `j` would get from the frequency
/// `freq` arrives there if and only if it leaves the bin `k` that has it.
pub proof fn law_a_frequency_moves_or_stays<S, M: SampleMath<S>>(
    m: &M,
    t: BinTuning<S>,
    j: int,
    src: S,
    k: int,
    freq: S,
    arrives: bool,
    leaves: bool,
)
    requires
        repeatable::<S, M>(m),
        source_of(m, t.hz, j, t.params.shift_hz, src),
        call_ensures(M::prod, (m, src, t.hz), freq),
        bin_freq(m, t.hz, k, freq),
        bin_moves(m, t.params, freq, arrives),
        bin_moves(m, t.params, freq, leaves),
    ensures
        arrives == leaves,
{
    lemma_one_bin_moves(m, t.params, freq, arrives, leaves);
}

/// `angle` compares as neither above half a turn nor below its opposite, or
/// [`MAX_TURNS`] turns were taken off to come to it.
pub open spec fn in_half_turn<S, M: SampleMath<S>>(m: &M, angle: S) -> bool {
    exists|bound: S|
        #![trigger unwound(m, angle, bound, None)]
        call_ensures(M::half_turn, (m,), bound) && (unwound(m, angle, bound, None) || exists|
            chain: Seq<S>,
        | #[trigger]
            wound_up(m, bound, chain, angle))
}

/// `chain` is [`MAX_TURNS`] steps of [`unwound`] that end in `angle`.
pub open spec fn wound_up<S, M: SampleMath<S>>(
    m: &M,
    bound: S,
    chain: Seq<S>,
    angle: S,
) -> bool {
    &&& chain.len() == MAX_TURNS + 1
    &&& chain.last() == angle
    &&& forall|i: int|
        0 <= i < chain.len() - 1 ==> unwound(m, #[trigger] chain[i], bound, Some(chain[i + 1]))
}

/// What is wrapped lies within half a turn of zero.
proof fn lemma_wrapped_is_in_half_turn<S, M: SampleMath<S>>(m: &M, angle: S, r: S)
    requires
        wrapped_in_half_turn(m, angle, r),
    ensures
        in_half_turn(m, r),
{
    reveal(wrapped);
    let bound = choose|bound: S|
        call_ensures(M::half_turn, (m,), bound) && #[trigger] wrapped(m, angle, bound, r);
    let chain = choose|chain: Seq<S>| #[trigger] wrapped_by(m, angle, bound, chain, r);
    assert(unwound(m, r, bound, None) || wound_up(m, bound, chain, r));
}

/// The phase of a bin that was shifted lies within half a turn of zero.
proof fn lemma_phase_is_in_half_turn<S, C, M: BinMath<S, C>>(
    m: &M,
    t: BinTuning<S>,
    spectrum: Seq<C>,
    k: int,
    phase: S,
    next_phase: S,
    out: C,
)
    requires
        bin_step(m, t, spectrum, k, phase, next_phase, out),
    ensures
        in_half_turn(m, next_phase),
{
    let gathered = choose|gathered: S| #[trigger] wrapped_in_half_turn(m, gathered, next_phase);
    lemma_wrapped_is_in_half_turn(m, gathered, next_phase);
}

/// After a hop, the phase of every bin lies within half a turn of zero.
pub proof fn law_phases_stay_in_half_a_turn<S, C, M: BinMath<S, C>>(
    m: &M,
    t: ChanTuning<S>,
    s: ChanState<S>,
    next: ChanState<S>,
    k: int,
)
    requires
        hopped::<S, C, M>(m, t, s, next),
        0 <= k < N_POS,
    ensures
        in_half_turn(m, next.phases[k]),
        next.phases.len() == N_POS,
{
    reveal(hopped);
    let (hz, turn, share, frame, spectrum, half, full, time) = choose|
        hz: S,
        turn: S,
        share: S,
        frame: Frame<C>,
        spectrum: Frame<C>,
        half: Seq<C>,
        full: Frame<C>,
        time: Frame<C>,
    | #[trigger]
        hopped_by(m, t, s, hz, turn, share, frame, spectrum, half, full, time, next);
    let b = BinTuning { params: t.params, hz, turn, zero: t.zero };
    assert(bin_step(m, b, spectrum@, k, s.phases[k], next.phases[k], half[k]));
    lemma_phase_is_in_half_turn(m, b, spectrum@, k, s.phases[k], next.phases[k], half[k]);
}

/// The state after `n` output samples were given away, with no hop between them.
pub open spec fn given_times<S>(zero: S, s: ChanState<S>, n: nat) -> ChanState<S>
    decreases n,
{
    if n == 0 {
        s
    } else {
        given(zero, given_times(zero, s, (n - 1) as nat))
    }
}

/// Without a hop, each pending sample is given away once, in order, and silence
/// takes its place: after `n` reads the next one gives the `n`-th, and after as many
/// as there were, only silence is left. Nothing else changes.
pub proof fn law_pending_samples_are_given_once<S>(zero: S, s: ChanState<S>, n: nat)
    requires
        n <= s.pending.len(),
    ensures
        n < s.pending.len() ==> given_times(zero, s, n).pending[0] == s.pending[n as int],
        given_times(zero, s, n).pending == s.pending.skip(n as int) + constant(n, zero),
        n == s.pending.len() ==> given_times(zero, s, n).pending == constant(n, zero),
        given_times(zero, s, n).held == s.held,
        given_times(zero, s, n).since == s.since,
        given_times(zero, s, n).phases == s.phases,
    decreases n,
{
    if n == 0 {
        assert(s.pending.skip(0) + constant(0, zero) =~= s.pending);
        if s.pending.len() == 0 {
            assert(s.pending =~= constant(0, zero));
        }
    } else {
        law_pending_samples_are_given_once(zero, s, (n - 1) as nat);
        let before = given_times(zero, s, (n - 1) as nat).pending;
        assert(pushed(before, zero) =~= s.pending.skip(n as int) + constant(n, zero));
        if n == s.pending.len() {
            assert(s.pending.skip(n as int) + constant(n, zero) =~= constant(n, zero));
        }
    }
}

} // verus!
