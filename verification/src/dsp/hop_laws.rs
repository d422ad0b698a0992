//! How far the bins of the spectral engine turn from one hop to the next, and which
//! of them move, as numbers.

use vstd::prelude::*;

use crate::dsp::bins::{
    bin_freq, bin_moves, bin_step, bin_step_by, half_shifted, interpolated, bin_turned,
    profile_moves, source_of, BinTuning, N_POS,
};
use crate::dsp::carrier_laws::is_rate;
use crate::dsp::modes::{SpecMode, SpecParams};
use crate::dsp::spectral::{hop_scales, hop_scales_by, hopped, hopped_by, ChanState, ChanTuning};
use crate::frame::{Frame, FFT_SIZE};
use crate::math::{wrapped, wrapped_in_half_turn, BinMath, SampleMath};
use crate::rounding::{
    is_scale, law_wrapping_takes_whole_turns, lemma_product_size, one_turn, rounds, size, slip_at,
    Numbers,
};
use crate::value_laws::lemma_turns_value;
use crate::values::{
    about, lemma_cancel, lemma_count_about, lemma_diff_about, lemma_prod_about, lemma_quot_about,
    lemma_quot_times, lemma_sum_about, off, off_product,
};

verus! {

// -------------------------------------------------------------------- profiles

/// A highpass moves what lies above the cutoff that is set, and nothing else; a
/// lowpass moves what lies below it, and nothing else.
pub proof fn law_profiles_go_by_the_cutoff<S: Copy, M: SampleMath<S>>(
    m: &M,
    z: Numbers<S>,
    p: &SpecParams<S>,
    freq: S,
    moves: bool,
)
    requires
        rounds(m, z),
        (z.finite)(p.cutoff_hz),
        (z.finite)(freq),
        call_ensures(profile_moves::<S, M>, (m, p, freq), moves),
    ensures
        p.mode is Linear ==> moves,
        p.mode is Highpass ==> moves == ((z.val)(p.cutoff_hz) < (z.val)(freq)),
        p.mode is Lowpass ==> moves == ((z.val)(freq) < (z.val)(p.cutoff_hz)),
{
    reveal(rounds);
}

/// A higher cutoff lets a highpass move less, and a lowpass more.
pub proof fn law_a_higher_cutoff_moves_less_or_more<S: Copy, M: SampleMath<S>>(
    m: &M,
    z: Numbers<S>,
    p: &SpecParams<S>,
    q: &SpecParams<S>,
    freq: S,
    moves: bool,
    moves1: bool,
)
    requires
        rounds(m, z),
        (z.finite)(p.cutoff_hz),
        (z.finite)(q.cutoff_hz),
        (z.finite)(freq),
        p.mode == q.mode,
        (z.val)(p.cutoff_hz) <= (z.val)(q.cutoff_hz),
        call_ensures(profile_moves::<S, M>, (m, p, freq), moves),
        call_ensures(profile_moves::<S, M>, (m, q, freq), moves1),
    ensures
        p.mode is Highpass && moves1 ==> moves,
        p.mode is Lowpass && moves ==> moves1,
        (z.val)(p.cutoff_hz) < (z.val)(freq) < (z.val)(q.cutoff_hz) ==> {
            &&& p.mode is Highpass ==> moves && !moves1
            &&& p.mode is Lowpass ==> !moves && moves1
        },
{
    law_profiles_go_by_the_cutoff(m, z, p, freq, moves);
    law_profiles_go_by_the_cutoff(m, z, q, freq, moves1);
}

/// The profile moves the frequency `f`, with `room` to spare.
pub open spec fn surely_moves(mode: SpecMode, cutoff: real, f: real, room: real) -> bool {
    match mode {
        SpecMode::Linear => true,
        SpecMode::Highpass => f >= cutoff + room,
        SpecMode::Lowpass => f <= cutoff - room,
    }
}

/// The profile leaves the frequency `f`, with `room` to spare.
pub open spec fn surely_stays(mode: SpecMode, cutoff: real, f: real, room: real) -> bool {
    match mode {
        SpecMode::Linear => false,
        SpecMode::Highpass => f <= cutoff - room,
        SpecMode::Lowpass => f >= cutoff + room,
    }
}

/// Settings that the bins can be followed for: bins from 1 to 1000 Hz apart, a shift
/// of at most 10000 Hz.
pub open spec fn followed<S>(z: Numbers<S>, t: BinTuning<S>) -> bool {
    &&& (z.finite)(t.hz)
    &&& 1real <= (z.val)(t.hz) <= 400real
    &&& (z.finite)(t.params.shift_hz)
    &&& size((z.val)(t.params.shift_hz)) <= 10000real
    &&& (z.finite)(t.params.cutoff_hz)
}

/// Whether a frequency moves, where it is known up to `room`.
proof fn lemma_moves_value<S, M: SampleMath<S>>(
    m: &M,
    z: Numbers<S>,
    p: SpecParams<S>,
    freq: S,
    f: real,
    room: real,
    moves: bool,
)
    requires
        rounds(m, z),
        (z.finite)(p.cutoff_hz),
        about(z, freq, f, room),
        0real < room,
        bin_moves(m, p, freq, moves),
    ensures
        surely_moves(p.mode, (z.val)(p.cutoff_hz), f, 4real * room) ==> moves,
        surely_stays(p.mode, (z.val)(p.cutoff_hz), f, 4real * room) ==> !moves,
{
    reveal(rounds);
}

/// The frequency of a bin.
proof fn lemma_bin_freq_value<S, M: SampleMath<S>>(
    m: &M,
    z: Numbers<S>,
    hz: S,
    k: int,
    freq: S,
)
    requires
        rounds(m, z),
        (z.finite)(hz),
        1real <= (z.val)(hz) <= 400real,
        0 <= k <= 1024,
        bin_freq(m, hz, k, freq),
    ensures
        about(z, freq, (k as real) * (z.val)(hz), 1real),
{
    let index = choose|index: S| #[trigger]
        call_ensures(M::count, (m, k as usize), index) && call_ensures(
            M::prod,
            (m, index, hz),
            freq,
        );
    lemma_count_about(m, z, k as usize, index);
    let d = (z.val)(hz);
    let x = k as real;
    lemma_product_size(x, d, 1024real, 400real);
    assert(off_product(x, 0real, d, 0real) == 0real) by (nonlinear_arith)
        requires
            off_product(x, 0real, d, 0real) == 0real * size(d) + size(x) * 0real + 0real * 0real,
    ;
    lemma_prod_about(m, z, index, hz, freq, x, 0real, d, 0real, 0real);
}

/// Where the content of a bin comes from, in bins.
proof fn lemma_source_value<S, M: SampleMath<S>>(
    m: &M,
    z: Numbers<S>,
    hz: S,
    k: int,
    shift: S,
    src: S,
    bins: real,
)
    requires
        rounds(m, z),
        (z.finite)(hz),
        1real <= (z.val)(hz) <= 400real,
        (z.finite)(shift),
        size((z.val)(shift)) <= 10000real,
        0 <= k <= 1024,
        bins == (z.val)(shift) / (z.val)(hz),
        source_of(m, hz, k, shift, src),
    ensures
        about(z, src, (k as real) - bins, 1real / 40real),
        size(bins) <= 10000real,
{
    let (index, moved) = choose|index: S, bins: S|
        call_ensures(M::count, (m, k as usize), index) && call_ensures(
            M::quot,
            (m, shift, hz),
            bins,
        ) && #[trigger] call_ensures(M::diff, (m, index, bins), src);
    lemma_count_about(m, z, k as usize, index);
    lemma_quot_about(m, z, shift, hz, moved, (z.val)(shift), 0real);
    lemma_diff_about(
        m,
        z,
        index,
        moved,
        src,
        k as real,
        0real,
        bins,
        off(size((z.val)(shift))),
    );
}

/// A number of bins less another.
proof fn lemma_moved_by(k: real, bins: real, d: real)
    ensures
        (k - bins) * d == k * d - bins * d,
{
    assert((k - bins) * d == k * d - bins * d) by (nonlinear_arith);
}

/// A fortieth of a bin.
proof fn lemma_fortieth(x: real, d: real)
    requires
        d >= 0real,
    ensures
        off_product(x, 1real / 40real, d, 0real) == d / 40real,
{
    let sx = size(x);
    assert((1real / 40real) * d == d / 40real) by (nonlinear_arith);
    assert(sx * 0real == 0real) by (nonlinear_arith);
    assert((1real / 40real) * 0real == 0real) by (nonlinear_arith);
}

/// The frequency that the content of a bin comes from.
proof fn lemma_from_value<S, M: SampleMath<S>>(
    m: &M,
    z: Numbers<S>,
    hz: S,
    k: int,
    shift: S,
    src: S,
    from: S,
)
    requires
        rounds(m, z),
        (z.finite)(hz),
        1real <= (z.val)(hz) <= 400real,
        (z.finite)(shift),
        size((z.val)(shift)) <= 10000real,
        0 <= k <= 1024,
        source_of(m, hz, k, shift, src),
        call_ensures(M::prod, (m, src, hz), from),
    ensures
        about(z, from, (k as real) * (z.val)(hz) - (z.val)(shift), (z.val)(hz) / 20real + 1real),
{
    let d = (z.val)(hz);
    let sh = (z.val)(shift);
    let bins = crate::values::lemma_quotient(sh, d);
    lemma_source_value(m, z, hz, k, shift, src, bins);
    let x = (k as real) - bins;
    let kr = k as real;
    lemma_moved_by(kr, bins, d);
    let e = d / 40real;
    lemma_fortieth(x, d);
    lemma_product_size(kr, d, 1024real, 400real);
    lemma_prod_about(m, z, src, hz, from, x, 1real / 40real, d, 0real, e);
}

/// The place that the content of a bin comes from, in Hz.
proof fn lemma_source_place<S, M: SampleMath<S>>(
    m: &M,
    z: Numbers<S>,
    hz: S,
    k: int,
    shift: S,
    src: S,
)
    requires
        rounds(m, z),
        (z.finite)(hz),
        1real <= (z.val)(hz) <= 400real,
        (z.finite)(shift),
        size((z.val)(shift)) <= 10000real,
        0 <= k <= 1024,
        source_of(m, hz, k, shift, src),
    ensures
        (z.finite)(src),
        size((z.val)(src) * (z.val)(hz) - ((k as real) * (z.val)(hz) - (z.val)(shift))) <= (z.val)(
            hz,
        ) / 40real,
{
    let d = (z.val)(hz);
    let sh = (z.val)(shift);
    let bins = crate::values::lemma_quotient(sh, d);
    lemma_source_value(m, z, hz, k, shift, src, bins);
    let kr = k as real;
    let v = (z.val)(src);
    let g = v - (kr - bins);
    let x = kr - bins;
    assert((v - x) * d == v * d - x * d) by (nonlinear_arith);
    lemma_moved_by(kr, bins, d);
    lemma_product_size(g, d, 1real / 40real, d);
    assert((1real / 40real) * d == d / 40real) by (nonlinear_arith);
}

/// What the profile does to one bin, for the cutoff that is set.
///
/// Where the bin's own frequency stays, and what would come there stays too, the bin
/// is what it was, with the empty bin `come` added. Where its own frequency moves and
/// nothing comes, it is empty. Where both move, it is `drawn`, which is the spectrum
/// at the place `src` that lies the shift below, turned by the bin's phase.
pub proof fn law_the_cutoff_says_which_bins_move<S, C, M: BinMath<S, C>>(
    m: &M,
    z: Numbers<S>,
    t: BinTuning<S>,
    spectrum: Seq<C>,
    phases: Seq<S>,
    next_phases: Seq<S>,
    half: Seq<C>,
    k: int,
    own: real,
    from: real,
    room: real,
) -> (parts: (S, C, C))
    requires
        rounds(m, z),
        followed(z, t),
        0 <= k < N_POS,
        own == (k as real) * (z.val)(t.hz),
        from == own - (z.val)(t.params.shift_hz),
        room == (z.val)(t.hz) / 5real + 4real,
        half_shifted(m, t, spectrum, phases, next_phases, half),
    ensures
        ({
            let (src, come, drawn) = parts;
            let c = (z.val)(t.params.cutoff_hz);
            let mode = t.params.mode;
            &&& surely_stays(mode, c, own, room) && surely_stays(mode, c, from, room) ==> {
                &&& call_ensures(M::bin, (m, t.zero), come)
                &&& call_ensures(M::bin_sum, (m, come, spectrum[k]), half[k])
            }
            &&& surely_moves(mode, c, own, room) && surely_stays(mode, c, from, room)
                ==> call_ensures(M::bin, (m, t.zero), half[k])
            &&& surely_moves(mode, c, own, room) && surely_moves(mode, c, from, room) ==> {
                &&& interpolated(m, spectrum, t.zero, src, drawn)
                &&& bin_turned(m, drawn, next_phases[k], half[k])
            }
            &&& (z.finite)(src)
            &&& size((z.val)(src) * (z.val)(t.hz) - from) <= (z.val)(t.hz) / 40real
        }),
{
    assert(bin_step(m, t, spectrum, k, phases[k], next_phases[k], half[k]));
    let (src, fr, arrives, gain, gathered, come, ow, leaves) = choose|
        src: S,
        from: S,
        arrives: bool,
        gain: S,
        gathered: S,
        come: C,
        own: S,
        leaves: bool,
    | #[trigger]
        bin_step_by(
            m,
            t,
            spectrum,
            k,
            phases[k],
            src,
            from,
            arrives,
            gain,
            gathered,
            next_phases[k],
            come,
            own,
            leaves,
            half[k],
        );
    lemma_bin_freq_value(m, z, t.hz, k, ow);
    lemma_from_value(m, z, t.hz, k, t.params.shift_hz, src, fr);
    let part = room / 4real;
    lemma_moves_value(m, z, t.params, ow, own, part, leaves);
    lemma_moves_value(m, z, t.params, fr, from, part, arrives);
    lemma_source_place(m, z, t.hz, k, t.params.shift_hz, src);
    let drawn = choose|drawn: C| #[trigger]
        interpolated(m, spectrum, t.zero, src, drawn) && bin_turned(
            m,
            drawn,
            next_phases[k],
            come,
        );
    (src, come, drawn)
}

// ------------------------------------------------------------------------ hops

/// How far the phase of a bin may be off after it gained `g`.
pub open spec fn hop_error(g: real) -> real {
    (size(g) + 10real) / 100000real + (size(g) + 10real) * (size(g) + 10real) / 50000000real
}

/// What one hop turns one Hz by.
proof fn lemma_hop_turn<S, M: SampleMath<S>>(
    m: &M,
    z: Numbers<S>,
    t: ChanTuning<S>,
    turn: S,
    hz: S,
    per_hz: S,
    share: S,
)
    requires
        rounds(m, z),
        one_turn::<S, M>(m),
        call_ensures(M::full_turn, (m,), turn),
        is_rate(z, t.rate),
        0 <= t.hop <= 2048,
        hop_scales(m, t, hz, per_hz, share),
    ensures
        (z.finite)(per_hz),
        (z.finite)(turn),
        628real / 100real <= (z.val)(turn) <= 629real / 100real,
        size((z.val)(per_hz) * (z.val)(t.rate) - (z.val)(turn) * (t.hop as real)) <= (t.hop as real)
            / 50000real + 1real / 10000000real + (z.val)(t.rate) / 1000000000real,
{
    let (frame, hop, one) = choose|frame: S, hop: S, one: S| #[trigger]
        hop_scales_by(m, t, frame, hop, one, hz, per_hz, share);
    lemma_count_about(m, z, t.hop as usize, hop);
    lemma_turns_value(m, z, turn, hop, t.hop as real, 0real, t.rate, per_hz);
}

/// The slip of as many turns as fit.
pub proof fn lemma_slip(n: real, s: real, a: real)
    requires
        0real <= n <= a / 6real + 1real,
        0real <= s <= a / 16000000real + 1real / 1000000000real,
        8real <= a,
    ensures
        n * s <= (a + 2real) * (a + 2real) / 50000000real,
{
    let n1 = a / 6real + 1real;
    let s1 = a / 16000000real + 1real / 1000000000real;
    assert(n * s <= n1 * s1) by (nonlinear_arith)
        requires
            0real <= n <= n1,
            0real <= s <= s1,
    ;
    let q = a * a;
    assert(n1 * s1 == q / 96000000real + a / 6000000000real + a / 16000000real + 1real
        / 1000000000real) by (nonlinear_arith)
        requires
            n1 == a / 6real + 1real,
            s1 == a / 16000000real + 1real / 1000000000real,
            q == a * a,
    ;
    assert((a + 2real) * (a + 2real) == q + 4real * a + 4real) by (nonlinear_arith)
        requires
            q == a * a,
    ;
    assert(q >= 8real * a) by (nonlinear_arith)
        requires
            q == a * a,
            8real <= a,
    ;
}

/// What a gain is off by, before it is divided by the rate.
proof fn lemma_gain_apart(shift: real, u: real, rate: real, t: real, hop: real, g: real)
    requires
        g * rate == t * shift * hop,
    ensures
        (shift * u - g) * rate == shift * (u * rate - t * hop),
{
    let su = shift * u;
    let ur = u * rate;
    let th = t * hop;
    assert((su - g) * rate == su * rate - g * rate) by (nonlinear_arith);
    assert(su * rate == shift * ur) by (nonlinear_arith)
        requires
            su == shift * u,
            ur == u * rate,
    ;
    assert(shift * (ur - th) == shift * ur - shift * th) by (nonlinear_arith);
    assert(shift * th == t * shift * hop) by (nonlinear_arith)
        requires
            th == t * hop,
    ;
}

/// The size of a gain, before it is divided by the rate.
proof fn lemma_gain_size(shift: real, rate: real, t: real, hop: real, g: real)
    requires
        g * rate == t * shift * hop,
        rate > 0real,
        t >= 6real,
        hop >= 0real,
    ensures
        6real * (size(shift) * hop) <= size(g) * rate,
        0real <= size(shift) * hop,
{
    lemma_product_size(g, rate, size(g), rate);
    lemma_product_size(t, shift, size(t), size(shift));
    lemma_product_size(t * shift, hop, size(t * shift), size(hop));
    let ss = size(shift);
    let sh = ss * hop;
    let ts = t * ss;
    assert(ts * hop == t * sh) by (nonlinear_arith)
        requires
            ts == t * ss,
            sh == ss * hop,
    ;
    assert(sh >= 0real) by (nonlinear_arith)
        requires
            sh == ss * hop,
            ss >= 0real,
            hop >= 0real,
    ;
    assert(6real * sh <= t * sh) by (nonlinear_arith)
        requires
            sh >= 0real,
            t >= 6real,
    ;
}

/// The error of a gain, before it is divided by the rate.
proof fn lemma_gain_error(ss: real, hop: real, rate: real, e: real)
    requires
        0real <= ss <= 10000real,
        rate > 0real,
        e == hop / 50000real + 1real / 10000000real + rate / 1000000000real,
    ensures
        ss * e <= (ss * hop) / 50000real + 1real / 1000real + rate / 100000real,
{
    let sh = ss * hop;
    let sr = ss * rate;
    assert(ss * e == sh / 50000real + ss / 10000000real + sr / 1000000000real)
        by (nonlinear_arith)
        requires
            sh == ss * hop,
            sr == ss * rate,
            e == hop / 50000real + 1real / 10000000real + rate / 1000000000real,
    ;
    assert(sr <= 10000real * rate) by (nonlinear_arith)
        requires
            sr == ss * rate,
            ss <= 10000real,
            rate > 0real,
    ;
}

/// What is divided by the rate.
proof fn lemma_gain_divided(sd: real, sg: real, sh: real, rate: real)
    requires
        rate >= 1000real,
        0real <= sh,
        6real * sh <= sg * rate,
        sd * rate <= sh / 50000real + 1real / 1000real + rate / 100000real,
    ensures
        sd <= sg / 300000real + 12real / 1000000real,
{
    let cap = sg / 300000real + 12real / 1000000real;
    let gr = sg * rate;
    assert(cap * rate == gr / 300000real + rate * 12real / 1000000real) by (nonlinear_arith)
        requires
            cap == sg / 300000real + 12real / 1000000real,
            gr == sg * rate,
    ;
    lemma_cancel(sd, cap, rate);
}

/// The exact gain of a bin, from what one hop turns one Hz by.
proof fn lemma_gain_is_close(shift: real, u: real, rate: real, t: real, hop: real, g: real)
    requires
        size(shift) <= 10000real,
        1000real <= rate <= 400000real,
        628real / 100real <= t <= 629real / 100real,
        0real <= hop <= 2048real,
        g * rate == t * shift * hop,
        size(u * rate - t * hop) <= hop / 50000real + 1real / 10000000real + rate / 1000000000real,
    ensures
        size(shift * u - g) <= size(g) / 300000real + 12real / 1000000real,
{
    let e = hop / 50000real + 1real / 10000000real + rate / 1000000000real;
    let d = shift * u - g;
    let w = u * rate - t * hop;
    lemma_gain_apart(shift, u, rate, t, hop, g);
    lemma_product_size(d, rate, size(d), rate);
    lemma_product_size(shift, w, size(shift), e);
    lemma_gain_error(size(shift), hop, rate, e);
    lemma_gain_size(shift, rate, t, hop, g);
    lemma_gain_divided(size(d), size(g), size(shift) * hop, rate);
}

/// The phase that a bin has gathered, before it is wrapped.
proof fn lemma_bin_gathers<S, M: SampleMath<S>>(
    m: &M,
    z: Numbers<S>,
    shift: S,
    per_hz: S,
    phase: S,
    g: S,
    gathered: S,
    gain: real,
)
    requires
        rounds(m, z),
        (z.finite)(shift),
        (z.finite)(per_hz),
        (z.finite)(phase),
        size((z.val)(phase)) <= 4real,
        size(gain) <= 20000real,
        size((z.val)(shift) * (z.val)(per_hz) - gain) <= size(gain) / 300000real + 12real
            / 1000000real,
        call_ensures(M::prod, (m, shift, per_hz), g),
        call_ensures(M::sum, (m, phase, g), gathered),
    ensures
        about(z, gathered, (z.val)(phase) + gain, (size(gain) + 10real) / 100000real),
{
    let sh = (z.val)(shift);
    let u = (z.val)(per_hz);
    let sg = size(gain);
    assert(off_product(sh, 0real, u, 0real) == 0real) by (nonlinear_arith)
        requires
            off_product(sh, 0real, u, 0real) == 0real * size(u) + size(sh) * 0real + 0real * 0real,
    ;
    lemma_prod_about(m, z, shift, per_hz, g, sh, 0real, u, 0real, 0real);
    let eg = sg / 200000real + 15real / 1000000real;
    assert(about(z, g, gain, eg));
    lemma_sum_about(m, z, phase, g, gathered, (z.val)(phase), 0real, gain, eg);
}

/// A phase that is wrapped within half a turn.
proof fn lemma_bin_wraps<S, M: SampleMath<S>>(
    m: &M,
    z: Numbers<S>,
    turn: S,
    gathered: S,
    next_phase: S,
    phase: real,
    gain: real,
) -> (turns: int)
    requires
        rounds(m, z),
        one_turn::<S, M>(m),
        call_ensures(M::full_turn, (m,), turn),
        size(phase) <= 4real,
        size(gain) <= 20000real,
        about(z, gathered, phase + gain, (size(gain) + 10real) / 100000real),
        wrapped_in_half_turn(m, gathered, next_phase),
    ensures
        (z.finite)(next_phase),
        size((z.val)(next_phase)) <= 4real,
        size((z.val)(next_phase) - (phase + gain - (turns as real) * (z.val)(turn))) <= hop_error(
            gain,
        ),
{
    let sg = size(gain);
    let bound = choose|b: S|
        call_ensures(M::half_turn, (m,), b) && #[trigger] wrapped(m, gathered, b, next_phase);
    let cap = sg + 8real;
    let n = law_wrapping_takes_whole_turns(m, z, turn, bound, gathered, next_phase, cap);
    assert(is_scale(z) && (z.val)(bound) <= 4real) by {
        reveal(rounds);
    }
    let un = z.unit;
    assert(0real <= un * cap <= cap / 16000000real) by (nonlinear_arith)
        requires
            0real <= un <= 1real / 16000000real,
            cap >= 0real,
    ;
    lemma_slip(size(n as real), slip_at(z, cap), cap);
    n
}

/// The phase of a bin that moves gains what the carrier of the shift gains over that
/// very hop: `hop` times `turn * shift / rate`, up to whole turns and rounding.
pub proof fn law_a_hop_turns_bins_by_its_length<S, C, M: BinMath<S, C>>(
    m: &M,
    z: Numbers<S>,
    t: ChanTuning<S>,
    s: ChanState<S>,
    next: ChanState<S>,
    turn: S,
    k: int,
    gain: real,
) -> (turns: int)
    requires
        rounds(m, z),
        one_turn::<S, M>(m),
        call_ensures(M::full_turn, (m,), turn),
        is_rate(z, t.rate),
        (z.finite)(t.params.shift_hz),
        size((z.val)(t.params.shift_hz)) <= 10000real,
        t.params.mode is Linear,
        16 <= t.hop <= 2048,
        0 <= k < N_POS,
        (z.finite)(s.phases[k]),
        size((z.val)(s.phases[k])) <= 4real,
        gain * (z.val)(t.rate) == (z.val)(turn) * (z.val)(t.params.shift_hz) * (t.hop as real),
        size(gain) <= 20000real,
        hopped::<S, C, M>(m, t, s, next),
    ensures
        (z.finite)(next.phases[k]),
        size((z.val)(next.phases[k])) <= 4real,
        size(
            (z.val)(next.phases[k]) - ((z.val)(s.phases[k]) + gain - (turns as real) * (z.val)(
                turn,
            )),
        ) <= hop_error(gain),
{
    reveal(hopped);
    let (hz, per_hz, share, frame, spectrum, half, full, time) = choose|
        hz: S,
        turn: S,
        share: S,
        frame: Frame<C>,
        spectrum: Frame<C>,
        half: Seq<C>,
        full: Frame<C>,
        time: Frame<C>,
    | #[trigger]
        hopped_by(m, t, s, hz, turn, share, frame, spectrum, half, full, time, next);
    let tuning = BinTuning { params: t.params, hz, turn: per_hz, zero: t.zero };
    assert(bin_step(m, tuning, spectrum@, k, s.phases[k], next.phases[k], half[k]));
    lemma_hop_turn(m, z, t, turn, hz, per_hz, share);
    lemma_bin_gains(
        m,
        z,
        tuning,
        spectrum@,
        k,
        s.phases[k],
        next.phases[k],
        half[k],
        turn,
        (z.val)(t.rate),
        t.hop as real,
        gain,
    )
}

/// One bin gains its phase.
proof fn lemma_bin_gains<S, C, M: BinMath<S, C>>(
    m: &M,
    z: Numbers<S>,
    t: BinTuning<S>,
    spectrum: Seq<C>,
    k: int,
    phase: S,
    next_phase: S,
    out: C,
    turn: S,
    rate: real,
    hop: real,
    gain: real,
) -> (turns: int)
    requires
        rounds(m, z),
        one_turn::<S, M>(m),
        call_ensures(M::full_turn, (m,), turn),
        628real / 100real <= (z.val)(turn) <= 629real / 100real,
        1000real <= rate <= 400000real,
        (z.finite)(t.params.shift_hz),
        size((z.val)(t.params.shift_hz)) <= 10000real,
        t.params.mode is Linear,
        0real <= hop <= 2048real,
        (z.finite)(phase),
        size((z.val)(phase)) <= 4real,
        (z.finite)(t.turn),
        size((z.val)(t.turn) * rate - (z.val)(turn) * hop) <= hop / 50000real + 1real / 10000000real
            + rate / 1000000000real,
        gain * rate == (z.val)(turn) * (z.val)(t.params.shift_hz) * hop,
        size(gain) <= 20000real,
        bin_step(m, t, spectrum, k, phase, next_phase, out),
    ensures
        (z.finite)(next_phase),
        size((z.val)(next_phase)) <= 4real,
        size(
            (z.val)(next_phase) - ((z.val)(phase) + gain - (turns as real) * (z.val)(turn)),
        ) <= hop_error(gain),
{
    let (src, from, arrives, g, gathered, come, own, leaves) = choose|
        src: S,
        from: S,
        arrives: bool,
        gain: S,
        gathered: S,
        come: C,
        own: S,
        leaves: bool,
    | #[trigger]
        bin_step_by(
            m,
            t,
            spectrum,
            k,
            phase,
            src,
            from,
            arrives,
            gain,
            gathered,
            next_phase,
            come,
            own,
            leaves,
            out,
        );
    assert(arrives);
    lemma_gain_is_close(
        (z.val)(t.params.shift_hz),
        (z.val)(t.turn),
        rate,
        (z.val)(turn),
        hop,
        gain,
    );
    lemma_bin_gathers(m, z, t.params.shift_hz, t.turn, phase, g, gathered, gain);
    lemma_bin_wraps(m, z, turn, gathered, next_phase, (z.val)(phase), gain)
}

} // verus!
