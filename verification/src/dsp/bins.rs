//! What happens to one spectrum on its way from analysis to synthesis.

use vstd::prelude::*;

use crate::dsp::modes::{SpecMode, SpecParams};
use crate::frame::{Frame, FFT_SIZE};
use crate::math::{wrap_half_turn, wrapped_in_half_turn, BinMath, SampleMath};

verus! {

/// How many bins there are from zero up to half the sample rate, both included.
pub const N_POS: usize = FFT_SIZE / 2 + 1;

/// `moves` says whether the frequency `freq` lies on the side of the cutoff that
/// the profile moves.
pub open spec fn bin_moves<S, M: SampleMath<S>>(
    m: &M,
    p: SpecParams<S>,
    freq: S,
    moves: bool,
) -> bool {
    match p.mode {
        SpecMode::Linear => moves,
        SpecMode::Highpass => call_ensures(M::less, (m, p.cutoff_hz, freq), moves),
        SpecMode::Lowpass => call_ensures(M::less, (m, freq, p.cutoff_hz), moves),
    }
}

/// Whether the profile moves the frequency `freq`.
pub fn profile_moves<S: Copy, M: SampleMath<S>>(m: &M, p: &SpecParams<S>, freq: S) -> (moves: bool)
    ensures
        bin_moves(m, *p, freq, moves),
{
    match p.mode {
        SpecMode::Linear => true,
        SpecMode::Highpass => m.less(p.cutoff_hz, freq),
        SpecMode::Lowpass => m.less(freq, p.cutoff_hz),
    }
}

/// `freq` is the frequency of bin `k`, where bins are `hz` apart.
pub open spec fn bin_freq<S, M: SampleMath<S>>(m: &M, hz: S, k: int, freq: S) -> bool {
    exists|index: S| #[trigger]
        call_ensures(M::count, (m, k as usize), index) && call_ensures(
            M::prod,
            (m, index, hz),
            freq,
        )
}

/// `src` is where the content of bin `k` comes from, in bins, when it is moved
/// up by `shift` and bins are `hz` apart.
pub open spec fn source_of<S, M: SampleMath<S>>(
    m: &M,
    hz: S,
    k: int,
    shift: S,
    src: S,
) -> bool {
    exists|index: S, bins: S|
        call_ensures(M::count, (m, k as usize), index) && call_ensures(
            M::quot,
            (m, shift, hz),
            bins,
        ) && #[trigger] call_ensures(M::diff, (m, index, bins), src)
}

/// The lower of two whole numbers.
pub open spec fn lower(a: int, b: int) -> int {
    if a <= b {
        a
    } else {
        b
    }
}

/// `r` is what a spectrum is worth at the place `src` between its bins: nothing
/// below the first bin and above the last one of the positive half, else drawn
/// straight from one bin to the next.
pub open spec fn interpolated<S, C, M: BinMath<S, C>>(
    m: &M,
    spectrum: Seq<C>,
    zero: S,
    src: S,
    r: C,
) -> bool {
    exists|below: bool, last: S, above: bool| #[trigger]
        interpolated_by(m, spectrum, zero, src, below, last, above, r)
}

/// [`interpolated`], with its comparisons.
pub open spec fn interpolated_by<S, C, M: BinMath<S, C>>(
    m: &M,
    spectrum: Seq<C>,
    zero: S,
    src: S,
    below: bool,
    last: S,
    above: bool,
    r: C,
) -> bool {
    &&& call_ensures(M::less, (m, src, zero), below)
    &&& call_ensures(M::count, (m, (N_POS - 1) as usize), last)
    &&& call_ensures(M::less, (m, last, src), above)
    &&& if below || above {
        call_ensures(M::bin, (m, zero), r)
    } else {
        exists|floor: usize| #[trigger]
            call_ensures(M::floor_index, (m, src), floor) && drawn(
                m,
                spectrum,
                src,
                lower(floor as int, N_POS - 1),
                r,
            )
    }
}

/// `r` lies on the straight line from bin `i` to the next one, at the place
/// `src` between them. The last bin of the positive half is its own next one.
pub open spec fn drawn<S, C, M: BinMath<S, C>>(
    m: &M,
    spectrum: Seq<C>,
    src: S,
    i: int,
    r: C,
) -> bool {
    exists|at: S, alpha: S, one: S, keep: S, a: C, b: C| #[trigger]
        drawn_by(m, spectrum, src, i, at, alpha, one, keep, a, b, r)
}

/// [`drawn`], with its intermediate values.
pub open spec fn drawn_by<S, C, M: BinMath<S, C>>(
    m: &M,
    spectrum: Seq<C>,
    src: S,
    i: int,
    at: S,
    alpha: S,
    one: S,
    keep: S,
    a: C,
    b: C,
    r: C,
) -> bool {
    &&& call_ensures(M::count, (m, i as usize), at)
    &&& call_ensures(M::diff, (m, src, at), alpha)
    &&& call_ensures(M::ratio, (m, 1i32, 1u32), one)
    &&& call_ensures(M::diff, (m, one, alpha), keep)
    &&& call_ensures(M::bin_scale, (m, spectrum[i], keep), a)
    &&& call_ensures(M::bin_scale, (m, spectrum[lower(i + 1, N_POS - 1)], alpha), b)
    &&& call_ensures(M::bin_sum, (m, a, b), r)
}

/// What a spectrum is worth at the place `src` between its bins.
pub fn interpolate<S: Copy, C: Copy, M: BinMath<S, C>>(
    m: &M,
    spectrum: &Frame<C>,
    zero: S,
    src: S,
) -> (r: C)
    ensures
        interpolated(m, spectrum@, zero, src, r),
{
    let below = m.less(src, zero);
    let last = m.count(N_POS - 1);
    let above = m.less(last, src);
    let r = if below || above {
        m.bin(zero)
    } else {
        let floor = m.floor_index(src);
        let i: usize = if floor <= N_POS - 1 {
            floor
        } else {
            N_POS - 1
        };
        let next: usize = if i + 1 <= N_POS - 1 {
            i + 1
        } else {
            N_POS - 1
        };
        let at = m.count(i);
        let alpha = m.diff(src, at);
        let one = m.ratio(1, 1);
        let keep = m.diff(one, alpha);
        let a = m.bin_scale(spectrum.get(i), keep);
        let b = m.bin_scale(spectrum.get(next), alpha);
        let r = m.bin_sum(a, b);
        assert(drawn_by(m, spectrum@, src, i as int, at, alpha, one, keep, a, b, r));
        assert(call_ensures(M::floor_index, (m, src), floor));
        r
    };
    assert(interpolated_by(m, spectrum@, zero, src, below, last, above, r));
    r
}

/// `r` is `c`, turned by `angle`: times `cos + i * sin`.
pub open spec fn bin_turned<S, C, M: BinMath<S, C>>(m: &M, c: C, angle: S, r: C) -> bool {
    exists|sin: S, cos: S, unit: C|
        call_ensures(M::sin_cos, (m, angle), (sin, cos)) && #[trigger] call_ensures(
            M::bin_pair,
            (m, cos, sin),
            unit,
        ) && call_ensures(M::bin_prod, (m, c, unit), r)
}

/// Turns a bin by `angle`.
pub fn turn_bin<S: Copy, C: Copy, M: BinMath<S, C>>(m: &M, c: C, angle: S) -> (r: C)
    ensures
        bin_turned(m, c, angle, r),
{
    let (sin, cos) = m.sin_cos(angle);
    let unit = m.bin_pair(cos, sin);
    let r = m.bin_prod(c, unit);
    assert(call_ensures(M::bin_pair, (m, cos, sin), unit));
    r
}

/// What is the same for all bins of one spectrum: the distance of two bins in
/// Hz, and by how much one Hz turns the phase from one hop to the next.
pub struct BinTuning<S> {
    pub params: SpecParams<S>,
    pub hz: S,
    pub turn: S,
    pub zero: S,
}

/// `r` is what comes to a bin from the place `src`: the spectrum there, turned by
/// `phase`, or the empty bin where nothing `arrives`.
pub open spec fn arrival<S, C, M: BinMath<S, C>>(
    m: &M,
    spectrum: Seq<C>,
    zero: S,
    src: S,
    arrives: bool,
    phase: S,
    r: C,
) -> bool {
    if arrives {
        exists|drawn: C| #[trigger]
            interpolated(m, spectrum, zero, src, drawn) && bin_turned(m, drawn, phase, r)
    } else {
        call_ensures(M::bin, (m, zero), r)
    }
}

/// Bin `k` of the shifted spectrum is `out`: what the profile moves there, and
/// what it leaves there.
///
/// What would come there from the place `src` does so if the frequency at `src`
/// moves. It is turned by the phase that the bin has gathered, which goes from
/// `phase` to `next_phase`. What the spectrum has in bin `k` itself stays there,
/// as it is, if the bin's own frequency does not move.
pub open spec fn bin_step<S, C, M: BinMath<S, C>>(
    m: &M,
    t: BinTuning<S>,
    spectrum: Seq<C>,
    k: int,
    phase: S,
    next_phase: S,
    out: C,
) -> bool {
    exists|src: S, from: S, arrives: bool, gain: S, gathered: S, come: C, own: S, leaves: bool|
        #[trigger]
        bin_step_by(
            m,
            t,
            spectrum,
            k,
            phase,
            src,
            from,
            arrives,
            gain,
            gathered,
            next_phase,
            come,
            own,
            leaves,
            out,
        )
}

/// [`bin_step`], with its intermediate values.
pub open spec fn bin_step_by<S, C, M: BinMath<S, C>>(
    m: &M,
    t: BinTuning<S>,
    spectrum: Seq<C>,
    k: int,
    phase: S,
    src: S,
    from: S,
    arrives: bool,
    gain: S,
    gathered: S,
    next_phase: S,
    come: C,
    own: S,
    leaves: bool,
    out: C,
) -> bool {
    let shift = if arrives {
        t.params.shift_hz
    } else {
        t.zero
    };
    &&& source_of(m, t.hz, k, t.params.shift_hz, src)
    &&& call_ensures(M::prod, (m, src, t.hz), from)
    &&& bin_moves(m, t.params, from, arrives)
    &&& call_ensures(M::prod, (m, shift, t.turn), gain)
    &&& call_ensures(M::sum, (m, phase, gain), gathered)
    &&& wrapped_in_half_turn(m, gathered, next_phase)
    &&& arrival(m, spectrum, t.zero, src, arrives, next_phase, come)
    &&& bin_freq(m, t.hz, k, own)
    &&& bin_moves(m, t.params, own, leaves)
    &&& if leaves {
        out == come
    } else {
        call_ensures(M::bin_sum, (m, come, spectrum[k]), out)
    }
}

/// Shifts the positive half of a spectrum into `half`, and moves the phases on.
pub open spec fn half_shifted<S, C, M: BinMath<S, C>>(
    m: &M,
    t: BinTuning<S>,
    spectrum: Seq<C>,
    phases: Seq<S>,
    next_phases: Seq<S>,
    half: Seq<C>,
) -> bool {
    &&& next_phases.len() == N_POS
    &&& half.len() == N_POS
    &&& forall|k: int|
        0 <= k < N_POS ==> bin_step(
            m,
            t,
            spectrum,
            k,
            phases[k],
            next_phases[k],
            #[trigger] half[k],
        )
}

/// Shifts the positive half of a spectrum, with per-bin phase compensation.
pub fn shift_half<S: Copy, C: Copy, M: BinMath<S, C>>(
    m: &M,
    p: &SpecParams<S>,
    hz: S,
    turn: S,
    zero: S,
    spectrum: &Frame<C>,
    phases: &mut Vec<S>,
) -> (half: Vec<C>)
    requires
        old(phases)@.len() == N_POS,
    ensures
        half_shifted(
            m,
            (BinTuning { params: *p, hz, turn, zero }),
            spectrum@,
            old(phases)@,
            final(phases)@,
            half@,
        ),
{
    let ghost t = BinTuning { params: *p, hz, turn, zero };
    let mut half: Vec<C> = Vec::new();
    let mut k: usize = 0;
    while k < N_POS
        invariant
            t == (BinTuning { params: *p, hz, turn, zero }),
            k <= N_POS,
            phases@.len() == N_POS,
            half@.len() == k,
            forall|j: int| k <= j < N_POS ==> phases@[j] == old(phases)@[j],
            forall|j: int|
                0 <= j < k ==> bin_step(
                    m,
                    t,
                    spectrum@,
                    j,
                    old(phases)@[j],
                    phases@[j],
                    #[trigger] half@[j],
                ),
        decreases N_POS - k,
    {
        let index = m.count(k);
        let bins = m.quot(p.shift_hz, hz);
        let src = m.diff(index, bins);
        assert(source_of(m, hz, k as int, p.shift_hz, src));
        let from = m.prod(src, hz);
        let arrives = profile_moves(m, p, from);
        let shift = if arrives {
            p.shift_hz
        } else {
            zero
        };
        let gain = m.prod(shift, turn);
        let gathered = m.sum(phases[k], gain);
        let next_phase = wrap_half_turn(m, gathered);
        let come = if arrives {
            let drawn = interpolate(m, spectrum, zero, src);
            turn_bin(m, drawn, next_phase)
        } else {
            m.bin(zero)
        };
        let own = m.prod(index, hz);
        assert(bin_freq(m, hz, k as int, own));
        let leaves = profile_moves(m, p, own);
        let out = if leaves {
            come
        } else {
            m.bin_sum(come, spectrum.get(k))
        };
        assert(bin_step_by(
            m,
            t,
            spectrum@,
            k as int,
            phases@[k as int],
            src,
            from,
            arrives,
            gain,
            gathered,
            next_phase,
            come,
            own,
            leaves,
            out,
        ));
        phases[k] = next_phase;
        half.push(out);
        k = k + 1;
    }
    half
}

/// `r` is `c` without its imaginary part.
pub open spec fn made_real<S, C, M: BinMath<S, C>>(m: &M, c: C, r: C) -> bool {
    exists|re: S| #[trigger]
        call_ensures(M::bin_re, (m, c), re) && call_ensures(M::bin, (m, re), r)
}

/// `full` is the spectrum of a real signal with the positive half `half`: the
/// first bin and the one at half the sample rate are real, and each other bin
/// of the negative half is the conjugate of its mirror image.
pub open spec fn mirrored<S, C, M: BinMath<S, C>>(m: &M, half: Seq<C>, full: Seq<C>) -> bool {
    &&& full.len() == FFT_SIZE
    &&& made_real(m, half[0], full[0])
    &&& made_real(m, half[N_POS - 1], full[N_POS - 1])
    &&& forall|k: int| 1 <= k < N_POS - 1 ==> #[trigger] full[k] == half[k]
    &&& forall|k: int|
        1 <= k < N_POS - 1 ==> call_ensures(
            M::bin_conj,
            (m, #[trigger] half[k]),
            full[FFT_SIZE - k],
        )
}

/// Completes the positive half of a spectrum to that of a real signal.
pub fn mirror<S: Copy, C: Copy, M: BinMath<S, C>>(m: &M, half: &Vec<C>) -> (full: Frame<C>)
    requires
        half@.len() == N_POS,
    ensures
        mirrored(m, half@, full@),
{
    let first_re = m.bin_re(half[0]);
    let first = m.bin(first_re);
    assert(made_real(m, half@[0], first));
    let top_re = m.bin_re(half[N_POS - 1]);
    let top = m.bin(top_re);
    assert(made_real(m, half@[N_POS - 1], top));
    let mut full = Frame::filled(first);
    full.set(N_POS - 1, top);
    let mut k: usize = 1;
    while k < N_POS - 1
        invariant
            1 <= k <= N_POS - 1,
            half@.len() == N_POS,
            full@.len() == FFT_SIZE,
            full@[0] == first,
            full@[N_POS - 1] == top,
            forall|j: int| 1 <= j < k ==> #[trigger] full@[j] == half@[j],
            forall|j: int|
                1 <= j < k ==> call_ensures(
                    M::bin_conj,
                    (m, #[trigger] half@[j]),
                    full@[FFT_SIZE - j],
                ),
        decreases N_POS - k,
    {
        let c = half[k];
        let conj = m.bin_conj(c);
        full.set(k, c);
        full.set(FFT_SIZE - k, conj);
        k = k + 1;
    }
    full
}

} // verus!
