//! What the picture of the output spectrum shows.

use vstd::prelude::*;
use vstd::string::*;

use crate::dsp::engine::{EngineMode, Params};
use crate::dsp::modes::SpecMode;
use crate::math::{clamp_sample, clamped, DrawMath, SampleMath};

verus! {

/// The frequencies that have a grid line and an arrow, in Hz.
pub const TICKS: [u32; 3] = [100, 1000, 10_000];

/// The fewest bars.
pub const MIN_BARS: usize = 64;

/// The most bars.
pub const MAX_BARS: usize = 384;

/// The label of the `i`-th tick.
pub fn tick_label(i: usize) -> (s: &'static str)
    requires
        i < 3,
    ensures
        s@ == if i == 0 {
            "100"@
        } else if i == 1 {
            "1k"@
        } else {
            "10k"@
        },
{
    if i == 0 {
        "100"
    } else if i == 1 {
        "1k"
    } else {
        "10k"
    }
}

/// The extent of the canvas in CSS pixels: at least one.
pub fn css_extent(px: i32) -> (r: i32)
    ensures
        r == if px < 1 {
            1
        } else {
            px as int
        },
{
    if px < 1 {
        1
    } else {
        px
    }
}

/// The extent that the canvas is to be set to, if it does not have it.
pub fn new_extent(current: u32, wanted: u32) -> (r: Option<u32>)
    ensures
        r == if current == wanted {
            None::<u32>
        } else {
            Some(wanted)
        },
{
    if current != wanted {
        Some(wanted)
    } else {
        None
    }
}

/// `r` is the lower of `a` and `b`; it is `b` where they do not compare.
pub open spec fn lower_of<S, M: SampleMath<S>>(m: &M, a: S, b: S, r: S) -> bool {
    exists|first: bool| #[trigger]
        call_ensures(M::less, (m, a, b), first) && r == if first {
            a
        } else {
            b
        }
}

/// `r` is the higher of `a` and `b`; it is `b` where they do not compare.
pub open spec fn higher_of<S, M: SampleMath<S>>(m: &M, a: S, b: S, r: S) -> bool {
    exists|first: bool| #[trigger]
        call_ensures(M::less, (m, b, a), first) && r == if first {
            a
        } else {
            b
        }
}

/// The lower of `a` and `b`; `b` where they do not compare.
pub fn lower<S: Copy, M: SampleMath<S>>(m: &M, a: S, b: S) -> (r: S)
    ensures
        lower_of(m, a, b, r),
{
    let first = m.less(a, b);
    assert(call_ensures(M::less, (m, a, b), first));
    if first {
        a
    } else {
        b
    }
}

/// The higher of `a` and `b`; `b` where they do not compare.
pub fn higher<S: Copy, M: SampleMath<S>>(m: &M, a: S, b: S) -> (r: S)
    ensures
        higher_of(m, a, b, r),
{
    let first = m.less(b, a);
    assert(call_ensures(M::less, (m, b, a), first));
    if first {
        a
    } else {
        b
    }
}

/// `f_min` and `f_max` are the ends of the picture: 30 Hz, and half the sample
/// rate or 20 kHz, whichever is lower.
pub open spec fn in_view<S, M: SampleMath<S>>(m: &M, rate: S, f_min: S, f_max: S) -> bool {
    exists|share: S, half: S, cap: S| #[trigger]
        in_view_by(m, rate, share, half, cap, f_min, f_max)
}

/// [`in_view`], with its intermediate values.
pub open spec fn in_view_by<S, M: SampleMath<S>>(
    m: &M,
    rate: S,
    share: S,
    half: S,
    cap: S,
    f_min: S,
    f_max: S,
) -> bool {
    &&& call_ensures(M::ratio, (m, 30i32, 1u32), f_min)
    &&& call_ensures(M::ratio, (m, 1i32, 2u32), share)
    &&& call_ensures(M::prod, (m, rate, share), half)
    &&& call_ensures(M::ratio, (m, 20_000i32, 1u32), cap)
    &&& lower_of(m, half, cap, f_max)
}

/// The ends of the picture, in Hz.
pub fn view_range<S: Copy, M: SampleMath<S>>(m: &M, rate: S) -> (r: (S, S))
    ensures
        in_view(m, rate, r.0, r.1),
{
    let f_min = m.ratio(30, 1);
    let share = m.ratio(1, 2);
    let half = m.prod(rate, share);
    let cap = m.ratio(20_000, 1);
    let f_max = lower(m, half, cap);
    assert(in_view_by(m, rate, share, half, cap, f_min, f_max));
    (f_min, f_max)
}

/// The part of the band that is in view.
pub fn tinted<S: Copy, M: SampleMath<S>>(m: &M, band: (S, S, S), f_min: S, f_max: S) -> (r: (S, S))
    ensures
        higher_of(m, band.0, f_min, r.0),
        lower_of(m, band.1, f_max, r.1),
{
    (higher(m, band.0, f_min), lower(m, band.1, f_max))
}

/// How far two bins of a transform of the given size are apart, in Hz.
pub fn bin_width<S: Copy, M: SampleMath<S>>(m: &M, rate: S, fft_size: usize) -> (r: S)
    ensures
        exists|size: S|
            call_ensures(M::count, (m, fft_size), size) && #[trigger] call_ensures(
                M::quot,
                (m, rate, size),
                r,
            ),
{
    let size = m.count(fft_size);
    let r = m.quot(rate, size);
    assert(call_ensures(M::quot, (m, rate, size), r));
    r
}

/// The band in which frequencies are moved, and by how much: all that is shown,
/// or what lies on the moving side of the cutoff.
pub open spec fn band_of<S>(p: Params<S>, f_min: S, f_max: S) -> (S, S, S) {
    match p.mode {
        EngineMode::Ssb => (f_min, f_max, p.ssb.shift_hz),
        EngineMode::Spectral => match p.spec.mode {
            SpecMode::Linear => (f_min, f_max, p.spec.shift_hz),
            SpecMode::Highpass => (p.spec.cutoff_hz, f_max, p.spec.shift_hz),
            SpecMode::Lowpass => (f_min, p.spec.cutoff_hz, p.spec.shift_hz),
        },
    }
}

/// The band in which frequencies are moved, and by how much.
pub fn active_band<S: Copy>(p: &Params<S>, f_min: S, f_max: S) -> (r: (S, S, S))
    ensures
        r == band_of(*p, f_min, f_max),
{
    match p.mode {
        EngineMode::Ssb => (f_min, f_max, p.ssb.shift_hz),
        EngineMode::Spectral => match p.spec.mode {
            SpecMode::Linear => (f_min, f_max, p.spec.shift_hz),
            SpecMode::Highpass => (p.spec.cutoff_hz, f_max, p.spec.shift_hz),
            SpecMode::Lowpass => (f_min, p.spec.cutoff_hz, p.spec.shift_hz),
        },
    }
}

/// On which side of the cutoff line its label stands: the one that moves.
#[derive(Clone, Copy, Debug, PartialEq, Eq, Structural)]
pub enum CutoffSide {
    Above,
    Below,
}

impl CutoffSide {
    /// The arrow in the label.
    pub fn arrow(self) -> (s: &'static str)
        ensures
            s@ == match self {
                CutoffSide::Above => "▶"@,
                CutoffSide::Below => "◀"@,
            },
    {
        match self {
            CutoffSide::Above => "▶",
            CutoffSide::Below => "◀",
        }
    }

    /// How far the label stands off the line, in pixels to the right.
    pub fn offset(self) -> (px: i32)
        ensures
            px == match self {
                CutoffSide::Above => 6int,
                CutoffSide::Below => -6int,
            },
    {
        match self {
            CutoffSide::Above => 6,
            CutoffSide::Below => -6,
        }
    }

    /// How the label is aligned: away from the line.
    pub fn align(self) -> (s: &'static str)
        ensures
            s@ == match self {
                CutoffSide::Above => "left"@,
                CutoffSide::Below => "right"@,
            },
    {
        match self {
            CutoffSide::Above => "left",
            CutoffSide::Below => "right",
        }
    }
}

/// The cutoff line is there if the spectral engine is heard and does not move
/// everything.
pub fn cutoff_line<S: Copy>(p: &Params<S>) -> (r: Option<CutoffSide>)
    ensures
        r == match (p.mode, p.spec.mode) {
            (EngineMode::Spectral, SpecMode::Highpass) => Some(CutoffSide::Above),
            (EngineMode::Spectral, SpecMode::Lowpass) => Some(CutoffSide::Below),
            _ => None,
        },
{
    match p.mode {
        EngineMode::Ssb => None,
        EngineMode::Spectral => match p.spec.mode {
            SpecMode::Linear => None,
            SpecMode::Highpass => Some(CutoffSide::Above),
            SpecMode::Lowpass => Some(CutoffSide::Below),
        },
    }
}

/// `hidden` says whether the frequency `hz` lies above all that is shown.
pub open spec fn out_of_view<S, M: SampleMath<S>>(m: &M, hz: S, f_max: S, hidden: bool) -> bool {
    call_ensures(M::less, (m, f_max, hz), hidden)
}

/// `shown[i]` is the `i`-th tick as a frequency, if it does not lie above all
/// that is shown.
pub open spec fn ticks_shown<S, M: SampleMath<S>>(
    m: &M,
    f_max: S,
    shown: Seq<Option<S>>,
) -> bool {
    &&& shown.len() == TICKS@.len()
    &&& forall|i: int|
        0 <= i < TICKS@.len() ==> tick_shown(m, TICKS@[i], f_max, #[trigger] shown[i])
}

/// `r` is the tick as a frequency, if it does not lie above all that is shown.
pub open spec fn tick_shown<S, M: SampleMath<S>>(
    m: &M,
    tick: u32,
    f_max: S,
    r: Option<S>,
) -> bool {
    exists|hz: S, hidden: bool| #[trigger]
        out_of_view(m, hz, f_max, hidden) && call_ensures(
            M::ratio,
            (m, tick as i32, 1u32),
            hz,
        ) && r == if hidden {
            None
        } else {
            Some(hz)
        }
}

/// Which ticks have a grid line, and where.
pub fn grid_lines<S: Copy, M: SampleMath<S>>(m: &M, f_max: S) -> (shown: Vec<Option<S>>)
    ensures
        ticks_shown(m, f_max, shown@),
{
    let mut shown: Vec<Option<S>> = Vec::new();
    let mut i: usize = 0;
    while i < 3
        invariant
            i <= 3,
            shown@.len() == i,
            forall|j: int| 0 <= j < i ==> tick_shown(m, TICKS@[j], f_max, #[trigger] shown@[j]),
        decreases 3 - i,
    {
        let tick = TICKS[i];
        let hz = m.ratio(tick as i32, 1);
        let hidden = m.less(f_max, hz);
        assert(out_of_view(m, hz, f_max, hidden));
        let r = if hidden {
            None
        } else {
            Some(hz)
        };
        assert(tick_shown(m, TICKS@[i as int], f_max, r));
        shown.push(r);
        i = i + 1;
    }
    shown
}

/// How many bars there are, where `fit` of them fit.
pub fn bar_count(fit: usize) -> (n: usize)
    ensures
        n == if fit < MIN_BARS {
            MIN_BARS as int
        } else if fit > MAX_BARS {
            MAX_BARS as int
        } else {
            fit as int
        },
{
    if fit < MIN_BARS {
        MIN_BARS
    } else if fit > MAX_BARS {
        MAX_BARS
    } else {
        fit
    }
}

/// `r` is the frequency at the left edge of bar `i` of `n`, where the bars are
/// spread evenly over the logarithms from `f_min` to `f_max`.
pub open spec fn bar_frequency<S, M: DrawMath<S>>(
    m: &M,
    i: usize,
    n: usize,
    f_min: S,
    f_max: S,
    r: S,
) -> bool {
    exists|lo: S, hi: S, share: S, span: S, log: S| #[trigger]
        bar_frequency_by(m, i, n, f_min, f_max, lo, hi, share, span, log, r)
}

/// [`bar_frequency`], with its intermediate values.
pub open spec fn bar_frequency_by<S, M: DrawMath<S>>(
    m: &M,
    i: usize,
    n: usize,
    f_min: S,
    f_max: S,
    lo: S,
    hi: S,
    share: S,
    span: S,
    log: S,
    r: S,
) -> bool {
    &&& call_ensures(M::log_ten, (m, f_min), lo)
    &&& call_ensures(M::log_ten, (m, f_max), hi)
    &&& call_ensures(M::share, (m, i, n), share)
    &&& call_ensures(M::diff, (m, hi, lo), span)
    &&& call_ensures(M::mul_add, (m, lo, share, span), log)
    &&& call_ensures(M::ten_to, (m, log), r)
}

/// The frequency at the left edge of bar `i` of `n`.
pub fn bar_hz<S: Copy, M: DrawMath<S>>(m: &M, i: usize, n: usize, f_min: S, f_max: S) -> (r: S)
    ensures
        bar_frequency(m, i, n, f_min, f_max, r),
{
    let lo = m.log_ten(f_min);
    let hi = m.log_ten(f_max);
    let share = m.share(i, n);
    let span = m.diff(hi, lo);
    let log = m.mul_add(lo, share, span);
    let r = m.ten_to(log);
    assert(bar_frequency_by(m, i, n, f_min, f_max, lo, hi, share, span, log, r));
    r
}

/// `r` is where the frequency `f` stands in the picture: from 0 at the left edge
/// to 1 at the right one, by its logarithm. Frequencies past either edge stand at
/// the edge, and none counts for less than half a hertz.
pub open spec fn placed<S, M: DrawMath<S>>(m: &M, f: S, f_min: S, f_max: S, r: S) -> bool {
    exists|least: S, held: S, log: S, lo: S, hi: S, gone: S, span: S, raw: S, zero: S, one: S|
        #[trigger]
        placed_by(m, f, f_min, f_max, least, held, log, lo, hi, gone, span, raw, zero, one, r)
}

/// [`placed`], with its intermediate values.
pub open spec fn placed_by<S, M: DrawMath<S>>(
    m: &M,
    f: S,
    f_min: S,
    f_max: S,
    least: S,
    held: S,
    log: S,
    lo: S,
    hi: S,
    gone: S,
    span: S,
    raw: S,
    zero: S,
    one: S,
    r: S,
) -> bool {
    &&& call_ensures(M::ratio, (m, 1i32, 2u32), least)
    &&& higher_of(m, f, least, held)
    &&& call_ensures(M::log_ten, (m, held), log)
    &&& call_ensures(M::log_ten, (m, f_min), lo)
    &&& call_ensures(M::log_ten, (m, f_max), hi)
    &&& call_ensures(M::diff, (m, log, lo), gone)
    &&& call_ensures(M::diff, (m, hi, lo), span)
    &&& call_ensures(M::quot, (m, gone, span), raw)
    &&& call_ensures(M::ratio, (m, 0i32, 1u32), zero)
    &&& call_ensures(M::ratio, (m, 1i32, 1u32), one)
    &&& clamped(m, raw, zero, one, r)
}

/// Where the frequency `f` stands in the picture.
pub fn place<S: Copy, M: DrawMath<S>>(m: &M, f: S, f_min: S, f_max: S) -> (r: S)
    ensures
        placed(m, f, f_min, f_max, r),
{
    let least = m.ratio(1, 2);
    let held = higher(m, f, least);
    let log = m.log_ten(held);
    let lo = m.log_ten(f_min);
    let hi = m.log_ten(f_max);
    let gone = m.diff(log, lo);
    let span = m.diff(hi, lo);
    let raw = m.quot(gone, span);
    let zero = m.ratio(0, 1);
    let one = m.ratio(1, 1);
    let r = clamp_sample(m, raw, zero, one);
    assert(placed_by(
        m,
        f,
        f_min,
        f_max,
        least,
        held,
        log,
        lo,
        hi,
        gone,
        span,
        raw,
        zero,
        one,
        r,
    ));
    r
}

/// `r` is the height of bar `i` of `n`, if it is high enough to be drawn: the
/// root of the level in the bin that its frequency falls into. Frequencies past
/// either end of the spectrum fall into the bin there.
pub open spec fn bar_height<S, M: DrawMath<S>>(
    m: &M,
    levels: Seq<S>,
    i: int,
    n: usize,
    f_min: S,
    f_max: S,
    bin_hz: S,
    r: Option<S>,
) -> bool {
    exists|f: S, place: S, lo: S, hi: S, held: S, bin: usize, v: S, least: S, faint: bool|
        #[trigger]
        bar_height_by(
            m,
            levels,
            i,
            n,
            f_min,
            f_max,
            bin_hz,
            f,
            place,
            lo,
            hi,
            held,
            bin,
            v,
            least,
            faint,
            r,
        )
}

/// [`bar_height`], with its intermediate values.
pub open spec fn bar_height_by<S, M: DrawMath<S>>(
    m: &M,
    levels: Seq<S>,
    i: int,
    n: usize,
    f_min: S,
    f_max: S,
    bin_hz: S,
    f: S,
    place: S,
    lo: S,
    hi: S,
    held: S,
    bin: usize,
    v: S,
    least: S,
    faint: bool,
    r: Option<S>,
) -> bool {
    let last = levels.len() - 1;
    &&& bar_frequency(m, i as usize, n, f_min, f_max, f)
    &&& call_ensures(M::quot, (m, f, bin_hz), place)
    &&& call_ensures(M::ratio, (m, 0i32, 1u32), lo)
    &&& call_ensures(M::count, (m, last as usize), hi)
    &&& clamped(m, place, lo, hi, held)
    &&& call_ensures(M::floor_index, (m, held), bin)
    &&& call_ensures(
        M::root,
        (
            m,
            levels[if bin <= last {
                bin as int
            } else {
                last
            }],
        ),
        v,
    )
    &&& call_ensures(M::ratio, (m, 5i32, 1000u32), least)
    &&& call_ensures(M::less, (m, v, least), faint)
    &&& r == if faint {
        None
    } else {
        Some(v)
    }
}

/// The heights of `n` bars over the given levels, where bins are `bin_hz` apart.
pub fn bars<S: Copy, M: DrawMath<S>>(
    m: &M,
    levels: &Vec<S>,
    n: usize,
    f_min: S,
    f_max: S,
    bin_hz: S,
) -> (heights: Vec<Option<S>>)
    requires
        0 < levels@.len(),
    ensures
        heights@.len() == n,
        forall|i: int|
            0 <= i < n ==> bar_height(
                m,
                levels@,
                i,
                n,
                f_min,
                f_max,
                bin_hz,
                #[trigger] heights@[i],
            ),
{
    let last: usize = levels.len() - 1;
    let mut heights: Vec<Option<S>> = Vec::new();
    let mut i: usize = 0;
    while i < n
        invariant
            0 < levels@.len(),
            last == levels@.len() - 1,
            i <= n,
            heights@.len() == i,
            forall|j: int|
                0 <= j < i ==> bar_height(
                    m,
                    levels@,
                    j,
                    n,
                    f_min,
                    f_max,
                    bin_hz,
                    #[trigger] heights@[j],
                ),
        decreases n - i,
    {
        let f = bar_hz(m, i, n, f_min, f_max);
        let place = m.quot(f, bin_hz);
        let lo = m.ratio(0, 1);
        let hi = m.count(last);
        let held = clamp_sample(m, place, lo, hi);
        let bin = m.floor_index(held);
        let index: usize = if bin <= last {
            bin
        } else {
            last
        };
        let v = m.root(levels[index]);
        let least = m.ratio(5, 1000);
        let faint = m.less(v, least);
        let r = if faint {
            None
        } else {
            Some(v)
        };
        assert(bar_height_by(
            m,
            levels@,
            i as int,
            n,
            f_min,
            f_max,
            bin_hz,
            f,
            place,
            lo,
            hi,
            held,
            bin,
            v,
            least,
            faint,
            r,
        ));
        heights.push(r);
        i = i + 1;
    }
    heights
}

/// `shown` says whether the shift is large enough to be shown: more than 1 Hz.
pub open spec fn shift_shown<S, M: SampleMath<S>>(m: &M, shift: S, shown: bool) -> bool {
    exists|one: S, size: S|
        call_ensures(M::ratio, (m, 1i32, 1u32), one) && call_ensures(
            M::magnitude,
            (m, shift),
            size,
        ) && #[trigger] call_ensures(M::less, (m, one, size), shown)
}

/// Whether the shift is large enough to be shown.
pub fn shift_is_shown<S: Copy, M: SampleMath<S>>(m: &M, shift: S) -> (shown: bool)
    ensures
        shift_shown(m, shift, shown),
{
    let one = m.ratio(1, 1);
    let size = m.magnitude(shift);
    let shown = m.less(one, size);
    assert(call_ensures(M::less, (m, one, size), shown));
    shown
}

/// The sign in front of an upward shift.
pub fn shift_sign<S: Copy, M: SampleMath<S>>(m: &M, shift: S) -> (s: &'static str)
    ensures
        exists|zero: S, up: bool|
            call_ensures(M::ratio, (m, 0i32, 1u32), zero) && #[trigger] call_ensures(
                M::less,
                (m, zero, shift),
                up,
            ) && s@ == if up {
                "+"@
            } else {
                ""@
            },
{
    let zero = m.ratio(0, 1);
    let up = m.less(zero, shift);
    assert(call_ensures(M::less, (m, zero, shift), up));
    if up {
        "+"
    } else {
        ""
    }
}

/// `r` is the arrow from the tick to where it is moved: there is one if the tick
/// lies in the band and in view, and lands in view.
pub open spec fn arrow_from<S, M: SampleMath<S>>(
    m: &M,
    tick: u32,
    band: (S, S, S),
    f_min: S,
    f_max: S,
    r: Option<(S, S)>,
) -> bool {
    exists|
        hz: S,
        slack: S,
        lo: S,
        below: bool,
        hi: S,
        above: bool,
        hidden: bool,
        target: S,
        sunk: bool,
        gone: bool,
    | #[trigger]
        arrow_from_by(
            m,
            tick,
            band,
            f_min,
            f_max,
            hz,
            slack,
            lo,
            below,
            hi,
            above,
            hidden,
            target,
            sunk,
            gone,
            r,
        )
}

/// [`arrow_from`], with its intermediate values.
pub open spec fn arrow_from_by<S, M: SampleMath<S>>(
    m: &M,
    tick: u32,
    band: (S, S, S),
    f_min: S,
    f_max: S,
    hz: S,
    slack: S,
    lo: S,
    below: bool,
    hi: S,
    above: bool,
    hidden: bool,
    target: S,
    sunk: bool,
    gone: bool,
    r: Option<(S, S)>,
) -> bool {
    &&& call_ensures(M::ratio, (m, tick as i32, 1u32), hz)
    &&& call_ensures(M::ratio, (m, 1i32, 100u32), slack)
    &&& call_ensures(M::diff, (m, band.0, slack), lo)
    &&& call_ensures(M::less, (m, hz, lo), below)
    &&& call_ensures(M::sum, (m, band.1, slack), hi)
    &&& call_ensures(M::less, (m, hi, hz), above)
    &&& out_of_view(m, hz, f_max, hidden)
    &&& call_ensures(M::sum, (m, hz, band.2), target)
    &&& call_ensures(M::at_most, (m, target, f_min), sunk)
    &&& call_ensures(M::at_most, (m, f_max, target), gone)
    &&& r == if below || above || hidden || sunk || gone {
        None
    } else {
        Some((hz, target))
    }
}

/// The arrow from the `i`-th tick to where it is moved.
pub fn shift_arrow<S: Copy, M: SampleMath<S>>(
    m: &M,
    i: usize,
    band: (S, S, S),
    f_min: S,
    f_max: S,
) -> (r: Option<(S, S)>)
    requires
        i < 3,
    ensures
        arrow_from(m, TICKS@[i as int], band, f_min, f_max, r),
{
    let tick = TICKS[i];
    let hz = m.ratio(tick as i32, 1);
    let slack = m.ratio(1, 100);
    let lo = m.diff(band.0, slack);
    let below = m.less(hz, lo);
    let hi = m.sum(band.1, slack);
    let above = m.less(hi, hz);
    let hidden = m.less(f_max, hz);
    let target = m.sum(hz, band.2);
    let sunk = m.at_most(target, f_min);
    let gone = m.at_most(f_max, target);
    let r = if below || above || hidden || sunk || gone {
        None
    } else {
        Some((hz, target))
    };
    assert(arrow_from_by(
        m,
        TICKS@[i as int],
        band,
        f_min,
        f_max,
        hz,
        slack,
        lo,
        below,
        hi,
        above,
        hidden,
        target,
        sunk,
        gone,
        r,
    ));
    r
}

/// The label of the cutoff line, where `hz` is the cutoff as shown.
pub fn cutoff_text(side: CutoffSide, hz: &str) -> (r: String)
    ensures
        r@ == "cutoff "@ + match side {
            CutoffSide::Above => "▶"@,
            CutoffSide::Below => "◀"@,
        } + " "@ + hz@ + " Hz"@,
{
    let mut r = "cutoff ".to_owned();
    r.append(side.arrow());
    r.append(" ");
    r.append(hz);
    r.append(" Hz");
    r
}

/// The label of the shift, where `hz` is the shift as shown.
pub fn shift_text(sign: &str, hz: &str) -> (r: String)
    ensures
        r@ == sign@ + hz@ + " Hz   →   100 / 1k / 10k"@,
{
    let mut r = sign.to_owned();
    r.append(hz);
    r.append(" Hz   →   100 / 1k / 10k");
    r
}

} // verus!
