//! The control surface: what can be set, and what is shown of it.

use vstd::prelude::*;
use vstd::string::*;

use crate::audio::SourceKind;
use crate::dsp::engine::{EngineMode, Params};
use crate::dsp::modes::SpecMode;
use crate::frame::FFT_SIZE;
use crate::math::{clamp_sample, clamped, SampleMath};

verus! {

/// The sliders.
#[derive(Clone, Copy, Debug, PartialEq, Eq, Structural)]
pub enum Control {
    SsbShift,
    StereoSpread,
    UpperLevel,
    LowerLevel,
    Feedback,
    SsbMix,
    SpecShift,
    Cutoff,
    SpecMix,
    OutputGain,
}

/// The ends of a slider, and how far one notch is, all in thousandths.
#[derive(Clone, Copy, Debug, PartialEq, Eq, Structural)]
pub struct Range {
    pub min: i32,
    pub max: i32,
    pub step: i32,
}

impl Control {
    /// What the slider is called.
    pub fn label(self) -> (s: &'static str)
        ensures
            s@ == match self {
                Control::SsbShift => "shift"@,
                Control::StereoSpread => "stereo spread"@,
                Control::UpperLevel => "upper sb"@,
                Control::LowerLevel => "lower sb"@,
                Control::Feedback => "feedback"@,
                Control::SsbMix => "dry / wet"@,
                Control::SpecShift => "shift"@,
                Control::Cutoff => "cutoff"@,
                Control::SpecMix => "dry / wet"@,
                Control::OutputGain => "output"@,
            },
    {
        match self {
            Control::SsbShift => "shift",
            Control::StereoSpread => "stereo spread",
            Control::UpperLevel => "upper sb",
            Control::LowerLevel => "lower sb",
            Control::Feedback => "feedback",
            Control::SsbMix => "dry / wet",
            Control::SpecShift => "shift",
            Control::Cutoff => "cutoff",
            Control::SpecMix => "dry / wet",
            Control::OutputGain => "output",
        }
    }

    /// Whether the slider sets a frequency.
    pub open spec fn in_hz(self) -> bool {
        match self {
            Control::SsbShift => true,
            Control::StereoSpread => true,
            Control::SpecShift => true,
            Control::Cutoff => true,
            _ => false,
        }
    }

    /// Whether the slider sets a frequency. It is then shown in Hz, to the
    /// whole number; else it is a plain number, shown to the thousandth.
    pub fn is_frequency(self) -> (b: bool)
        ensures
            b == self.in_hz(),
    {
        match self {
            Control::SsbShift => true,
            Control::StereoSpread => true,
            Control::SpecShift => true,
            Control::Cutoff => true,
            _ => false,
        }
    }

    /// The unit, as shown.
    pub fn suffix(self) -> (s: &'static str)
        ensures
            s@ == if self.in_hz() {
                "Hz"@
            } else {
                ""@
            },
    {
        if self.is_frequency() {
            "Hz"
        } else {
            ""
        }
    }

    /// How many decimals are shown.
    pub fn decimals(self) -> (d: u8)
        ensures
            d == if self.in_hz() {
                0int
            } else {
                3int
            },
    {
        if self.is_frequency() {
            0
        } else {
            3
        }
    }

    /// Whether the slider is drawn from its middle: the two shifts.
    pub fn is_bipolar(self) -> (b: bool)
        ensures
            b == (self == Control::SsbShift || self == Control::SpecShift),
    {
        match self {
            Control::SsbShift => true,
            Control::SpecShift => true,
            _ => false,
        }
    }

    /// The ends of the slider.
    pub open spec fn bounds(self) -> Range {
        match self {
            Control::SsbShift => Range { min: -2_000_000i32, max: 2_000_000, step: 1000 },
            Control::StereoSpread => Range { min: 0, max: 2_000_000, step: 1000 },
            Control::UpperLevel => Range { min: 0, max: 1000, step: 1 },
            Control::LowerLevel => Range { min: 0, max: 1000, step: 1 },
            Control::Feedback => Range { min: 0, max: 920, step: 1 },
            Control::SsbMix => Range { min: 0, max: 1000, step: 1 },
            Control::SpecShift => Range { min: -2_000_000i32, max: 2_000_000, step: 1000 },
            Control::Cutoff => Range { min: 30_000, max: 10_000_000, step: 1000 },
            Control::SpecMix => Range { min: 0, max: 1000, step: 1 },
            Control::OutputGain => Range { min: 0, max: 2000, step: 1 },
        }
    }

    /// The ends of the slider.
    pub fn range(self) -> (r: Range)
        ensures
            r == self.bounds(),
    {
        match self {
            Control::SsbShift => Range { min: -2_000_000i32, max: 2_000_000, step: 1000 },
            Control::StereoSpread => Range { min: 0, max: 2_000_000, step: 1000 },
            Control::UpperLevel => Range { min: 0, max: 1000, step: 1 },
            Control::LowerLevel => Range { min: 0, max: 1000, step: 1 },
            Control::Feedback => Range { min: 0, max: 920, step: 1 },
            Control::SsbMix => Range { min: 0, max: 1000, step: 1 },
            Control::SpecShift => Range { min: -2_000_000i32, max: 2_000_000, step: 1000 },
            Control::Cutoff => Range { min: 30_000, max: 10_000_000, step: 1000 },
            Control::SpecMix => Range { min: 0, max: 1000, step: 1 },
            Control::OutputGain => Range { min: 0, max: 2000, step: 1 },
        }
    }

    /// The setting behind the slider.
    pub open spec fn setting<S>(self, p: Params<S>) -> S {
        match self {
            Control::SsbShift => p.ssb.shift_hz,
            Control::StereoSpread => p.ssb.stereo_spread_hz,
            Control::UpperLevel => p.ssb.upper_level,
            Control::LowerLevel => p.ssb.lower_level,
            Control::Feedback => p.ssb.feedback,
            Control::SsbMix => p.ssb.mix,
            Control::SpecShift => p.spec.shift_hz,
            Control::Cutoff => p.spec.cutoff_hz,
            Control::SpecMix => p.spec.mix,
            Control::OutputGain => p.output_gain,
        }
    }

    /// Where the slider stands.
    pub fn read<S: Copy>(self, p: &Params<S>) -> (v: S)
        ensures
            v == self.setting(*p),
    {
        match self {
            Control::SsbShift => p.ssb.shift_hz,
            Control::StereoSpread => p.ssb.stereo_spread_hz,
            Control::UpperLevel => p.ssb.upper_level,
            Control::LowerLevel => p.ssb.lower_level,
            Control::Feedback => p.ssb.feedback,
            Control::SsbMix => p.ssb.mix,
            Control::SpecShift => p.spec.shift_hz,
            Control::Cutoff => p.spec.cutoff_hz,
            Control::SpecMix => p.spec.mix,
            Control::OutputGain => p.output_gain,
        }
    }

    /// Moves the slider. The other sliders, the engine, the profile and the hop
    /// stay.
    pub fn write<S: Copy>(self, p: &mut Params<S>, v: S)
        ensures
            self.moved(*old(p), v, *final(p)),
    {
        match self {
            Control::SsbShift => p.ssb.shift_hz = v,
            Control::StereoSpread => p.ssb.stereo_spread_hz = v,
            Control::UpperLevel => p.ssb.upper_level = v,
            Control::LowerLevel => p.ssb.lower_level = v,
            Control::Feedback => p.ssb.feedback = v,
            Control::SsbMix => p.ssb.mix = v,
            Control::SpecShift => p.spec.shift_hz = v,
            Control::Cutoff => p.spec.cutoff_hz = v,
            Control::SpecMix => p.spec.mix = v,
            Control::OutputGain => p.output_gain = v,
        }
    }

    /// `post` is `pre` with this slider at `v`, and nothing else changed.
    pub open spec fn moved<S>(self, pre: Params<S>, v: S, post: Params<S>) -> bool {
        &&& self.setting(post) == v
        &&& forall|other: Control| other != self ==> #[trigger] other.setting(post)
            == other.setting(pre)
        &&& post.mode == pre.mode
        &&& post.spec.mode == pre.spec.mode
        &&& post.spec.hop_size == pre.spec.hop_size
    }
}

/// `post` is `pre` with another engine, and nothing else changed.
pub open spec fn engine_chosen<S>(pre: Params<S>, mode: EngineMode, post: Params<S>) -> bool {
    &&& post.mode == mode
    &&& forall|c: Control| #[trigger] c.setting(post) == c.setting(pre)
    &&& post.spec.mode == pre.spec.mode
    &&& post.spec.hop_size == pre.spec.hop_size
}

/// The tabs: another engine is heard. The sliders, the profile and the hop stay.
pub fn choose_engine<S: Copy>(p: &mut Params<S>, mode: EngineMode)
    ensures
        engine_chosen(*old(p), mode, *final(p)),
{
    p.mode = mode;
}

/// `post` is `pre` with another profile, and nothing else changed.
pub open spec fn profile_chosen<S>(pre: Params<S>, profile: SpecMode, post: Params<S>) -> bool {
    &&& post.spec.mode == profile
    &&& forall|c: Control| #[trigger] c.setting(post) == c.setting(pre)
    &&& post.mode == pre.mode
    &&& post.spec.hop_size == pre.spec.hop_size
}

/// The profile chips. The sliders, the engine and the hop stay.
pub fn choose_profile<S: Copy>(p: &mut Params<S>, profile: SpecMode)
    ensures
        profile_chosen(*old(p), profile, *final(p)),
{
    p.spec.mode = profile;
}

/// `post` is `pre` with another hop, and nothing else changed.
pub open spec fn hop_chosen<S>(pre: Params<S>, hop: usize, post: Params<S>) -> bool {
    &&& post.spec.hop_size == hop
    &&& forall|c: Control| #[trigger] c.setting(post) == c.setting(pre)
    &&& post.mode == pre.mode
    &&& post.spec.mode == pre.spec.mode
}

/// The hop chips. The sliders, the engine and the profile stay.
pub fn choose_hop<S: Copy>(p: &mut Params<S>, hop: usize)
    ensures
        hop_chosen(*old(p), hop, *final(p)),
{
    p.spec.hop_size = hop;
}

/// The sliders of the engine that is heard: the cutoff is there only where the
/// profile has one.
pub open spec fn sliders_of<S>(p: Params<S>) -> Seq<Control> {
    match p.mode {
        EngineMode::Ssb => seq![
            Control::SsbShift,
            Control::StereoSpread,
            Control::UpperLevel,
            Control::LowerLevel,
            Control::Feedback,
            Control::SsbMix,
        ],
        EngineMode::Spectral => if p.spec.mode == SpecMode::Linear {
            seq![Control::SpecShift, Control::SpecMix]
        } else {
            seq![Control::SpecShift, Control::Cutoff, Control::SpecMix]
        },
    }
}

/// The sliders of the engine that is heard, from top to bottom.
pub fn engine_sliders<S: Copy>(p: &Params<S>) -> (r: Vec<Control>)
    ensures
        r@ == sliders_of(*p),
{
    let mut r: Vec<Control> = Vec::new();
    match p.mode {
        EngineMode::Ssb => {
            r.push(Control::SsbShift);
            r.push(Control::StereoSpread);
            r.push(Control::UpperLevel);
            r.push(Control::LowerLevel);
            r.push(Control::Feedback);
            r.push(Control::SsbMix);
        },
        EngineMode::Spectral => {
            r.push(Control::SpecShift);
            if p.spec.mode != SpecMode::Linear {
                r.push(Control::Cutoff);
            }
            r.push(Control::SpecMix);
        },
    }
    assert(r@ =~= sliders_of(*p));
    r
}

/// What a typed number does: it is held to the ends of the slider, set, and
/// shown. What is no number sets nothing, and the old value is shown again.
pub open spec fn entered<S, M: SampleMath<S>>(
    m: &M,
    typed: Option<S>,
    current: S,
    min: S,
    max: S,
    set: Option<S>,
    shown: S,
) -> bool {
    match typed {
        Some(v) => set == Some(shown) && clamped(m, v, min, max, shown),
        None => set is None && shown == current,
    }
}

/// What a typed number does: what is set, if anything, and what is then shown.
pub fn enter<S: Copy, M: SampleMath<S>>(
    m: &M,
    typed: Option<S>,
    current: S,
    min: S,
    max: S,
) -> (r: (Option<S>, S))
    ensures
        entered(m, typed, current, min, max, r.0, r.1),
{
    match typed {
        Some(v) => {
            let held = clamp_sample(m, v, min, max);
            (Some(held), held)
        },
        None => (None, current),
    }
}

/// What a slider is set to when it is moved to where `parsed` says: to zero where
/// that is no number.
pub fn slide<S: Copy, M: SampleMath<S>>(m: &M, parsed: Option<S>) -> (v: S)
    ensures
        match parsed {
            Some(x) => v == x,
            None => call_ensures(M::ratio, (m, 0i32, 1u32), v),
        },
{
    match parsed {
        Some(x) => x,
        None => m.ratio(0, 1),
    }
}

/// `r` is how far `v` is on the way from `min` to `max`, in percent, held to the
/// range from 0 to 100.
pub open spec fn percentage<S, M: SampleMath<S>>(m: &M, v: S, min: S, max: S, r: S) -> bool {
    exists|gone: S, whole: S, share: S, hundred: S, raw: S, zero: S| #[trigger]
        percentage_by(m, v, min, max, gone, whole, share, hundred, raw, zero, r)
}

/// [`percentage`], with its intermediate values.
pub open spec fn percentage_by<S, M: SampleMath<S>>(
    m: &M,
    v: S,
    min: S,
    max: S,
    gone: S,
    whole: S,
    share: S,
    hundred: S,
    raw: S,
    zero: S,
    r: S,
) -> bool {
    &&& call_ensures(M::diff, (m, v, min), gone)
    &&& call_ensures(M::diff, (m, max, min), whole)
    &&& call_ensures(M::quot, (m, gone, whole), share)
    &&& call_ensures(M::ratio, (m, 100i32, 1u32), hundred)
    &&& call_ensures(M::prod, (m, share, hundred), raw)
    &&& call_ensures(M::ratio, (m, 0i32, 1u32), zero)
    &&& clamped(m, raw, zero, hundred, r)
}

/// How far `v` is on the way from `min` to `max`, in percent.
pub fn percent<S: Copy, M: SampleMath<S>>(m: &M, v: S, min: S, max: S) -> (r: S)
    ensures
        percentage(m, v, min, max, r),
{
    let gone = m.diff(v, min);
    let whole = m.diff(max, min);
    let share = m.quot(gone, whole);
    let hundred = m.ratio(100, 1);
    let raw = m.prod(share, hundred);
    let zero = m.ratio(0, 1);
    let r = clamp_sample(m, raw, zero, hundred);
    assert(percentage_by(m, v, min, max, gone, whole, share, hundred, raw, zero, r));
    r
}

/// `r` is how far zero is on the way from `min` to `max`, in percent, held to the
/// range from 0 to 100.
pub open spec fn zero_percentage<S, M: SampleMath<S>>(m: &M, min: S, max: S, r: S) -> bool {
    exists|gone: S, whole: S, share: S, hundred: S, raw: S, zero: S| #[trigger]
        zero_percentage_by(m, min, max, gone, whole, share, hundred, raw, zero, r)
}

/// [`zero_percentage`], with its intermediate values.
pub open spec fn zero_percentage_by<S, M: SampleMath<S>>(
    m: &M,
    min: S,
    max: S,
    gone: S,
    whole: S,
    share: S,
    hundred: S,
    raw: S,
    zero: S,
    r: S,
) -> bool {
    &&& call_ensures(M::opposite, (m, min), gone)
    &&& call_ensures(M::diff, (m, max, min), whole)
    &&& call_ensures(M::quot, (m, gone, whole), share)
    &&& call_ensures(M::ratio, (m, 100i32, 1u32), hundred)
    &&& call_ensures(M::prod, (m, share, hundred), raw)
    &&& call_ensures(M::ratio, (m, 0i32, 1u32), zero)
    &&& clamped(m, raw, zero, hundred, r)
}

/// How far zero is on the way from `min` to `max`, in percent.
pub fn zero_percent<S: Copy, M: SampleMath<S>>(m: &M, min: S, max: S) -> (r: S)
    ensures
        zero_percentage(m, min, max, r),
{
    let gone = m.opposite(min);
    let whole = m.diff(max, min);
    let share = m.quot(gone, whole);
    let hundred = m.ratio(100, 1);
    let raw = m.prod(share, hundred);
    let zero = m.ratio(0, 1);
    let r = clamp_sample(m, raw, zero, hundred);
    assert(zero_percentage_by(m, min, max, gone, whole, share, hundred, raw, zero, r));
    r
}

/// `r` is the part of a slider that is filled when it is drawn from its zero:
/// from zero to `v`, or from `v` to zero, in percent.
pub open spec fn filled_part<S, M: SampleMath<S>>(
    m: &M,
    v: S,
    min: S,
    max: S,
    r: (S, S),
) -> bool {
    exists|from: S, to: S, up: bool| #[trigger] filled_part_by(m, v, min, max, from, to, up, r)
}

/// [`filled_part`], with its intermediate values.
pub open spec fn filled_part_by<S, M: SampleMath<S>>(
    m: &M,
    v: S,
    min: S,
    max: S,
    from: S,
    to: S,
    up: bool,
    r: (S, S),
) -> bool {
    &&& zero_percentage(m, min, max, from)
    &&& percentage(m, v, min, max, to)
    &&& call_ensures(M::less, (m, from, to), up)
    &&& r == if up {
        (from, to)
    } else {
        (to, from)
    }
}

/// The part of a slider that is filled when it is drawn from its zero.
pub fn bipolar_fill<S: Copy, M: SampleMath<S>>(m: &M, v: S, min: S, max: S) -> (r: (S, S))
    ensures
        filled_part(m, v, min, max, r),
{
    let from = zero_percent(m, min, max);
    let to = percent(m, v, min, max);
    let up = m.less(from, to);
    let r = if up {
        (from, to)
    } else {
        (to, from)
    };
    assert(filled_part_by(m, v, min, max, from, to, up, r));
    r
}

/// `r` is how much of the meter is filled, in percent: it is full at 1.5.
pub open spec fn meter_fill<S, M: SampleMath<S>>(m: &M, peak: S, r: S) -> bool {
    exists|zero: S, full: S, held: S, share: S, hundred: S| #[trigger]
        meter_fill_by(m, peak, zero, full, held, share, hundred, r)
}

/// [`meter_fill`], with its intermediate values.
pub open spec fn meter_fill_by<S, M: SampleMath<S>>(
    m: &M,
    peak: S,
    zero: S,
    full: S,
    held: S,
    share: S,
    hundred: S,
    r: S,
) -> bool {
    &&& call_ensures(M::ratio, (m, 0i32, 1u32), zero)
    &&& call_ensures(M::ratio, (m, 3i32, 2u32), full)
    &&& clamped(m, peak, zero, full, held)
    &&& call_ensures(M::quot, (m, held, full), share)
    &&& call_ensures(M::ratio, (m, 100i32, 1u32), hundred)
    &&& call_ensures(M::prod, (m, share, hundred), r)
}

/// How much of the meter is filled, in percent.
pub fn meter_percent<S: Copy, M: SampleMath<S>>(m: &M, peak: S) -> (r: S)
    ensures
        meter_fill(m, peak, r),
{
    let zero = m.ratio(0, 1);
    let full = m.ratio(3, 2);
    let held = clamp_sample(m, peak, zero, full);
    let share = m.quot(held, full);
    let hundred = m.ratio(100, 1);
    let r = m.prod(share, hundred);
    assert(meter_fill_by(m, peak, zero, full, held, share, hundred, r));
    r
}

/// How many decimals a number is shown with, where `decimals` are asked for:
/// three at most.
pub fn shown_decimals(decimals: u8) -> (d: usize)
    ensures
        d == if decimals <= 2 {
            decimals as int
        } else {
            3
        },
{
    match decimals {
        0 => 0,
        1 => 1,
        2 => 2,
        _ => 3,
    }
}

/// Whether the windows overlap too little for the given hop: each sample should
/// lie under four of them.
pub fn hop_is_aliased(hop: usize) -> (b: bool)
    ensures
        b == (4 * hop > FFT_SIZE),
{
    hop > FFT_SIZE / 4
}

/// How many windows lie over each sample.
pub fn overlap_factor<S: Copy, M: SampleMath<S>>(m: &M, hop: usize) -> (r: S)
    ensures
        exists|size: S, step: S|
            call_ensures(M::count, (m, FFT_SIZE), size) && call_ensures(
                M::count,
                (m, hop),
                step,
            ) && #[trigger] call_ensures(M::quot, (m, size, step), r),
{
    let size = m.count(FFT_SIZE);
    let step = m.count(hop);
    let r = m.quot(size, step);
    assert(call_ensures(M::quot, (m, size, step), r));
    r
}

/// How long a hop is, in milliseconds.
pub fn hop_millis<S: Copy, M: SampleMath<S>>(m: &M, hop: usize, rate: S) -> (r: S)
    ensures
        exists|step: S, thousand: S, scaled: S|
            call_ensures(M::count, (m, hop), step) && call_ensures(
                M::ratio,
                (m, 1000i32, 1u32),
                thousand,
            ) && #[trigger] call_ensures(M::prod, (m, step, thousand), scaled) && call_ensures(
                M::quot,
                (m, scaled, rate),
                r,
            ),
{
    let step = m.count(hop);
    let thousand = m.ratio(1000, 1);
    let scaled = m.prod(step, thousand);
    assert(call_ensures(M::prod, (m, step, thousand), scaled));
    m.quot(scaled, rate)
}

/// What is told of a hop, where `overlap` and `millis` are its two numbers as
/// shown.
pub fn hop_text(hop: usize, overlap: &str, millis: &str) -> (r: String)
    ensures
        r@ == overlap@ + "× overlap · "@ + millis@ + " ms latency"@ + if 4 * hop > FFT_SIZE {
            "  ⚠ aliased OLA"@
        } else {
            ""@
        },
{
    let mut r = overlap.to_owned();
    r.append("× overlap · ");
    r.append(millis);
    r.append(" ms latency");
    r.append(
        if hop_is_aliased(hop) {
            "  ⚠ aliased OLA"
        } else {
            ""
        },
    );
    r
}

/// What is told of the loaded file, where `seconds` is a duration as shown: its
/// name, cut to 28 characters, comes first.
pub fn file_text(name: &str, seconds: &str) -> (r: String)
    ensures
        r@ == shortened(name@, 28) + " · "@ + seconds@ + "s"@,
{
    let mut r = truncate(name, 28);
    r.append(" · ");
    r.append(seconds);
    r.append("s");
    r
}

/// Whether the play button is off: there is nothing to play, or it plays already.
pub fn play_is_off(has_file: bool, source: SourceKind) -> (b: bool)
    ensures
        b == (!has_file || source == SourceKind::File),
{
    !has_file || source == SourceKind::File
}

/// Whether the stop button is off: nothing plays.
pub fn stop_is_off(source: SourceKind) -> (b: bool)
    ensures
        b == (source == SourceKind::Idle),
{
    source == SourceKind::Idle
}

/// `s`, cut to `max` characters, the last of which then is an ellipsis.
pub open spec fn shortened(s: Seq<char>, max: nat) -> Seq<char> {
    if s.len() <= max {
        s
    } else {
        s.take(max - 1) + "…"@
    }
}

/// Cuts a text to `max` characters, the last of which then is an ellipsis.
pub fn truncate(s: &str, max: usize) -> (r: String)
    requires
        s@.len() <= max || 1 <= max,
    ensures
        r@ == shortened(s@, max as nat),
{
    if s.unicode_len() <= max {
        s.to_owned()
    } else {
        let mut out = s.substring_char(0, max - 1).to_owned();
        out.append("…");
        assert(s@.subrange(0, max - 1) =~= s@.take(max - 1));
        out
    }
}

/// A slider that is moved stands where it was moved to, and no other slider has
/// moved.
pub proof fn law_sliders_are_independent<S>(
    c: Control,
    other: Control,
    pre: Params<S>,
    v: S,
    post: Params<S>,
)
    requires
        c.moved(pre, v, post),
        other != c,
    ensures
        c.setting(post) == v,
        other.setting(post) == other.setting(pre),
{
}

/// The settings are what the sliders, the engine, the profile and the hop say:
/// where those agree, so do the settings.
pub proof fn law_sliders_are_all_there_is<S>(a: Params<S>, b: Params<S>)
    requires
        forall|c: Control| #[trigger] c.setting(a) == c.setting(b),
        a.mode == b.mode,
        a.spec.mode == b.spec.mode,
        a.spec.hop_size == b.spec.hop_size,
    ensures
        a == b,
{
    assert(Control::SsbShift.setting(a) == Control::SsbShift.setting(b));
    assert(Control::StereoSpread.setting(a) == Control::StereoSpread.setting(b));
    assert(Control::UpperLevel.setting(a) == Control::UpperLevel.setting(b));
    assert(Control::LowerLevel.setting(a) == Control::LowerLevel.setting(b));
    assert(Control::Feedback.setting(a) == Control::Feedback.setting(b));
    assert(Control::SsbMix.setting(a) == Control::SsbMix.setting(b));
    assert(Control::SpecShift.setting(a) == Control::SpecShift.setting(b));
    assert(Control::Cutoff.setting(a) == Control::Cutoff.setting(b));
    assert(Control::SpecMix.setting(a) == Control::SpecMix.setting(b));
    assert(Control::OutputGain.setting(a) == Control::OutputGain.setting(b));
}

/// Each handler has the last word on its own setting and none on the others: a
/// slider, the tabs, the profile chips and the hop chips, used in whatever order,
/// leave the same settings.
pub proof fn law_handlers_do_not_meddle<S>(
    c: Control,
    v: S,
    mode: EngineMode,
    profile: SpecMode,
    hop: usize,
    pre: Params<S>,
    s1: Params<S>,
    s2: Params<S>,
    s3: Params<S>,
    one: Params<S>,
    t1: Params<S>,
    t2: Params<S>,
    t3: Params<S>,
    other: Params<S>,
)
    requires
        c.moved(pre, v, s1),
        engine_chosen(s1, mode, s2),
        profile_chosen(s2, profile, s3),
        hop_chosen(s3, hop, one),
        hop_chosen(pre, hop, t1),
        profile_chosen(t1, profile, t2),
        engine_chosen(t2, mode, t3),
        c.moved(t3, v, other),
    ensures
        one == other,
        c.setting(one) == v,
        one.mode == mode,
        one.spec.mode == profile,
        one.spec.hop_size == hop,
{
    assert forall|d: Control| #[trigger] d.setting(one) == d.setting(other) by {
        if d == c {
            assert(c.setting(one) == c.setting(s3) && c.setting(s3) == c.setting(s2));
            assert(c.setting(s2) == c.setting(s1));
        } else {
            assert(d.setting(one) == d.setting(s3) && d.setting(s3) == d.setting(s2));
            assert(d.setting(s2) == d.setting(s1) && d.setting(s1) == d.setting(pre));
            assert(d.setting(other) == d.setting(t3) && d.setting(t3) == d.setting(t2));
            assert(d.setting(t2) == d.setting(t1) && d.setting(t1) == d.setting(pre));
        }
    }
    assert(c.setting(one) == c.setting(other));
    law_sliders_are_all_there_is(one, other);
}

/// A shortened text is no longer than asked for.
pub proof fn law_shortened_fits(s: Seq<char>, max: nat)
    requires
        s.len() <= max || 1 <= max,
    ensures
        shortened(s, max).len() <= max,
{
    reveal_strlit("…");
}

} // verus!
