//! The transport, the control surface and the picture of the spectrum.

use tasahertsio::audio::{
    file_was_picked, Audio, LoadFailure, LoadStep, MicNext, PlayNext, SourceKind, Status,
};
use tasahertsio::controls::{
    bipolar_fill, choose_engine, choose_hop, choose_profile, engine_sliders, enter, file_text,
    hop_is_aliased, hop_millis, hop_text, meter_percent, overlap_factor, percent, play_is_off,
    shown_decimals, slide, stop_is_off, truncate, zero_percent, Control,
};
use tasahertsio::dsp::engine::{EngineMode, Params};
use tasahertsio::dsp::spectral::SpecMode;
use tasahertsio::math::{DrawMath, SampleMath};
use tasahertsio::spectrum::{
    active_band, bar_count, bar_hz, bars, bin_width, css_extent, cutoff_line, cutoff_text,
    grid_lines, new_extent, place, shift_arrow, shift_is_shown, shift_sign, shift_text,
    tick_label, tinted, view_range, CutoffSide, TICKS,
};

struct Plain;

impl SampleMath<f32> for Plain {
    fn ratio(&self, num: i32, den: u32) -> f32 {
        num as f32 / den as f32
    }
    fn count(&self, n: usize) -> f32 {
        n as f32
    }
    fn sum(&self, a: f32, b: f32) -> f32 {
        a + b
    }
    fn diff(&self, a: f32, b: f32) -> f32 {
        a - b
    }
    fn prod(&self, a: f32, b: f32) -> f32 {
        a * b
    }
    fn quot(&self, a: f32, b: f32) -> f32 {
        a / b
    }
    fn mul_add(&self, acc: f32, a: f32, b: f32) -> f32 {
        acc + a * b
    }
    fn magnitude(&self, a: f32) -> f32 {
        a.abs()
    }
    fn opposite(&self, a: f32) -> f32 {
        -a
    }
    fn less(&self, a: f32, b: f32) -> bool {
        a < b
    }
    fn at_most(&self, a: f32, b: f32) -> bool {
        a <= b
    }
    fn half_turn(&self) -> f32 {
        std::f32::consts::PI
    }
    fn full_turn(&self) -> f32 {
        std::f32::consts::TAU
    }
    fn cosine(&self, angle: f32) -> f32 {
        angle.cos()
    }
    fn sin_cos(&self, angle: f32) -> (f32, f32) {
        angle.sin_cos()
    }
    fn floor_index(&self, a: f32) -> usize {
        a.floor() as usize
    }
}

impl DrawMath<f32> for Plain {
    fn share(&self, i: usize, n: usize) -> f32 {
        (i as f64 / n as f64) as f32
    }
    fn log_ten(&self, a: f32) -> f32 {
        a.log10()
    }
    fn ten_to(&self, a: f32) -> f32 {
        10f32.powf(a)
    }
    fn root(&self, a: f32) -> f32 {
        a.sqrt()
    }
}

/// Handles are plain numbers here.
type Rig = Audio<f32, u32, u32, u32, u32>;

fn rig() -> Rig {
    Audio::new(&Plain, 48000.0)
}

// ------------------------------------------------------------------ transport

#[test]
fn a_new_transport_is_at_rest() {
    let a = rig();
    assert_eq!(a.sample_rate(), 48000.0);
    assert_eq!(a.fft_size(), 2048);
    assert!(!a.has_file());
    assert_eq!(a.loaded_name(), None);
    assert_eq!(a.loaded_duration(), 0.0);
    assert_eq!(a.current_source(), SourceKind::Idle);
    assert_eq!(a.status_message(), "");
    assert_eq!(a.peak(), 0.0);
    assert_eq!(a.params.output_gain, 0.9);
    assert_eq!(SourceKind::default(), SourceKind::Idle);
    let s: Status<f32> = Status::default(&Plain);
    assert_eq!((s.message.as_str(), s.source, s.loaded_duration), ("", SourceKind::Idle, 0.0));
}

#[test]
fn there_is_nothing_to_play_before_a_file_is_in() {
    let mut a = rig();
    let (out, next) = a.play_file();
    assert_eq!(next, PlayNext::Nothing);
    assert!(out.file.is_none() && out.mic.is_none() && out.stream.is_none());
    assert_eq!(a.status_message(), "no file loaded");
    assert_eq!(a.current_source(), SourceKind::Idle);
}

#[test]
fn a_file_comes_in_and_plays() {
    let mut a = rig();
    a.load_begun("song.wav");
    assert_eq!(a.status_message(), "decoding song.wav…");
    a.load_done("song.wav".to_string(), 12.34, "12.3", 7);
    assert_eq!(a.status_message(), "loaded (12.3s) — press play");
    assert!(a.has_file());
    assert_eq!(a.loaded_name(), Some("song.wav".to_string()));
    assert_eq!(a.loaded_duration(), 12.34);
    assert_eq!(a.loaded_buffer, Some(7));
    let (_, next) = a.play_file();
    assert_eq!(next, PlayNext::Start);
    assert_eq!(a.status_message(), "stopped");
    a.file_started(40);
    assert_eq!(a.status_message(), "playing file");
    assert_eq!(a.current_source(), SourceKind::File);
    let out = a.stop();
    assert_eq!((out.file, out.mic, out.stream), (Some(40), None, None));
    assert_eq!(a.status_message(), "stopped");
    assert_eq!(a.current_source(), SourceKind::Idle);
    assert!(a.has_file());
}

#[test]
fn a_file_plays_alone() {
    let mut a = rig();
    a.load_done("x".to_string(), 1.0, "1.0", 7);
    a.attach_mic_stream(50, 60);
    let (out, next) = a.play_file();
    assert_eq!(next, PlayNext::Start);
    assert_eq!((out.file, out.mic, out.stream), (None, Some(50), Some(60)));
    a.file_started(41);
    assert_eq!((a.file_source, a.mic_source, a.mic_stream), (Some(41), None, None));
}

#[test]
fn stopping_twice_releases_nothing_more() {
    let mut a = rig();
    a.attach_mic_stream(50, 60);
    let out = a.stop();
    assert_eq!((out.mic, out.stream), (Some(50), Some(60)));
    let again = a.stop();
    assert!(again.file.is_none() && again.mic.is_none() && again.stream.is_none());
}

#[test]
fn the_microphone_goes_on_and_off() {
    let mut a = rig();
    a.load_done("x".to_string(), 1.0, "1.0", 7);
    a.play_file();
    a.file_started(41);
    let (out, next) = a.toggle_mic();
    assert_eq!(next, MicNext::Request);
    assert_eq!(out.file, Some(41));
    a.attach_mic_stream(50, 60);
    assert_eq!(a.status_message(), "microphone live");
    assert_eq!(a.current_source(), SourceKind::Mic);
    let (out, next) = a.toggle_mic();
    assert_eq!(next, MicNext::Off);
    assert_eq!((out.mic, out.stream), (Some(50), Some(60)));
    assert_eq!(a.status_message(), "stopped");
    let out = a.begin_mic_request();
    assert!(out.file.is_none() && out.mic.is_none());
}

#[test]
fn a_file_that_fails_leaves_the_old_one() {
    let mut a = rig();
    a.load_done("old".to_string(), 1.0, "1.0", 7);
    for (why, text) in [
        (LoadFailure::Unreadable, "failed to read file"),
        (LoadFailure::NotBytes, "not an ArrayBuffer"),
        (LoadFailure::Undecodable, "decode failed"),
        (LoadFailure::NotAudio, "decoded value not AudioBuffer"),
    ] {
        a.load_failed(why);
        assert_eq!(a.status_message(), text);
        assert_eq!(a.loaded_name(), Some("old".to_string()));
        assert_eq!(a.loaded_buffer, Some(7));
    }
}

#[test]
fn loading_takes_five_steps() {
    let steps =
        [LoadStep::Read, LoadStep::Cast, LoadStep::Decode, LoadStep::Await, LoadStep::Check];
    let fails = [
        LoadFailure::Unreadable,
        LoadFailure::NotBytes,
        LoadFailure::Undecodable,
        LoadFailure::Undecodable,
        LoadFailure::NotAudio,
    ];
    let mut at = LoadStep::Read;
    for k in 0..5 {
        assert_eq!(at, steps[k]);
        assert_eq!(at.next(false), Err(fails[k]));
        at = at.next(true).unwrap();
    }
    assert_eq!(at, LoadStep::Done);
    assert_eq!(at.next(true), Ok(LoadStep::Done));
    assert!(file_was_picked(Some(2)) && !file_was_picked(Some(0)) && !file_was_picked(None));
}

// ------------------------------------------------------------------- controls

const ALL: [Control; 10] = [
    Control::SsbShift,
    Control::StereoSpread,
    Control::UpperLevel,
    Control::LowerLevel,
    Control::Feedback,
    Control::SsbMix,
    Control::SpecShift,
    Control::Cutoff,
    Control::SpecMix,
    Control::OutputGain,
];

#[test]
fn moving_one_slider_moves_no_other() {
    for c in ALL {
        let before: Params<f32> = Params::default(&Plain);
        let mut p = before;
        c.write(&mut p, 0.123);
        for d in ALL {
            assert_eq!(d.read(&p), if d == c { 0.123 } else { d.read(&before) });
        }
        assert_eq!(p.spec.hop_size, 512);
    }
}

#[test]
fn tabs_and_chips_change_one_setting() {
    let mut p: Params<f32> = Params::default(&Plain);
    choose_engine(&mut p, EngineMode::Spectral);
    choose_profile(&mut p, SpecMode::Lowpass);
    choose_hop(&mut p, 64);
    Control::Cutoff.write(&mut p, 440.0);
    let mut q: Params<f32> = Params::default(&Plain);
    Control::Cutoff.write(&mut q, 440.0);
    choose_hop(&mut q, 64);
    choose_profile(&mut q, SpecMode::Lowpass);
    choose_engine(&mut q, EngineMode::Spectral);
    for x in [p, q] {
        assert_eq!((x.mode, x.spec.mode, x.spec.hop_size), (EngineMode::Spectral, SpecMode::Lowpass, 64));
        assert_eq!(x.spec.cutoff_hz, 440.0);
        assert_eq!((x.ssb.shift_hz, x.spec.shift_hz, x.output_gain), (80.0, 80.0, 0.9));
    }
    let mut a = rig();
    a.set_params(p);
    assert_eq!((a.params.mode, a.params.spec.cutoff_hz), (EngineMode::Spectral, 440.0));
    assert_eq!(a.current_source(), SourceKind::Idle);
}

#[test]
fn the_table_of_sliders() {
    let row = |c: Control| (c.label(), c.range().min, c.range().max, c.range().step);
    assert_eq!(row(Control::SsbShift), ("shift", -2_000_000, 2_000_000, 1000));
    assert_eq!(row(Control::StereoSpread), ("stereo spread", 0, 2_000_000, 1000));
    assert_eq!(row(Control::UpperLevel), ("upper sb", 0, 1000, 1));
    assert_eq!(row(Control::LowerLevel), ("lower sb", 0, 1000, 1));
    assert_eq!(row(Control::Feedback), ("feedback", 0, 920, 1));
    assert_eq!(row(Control::SsbMix), ("dry / wet", 0, 1000, 1));
    assert_eq!(row(Control::SpecShift), ("shift", -2_000_000, 2_000_000, 1000));
    assert_eq!(row(Control::Cutoff), ("cutoff", 30_000, 10_000_000, 1000));
    assert_eq!(row(Control::SpecMix), ("dry / wet", 0, 1000, 1));
    assert_eq!(row(Control::OutputGain), ("output", 0, 2000, 1));
    for c in ALL {
        let hz = c.range().step == 1000;
        assert_eq!(c.is_frequency(), hz);
        assert_eq!(c.suffix(), if hz { "Hz" } else { "" });
        assert_eq!(c.decimals(), if hz { 0 } else { 3 });
        assert_eq!(c.is_bipolar(), c.label() == "shift");
    }
}

#[test]
fn sliders_follow_the_engine_and_the_profile() {
    let mut p: Params<f32> = Params::default(&Plain);
    assert_eq!(engine_sliders(&p), ALL[..6].to_vec());
    p.mode = EngineMode::Spectral;
    assert_eq!(engine_sliders(&p), vec![Control::SpecShift, Control::SpecMix]);
    p.spec.mode = SpecMode::Lowpass;
    assert_eq!(
        engine_sliders(&p),
        vec![Control::SpecShift, Control::Cutoff, Control::SpecMix]
    );
}

#[test]
fn typed_numbers_are_held_to_the_range() {
    assert_eq!(enter(&Plain, Some(0.5), 0.1, 0.0, 0.92), (Some(0.5), 0.5));
    assert_eq!(enter(&Plain, Some(5.0), 0.1, 0.0, 0.92), (Some(0.92), 0.92));
    assert_eq!(enter(&Plain, Some(-5.0), 0.1, 0.0, 0.92), (Some(0.0), 0.0));
    assert_eq!(enter(&Plain, None, 0.1, 0.0, 0.92), (None, 0.1));
    assert_eq!(slide(&Plain, Some(3.5)), 3.5);
    assert_eq!(slide(&Plain, None), 0.0);
}

#[test]
fn fills_are_percentages() {
    assert_eq!(percent(&Plain, 0.25, 0.0, 1.0), 25.0);
    assert_eq!(percent(&Plain, 9.0, 0.0, 1.0), 100.0);
    assert_eq!(percent(&Plain, -9.0, 0.0, 1.0), 0.0);
    assert_eq!(bipolar_fill(&Plain, 1000.0, -2000.0, 2000.0), (50.0, 75.0));
    assert_eq!(bipolar_fill(&Plain, -1000.0, -2000.0, 2000.0), (25.0, 50.0));
    assert_eq!(zero_percent(&Plain, -2000.0, 2000.0), 50.0);
    assert_eq!(format!("{:.2}", zero_percent(&Plain, 0.0, 1.0)), "-0.00");
    assert_eq!(meter_percent(&Plain, 0.75), 50.0);
    assert_eq!(meter_percent(&Plain, 7.0), 100.0);
    assert_eq!(meter_percent(&Plain, -1.0), 0.0);
}

#[test]
fn small_rules() {
    assert_eq!([0, 1, 2, 3, 9].map(shown_decimals), [0, 1, 2, 3, 3]);
    assert!(!hop_is_aliased(512) && hop_is_aliased(513) && hop_is_aliased(1024));
    assert!(play_is_off(false, SourceKind::Idle) && play_is_off(true, SourceKind::File));
    assert!(!play_is_off(true, SourceKind::Idle) && !play_is_off(true, SourceKind::Mic));
    assert!(stop_is_off(SourceKind::Idle) && !stop_is_off(SourceKind::File));
}

#[test]
fn long_names_are_cut() {
    assert_eq!(truncate("abc", 3), "abc");
    assert_eq!(truncate("abcd", 3), "ab…");
    assert_eq!(truncate("äöüß", 3), "äö…");
    assert_eq!(truncate("abcd", 1), "…");
    assert_eq!(truncate("", 0), "");
    assert_eq!(truncate(&"x".repeat(40), 28).chars().count(), 28);
}

// ------------------------------------------------------------------- spectrum

#[test]
fn the_active_band_is_the_moving_side() {
    let mut p: Params<f32> = Params::default(&Plain);
    p.ssb.shift_hz = 11.0;
    p.spec.shift_hz = 22.0;
    assert_eq!(active_band(&p, 30.0, 20000.0), (30.0, 20000.0, 11.0));
    assert_eq!(cutoff_line(&p), None);
    p.spec.mode = SpecMode::Highpass;
    assert_eq!(cutoff_line(&p), None);
    p.mode = EngineMode::Spectral;
    assert_eq!(active_band(&p, 30.0, 20000.0), (1000.0, 20000.0, 22.0));
    assert_eq!(cutoff_line(&p), Some(CutoffSide::Above));
    p.spec.mode = SpecMode::Lowpass;
    assert_eq!(active_band(&p, 30.0, 20000.0), (30.0, 1000.0, 22.0));
    assert_eq!(cutoff_line(&p), Some(CutoffSide::Below));
    p.spec.mode = SpecMode::Linear;
    assert_eq!(active_band(&p, 30.0, 20000.0), (30.0, 20000.0, 22.0));
    assert_eq!(cutoff_line(&p), None);
    let above = CutoffSide::Above;
    assert_eq!((above.arrow(), above.offset(), above.align()), ("▶", 6, "left"));
    let below = CutoffSide::Below;
    assert_eq!((below.arrow(), below.offset(), below.align()), ("◀", -6, "right"));
}

#[test]
fn grid_lines_in_view() {
    assert_eq!(TICKS, [100, 1000, 10_000]);
    assert_eq!([0, 1, 2].map(tick_label), ["100", "1k", "10k"]);
    assert_eq!(grid_lines(&Plain, 20000.0), vec![Some(100.0), Some(1000.0), Some(10000.0)]);
    assert_eq!(grid_lines(&Plain, 10000.0), vec![Some(100.0), Some(1000.0), Some(10000.0)]);
    assert_eq!(grid_lines(&Plain, 4000.0), vec![Some(100.0), Some(1000.0), None]);
}

#[test]
fn bars_follow_the_levels() {
    assert_eq!([0, 64, 200, 384, 999].map(bar_count), [64, 64, 200, 384, 384]);
    let mut levels = vec![0.0f32; 1024];
    levels[1] = 0.25;
    let heights = bars(&Plain, &levels, 64, 30.0, 20000.0, 44100.0 / 2048.0);
    assert_eq!(heights.len(), 64);
    for (i, h) in heights.iter().enumerate() {
        let f = bar_hz(&Plain, i, 64, 30.0, 20000.0);
        let bin = (f / (44100.0 / 2048.0)).clamp(0.0, 1023.0) as usize;
        assert_eq!(*h, if bin == 1 { Some(0.5) } else { None });
    }
    assert_eq!(heights[0], Some(0.5));
    let low = bars(&Plain, &vec![0.04f32], 64, 30.0, 20000.0, 21.5);
    assert!(low.iter().all(|h| *h == Some(0.2)));
    let faint = bars(&Plain, &vec![0.00001f32], 64, 30.0, 20000.0, 21.5);
    assert!(faint.iter().all(|h| h.is_none()));
}

#[test]
fn arrows_stay_in_view() {
    let all = (30.0, 20000.0, 80.0);
    let at = |band, i| shift_arrow(&Plain, i, band, 30.0, 20000.0);
    assert_eq!(at(all, 0), Some((100.0, 180.0)));
    assert_eq!(at(all, 2), Some((10000.0, 10080.0)));
    assert_eq!(at((30.0, 20000.0, -80.0), 0), None);
    assert_eq!(at((30.0, 20000.0, -70.0), 0), None);
    assert_eq!(at((30.0, 20000.0, -69.0), 0), Some((100.0, 31.0)));
    assert_eq!(at((30.0, 20000.0, 10000.0), 2), None);
    assert_eq!(at((1000.0, 20000.0, 80.0), 0), None);
    assert_eq!(at((1000.0, 20000.0, 80.0), 1), Some((1000.0, 1080.0)));
    assert_eq!(at((30.0, 1000.0, 80.0), 2), None);
    assert_eq!(shift_arrow(&Plain, 2, all, 30.0, 4000.0), None);
    assert!(shift_is_shown(&Plain, 1.5) && shift_is_shown(&Plain, -1.5));
    assert!(!shift_is_shown(&Plain, 1.0) && !shift_is_shown(&Plain, 0.0));
    assert_eq!(shift_sign(&Plain, 5.0), "+");
    assert_eq!(shift_sign(&Plain, 0.0), "");
    assert_eq!(shift_sign(&Plain, -5.0), "");
}

#[test]
fn the_ends_of_the_picture() {
    assert_eq!(view_range(&Plain, 48000.0), (30.0, 20000.0));
    assert_eq!(view_range(&Plain, 8000.0), (30.0, 4000.0));
    assert_eq!(view_range(&Plain, f32::NAN), (30.0, 20000.0));
    assert_eq!(tinted(&Plain, (10.0, 30000.0, 0.0), 30.0, 20000.0), (30.0, 20000.0));
    assert_eq!(tinted(&Plain, (500.0, 900.0, 0.0), 30.0, 20000.0), (500.0, 900.0));
    assert_eq!(bin_width(&Plain, 48000.0, 2048), 23.4375);
}

#[test]
fn places_follow_the_logarithm() {
    let (f_min, f_max) = (30.0f32, 20000.0f32);
    assert_eq!(place(&Plain, 30.0, f_min, f_max), 0.0);
    assert_eq!(place(&Plain, 20000.0, f_min, f_max), 1.0);
    assert_eq!(place(&Plain, 1.0, f_min, f_max), 0.0);
    assert_eq!(place(&Plain, f32::NAN, f_min, f_max), 0.0);
    assert_eq!(place(&Plain, 30000.0, f_min, f_max), 1.0);
    for hz in [100.0f32, 1000.0, 10000.0] {
        let plain = (hz.log10() - f_min.log10()) / (f_max.log10() - f_min.log10());
        assert_eq!(place(&Plain, hz, f_min, f_max), plain);
    }
    for i in 0..64 {
        let frac = i as f64 / 64.0;
        let plain = 10f32.powf(f_min.log10() + frac as f32 * (f_max.log10() - f_min.log10()));
        assert_eq!(bar_hz(&Plain, i, 64, f_min, f_max), plain);
    }
}

#[test]
fn texts() {
    assert_eq!(cutoff_text(CutoffSide::Above, "1000"), "cutoff ▶ 1000 Hz");
    assert_eq!(cutoff_text(CutoffSide::Below, "30"), "cutoff ◀ 30 Hz");
    assert_eq!(shift_text("+", "80"), "+80 Hz   →   100 / 1k / 10k");
    assert_eq!(hop_text(512, "4", "10.7"), "4× overlap · 10.7 ms latency");
    assert_eq!(hop_text(1024, "2", "21.3"), "2× overlap · 21.3 ms latency  ⚠ aliased OLA");
    assert_eq!(file_text("a.wav", "0.0"), "a.wav · 0.0s");
    assert_eq!(overlap_factor(&Plain, 512), 4.0);
    assert_eq!(hop_millis(&Plain, 480, 48000.0), 10.0);
}

#[test]
fn the_canvas_keeps_its_size() {
    assert_eq!([-3, 0, 1, 77].map(css_extent), [1, 1, 1, 77]);
    assert_eq!(new_extent(100, 100), None);
    assert_eq!(new_extent(100, 200), Some(200));
}

#[test]
fn bytes_are_levels() {
    let mut out = vec![9.0; 7];
    rig().read_spectrum(&Plain, &[0, 51, 255], &mut out);
    assert_eq!(out, vec![0.0, 0.2, 1.0]);
}
