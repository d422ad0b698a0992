//! The signal path, run on `f32` samples with a real Fourier transform, and held
//! against plain loops that do the same arithmetic in the same order.

use std::f32::consts::{PI, TAU};
use std::sync::Arc;

use rustfft::num_complex::Complex;
use rustfft::{Fft, FftPlanner};

use tasahertsio::block::{fit, move_meter, Block};
use tasahertsio::dsp::bins::{interpolate, mirror, profile_moves, shift_half, turn_bin, N_POS};
use tasahertsio::dsp::cola::compute_cola;
use tasahertsio::dsp::engine::{limit, Engine, EngineMode, Params};
use tasahertsio::dsp::hilbert::HilbertFir;
use tasahertsio::dsp::spectral::{
    SpecMode, SpecParams, SpectralShifter, FFT_SIZE, HOP_OPTIONS,
};
use tasahertsio::dsp::ssb::{modulate, soft_clip, SsbParams, SsbShifter};
use tasahertsio::frame::Frame;
use tasahertsio::math::{
    blend, clamp_sample, hann, phase_step, rate_changed, unwind, wrap_angle, wrap_half_turn,
    wrap_turn, BinMath, SampleMath,
};
use tasahertsio::ring::Ring;

struct Real {
    fwd: Arc<dyn Fft<f32>>,
    inv: Arc<dyn Fft<f32>>,
}

impl Real {
    fn new() -> Self {
        let mut planner = FftPlanner::<f32>::new();
        Real { fwd: planner.plan_fft_forward(FFT_SIZE), inv: planner.plan_fft_inverse(FFT_SIZE) }
    }
}

fn transform(fft: &Arc<dyn Fft<f32>>, frame: Frame<Complex<f32>>) -> Frame<Complex<f32>> {
    let mut buf: Vec<Complex<f32>> = (0..frame.len()).map(|k| frame.get(k)).collect();
    fft.process(&mut buf);
    let mut out = frame;
    for (k, c) in buf.into_iter().enumerate() {
        out.set(k, c);
    }
    out
}

fn plain_wrap(mut x: f32, bound: f32) -> f32 {
    while x > bound {
        x -= TAU;
    }
    while x < -bound {
        x += TAU;
    }
    x
}

impl SampleMath<f32> for Real {
    fn ratio(&self, num: i32, den: u32) -> f32 {
        num as f32 / den as f32
    }
    fn count(&self, n: usize) -> f32 {
        n as f32
    }
    fn sum(&self, a: f32, b: f32) -> f32 {
        a + b
    }
    fn diff(&self, a: f32, b: f32) -> f32 {
        a - b
    }
    fn prod(&self, a: f32, b: f32) -> f32 {
        a * b
    }
    fn quot(&self, a: f32, b: f32) -> f32 {
        a / b
    }
    fn mul_add(&self, acc: f32, a: f32, b: f32) -> f32 {
        acc + a * b
    }
    fn magnitude(&self, a: f32) -> f32 {
        a.abs()
    }
    fn opposite(&self, a: f32) -> f32 {
        -a
    }
    fn less(&self, a: f32, b: f32) -> bool {
        a < b
    }
    fn at_most(&self, a: f32, b: f32) -> bool {
        a <= b
    }
    fn half_turn(&self) -> f32 {
        PI
    }
    fn full_turn(&self) -> f32 {
        TAU
    }
    fn cosine(&self, angle: f32) -> f32 {
        angle.cos()
    }
    fn sin_cos(&self, angle: f32) -> (f32, f32) {
        angle.sin_cos()
    }
    fn floor_index(&self, a: f32) -> usize {
        a.floor() as usize
    }
}

impl BinMath<f32, Complex<f32>> for Real {
    fn bin(&self, re: f32) -> Complex<f32> {
        Complex::new(re, 0.0)
    }
    fn bin_re(&self, c: Complex<f32>) -> f32 {
        c.re
    }
    fn bin_sum(&self, a: Complex<f32>, b: Complex<f32>) -> Complex<f32> {
        a + b
    }
    fn bin_scale(&self, c: Complex<f32>, s: f32) -> Complex<f32> {
        c * s
    }
    fn bin_pair(&self, re: f32, im: f32) -> Complex<f32> {
        Complex::new(re, im)
    }
    fn bin_prod(&self, a: Complex<f32>, b: Complex<f32>) -> Complex<f32> {
        a * b
    }
    fn bin_conj(&self, c: Complex<f32>) -> Complex<f32> {
        c.conj()
    }
    fn forward(&self, frame: Frame<Complex<f32>>) -> Frame<Complex<f32>> {
        transform(&self.fwd, frame)
    }
    fn inverse(&self, frame: Frame<Complex<f32>>) -> Frame<Complex<f32>> {
        transform(&self.inv, frame)
    }
}

/// A tone with some overtones and a little noise.
fn tone(n: usize, hz: f32, rate: f32) -> Vec<f32> {
    let mut seed: u32 = 12345;
    (0..n)
        .map(|i| {
            seed = seed.wrapping_mul(1664525).wrapping_add(1013904223);
            let noise = (seed >> 8) as f32 / 16777216.0 - 0.5;
            let t = i as f32 / rate;
            0.6 * (TAU * hz * t).sin() + 0.2 * (TAU * 3.0 * hz * t).cos() + 0.05 * noise
        })
        .collect()
}

// ---------------------------------------------------------------- plain loops

struct PlainHilbert {
    taps: Vec<f32>,
    delay: Vec<f32>,
    idx: usize,
}

impl PlainHilbert {
    fn new(n: usize) -> Self {
        let mid = (n as i32 - 1) / 2;
        let taps = (0..n)
            .map(|k| {
                let i = k as i32 - mid;
                let h = if i % 2 == 0 { 0.0 } else { 2.0 / (PI * i as f32) };
                let w = 0.5 - 0.5 * (2.0 * PI * k as f32 / (n - 1) as f32).cos();
                h * w
            })
            .collect();
        PlainHilbert { taps, delay: vec![0.0; n], idx: 0 }
    }
    fn process(&mut self, x: f32) -> (f32, f32) {
        let n = self.taps.len();
        self.delay[self.idx] = x;
        let mut imag = 0.0f32;
        for k in 0..n {
            imag += self.taps[k] * self.delay[(self.idx + n - k) % n];
        }
        let re = self.delay[(self.idx + n - (n - 1) / 2) % n];
        self.idx = (self.idx + 1) % n;
        (re, imag)
    }
}

fn plain_soft_clip(x: f32) -> f32 {
    let y = x.clamp(-3.0, 3.0);
    y - y * y * y * (1.0 / 27.0)
}

fn plain_ssb_channel(xs: &[f32], hz: f32, rate: f32, p: &SsbParams<f32>) -> Vec<f32> {
    let mut h = PlainHilbert::new(63);
    let step = TAU * hz / rate;
    let fb = p.feedback.clamp(0.0, 0.92);
    let (mut phase, mut echo) = (0.0f32, 0.0f32);
    xs.iter()
        .map(|x| {
            let (re, im) = h.process(x + fb * echo);
            let (sin, cos) = phase.sin_cos();
            let up = re * cos - im * sin;
            let lo = re * cos + im * sin;
            let wet = p.upper_level * up + p.lower_level * lo;
            let out = (1.0 - p.mix) * re + p.mix * wet;
            echo = plain_soft_clip(wet);
            phase = plain_wrap(phase + step, TAU);
            out
        })
        .collect()
}

fn plain_cola(win: &[f32], hop: usize) -> f32 {
    let n = win.len();
    let mut probe = vec![0.0f32; n];
    for kh in 0..(n / hop).max(1) {
        for i in 0..n {
            let src = (i + n - kh * hop) % n;
            probe[i] += win[src] * win[src];
        }
    }
    let mean = probe.iter().fold(0.0f32, |a, b| a + b) / n as f32;
    if mean > 1e-6 {
        1.0 / mean
    } else {
        1.0
    }
}

fn plain_spectral_channel(real: &Real, xs: &[f32], rate: f32, p: &SpecParams<f32>) -> Vec<f32> {
    let n = FFT_SIZE;
    let hop = p.hop_size;
    let n_pos = n / 2 + 1;
    let win: Vec<f32> =
        (0..n).map(|k| 0.5 - 0.5 * (TAU * k as f32 / n as f32).cos()).collect();
    let cola = plain_cola(&win, hop);
    let mut in_ring = vec![0.0f32; n];
    let mut out_ring = vec![0.0f32; n];
    let mut phase = vec![0.0f32; n_pos];
    let (mut in_pos, mut read_pos, mut count) = (0, 0, 0);
    let bin_to_hz = rate / n as f32;
    let factor = TAU * hop as f32 / rate;
    let mut outs = Vec::new();
    for &x in xs {
        in_ring[in_pos] = x;
        let dry = in_ring[(in_pos + n - (n - hop)) % n];
        in_pos = (in_pos + 1) % n;
        count += 1;
        if count >= hop {
            count = 0;
        }
        if count == 0 {
            let mut fin: Vec<Complex<f32>> = (0..n)
                .map(|k| Complex::new(in_ring[(in_pos + k) % n] * win[k], 0.0))
                .collect();
            real.fwd.process(&mut fin);
            let mut fout = vec![Complex::new(0.0f32, 0.0); n];
            for k in 0..n_pos {
                let moves = |freq: f32| match p.mode {
                    SpecMode::Linear => true,
                    SpecMode::Highpass => freq > p.cutoff_hz,
                    SpecMode::Lowpass => freq < p.cutoff_hz,
                };
                let src = k as f32 - p.shift_hz / bin_to_hz;
                let arrives = moves(src * bin_to_hz);
                let interp = if !arrives || src < 0.0 || src > (n_pos - 1) as f32 {
                    Complex::new(0.0, 0.0)
                } else {
                    let lo = src.floor() as usize;
                    let alpha = src - lo as f32;
                    let hi = (lo + 1).min(n_pos - 1);
                    fin[lo] * (1.0 - alpha) + fin[hi] * alpha
                };
                let shift = if arrives { p.shift_hz } else { 0.0 };
                phase[k] = plain_wrap(phase[k] + shift * factor, PI);
                let (sin, cos) = phase[k].sin_cos();
                fout[k] = interp * Complex::new(cos, sin);
                if !moves(k as f32 * bin_to_hz) {
                    fout[k] += fin[k];
                }
            }
            fout[0].im = 0.0;
            fout[n_pos - 1].im = 0.0;
            for k in 1..(n_pos - 1) {
                fout[n - k] = fout[k].conj();
            }
            real.inv.process(&mut fout);
            let inv_n = 1.0 / n as f32;
            for k in 0..n {
                out_ring[(read_pos + k) % n] += fout[k].re * inv_n * win[k] * cola;
            }
        }
        let wet = out_ring[read_pos];
        out_ring[read_pos] = 0.0;
        read_pos = (read_pos + 1) % n;
        outs.push((1.0 - p.mix) * dry + p.mix * wet);
    }
    outs
}

fn spec_params(shift_hz: f32, mode: SpecMode, mix: f32, hop_size: usize) -> SpecParams<f32> {
    SpecParams { shift_hz, mode, cutoff_hz: 1000.0, mix, hop_size }
}

fn run_spectral(
    real: &Real,
    shifter: &mut SpectralShifter<f32>,
    l: &[f32],
    r: &[f32],
    p: &SpecParams<f32>,
) -> (Vec<f32>, Vec<f32>) {
    let mut out_l = vec![0.0; l.len()];
    let mut out_r = vec![0.0; l.len()];
    shifter.process_stereo(real, l, r, &mut out_l, &mut out_r, p);
    (out_l, out_r)
}

fn run_ssb(
    real: &Real,
    shifter: &mut SsbShifter<f32>,
    l: &[f32],
    r: &[f32],
    p: &SsbParams<f32>,
) -> (Vec<f32>, Vec<f32>) {
    let mut out_l = vec![0.0; l.len()];
    let mut out_r = vec![0.0; l.len()];
    shifter.process_stereo(real, l, r, &mut out_l, &mut out_r, p);
    (out_l, out_r)
}

// ---------------------------------------------------------------------- rings

#[test]
fn a_ring_gives_back_what_was_pushed() {
    let mut ring: Ring<u32> = Ring::new(3, 0);
    assert_eq!(ring.len(), 3);
    assert_eq!([ring.push(1), ring.push(2), ring.push(3)], [0, 0, 0]);
    assert_eq!([ring.push(4), ring.push(5)], [1, 2]);
    assert_eq!([ring.at(0), ring.at(1), ring.at(2)], [3, 4, 5]);
    assert_eq!([ring.recent(0), ring.recent(1), ring.recent(2)], [5, 4, 3]);
    ring.put(1, 9);
    assert_eq!([ring.at(0), ring.at(1), ring.at(2)], [3, 9, 5]);
    ring.fill(7);
    assert_eq!([ring.at(0), ring.at(1), ring.at(2)], [7, 7, 7]);
}

#[test]
fn a_ring_of_one_is_a_single_place() {
    let mut ring: Ring<u32> = Ring::new(1, 5);
    assert_eq!(ring.push(6), 5);
    assert_eq!(ring.push(7), 6);
    assert_eq!(ring.recent(0), 7);
}

#[test]
fn a_ring_delays() {
    let mut ring: Ring<usize> = Ring::new(5, 1000);
    for t in 0..20usize {
        ring.push(t);
        for back in 0..5 {
            assert_eq!(ring.recent(back), if back <= t { t - back } else { 1000 });
        }
    }
}

// -------------------------------------------------------------------- hilbert

#[test]
fn an_impulse_gives_the_taps_and_comes_out_delayed() {
    let real = Real::new();
    let mut h = HilbertFir::new(&real, 63);
    assert_eq!(h.group_delay(), 31);
    let plain = PlainHilbert::new(63);
    for k in 0..63 {
        let (re, im) = h.process(&real, if k == 0 { 1.0 } else { 0.0 });
        assert_eq!(im, plain.taps[k]);
        assert_eq!(re, if k == 31 { 1.0 } else { 0.0 });
    }
    assert_eq!(plain.taps[31], 0.0);
    assert_eq!(plain.taps[33], 0.0);
    assert!(plain.taps[32] > 0.6 && plain.taps[30] < -0.6);
}

#[test]
fn the_real_part_is_the_input_delayed() {
    let real = Real::new();
    let mut h = HilbertFir::new(&real, 7);
    let xs = tone(50, 440.0, 8000.0);
    for t in 0..50 {
        let (re, _) = h.process(&real, xs[t]);
        assert_eq!(re, if t >= 3 { xs[t - 3] } else { 0.0 });
    }
}

#[test]
fn a_reset_filter_is_as_new() {
    let real = Real::new();
    let mut h = HilbertFir::new(&real, 15);
    let xs = tone(40, 700.0, 8000.0);
    for x in &xs {
        h.process(&real, *x);
    }
    h.reset();
    assert_eq!(h.silence(), 0.0);
    let mut plain = PlainHilbert::new(15);
    for x in &xs {
        assert_eq!(h.process(&real, *x), plain.process(*x));
    }
}

// ------------------------------------------------------------------------ ssb

#[test]
fn small_formulas() {
    let real = Real::new();
    assert_eq!(soft_clip(&real, 1.0), 1.0 - 1.0 / 27.0);
    assert_eq!(soft_clip(&real, 3.0), 3.0 - 27.0 * (1.0 / 27.0));
    assert_eq!(soft_clip(&real, 10.0), soft_clip(&real, 3.0));
    assert_eq!(soft_clip(&real, -10.0), soft_clip(&real, -3.0));
    assert_eq!(clamp_sample(&real, 0.5, 0.0, 0.92), 0.5);
    assert_eq!(clamp_sample(&real, -0.5, 0.0, 0.92), 0.0);
    assert_eq!(clamp_sample(&real, 2.0, 0.0, 0.92), 0.92);
    assert!(clamp_sample(&real, f32::NAN, 0.0, 0.92).is_nan());
    assert_eq!(blend(&real, 0.25, 4.0, 8.0), 5.0);
    assert_eq!(modulate(&real, 2.0, 3.0, 0.0), (2.0, 2.0));
    assert!(rate_changed(&real, 44100.0, 48000.0));
    assert!(!rate_changed(&real, 48000.0, 48000.5));
    assert!(rate_changed(&real, 48000.0, 48001.0));
}

#[test]
fn windows_and_angles() {
    let real = Real::new();
    assert_eq!(hann(&real, 0, 64), 0.0);
    assert_eq!(hann(&real, 32, 64), 1.0);
    for k in 0..2048 {
        assert_eq!(
            hann(&real, k, 2048),
            0.5 - 0.5 * (TAU * k as f32 / 2048.0).cos()
        );
    }
    assert_eq!(phase_step(&real, 12000.0, 48000.0), TAU * 12000.0 / 48000.0);
    let c = Complex::new(0.25f32, -2.0);
    let (sin, cos) = 0.7f32.sin_cos();
    assert_eq!(turn_bin(&real, c, 0.7), c * Complex::new(cos, sin));
    assert_eq!(turn_bin(&real, c, 0.0), c);
}

#[test]
fn angles_are_unwound_a_turn_at_a_time() {
    let real = Real::new();
    assert_eq!(unwind(&real, 1.0, PI), None);
    assert_eq!(unwind(&real, PI, PI), None);
    assert_eq!(unwind(&real, -PI, PI), None);
    assert_eq!(unwind(&real, 4.0, PI), Some(4.0 - TAU));
    assert_eq!(unwind(&real, -4.0, PI), Some(-4.0 + TAU));
    assert_eq!(unwind(&real, 4.0, TAU), None);
    assert_eq!(unwind(&real, f32::NAN, PI), None);
    assert_eq!(wrap_turn(&real, 7.0), 7.0 - TAU);
    assert_eq!(wrap_turn(&real, 4.0), 4.0);
    assert_eq!(wrap_half_turn(&real, 4.0), 4.0 - TAU);
    for bound in [PI, TAU] {
        for i in -400..=400 {
            let mut x = i as f32 * 0.1;
            let whole = plain_wrap(x, bound);
            while let Some(next) = unwind(&real, x, bound) {
                x = next;
            }
            assert_eq!(x, whole);
            assert_eq!(wrap_angle(&real, i as f32 * 0.1, bound), whole);
        }
    }
}

#[test]
fn the_soft_clip_is_bounded_odd_and_rising() {
    let real = Real::new();
    let error = 1e-6;
    let mut last = -3.0f32;
    for i in -5000..=5000 {
        let x = i as f32 * 0.001;
        let y = soft_clip(&real, x);
        let held = x.clamp(-3.0, 3.0) as f64;
        assert!((y as f64 - (held - held * held * held / 27.0)).abs() <= error);
        assert!(y.abs() as f64 <= 2.0 + error);
        assert!(last as f64 <= y as f64 + error);
        assert_eq!(soft_clip(&real, -x), -y);
        assert_eq!(soft_clip(&real, clamp_sample(&real, x, -3.0, 3.0)), y);
        if x.abs() <= 3.0 {
            assert!(y.abs() <= x.abs());
        }
        last = y;
    }
    assert_eq!(soft_clip(&real, f32::INFINITY), 2.0);
    assert_eq!(soft_clip(&real, f32::NEG_INFINITY), -2.0);
    assert_eq!(soft_clip(&real, 0.0), 0.0);
    assert!(soft_clip(&real, f32::MIN_POSITIVE) <= f32::MIN_POSITIVE);
}

#[test]
fn a_wrapped_angle_stays_as_it_is() {
    let real = Real::new();
    for x in [0.0, 1.0, 3.0, PI, -PI, -0.5] {
        assert_eq!(wrap_half_turn(&real, x), x);
        assert_eq!(wrap_turn(&real, x), x);
    }
    for x in [4.0, 6.0, TAU, -TAU] {
        assert_eq!(wrap_turn(&real, x), x);
    }
    for i in 0..2000 {
        let x = i as f32 * 0.37;
        for (wrap, bound) in
            [(wrap_half_turn as fn(&Real, f32) -> f32, PI), (wrap_turn as fn(&Real, f32) -> f32, TAU)]
        {
            let once = wrap(&real, x);
            assert!(once.abs() <= bound);
            assert_eq!(wrap(&real, once), once);
            assert_eq!(wrap(&real, -x), -once);
            let turns = (x - once) / TAU;
            assert!((turns - turns.round()).abs() <= 1e-3);
        }
        assert!(wrap_turn(&real, x) >= 0.0);
        assert!(wrap_turn(&real, -x) <= 0.0);
    }
}

#[test]
fn the_feedback_loop_stays_bounded() {
    let real = Real::new();
    for (rate, shift, spread) in [(8000.0, 2000.0, -2000.0), (48000.0, 0.0, 0.0), (44100.0, 3.0, 1.0)]
    {
        for feedback in [0.92, 7.0, f32::INFINITY, f32::NEG_INFINITY] {
            let mut p = SsbParams::default(&real);
            p.shift_hz = shift;
            p.stereo_spread_hz = spread;
            p.upper_level = 1.0;
            p.lower_level = 1.0;
            p.feedback = feedback;
            p.mix = 1.0;
            let mut s = SsbShifter::new(&real, rate);
            for k in 0..20 {
                let l: Vec<f32> =
                    (0..256).map(|i| if (i / (k + 1)) % 2 == 0 { 1.0 } else { -1.0 }).collect();
                let r = vec![1.0; 256];
                p.mix = 1.0 - (k % 3) as f32 * 0.25;
                let (a, b) = run_ssb(&real, &mut s, &l, &r, &p);
                assert!(a.iter().chain(b.iter()).all(|y| y.is_finite() && y.abs() <= 24.0));
            }
        }
    }
}

#[test]
fn the_time_domain_engine_is_a_modulated_analytic_signal() {
    let real = Real::new();
    let rate = 44100.0;
    let l = tone(700, 440.0, rate);
    let r = tone(700, 660.0, rate);
    for feedback in [-1.0, 0.0, 0.5, 5.0] {
        let p = SsbParams {
            shift_hz: 123.0,
            stereo_spread_hz: 40.0,
            upper_level: 0.8,
            lower_level: 0.3,
            feedback,
            mix: 0.7,
        };
        let mut s = SsbShifter::new(&real, rate);
        let (out_l, out_r) = run_ssb(&real, &mut s, &l, &r, &p);
        assert_eq!(out_l, plain_ssb_channel(&l, 143.0, rate, &p));
        assert_eq!(out_r, plain_ssb_channel(&r, 103.0, rate, &p));
    }
}

#[test]
fn cutting_a_time_domain_stream_into_blocks_changes_nothing() {
    let real = Real::new();
    let xs = tone(600, 440.0, 48000.0);
    let mut p = SsbParams::default(&real);
    p.feedback = 0.6;
    let mut whole = SsbShifter::new(&real, 48000.0);
    let (all, _) = run_ssb(&real, &mut whole, &xs, &xs, &p);
    let mut cut = SsbShifter::new(&real, 48000.0);
    let (mut a, _) = run_ssb(&real, &mut cut, &xs[..217], &xs[..217], &p);
    let (b, _) = run_ssb(&real, &mut cut, &xs[217..], &xs[217..], &p);
    a.extend(b);
    assert_eq!(a, all);
}

#[test]
fn a_time_domain_engine_forgets_on_reset_and_on_a_new_rate() {
    let real = Real::new();
    let xs = tone(300, 440.0, 48000.0);
    let p = SsbParams::default(&real);
    let mut s = SsbShifter::new(&real, 48000.0);
    let first = run_ssb(&real, &mut s, &xs, &xs, &p);
    s.reset();
    assert_eq!(run_ssb(&real, &mut s, &xs, &xs, &p), first);
    s.set_sample_rate(&real, 48000.4);
    assert_ne!(run_ssb(&real, &mut s, &xs, &xs, &p), first);
    s.set_sample_rate(&real, 44100.0);
    let (out_l, _) = run_ssb(&real, &mut s, &xs, &xs, &p);
    assert_eq!(out_l, plain_ssb_channel(&xs, 80.0, 44100.0, &p));
}

#[test]
fn an_impulse_comes_out_half_the_taps_later() {
    let real = Real::new();
    let mut p = SsbParams::default(&real);
    p.shift_hz = 0.0;
    p.mix = 0.5;
    let mut l = vec![0.0f32; 32];
    let mut r = vec![0.0f32; 32];
    l[0] = 1.0;
    r[0] = 0.5;
    let mut s = SsbShifter::new(&real, 48000.0);
    let (out_l, out_r) = run_ssb(&real, &mut s, &l, &r, &p);
    for i in 0..31 {
        assert_eq!((out_l[i], out_r[i]), (0.0, 0.0));
    }
    assert_eq!((out_l[31], out_r[31]), (1.0, 0.5));
}

#[test]
fn the_spread_is_a_shift_of_each_channel() {
    let real = Real::new();
    let l = tone(800, 440.0, 48000.0);
    let r = tone(800, 990.0, 48000.0);
    let mut p = SsbParams::default(&real);
    p.stereo_spread_hz = 30.0;
    p.feedback = 0.4;
    p.mix = 0.7;
    let spread = run_ssb(&real, &mut SsbShifter::new(&real, 48000.0), &l, &r, &p);
    p.stereo_spread_hz = 0.0;
    p.shift_hz = 95.0;
    let up = run_ssb(&real, &mut SsbShifter::new(&real, 48000.0), &l, &l, &p);
    p.shift_hz = 65.0;
    let down = run_ssb(&real, &mut SsbShifter::new(&real, 48000.0), &r, &r, &p);
    assert_eq!(spread.0, up.0);
    assert_eq!(spread.1, down.1);
    assert_eq!(up.0, up.1);
}

#[test]
fn feedback_beyond_its_range_acts_as_its_end() {
    let real = Real::new();
    let xs = tone(800, 440.0, 48000.0);
    for (beyond, end) in [(5.0, 0.92), (-1.0, 0.0), (f32::INFINITY, 0.92)] {
        let mut p = SsbParams::default(&real);
        let mut q = SsbParams::default(&real);
        p.feedback = beyond;
        q.feedback = end;
        let mut a = SsbShifter::new(&real, 48000.0);
        let mut b = SsbShifter::new(&real, 48000.0);
        for _ in 0..2 {
            assert_eq!(
                run_ssb(&real, &mut a, &xs, &xs, &p),
                run_ssb(&real, &mut b, &xs, &xs, &q)
            );
        }
    }
}

#[test]
fn exchanged_sidebands_undo_the_sign() {
    let real = Real::new();
    let l = tone(800, 440.0, 48000.0);
    let r = tone(800, 990.0, 48000.0);
    let mut p = SsbParams::default(&real);
    p.shift_hz = 123.0;
    p.stereo_spread_hz = 40.0;
    p.upper_level = 0.8;
    p.lower_level = 0.3;
    p.feedback = 0.6;
    p.mix = 0.9;
    let mut q = p;
    q.shift_hz = -123.0;
    q.stereo_spread_hz = -40.0;
    q.upper_level = 0.3;
    q.lower_level = 0.8;
    assert_eq!(
        run_ssb(&real, &mut SsbShifter::new(&real, 48000.0), &l, &r, &p),
        run_ssb(&real, &mut SsbShifter::new(&real, 48000.0), &l, &r, &q)
    );
}

#[test]
fn output_past_the_block_stays() {
    let real = Real::new();
    let mut s = SsbShifter::new(&real, 48000.0);
    let mut out_l = vec![9.0; 5];
    let mut out_r = vec![8.0; 4];
    let p = SsbParams::default(&real);
    s.process_stereo(&real, &[0.0; 3], &[0.0; 3], &mut out_l, &mut out_r, &p);
    assert_eq!(out_l, vec![0.0, 0.0, 0.0, 9.0, 9.0]);
    assert_eq!(out_r, vec![0.0, 0.0, 0.0, 8.0]);
}

// ------------------------------------------------------------------- spectral

#[test]
fn the_overlap_gain() {
    let real = Real::new();
    let win: Vec<f32> = (0..64).map(|k| hann(&real, k, 64)).collect();
    for hop in [1, 7, 16, 32, 48, 64, 100] {
        assert_eq!(compute_cola(&real, &win, &win, hop), plain_cola(&win, hop));
    }
    let gain = compute_cola(&real, &win, &win, 16);
    assert!((gain - 1.0 / 1.5).abs() < 1e-5);
    assert_eq!(compute_cola(&real, &win, &win, 0), 1.0);
    assert_eq!(compute_cola(&real, &win, &Vec::new(), 0), 1.0);
    assert_eq!(compute_cola(&real, &vec![0.0; 64], &win, 16), 1.0);
    assert_eq!(compute_cola(&real, &Vec::new(), &Vec::new(), 16), 1.0);
    assert_eq!(compute_cola(&real, &vec![1.0; 4], &vec![0.5; 4], 2), 1.0);
}

#[test]
fn profiles_move_their_side_of_the_cutoff() {
    let real = Real::new();
    let at = |mode, hz| profile_moves(&real, &spec_params(80.0, mode, 1.0, 512), hz);
    for hz in [0.0, 999.9, 1000.0, 1000.1, 20000.0] {
        assert!(at(SpecMode::Linear, hz));
        assert_eq!(at(SpecMode::Highpass, hz), hz > 1000.0);
        assert_eq!(at(SpecMode::Lowpass, hz), hz < 1000.0);
    }
}

/// What a spectrum with one bin set becomes.
fn shifted_bin(mode: SpecMode, shift_hz: f32, bin: usize) -> Vec<Complex<f32>> {
    let real = Real::new();
    let mut f = Frame::filled(Complex::new(0.0f32, 0.0));
    f.set(bin, Complex::new(1.0, 2.0));
    let mut phases = vec![0.0f32; N_POS];
    let p = spec_params(shift_hz, mode, 1.0, 512);
    shift_half(&real, &p, 100.0, 0.0, 0.0, &f, &mut phases)
}

#[test]
fn a_frequency_either_moves_or_stays() {
    let c = Complex::new(1.0f32, 2.0);
    for (mode, bin, moves) in [
        (SpecMode::Linear, 5, true),
        (SpecMode::Linear, 15, true),
        (SpecMode::Highpass, 5, false),
        (SpecMode::Highpass, 10, false),
        (SpecMode::Highpass, 11, true),
        (SpecMode::Lowpass, 9, true),
        (SpecMode::Lowpass, 10, false),
        (SpecMode::Lowpass, 15, false),
    ] {
        for by in [-3i32, 3] {
            let out = shifted_bin(mode, by as f32 * 100.0, bin);
            let lands = if moves { (bin as i32 + by) as usize } else { bin };
            for k in 0..N_POS {
                assert_eq!(out[k], if k == lands { c } else { c * 0.0 });
            }
        }
    }
}

#[test]
fn phases_stay_within_half_a_turn() {
    let real = Real::new();
    let f = Frame::filled(Complex::new(1.0f32, 0.0));
    let mut phases = vec![0.0f32; N_POS];
    let p = spec_params(777.0, SpecMode::Highpass, 1.0, 512);
    for _ in 0..50 {
        shift_half(&real, &p, 23.4375, 0.067, 0.0, &f, &mut phases);
        assert!(phases.iter().all(|x| (-PI..=PI).contains(x)));
    }
    assert!(phases.iter().any(|x| *x != 0.0));
    assert!(phases.iter().any(|x| *x == 0.0));
}

#[test]
fn after_the_input_stops_the_output_does_a_frame_later() {
    let real = Real::new();
    let p = spec_params(80.0, SpecMode::Linear, 1.0, 512);
    let mut s = SpectralShifter::new(&real, 48000.0, 2);
    let xs = tone(2048, 440.0, 48000.0);
    run_spectral(&real, &mut s, &xs, &xs, &p);
    let quiet = vec![0.0f32; 6144];
    let (out, _) = run_spectral(&real, &mut s, &quiet, &quiet, &p);
    assert!(out[..1024].iter().any(|y| y.abs() > 0.1));
    assert!(out[4096..].iter().all(|y| *y == 0.0));
}

/// How strong a tone of `hz` is in `xs`.
fn strength(xs: &[f32], hz: f32, rate: f32) -> f64 {
    let step = std::f64::consts::TAU * hz as f64 / rate as f64;
    let (mut re, mut im) = (0.0f64, 0.0f64);
    for (i, x) in xs.iter().enumerate() {
        re += *x as f64 * (step * i as f64).cos();
        im += *x as f64 * (step * i as f64).sin();
    }
    2.0 * (re * re + im * im).sqrt() / xs.len() as f64
}

#[test]
fn a_tone_on_the_moving_side_is_shifted_wherever_it_lands() {
    let real = Real::new();
    let rate = 48000.0;
    let bin = rate / FFT_SIZE as f32;
    for (mode, from, to, other) in [
        (SpecMode::Highpass, 47.0, 37.0, 57.0),
        (SpecMode::Lowpass, 37.0, 47.0, 27.0),
        (SpecMode::Highpass, 37.0, 37.0, 47.0),
        (SpecMode::Lowpass, 47.0, 47.0, 37.0),
    ] {
        let xs: Vec<f32> = (0..16384)
            .map(|t| (std::f64::consts::TAU * (from * bin) as f64 * t as f64 / rate as f64).cos() as f32)
            .collect();
        let shift = if mode == SpecMode::Highpass { -234.375 } else { 234.375 };
        let p = spec_params(shift, mode, 1.0, 512);
        let mut s = SpectralShifter::new(&real, rate, 2);
        let (out, _) = run_spectral(&real, &mut s, &xs, &xs, &p);
        assert!((strength(&out[4096..], to * bin, rate) - 1.0).abs() < 0.02);
        assert!(strength(&out[4096..], other * bin, rate) < 0.02);
    }
}

#[test]
fn a_spectrum_between_its_bins() {
    let real = Real::new();
    let mut f = Frame::filled(Complex::new(0.0f32, 0.0));
    f.set(3, Complex::new(2.0, -4.0));
    f.set(4, Complex::new(6.0, 8.0));
    f.set(N_POS - 1, Complex::new(1.0, 1.0));
    f.set(N_POS, Complex::new(100.0, 100.0));
    assert_eq!(interpolate(&real, &f, 0.0, 3.0), Complex::new(2.0, -4.0));
    assert_eq!(interpolate(&real, &f, 0.0, 3.25), Complex::new(3.0, -1.0));
    assert_eq!(interpolate(&real, &f, 0.0, -0.5), Complex::new(0.0, 0.0));
    assert_eq!(interpolate(&real, &f, 0.0, 1024.0), Complex::new(1.0, 1.0));
    assert_eq!(interpolate(&real, &f, 0.0, 1024.5), Complex::new(0.0, 0.0));
}

#[test]
fn a_mirrored_spectrum_belongs_to_a_real_signal() {
    let real = Real::new();
    let half: Vec<Complex<f32>> =
        (0..N_POS).map(|k| Complex::new(k as f32, 1.0 + k as f32)).collect();
    let full = mirror(&real, &half);
    assert_eq!(full.get(0), Complex::new(0.0, 0.0));
    assert_eq!(full.get(1024), Complex::new(1024.0, 0.0));
    for k in 1..1024 {
        assert_eq!(full.get(k), half[k]);
        assert_eq!(full.get(FFT_SIZE - k), half[k].conj());
    }
    let time = real.inverse(full);
    for k in 0..FFT_SIZE {
        assert!(time.get(k).im.abs() <= 1e-3 * 1024.0 * 1024.0);
    }
}

#[test]
fn the_spectral_engine_is_a_shifted_overlap_add() {
    let real = Real::new();
    let rate = 44100.0;
    let l = tone(5000, 440.0, rate);
    let r = tone(5000, 1500.0, rate);
    for (mode, shift, hop, mix) in [
        (SpecMode::Linear, 80.0, 512, 1.0),
        (SpecMode::Linear, -333.3, 1024, 0.5),
        (SpecMode::Highpass, 200.0, 256, 0.9),
        (SpecMode::Lowpass, -50.0, 2048, 0.3),
    ] {
        let p = spec_params(shift, mode, mix, hop);
        let mut s = SpectralShifter::new(&real, rate, 2);
        let (out_l, out_r) = run_spectral(&real, &mut s, &l, &r, &p);
        assert_eq!(s.hop_size(), hop);
        assert_eq!(out_l, plain_spectral_channel(&real, &l, rate, &p));
        assert_eq!(out_r, plain_spectral_channel(&real, &r, rate, &p));
    }
}

#[test]
fn without_a_shift_the_input_comes_back() {
    let real = Real::new();
    let xs = tone(8192, 440.0, 44100.0);
    let p = spec_params(0.0, SpecMode::Linear, 1.0, 512);
    let mut s = SpectralShifter::new(&real, 44100.0, 2);
    let (out, _) = run_spectral(&real, &mut s, &xs, &xs, &p);
    // The first sample is heard a frame less one sample after the hop that
    // covers it fully.
    let late = FFT_SIZE - 1;
    for i in 4096..8192 {
        assert!((out[i] - xs[i - late]).abs() < 1e-3, "{} {} {}", i, out[i], xs[i - late]);
    }
}

#[test]
fn the_dry_path_is_as_late_as_a_frame_less_a_hop() {
    let real = Real::new();
    let xs = tone(4000, 440.0, 44100.0);
    for hop in [16, 64, 512, 2048] {
        let p = spec_params(80.0, SpecMode::Linear, 0.0, hop);
        let mut s = SpectralShifter::new(&real, 44100.0, 2);
        let (out, _) = run_spectral(&real, &mut s, &xs, &xs, &p);
        let late = FFT_SIZE - hop;
        for i in 0..4000 {
            assert_eq!(out[i], if i >= late { xs[i - late] } else { 0.0 });
        }
    }
}

#[test]
fn nothing_is_wet_before_the_first_hop() {
    let real = Real::new();
    let xs = vec![1.0; 600];
    let p = spec_params(80.0, SpecMode::Linear, 1.0, 512);
    let mut s = SpectralShifter::new(&real, 44100.0, 2);
    let (out, _) = run_spectral(&real, &mut s, &xs, &xs, &p);
    assert!(out[..511].iter().all(|y| *y == 0.0));
    assert!(out[511..].iter().any(|y| *y != 0.0));
}

#[test]
fn cutting_a_spectral_stream_into_blocks_changes_nothing() {
    let real = Real::new();
    let xs = tone(3000, 440.0, 48000.0);
    let p = spec_params(150.0, SpecMode::Highpass, 0.8, 512);
    let mut whole = SpectralShifter::new(&real, 48000.0, 2);
    let (all, _) = run_spectral(&real, &mut whole, &xs, &xs, &p);
    let mut cut = SpectralShifter::new(&real, 48000.0, 2);
    let mut parts = Vec::new();
    for block in xs.chunks(700) {
        parts.extend(run_spectral(&real, &mut cut, block, block, &p).0);
    }
    assert_eq!(parts, all);
}

#[test]
fn hops_are_held_to_their_range_and_taken_on_once() {
    let real = Real::new();
    let mut s = SpectralShifter::new(&real, 48000.0, 2);
    assert_eq!(s.hop_size(), 512);
    s.set_hop_size(&real, 0);
    assert_eq!(s.hop_size(), 16);
    s.set_hop_size(&real, 100_000);
    assert_eq!(s.hop_size(), 2048);
    for hop in HOP_OPTIONS {
        s.set_hop_size(&real, hop);
        assert_eq!(s.hop_size(), hop);
    }
    // The same hop again forgets nothing; another one forgets all.
    let xs = tone(1500, 440.0, 48000.0);
    let p = spec_params(80.0, SpecMode::Linear, 0.5, 1024);
    let first = run_spectral(&real, &mut s, &xs, &xs, &p);
    s.set_hop_size(&real, 1024);
    assert_ne!(run_spectral(&real, &mut s, &xs, &xs, &p), first);
    s.set_hop_size(&real, 512);
    s.set_hop_size(&real, 1024);
    assert_eq!(run_spectral(&real, &mut s, &xs, &xs, &p), first);
}

#[test]
fn a_spectral_engine_forgets_on_reset_and_on_a_new_rate() {
    let real = Real::new();
    let xs = tone(1500, 440.0, 48000.0);
    let p = spec_params(80.0, SpecMode::Linear, 0.5, 512);
    let mut s = SpectralShifter::new(&real, 48000.0, 2);
    let first = run_spectral(&real, &mut s, &xs, &xs, &p);
    s.reset();
    assert_eq!(run_spectral(&real, &mut s, &xs, &xs, &p), first);
    s.set_sample_rate(&real, 48000.4);
    assert_ne!(run_spectral(&real, &mut s, &xs, &xs, &p), first);
    s.set_sample_rate(&real, 44100.0);
    let (out_l, _) = run_spectral(&real, &mut s, &xs, &xs, &p);
    assert_eq!(out_l, plain_spectral_channel(&real, &xs, 44100.0, &p));
}

#[test]
fn no_channel_is_needed_for_no_sample() {
    let real = Real::new();
    let mut s = SpectralShifter::new(&real, 48000.0, 0);
    let p = spec_params(80.0, SpecMode::Linear, 0.5, 64);
    assert_eq!(run_spectral(&real, &mut s, &[], &[], &p), (vec![], vec![]));
    assert_eq!(s.hop_size(), 64);
}

// -------------------------------------------------------------------- engines

#[test]
fn labels_and_defaults() {
    let real = Real::new();
    assert_eq!(EngineMode::Ssb.label(), "SSB (time-domain)");
    assert_eq!(EngineMode::Spectral.label(), "Spectral (FFT)");
    assert_eq!(SpecMode::Linear.label(), "linear");
    assert_eq!(SpecMode::Highpass.label(), "highpass");
    assert_eq!(SpecMode::Lowpass.label(), "lowpass");
    let p: Params<f32> = Params::default(&real);
    assert_eq!(p.mode, EngineMode::Ssb);
    assert_eq!(p.output_gain, 0.9);
    assert_eq!(
        (p.ssb.shift_hz, p.ssb.stereo_spread_hz, p.ssb.upper_level),
        (80.0, 0.0, 1.0)
    );
    assert_eq!((p.ssb.lower_level, p.ssb.feedback, p.ssb.mix), (0.0, 0.0, 1.0));
    assert_eq!((p.spec.shift_hz, p.spec.cutoff_hz, p.spec.mix), (80.0, 1000.0, 1.0));
    assert_eq!((p.spec.mode, p.spec.hop_size), (SpecMode::Linear, 512));
    assert_eq!(HOP_OPTIONS, [64, 128, 256, 512, 1024]);
    assert_eq!(FFT_SIZE, 2048);
}

#[test]
fn the_output_stage_scales_and_clips() {
    let real = Real::new();
    assert_eq!(limit(&real, 0.5, 0.9), 0.45);
    assert_eq!(limit(&real, 2.0, 0.9), 1.0);
    assert_eq!(limit(&real, -2.0, 0.9), -1.0);
    assert_eq!(limit(&real, 1.0, 1.0), 1.0);
    assert!(limit(&real, f32::NAN, 1.0).is_nan());
}

#[test]
fn nothing_leaves_the_output_range() {
    let real = Real::new();
    let xs: Vec<f32> = tone(3000, 440.0, 48000.0).into_iter().map(|x| 50.0 * x).collect();
    let mut p = Params::default(&real);
    p.output_gain = 2.0;
    p.ssb.feedback = 5.0;
    let mut e = Engine::new(&real, 48000.0);
    for mode in [EngineMode::Ssb, EngineMode::Spectral] {
        p.mode = mode;
        let (l, r) = run_engine(&real, &mut e, &xs, &p);
        assert!(l.iter().chain(r.iter()).all(|x| (-1.0..=1.0).contains(x)));
        assert!(l.contains(&1.0) && l.contains(&-1.0));
    }
    assert_eq!(clamp_sample(&real, 5.0, 0.0, 0.92), 0.92);
    assert_eq!(clamp_sample(&real, -5.0, 0.0, 0.92), 0.0);
    assert_eq!(clamp_sample(&real, 0.5, 0.0, 0.92), 0.5);
}

fn plain_out(xs: Vec<f32>, gain: f32) -> Vec<f32> {
    xs.into_iter()
        .map(|x| {
            let s = x * gain;
            if s > 1.0 {
                1.0
            } else if s < -1.0 {
                -1.0
            } else {
                s
            }
        })
        .collect()
}

fn run_engine(
    real: &Real,
    e: &mut Engine<f32>,
    xs: &[f32],
    p: &Params<f32>,
) -> (Vec<f32>, Vec<f32>) {
    let mut out_l = vec![0.0; xs.len()];
    let mut out_r = vec![0.0; xs.len()];
    e.process_stereo(real, xs, xs, &mut out_l, &mut out_r, p);
    (out_l, out_r)
}

#[test]
fn the_engine_plays_the_one_that_is_chosen() {
    let real = Real::new();
    let xs = tone(1500, 440.0, 48000.0);
    let mut p = Params::default(&real);
    p.output_gain = 1.7;
    let mut e = Engine::new(&real, 48000.0);
    assert_eq!(e.sample_rate(), 48000.0);
    let (l, _) = run_engine(&real, &mut e, &xs, &p);
    assert_eq!(l, plain_out(plain_ssb_channel(&xs, 80.0, 48000.0, &p.ssb), 1.7));
    p.mode = EngineMode::Spectral;
    let (l, r) = run_engine(&real, &mut e, &xs, &p);
    assert_eq!(l, plain_out(plain_spectral_channel(&real, &xs, 48000.0, &p.spec), 1.7));
    assert_eq!(l, r);
}

#[test]
fn switching_away_and_back_starts_from_silence() {
    let real = Real::new();
    let xs = tone(1500, 440.0, 48000.0);
    let mut p = Params::default(&real);
    let mut e = Engine::new(&real, 48000.0);
    let ssb = run_engine(&real, &mut e, &xs, &p);
    assert_ne!(run_engine(&real, &mut e, &xs, &p), ssb);
    p.mode = EngineMode::Spectral;
    let spec = run_engine(&real, &mut e, &xs, &p);
    p.mode = EngineMode::Ssb;
    assert_eq!(run_engine(&real, &mut e, &xs, &p), ssb);
    p.mode = EngineMode::Spectral;
    assert_eq!(run_engine(&real, &mut e, &xs, &p), spec);
}

#[test]
fn a_toggle_and_a_new_rate_start_anew() {
    let real = Real::new();
    let xs = tone(1500, 440.0, 48000.0);
    let mut p = Params::default(&real);
    p.spec.hop_size = 256;
    let mut e = Engine::new(&real, 48000.0);
    run_engine(&real, &mut e, &xs, &p);
    for mode in [EngineMode::Spectral, EngineMode::Ssb, EngineMode::Spectral] {
        p.mode = mode;
        let mut newly = Engine::new(&real, 48000.0);
        for _ in 0..3 {
            assert_eq!(
                run_engine(&real, &mut e, &xs, &p),
                run_engine(&real, &mut newly, &xs, &p)
            );
        }
    }
    e.set_sample_rate(&real, 44100.0);
    let mut newly = Engine::new(&real, 44100.0);
    for mode in [EngineMode::Ssb, EngineMode::Spectral, EngineMode::Spectral, EngineMode::Ssb] {
        p.mode = mode;
        assert_eq!(
            run_engine(&real, &mut e, &xs, &p),
            run_engine(&real, &mut newly, &xs, &p)
        );
    }
}

#[test]
fn block_boundaries_are_not_audible() {
    let real = Real::new();
    let xs = tone(3000, 440.0, 48000.0);
    for mode in [EngineMode::Ssb, EngineMode::Spectral] {
        let mut p = Params::default(&real);
        p.mode = mode;
        p.ssb.feedback = 0.5;
        let mut whole = Engine::new(&real, 48000.0);
        let all = run_engine(&real, &mut whole, &xs, &p);
        let mut cut = Engine::new(&real, 48000.0);
        let (mut l, mut r) = (Vec::new(), Vec::new());
        for block in [&xs[..1], &xs[1..700], &xs[700..700], &xs[700..]] {
            let (a, b) = run_engine(&real, &mut cut, block, &p);
            l.extend(a);
            r.extend(b);
        }
        assert_eq!((l, r), all);
    }
}

#[test]
fn a_new_engine_is_late_then_scaled_then_clipped() {
    let real = Real::new();
    let mut p = Params::default(&real);
    p.ssb.shift_hz = 0.0;
    p.output_gain = 2.0;
    let mut e = Engine::new(&real, 48000.0);
    let mut in_l = vec![0.0f32; 33];
    let mut in_r = vec![0.0f32; 33];
    in_l[..2].copy_from_slice(&[0.75, 0.25]);
    in_r[..2].copy_from_slice(&[-0.75, -0.25]);
    let mut out_l = vec![9.0; 33];
    let mut out_r = vec![9.0; 33];
    e.process_stereo(&real, &in_l, &in_r, &mut out_l, &mut out_r, &p);
    let mut plain = vec![0.0f32; 33];
    plain[31..].copy_from_slice(&[1.0, 0.5]);
    assert_eq!(out_l, plain);
    assert_eq!(out_r, plain.iter().map(|x| -x).collect::<Vec<_>>());
}

#[test]
fn a_new_rate_reaches_both_engines() {
    let real = Real::new();
    let xs = tone(1500, 440.0, 48000.0);
    let mut p = Params::default(&real);
    let mut e = Engine::new(&real, 48000.0);
    run_engine(&real, &mut e, &xs, &p);
    e.set_sample_rate(&real, 48000.5);
    assert_eq!(e.sample_rate(), 48000.0);
    e.set_sample_rate(&real, 44100.0);
    assert_eq!(e.sample_rate(), 44100.0);
    let (l, _) = run_engine(&real, &mut e, &xs, &p);
    assert_eq!(l, plain_out(plain_ssb_channel(&xs, 80.0, 44100.0, &p.ssb), 0.9));
    p.mode = EngineMode::Spectral;
    let (l, _) = run_engine(&real, &mut e, &xs, &p);
    assert_eq!(l, plain_out(plain_spectral_channel(&real, &xs, 44100.0, &p.spec), 0.9));
}

#[test]
fn the_output_stage_covers_the_whole_buffer() {
    let real = Real::new();
    let mut e = Engine::new(&real, 48000.0);
    let p = Params::default(&real);
    let mut out_l = vec![0.5, 0.5, 3.0];
    let mut out_r = vec![0.5, -3.0];
    e.process_stereo(&real, &[0.0], &[0.0], &mut out_l, &mut out_r, &p);
    assert_eq!(out_l, vec![0.0, 0.45, 1.0]);
    assert_eq!(out_r, vec![0.0, -1.0]);
}

// --------------------------------------------------------------------- blocks

#[test]
fn a_block_is_routed_processed_and_metered() {
    let real = Real::new();
    let mut e = Engine::new(&real, 48000.0);
    let p = Params::default(&real);
    let xs = tone(400, 440.0, 44100.0);
    let mut b: Block<f32> = Block::new();
    b.resize(400, 0.0);
    assert_eq!(Block::<f32>::inputs_to_fill(0), (false, false));
    assert_eq!(Block::<f32>::inputs_to_fill(1), (true, false));
    assert_eq!(Block::<f32>::inputs_to_fill(2), (true, true));
    b.in_l.copy_from_slice(&xs);
    b.spread_mono(1);
    assert_eq!(b.in_r, xs);
    b.process(&real, &mut e, 44100.0, &p);
    assert_eq!(e.sample_rate(), 44100.0);
    let plain = plain_out(plain_ssb_channel(&xs, 80.0, 44100.0, &p.ssb), 0.9);
    assert_eq!(b.out_l, plain);
    let top = plain.iter().fold(0.0f32, |a, x| a.max(x.abs()));
    assert_eq!(b.level(&real), top);
    b.in_r[0] = 0.25;
    b.spread_mono(2);
    assert_eq!(b.in_r[0], 0.25);
    b.out_l = vec![0.1, -0.7];
    b.out_r = vec![0.2, 0.3];
    assert_eq!(b.level(&real), 0.7);
    b.out_r[1] = -0.9;
    assert_eq!(b.level(&real), 0.9);
}

#[test]
fn buffers_are_cut_and_filled_up() {
    let mut v = vec![1, 2, 3];
    fit(&mut v, 5, 0);
    assert_eq!(v, vec![1, 2, 3, 0, 0]);
    fit(&mut v, 2, 9);
    assert_eq!(v, vec![1, 2]);
}

#[test]
fn the_meter_rises_at_once_and_falls_slowly() {
    let real = Real::new();
    assert_eq!(move_meter(&real, 0.2, 0.8), 0.8);
    assert_eq!(move_meter(&real, 0.8, 0.2), 0.8 * 0.92);
    assert_eq!(move_meter(&real, 0.5, 0.5), 0.5 * 0.92);
}
