//! The profiles and the settings of the spectral engine.

use vstd::prelude::*;

use crate::math::SampleMath;

verus! {

/// Which frequencies the spectral engine moves.
#[derive(Clone, Copy, Debug, PartialEq, Eq, Structural)]
pub enum SpecMode {
    /// Shift every frequency bin by the same Hz amount.
    Linear,
    /// Shift only frequencies above the cutoff. Below stays put.
    Highpass,
    /// Shift only frequencies below the cutoff. Above stays put.
    Lowpass,
}

impl SpecMode {
    /// The name shown to the user.
    pub fn label(self) -> (s: &'static str)
        ensures
            s@ == match self {
                SpecMode::Linear => "linear"@,
                SpecMode::Highpass => "highpass"@,
                SpecMode::Lowpass => "lowpass"@,
            },
    {
        match self {
            SpecMode::Linear => "linear",
            SpecMode::Highpass => "highpass",
            SpecMode::Lowpass => "lowpass",
        }
    }
}

/// The settings of the spectral engine.
#[derive(Clone, Copy, Debug)]
pub struct SpecParams<S> {
    pub shift_hz: S,
    pub mode: SpecMode,
    pub cutoff_hz: S,
    pub mix: S,
    pub hop_size: usize,
}

impl<S: Copy> SpecParams<S> {
    /// 80 Hz up throughout, all wet, four windows over each sample.
    pub fn default<M: SampleMath<S>>(m: &M) -> (p: Self)
        ensures
            call_ensures(M::ratio, (m, 80i32, 1u32), p.shift_hz),
            p.mode == SpecMode::Linear,
            call_ensures(M::ratio, (m, 1000i32, 1u32), p.cutoff_hz),
            call_ensures(M::ratio, (m, 1i32, 1u32), p.mix),
            p.hop_size == 512,
    {
        SpecParams {
            shift_hz: m.ratio(80, 1),
            mode: SpecMode::Linear,
            cutoff_hz: m.ratio(1000, 1),
            mix: m.ratio(1, 1),
            hop_size: 512,
        }
    }
}

} // verus!
