//! A linear frequency shifter: every frequency of a stereo stream is moved by
//! the same number of hertz.
//!
//! The library is written over an abstract sample type `S` and an abstract
//! spectrum bin `C`. The arithmetic on them is handed in through the traits
//! of [`math`]; everything else (delay lines, overlap-add, the hop schedule,
//! the engines, the transport and the control surface) is decided here.

pub mod frame;
pub mod math;
pub mod ring;
pub mod stream;
pub mod repeat;
pub mod rounding;
pub mod values;
pub mod value_laws;
pub mod dsp;
pub mod audio;
pub mod block;
pub mod controls;
pub mod spectrum;
pub mod spectrum_laws;
pub mod control_laws;
