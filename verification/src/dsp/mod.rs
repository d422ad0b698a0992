//! The signal path.

pub mod alike;
pub mod bins;
pub mod bound_laws;
pub mod carrier_laws;
pub mod cola;
pub mod engine;
pub mod engine_laws;
pub mod hilbert;
pub mod hop_laws;
pub mod laws;
pub mod modes;
pub mod sign_laws;
pub mod spectral;
pub mod ssb;
pub mod ssb_laws;
pub mod tone_laws;
