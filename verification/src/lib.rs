//! Composable signal synthesis and one-sided spectral analysis.
//!
//! Signals are generated over exact rational arithmetic: a stepped time axis
//! yields sample instants, waveform generators map each instant to a sample,
//! and the spectral stage derives the frequency axis and one-sided bin layout
//! for a forward Fourier transform performed by the caller.

pub mod error;
pub mod generate;
pub mod rat;
pub mod signals;
pub mod spectrum;
pub mod step_range;
