//! Multisine excitation design: the integer and text core of bin allocation,
//! FFT indexing, phase-optimiser control and the design artifact.

pub mod calendar;
pub mod design;
pub mod export;
pub mod fft;
pub mod optimize;
pub mod plot;
pub mod sha256;
