//! Frequency-domain editing of audio channels over exact fixed-point
//! arithmetic: a complex-number value type, a radix-2 FFT and its inverse,
//! and a spectrum editor that clips and shifts the positive-frequency half
//! of a spectrum before rebuilding a Hermitian-symmetric whole.
//!
//! Sample values live on a fixed-point grid of `complex::SCALE` units per
//! unit amplitude, so every operation in the pipeline is exact integer
//! arithmetic with a stated rounding; the contracts pin each stage down to
//! the corresponding specification function, and the transform's conjugate
//! symmetry on real input is proved, not assumed.

pub mod complex;
pub mod editor;
pub mod fft;
pub mod ifft;
