//! Real-time audio spectrum pipeline, in fixed-point arithmetic.
//!
//! Levels and coefficients are carried as integers scaled by [`UNIT`]
//! (sixteen fractional bits): the real value 1.0 is the integer 65536.
use vstd::prelude::*;

pub mod analyzer;
pub mod bands;
pub mod channel;
pub mod fixed;
pub mod meter;
pub mod pipeline;

verus! {

/// Fixed-point scale: the integer that stands for the real value 1.0.
pub const UNIT: u32 = 65536;

/// Number of samples in one analysis window.
pub const FFT_SIZE: usize = 1024;

/// Samples consumed per analysis step: half the window, for 50% overlap.
pub const HOP: usize = 512;

/// Number of spectrum bins a forward real transform of one window yields.
pub const NUM_BINS: usize = 513;

/// Number of perceptual frequency bands.
pub const BANDS: usize = 96;

} // verus!
