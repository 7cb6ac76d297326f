//! Buddhabrot density rendering over an exact fixed-point complex plane.
//!
//! Samples `c` are drawn uniformly from the window `[-2, 1] x [-1.5, 1.5]`; each orbit of
//! `z <- z^2 + c` from `z = 0` that leaves the radius-2 disk within the step bound is counted,
//! point by point, into a row-major histogram, which is written as plain grayscale text.
pub mod fixed;
pub mod histogram;
pub mod orbit;
pub mod pgm;
pub mod rng;
pub mod sampler;
