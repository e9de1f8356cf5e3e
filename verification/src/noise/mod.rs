//! Noise tables.

pub mod simplex_noise;
