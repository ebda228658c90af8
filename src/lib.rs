//! Loudness measurement after ITU-R BS.1770-4, in fixed-point arithmetic.
//!
//! Samples are `i64` values with full scale at `SAMPLE_ONE`, filter
//! coefficients are `i64` values with unity at `COEF_ONE`, and powers are
//! `u64` values with full-scale power at `POWER_ONE`. Every step from a
//! sample to the integrated loudness is exact integer arithmetic with a
//! stated rounding, so the whole pipeline carries a functional contract.
//!
//! The pipeline: each channel's `ChannelLoudnessMeter` K-weights its samples
//! with two `Filter`s and emits the mean square of every 100 ms window;
//! `reduce_stereo` sums the two channels' windows; `gated_mean` gates the
//! overlapping 400 ms blocks and returns the integrated power.

pub mod error;
pub mod filter;
pub mod fixed;
pub mod gating;
pub mod meter;

pub use error::LoudnessError;
pub use filter::Filter;
pub use fixed::{sample_from_pcm, COEF_ONE, POWER_ONE, SAMPLE_ONE, SIGNAL_LIMIT};
pub use gating::{gated_mean, reduce_stereo, Power, ABSOLUTE_GATE_BLOCK_SUM};
pub use meter::ChannelLoudnessMeter;
