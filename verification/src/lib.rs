//! Segment-granularity audio glitching.
//!
//! The crate divides a PCM stream into fixed-length segments and applies
//! randomized, order-disrupting transformations (silence, reversal,
//! repetition, swapping) so that the output keeps the input's total sample
//! count.  The layout engine computes segment boundaries, assigns an outcome
//! to every segment by independent probabilistic trials, and keeps the
//! trailing partial segment pinned to the final slot so that durations stay
//! aligned.  The materialization functions turn a layout slice and the raw
//! per-channel sample runs into the interleaved output run.

pub mod materialize;
pub mod rng;
pub mod segment_layout;
