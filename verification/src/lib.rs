//! Resampling of 8-bit PCM for a pulse-width output, and the double-buffered
//! hand-over of the resampled stream to a sink that plays two blocks in turn.
//!
//! The pipeline, leaves first:
//!
//! - [`source`]: an endless, restartable reader over a byte array;
//! - [`upsample`]: zero-stuffing by sixteen, with the gain applied to the
//!   re-centred samples;
//! - [`section`]: the recurrence of a second-order filter section, the
//!   section with its histories, and the cascade of two sections;
//! - [`quantize`]: the way back from smoothed samples to duty values and to
//!   the words that the pulse output reads;
//! - [`resample`]: upsampler, smoothing stage and requantisation in a row;
//! - [`stream`]: two blocks of duty words, each refilled only after the sink
//!   has reported it as played.
//!
//! Everything here works on whole numbers or on a sample type that it does
//! not look into. The smoothing filter runs in single precision: its
//! multiplications, additions and subtractions come in from the caller as a
//! function, and the contracts say what is handed to that function, in which
//! order, and what becomes of its results.

pub mod quantize;
pub mod resample;
pub mod section;
pub mod source;
pub mod stream;
pub mod upsample;
