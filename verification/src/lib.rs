//! A sample-accurate audio mixing engine.
//!
//! Audio amplitude is carried in fixed point: the constant `UNIT` (32768)
//! stands for an amplitude of 1.0. Event times are carried in microseconds.
//! The library canonicalizes source audio into interleaved stereo buffers,
//! turns timed events into frame-aligned placement records grouped by source
//! name, accumulates every placement into one output buffer with a linear
//! stereo pan law, clips the result to the valid amplitude range, and
//! converts it to signed 16-bit PCM for an external encoder.

use vstd::prelude::*;

pub mod errors;
pub mod mix;
pub mod pcm;
pub mod sample;
pub mod timeline;
pub mod units;

verus! {

/// Fixed-point amplitude of exactly 1.0.
pub const UNIT: i32 = 32768;

} // verus!
