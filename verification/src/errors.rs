//! The failure taxonomy of the pipeline. Every failure is fatal: the run
//! aborts before any output is written, so a missing or malformed source can
//! never produce a silently wrong mix.

use vstd::prelude::*;
use vstd::string::StringExecFns;

verus! {

/// A fatal failure of the mixing pipeline, carrying enough context to
/// diagnose it (the source name or the offending input).
#[derive(Debug, Clone)]
pub enum MixError {
    /// A timing, volume or pan field of an event could not be interpreted,
    /// or the event's source name is empty.
    InvalidEvent(String),
    /// A referenced source could not be opened or decoded, or has an
    /// unsupported shape.
    SourceUnavailable(String),
    /// A source's native rate could not be converted to the project rate.
    ResampleFailure(String),
    /// The external encoder could not produce output bytes.
    EncodeFailure(String),
}

/// The text that describes a failure.
pub open spec fn message_spec(e: &MixError) -> Seq<char> {
    match e {
        MixError::InvalidEvent(c) => "invalid event: "@ + c@,
        MixError::SourceUnavailable(c) => "source unavailable: "@ + c@,
        MixError::ResampleFailure(c) => "resample failure: "@ + c@,
        MixError::EncodeFailure(c) => "encode failure: "@ + c@,
    }
}

impl MixError {
    /// A human-readable description of the failure and its context.
    pub fn message(&self) -> (m: String)
        ensures
            m@ == message_spec(self),
    {
        match self {
            MixError::InvalidEvent(c) => "invalid event: ".to_owned().concat(c.as_str()),
            MixError::SourceUnavailable(c) => "source unavailable: ".to_owned().concat(c.as_str()),
            MixError::ResampleFailure(c) => "resample failure: ".to_owned().concat(c.as_str()),
            MixError::EncodeFailure(c) => "encode failure: ".to_owned().concat(c.as_str()),
        }
    }
}

} // verus!
