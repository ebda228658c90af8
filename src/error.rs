//! The errors that the measurement reports.
use vstd::prelude::*;

verus! {

/// A precondition of the measurement that its input does not meet.
#[derive(Clone, Copy, PartialEq, Eq, Debug)]
pub enum LoudnessError {
    /// The sample rate gives no sample per 100 ms window (below 10 Hz).
    SampleRateTooLow,
    /// A filter tangent is negative: the sample rate is at or below twice a
    /// filter's corner frequency.
    TangentOutOfRange,
    /// The two channels of a stereo reduction differ in length.
    ChannelLengthMismatch,
}

} // verus!
