use vstd::prelude::*;

verus! {

/// Signal returned by the time-scaler when fewer finalized output frames
/// are available than a caller asked for. Inside the pipeline it marks
/// the normal end of the stream, not a fault.
#[derive(Clone, Copy, Debug, PartialEq, Eq, Structural)]
pub struct InsufficientInputError;

impl InsufficientInputError {
    /// Human-readable description of the signal.
    pub fn message(&self) -> (r: &'static str)
        ensures
            r@ == "not enough input samples have been provided"@,
    {
        "not enough input samples have been provided"
    }
}

} // verus!
