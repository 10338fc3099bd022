use vstd::prelude::*;

verus! {

/// Smallest semitone shift the pitch-shift surface accepts.
pub const MIN_SEMITONES: i32 = -12;
/// Largest semitone shift the pitch-shift surface accepts.
pub const MAX_SEMITONES: i32 = 12;

/// Parameters of one pitch-shift request: a signed semitone count.
pub struct TransposeParams {
    pub semitones: i32,
}

impl TransposeParams {
    /// Whether the requested shift lies in the supported range.
    pub fn in_range(&self) -> (r: bool)
        ensures
            r == (MIN_SEMITONES <= self.semitones && self.semitones <= MAX_SEMITONES),
    {
        MIN_SEMITONES <= self.semitones && self.semitones <= MAX_SEMITONES
    }
}

} // verus!
