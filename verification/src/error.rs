use vstd::prelude::*;

verus! {

/// The caller-visible failure conditions. All three signal a programming or
/// data-integrity error; none is transient, so no retry logic applies.
#[derive(Clone, Copy, Debug, PartialEq, Eq, Structural)]
pub enum SketchError {
    /// A sketch was constructed with a precision outside `4..=18`.
    InvalidPrecision,
    /// Two sketches of different precisions were merged.
    PrecisionMismatch,
    /// A byte buffer handed to deserialization was malformed.
    CorruptData,
}

} // verus!
