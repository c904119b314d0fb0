use vstd::prelude::*;

verus! {

/// A domain error: the current pipeline run cannot proceed, but the caller
/// can fix its configuration and try again with different parameters.
#[derive(Clone, Copy, Debug, PartialEq, Eq, Structural)]
pub enum SignalError {
    /// The step of an axis is zero, or does not move from start toward stop.
    InvalidStep,
    /// A point count of zero was requested for an axis.
    ZeroPoints,
    /// A sawtooth generator has a period that is not strictly positive.
    InvalidPeriod,
    /// The sine table handed to an evaluation does not have one entry
    /// per sine leaf of the generator.
    SineCountMismatch,
    /// An empty trace was handed to the spectral stage.
    EmptyTrace,
    /// An exact rational result does not fit the fixed-width representation.
    OutOfRange,
}

} // verus!
