use vstd::prelude::*;

verus! {

/// Failures of configuration, loading and evaluation.
#[derive(PartialEq, Eq, Structural, Clone, Copy, Debug)]
pub enum Error {
    /// A histogram was configured with no buckets or a zero maximum.
    InvalidConfig,
    /// Model bytes are truncated, malformed or internally inconsistent.
    Deserialize,
    /// The feature vector lacks a name that the model declares.
    MissingFeature,
    /// A layer's shape does not fit the vector it is applied to.
    DimensionMismatch,
    /// Evaluation produced a value that is not finite.
    NonFinite,
    /// The clock reported a time that is not a 32-bit count of seconds.
    ClockOutOfRange,
}

} // verus!
