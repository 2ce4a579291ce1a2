//! What can go wrong.

use vstd::prelude::*;

verus! {

#[verifier::external_type_specification]
#[verifier::external_body]
pub struct ExError(candle_core::Error);

/// The reasons for which building or running a model fails.
#[derive(Debug)]
pub enum ModelError {
    /// A tensor operation failed.
    Backend(candle_core::Error),
    /// A number of elements does not fit in a machine word.
    TooLarge,
    /// The operation needs fractional elements and was given integers.
    ElementType,
    /// An axis is too short for the operation.
    ShortAxis,
    /// Heads have no features to pair, or more positions than there are angles for.
    HeadSize,
    /// A cached score is not a number, so the smallest cannot be told.
    UnorderedScores,
}

impl From<candle_core::Error> for ModelError {
    fn from(e: candle_core::Error) -> (r: Self) {
        ModelError::Backend(e)
    }
}

impl vstd::std_specs::convert::FromSpecImpl<candle_core::Error> for ModelError {
    open spec fn obeys_from_spec() -> bool {
        true
    }

    open spec fn from_spec(e: candle_core::Error) -> Self {
        ModelError::Backend(e)
    }
}

} // verus!
