//! The error reported when a filter is constructed with faulty arguments.

use vstd::prelude::*;

verus! {

/// Why a filter could not be created.
///
/// The target false-positive rate is handed over as a fraction
/// `numerator / denominator`; it must lie strictly between 0 and 1, so the
/// numerator must be positive and strictly below the denominator. The
/// estimated item count must be strictly positive. Each variant carries the
/// offending values back to the caller.
#[derive(Clone, Copy, Debug, PartialEq, Eq, Structural)]
pub enum CreationError {
    /// The requested false-positive rate (as the fraction carried here,
    /// numerator then denominator) does not lie strictly between 0 and 1.
    InvalidFalsePositiveRange(u64, u64),
    /// The estimated item count carried here is zero.
    InvalidEstimatedItems(u64),
}

} // verus!
