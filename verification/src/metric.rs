//! Input validation shared by the distance and similarity metrics.
//!
//! The metrics themselves combine real-valued components; what every one
//! of them decides before any arithmetic is whether the two inputs can be
//! compared at all. That decision depends only on the two lengths.

use vstd::prelude::*;

verus! {

/// Errors raised by distance and similarity metrics.
#[derive(Debug, Clone, Copy, PartialEq, Eq, Structural)]
pub enum MetricError {
    /// The two vectors have different lengths and cannot be compared.
    DimensionMismatch {
        /// Length of the left-hand vector.
        lhs: usize,
        /// Length of the right-hand vector.
        rhs: usize,
    },
    /// At least one of the inputs has length zero.
    EmptyVector,
}

/// The outcome every metric starts with, as a function of the two lengths:
/// an empty side is reported before a length mismatch.
pub open spec fn compatibility(lhs_len: nat, rhs_len: nat) -> Result<(), MetricError> {
    if lhs_len == 0 || rhs_len == 0 {
        Err(MetricError::EmptyVector)
    } else if lhs_len != rhs_len {
        Err(MetricError::DimensionMismatch { lhs: lhs_len as usize, rhs: rhs_len as usize })
    } else {
        Ok(())
    }
}

/// Decides whether two vectors of lengths `lhs_len` and `rhs_len` can be
/// compared by a metric.
pub fn check_compatible(lhs_len: usize, rhs_len: usize) -> (r: Result<(), MetricError>)
    ensures
        r == compatibility(lhs_len as nat, rhs_len as nat),
{
    if lhs_len == 0 || rhs_len == 0 {
        return Err(MetricError::EmptyVector);
    }
    if lhs_len != rhs_len {
        return Err(MetricError::DimensionMismatch { lhs: lhs_len, rhs: rhs_len });
    }
    Ok(())
}

/// Two vectors can be compared exactly when both are non-empty and of the
/// same length; which side is which does not matter for that, and an empty
/// side is reported before any mismatch.
pub proof fn law_compatible_iff_same_nonzero_length(lhs_len: nat, rhs_len: nat)
    ensures
        compatibility(lhs_len, rhs_len) is Ok <==> (lhs_len > 0 && lhs_len == rhs_len),
        compatibility(lhs_len, rhs_len) is Ok <==> compatibility(rhs_len, lhs_len) is Ok,
        (lhs_len == 0 || rhs_len == 0) ==> compatibility(lhs_len, rhs_len) == Err::<(), MetricError>(MetricError::EmptyVector),
{
}

} // verus!
