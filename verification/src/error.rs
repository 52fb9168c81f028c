//! The ways in which building a picker can fail.

use vstd::prelude::*;

verus! {

/// Why a picker could not be built.
#[derive(Debug, Clone, Copy, PartialEq, Eq, Structural)]
pub enum PickerError {
    /// There is nothing to pick from, or the alias table was made for another
    /// number of entries.
    InvalidInput,
    /// A weight or an acceptance probability is not usable: a weight is
    /// negative, infinite or not a number, every weight is zero, or a
    /// probability lies outside `[0, 1]`.
    InvalidWeight,
}

} // verus!
