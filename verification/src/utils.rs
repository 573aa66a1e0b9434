//! Errors owned by the descriptor-query core.

use vstd::prelude::*;

verus! {

/// The failures that the query core itself can report.  Failures of the
/// backend that opens a URI never reach this enum: they are reported by the
/// surrounding layer before a descriptor is handed to the core.
#[derive(Debug, Clone, Copy, PartialEq, Eq, Structural)]
pub enum IoError {
    /// A handle that is not currently live was passed to `close`.
    HndlNotFoundError,
    /// An exact-address placement collided with a live interval.
    AddressesOverlapError,
}

} // verus!
