//! The descriptor of one opened backing store.

use vstd::prelude::*;

verus! {

/// One opened backing store, reduced to what the query core reads and
/// writes: its handle, its virtual address and its byte length.  Whatever
/// capability the backend attached to the store stays with the surrounding
/// layer, keyed by the handle.
#[derive(Debug, Clone, Copy, PartialEq, Eq, Structural)]
pub struct RIODesc {
    /// Back-reference to the handle under which the descriptor is
    /// registered; written once by the handle table.
    pub hndl: u64,
    /// The virtual address at which the descriptor is mapped; written by
    /// the orchestrator when the descriptor is placed.
    pub paddr: u64,
    /// Byte length of the store, fixed for the descriptor's lifetime and
    /// reported by the backend that opened it.
    pub size: u64,
}

impl RIODesc {
    /// A descriptor as a backend open delivers it: the size is known, the
    /// handle and the address are placeholders that the query core
    /// overwrites when the descriptor is adopted.
    pub fn new(size: u64) -> (r: RIODesc)
        ensures
            r == (RIODesc { hndl: 0, paddr: 0, size }),
    {
        RIODesc { hndl: 0, paddr: 0, size }
    }
}

} // verus!
