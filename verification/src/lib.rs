//! A flat virtual address space over independently opened backing stores.
//!
//! Every opened store is described by a descriptor that is reachable in two
//! ways: through an opaque, recyclable integer handle, and through the
//! virtual addresses of the closed interval at which the descriptor is
//! mapped.  The crate owns the coordinate system only: handle allocation,
//! collision-free placement of descriptors, and handle/address queries.
//! The byte I/O against a backing store is the business of whatever backend
//! produced the descriptor and stays outside this crate.
//!
//! The entry point is [`descquery::RIODescQuery`].

#![verifier::loop_isolation(false)]

pub mod desc;
pub mod descquery;
pub mod index;
pub mod utils;
