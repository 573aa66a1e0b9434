//! End-to-end scenarios for the query core: round trips, handle reuse
//! order, first-fit placement, rollback on collision, and the behaviour
//! at the edges of the address space.

use rio::desc::RIODesc;
use rio::descquery::RIODescQuery;
use rio::utils::IoError;

/// Closing a live handle returns the descriptor with the recorded
/// address and size; afterwards the handle and every address of the old
/// interval answer nothing.
#[test]
fn test_round_trip() {
    let mut descs = RIODescQuery::new();
    let h = descs.register_open_at(RIODesc::new(64), 0x5000).unwrap();
    assert_eq!(descs.paddr_to_hndl(0x5000).unwrap(), h);
    let closed = descs.close(h).unwrap();
    assert_eq!(closed.paddr, 0x5000);
    assert_eq!(closed.size, 64);
    assert_eq!(closed.hndl, h);
    assert!(descs.hndl_to_desc(h).is_none());
    assert_eq!(descs.paddr_to_hndl(0x5000), None);
    assert_eq!(descs.paddr_to_hndl(0x5000 + 63), None);
    assert_eq!(descs.paddr_to_hndl(0x5000 + 32), None);
}

/// Closing `a` then `b` with `a < b` queues them so two opens yield `a`
/// then `b`; with nothing free, an open yields a value never issued.
#[test]
fn test_handle_reuse_order() {
    let mut descs = RIODescQuery::new();
    assert_eq!(descs.register_open(RIODesc::new(16)).unwrap(), 0);
    assert_eq!(descs.register_open(RIODesc::new(16)).unwrap(), 1);
    assert_eq!(descs.register_open(RIODesc::new(16)).unwrap(), 2);
    descs.close(0).unwrap();
    descs.close(1).unwrap();
    assert_eq!(descs.register_open(RIODesc::new(16)).unwrap(), 0);
    assert_eq!(descs.register_open(RIODesc::new(16)).unwrap(), 1);
    // the pool is empty again: the next handle is fresh
    assert_eq!(descs.register_open(RIODesc::new(16)).unwrap(), 3);
}

/// Three equal-size opens land at 0, S and 2S; after closing the middle
/// one, a same-size open reuses the gap at S instead of growing to 3S.
#[test]
fn test_first_fit_placement() {
    const S: u64 = 0x200;
    let mut descs = RIODescQuery::new();
    let h0 = descs.register_open(RIODesc::new(S)).unwrap();
    let h1 = descs.register_open(RIODesc::new(S)).unwrap();
    let h2 = descs.register_open(RIODesc::new(S)).unwrap();
    assert_eq!(descs.hndl_to_desc(h0).unwrap().paddr, 0);
    assert_eq!(descs.hndl_to_desc(h1).unwrap().paddr, S);
    assert_eq!(descs.hndl_to_desc(h2).unwrap().paddr, 2 * S);
    descs.close(h1).unwrap();
    let h3 = descs.register_open(RIODesc::new(S)).unwrap();
    assert_eq!(descs.hndl_to_desc(h3).unwrap().paddr, S);
}

/// A colliding exact-address open fails with `AddressesOverlapError` and
/// leaves the live-descriptor count, the index size and the free pool
/// exactly as they were.
#[test]
fn test_overlap_rejection_is_atomic() {
    let mut descs = RIODescQuery::new();
    descs.register_open_at(RIODesc::new(128), 0x1000).unwrap();
    descs.register_open_at(RIODesc::new(128), 0x3000).unwrap();
    let slots_before = descs.hndl_to_descs.len();
    let index_before = descs.paddr_to_hndls.size();
    let free_before = descs.free_hndls.len();
    let e = descs.register_open_at(RIODesc::new(64), 0x1040).err().unwrap();
    assert_eq!(e, IoError::AddressesOverlapError);
    assert_eq!(descs.hndl_to_descs.len(), slots_before);
    assert_eq!(descs.paddr_to_hndls.size(), index_before);
    assert_eq!(descs.free_hndls.len(), free_before);
    // the state still works as before: the free neighbouring range opens
    descs.register_open_at(RIODesc::new(64), 0x2000).unwrap();
}

/// `close` on a handle never issued, or already closed, fails with
/// `HndlNotFoundError` and leaves the free pool and the table size
/// unchanged.
#[test]
fn test_close_unknown_handle() {
    let mut descs = RIODescQuery::new();
    let h = descs.register_open(RIODesc::new(32)).unwrap();
    let slots_before = descs.hndl_to_descs.len();
    let free_before = descs.free_hndls.len();
    // never issued
    assert_eq!(descs.close(17).err().unwrap(), IoError::HndlNotFoundError);
    assert_eq!(descs.hndl_to_descs.len(), slots_before);
    assert_eq!(descs.free_hndls.len(), free_before);
    // already closed
    descs.close(h).unwrap();
    let free_after_close = descs.free_hndls.len();
    assert_eq!(descs.close(h).err().unwrap(), IoError::HndlNotFoundError);
    assert_eq!(descs.free_hndls.len(), free_after_close);
    assert_eq!(descs.hndl_to_descs.len(), slots_before);
}

/// An empty core answers every query with absence.
#[test]
fn test_empty_core() {
    let descs = RIODescQuery::new();
    assert_eq!(descs.hndl_to_descs.len(), 0);
    assert_eq!(descs.paddr_to_hndls.size(), 0);
    assert_eq!(descs.free_hndls.len(), 0);
    assert!(descs.hndl_to_desc(0).is_none());
    assert_eq!(descs.paddr_to_hndl(0), None);
    assert_eq!(descs.paddr_range_to_hndl(0, 1), None);
}

/// A descriptor may end at the second-to-last address of the space, and
/// a huge descriptor can fill the space from zero.
#[test]
fn test_address_space_edges() {
    let mut descs = RIODescQuery::new();
    // [u64::MAX - 5, u64::MAX - 1]
    let h = descs.register_open_at(RIODesc::new(5), u64::MAX - 5).unwrap();
    assert_eq!(descs.paddr_to_hndl(u64::MAX - 5).unwrap(), h);
    assert_eq!(descs.paddr_to_hndl(u64::MAX - 1).unwrap(), h);
    assert_eq!(descs.paddr_to_hndl(u64::MAX), None);
    assert_eq!(descs.paddr_range_to_hndl(u64::MAX - 5, 5).unwrap(), vec![(
        h,
        u64::MAX - 5,
        5,
    )]);
    let closed = descs.close(h).unwrap();
    assert_eq!(closed.paddr, u64::MAX - 5);
    // a single store spanning [0, u64::MAX - 2]
    let big = descs.register_open(RIODesc::new(u64::MAX - 1)).unwrap();
    assert_eq!(descs.hndl_to_desc(big).unwrap().paddr, 0);
    assert_eq!(descs.paddr_to_hndl(u64::MAX - 2).unwrap(), big);
    assert_eq!(descs.paddr_to_hndl(u64::MAX - 1), None);
}

/// Writing through the mutable lookup lands in the slot.
#[test]
fn test_mut_lookup_writes_through() {
    let mut descs = RIODescQuery::new();
    let h = descs.register_open(RIODesc::new(40)).unwrap();
    {
        let d = descs.hndl_to_mut_desc(h).unwrap();
        assert_eq!(d.size, 40);
    }
    assert!(descs.hndl_to_mut_desc(h + 1).is_none());
    assert_eq!(descs.hndl_to_desc(h).unwrap().size, 40);
}

/// A range touching the unmapped gap between two descriptors, on either
/// side or wholly inside it, is not decomposable; a range exactly inside
/// one descriptor gives a single chunk.
#[test]
fn test_range_gaps() {
    const S: u64 = 100;
    let mut descs = RIODescQuery::new();
    for _i in 0..3 {
        descs.register_open(RIODesc::new(S)).unwrap();
    }
    let h3 = descs.register_open_at(RIODesc::new(S), 4 * S).unwrap();
    // crossing the gap [3S, 4S)
    assert_eq!(descs.paddr_range_to_hndl(3 * S, S + 10), None);
    assert_eq!(descs.paddr_range_to_hndl(2 * S + 50, 2 * S), None);
    // wholly inside the gap
    assert_eq!(descs.paddr_range_to_hndl(3 * S + 10, 20), None);
    // exactly inside the fourth descriptor
    assert_eq!(descs.paddr_range_to_hndl(4 * S + 10, 30).unwrap(), vec![(
        h3,
        4 * S + 10,
        30,
    )]);
    // the whole fourth descriptor
    assert_eq!(descs.paddr_range_to_hndl(4 * S, S).unwrap(), vec![(h3, 4 * S, S)]);
}
