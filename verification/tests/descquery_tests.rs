//! The descriptor-query scenarios: open, exact-address open, close, and
//! the handle/address lookups, driven with fixed-size descriptors in
//! place of a backend open.

use rio::desc::RIODesc;
use rio::descquery::RIODescQuery;
use rio::utils::IoError;

/// Byte length of the backing store every test descriptor stands for.
const DATA_LEN: u64 = 105;

#[test]
fn test_open_close() {
    let mut descs = RIODescQuery::new();
    // single descriptor opening and closing
    let mut hndl = descs.register_open(RIODesc::new(DATA_LEN)).unwrap();
    assert_eq!(descs.hndl_to_descs.len(), 1);
    assert_eq!(descs.paddr_to_hndls.size(), 1);
    assert_eq!(hndl, 0);
    let mut desc = descs.hndl_to_desc(0).unwrap();
    assert_eq!(desc.paddr, 0);
    descs.close(hndl).unwrap();
    assert!(descs.hndl_to_desc(0).is_none());
    assert_eq!(descs.paddr_to_hndls.size(), 0);

    // now open 3 descriptors, close the second one, re-open it and see
    // what happens
    descs.register_open(RIODesc::new(DATA_LEN)).unwrap();
    hndl = descs.register_open(RIODesc::new(DATA_LEN)).unwrap();
    descs.register_open(RIODesc::new(DATA_LEN)).unwrap();
    assert_eq!(descs.hndl_to_descs.len(), 3);
    assert_eq!(descs.paddr_to_hndls.size(), 3);
    let mut new_paddr = 0;
    for i in 0..3 {
        desc = descs.hndl_to_desc(i).unwrap();
        assert_eq!(desc.paddr, new_paddr);
        new_paddr += desc.size;
    }
    // the reopened descriptor lands in the same place
    descs.close(hndl).unwrap();
    assert!(descs.hndl_to_desc(hndl).is_none());
    assert_eq!(descs.paddr_to_hndls.size(), 2);
    descs.register_open(RIODesc::new(DATA_LEN)).unwrap();
    assert_eq!(descs.hndl_to_descs.len(), 3);
    assert_eq!(descs.paddr_to_hndls.size(), 3);
    let mut new_paddr = 0;
    for i in 0..3 {
        desc = descs.hndl_to_desc(i).unwrap();
        assert_eq!(desc.paddr, new_paddr);
        new_paddr += desc.size;
    }
    descs.close(0).unwrap();
    descs.close(1).unwrap();
    descs.close(2).unwrap();
    assert_eq!(descs.free_hndls.len(), 3);
}

#[test]
fn test_open_at() {
    let mut descs = RIODescQuery::new();
    descs.register_open_at(RIODesc::new(DATA_LEN), 0x5000).unwrap();
    assert_eq!(descs.paddr_to_hndl(0x5000).unwrap(), 0);
    descs.close(0).unwrap();
    assert!(descs.hndl_to_desc(0).is_none());

    // now open 3 descriptors where each one has paddr < the one that
    // comes first
    descs.register_open_at(RIODesc::new(DATA_LEN), 0x5000).unwrap();
    descs.register_open_at(RIODesc::new(DATA_LEN), 0x5000 - DATA_LEN).unwrap();
    descs.register_open(RIODesc::new(DATA_LEN)).unwrap();
    assert_eq!(descs.hndl_to_descs.len(), 3);
    assert_eq!(descs.paddr_to_hndls.size(), 3);
    assert_eq!(descs.hndl_to_desc(0).unwrap().paddr, 0x5000);
    assert_eq!(descs.hndl_to_desc(1).unwrap().paddr, 0x5000 - DATA_LEN);
    assert_eq!(descs.hndl_to_desc(2).unwrap().paddr, 0);
    // now close the middle one and re-open it
    descs.close(1).unwrap();
    descs.register_open_at(RIODesc::new(DATA_LEN), 0x5000 - DATA_LEN).unwrap();

    assert_eq!(descs.hndl_to_descs.len(), 3);
    assert_eq!(descs.paddr_to_hndls.size(), 3);
    assert_eq!(descs.hndl_to_desc(0).unwrap().paddr, 0x5000);
    assert_eq!(descs.hndl_to_desc(1).unwrap().paddr, 0x5000 - DATA_LEN);
    assert_eq!(descs.hndl_to_desc(2).unwrap().paddr, 0);
}

#[test]
fn test_failing_open() {
    let mut descs = RIODescQuery::new();
    descs.register_open(RIODesc::new(DATA_LEN)).unwrap();
    let mut e = descs.register_open_at(RIODesc::new(DATA_LEN), 0).err().unwrap();
    assert_eq!(e, IoError::AddressesOverlapError);
    descs.register_open(RIODesc::new(DATA_LEN)).unwrap();
    e = descs.register_open_at(RIODesc::new(DATA_LEN), DATA_LEN).err().unwrap();
    assert_eq!(e, IoError::AddressesOverlapError);
    e = descs.close(5).err().unwrap();
    assert_eq!(e, IoError::HndlNotFoundError);
}

#[test]
fn test_lookups() {
    let mut descs = RIODescQuery::new();
    descs.register_open(RIODesc::new(DATA_LEN)).unwrap();
    descs.register_open_at(RIODesc::new(DATA_LEN), 0x2000).unwrap();
    descs.register_open_at(RIODesc::new(DATA_LEN), 0x1000).unwrap();
    assert_eq!(descs.paddr_to_hndl(0x10).unwrap(), 0);
    assert_eq!(descs.paddr_to_hndl(0x2000).unwrap(), 1);
    assert_eq!(descs.paddr_to_hndl(0x1000).unwrap(), 2);
    assert_eq!(descs.paddr_to_hndl(0x500), None);
    assert_eq!(descs.hndl_to_desc(0).unwrap().hndl, 0);
    assert_eq!(descs.hndl_to_desc(1).unwrap().hndl, 1);
    assert_eq!(descs.hndl_to_desc(2).unwrap().hndl, 2);
    assert!(descs.hndl_to_desc(3).is_none());
    assert_eq!(descs.hndl_to_mut_desc(0).unwrap().hndl, 0);
    assert_eq!(descs.hndl_to_mut_desc(1).unwrap().hndl, 1);
    assert_eq!(descs.hndl_to_mut_desc(2).unwrap().hndl, 2);
    assert!(descs.hndl_to_mut_desc(3).is_none());
}

#[test]
fn test_paddr_range_to_hndl() {
    let mut descs = RIODescQuery::new();
    for _i in 0..3 {
        descs.register_open(RIODesc::new(DATA_LEN)).unwrap();
    }
    descs.register_open_at(RIODesc::new(DATA_LEN), DATA_LEN * 4).unwrap();

    assert_eq!(
        descs.paddr_range_to_hndl(0, 315).unwrap(),
        vec![(0, 0, 105), (1, 105, 105), (2, 210, 105)]
    );
    // overflow to the left
    assert_eq!(descs.paddr_range_to_hndl(330, 200), None);
    // overflow to the right
    assert_eq!(descs.paddr_range_to_hndl(20, 315), None);
    // overflow in the middle
    assert_eq!(descs.paddr_range_to_hndl(20, 500), None);
    // read from the middle of a descriptor
    assert_eq!(
        descs.paddr_range_to_hndl(20, 295).unwrap(),
        vec![(0, 20, 85), (1, 105, 105), (2, 210, 105)]
    );
    // read till the middle of a descriptor
    assert_eq!(
        descs.paddr_range_to_hndl(0, 295).unwrap(),
        vec![(0, 0, 105), (1, 105, 105), (2, 210, 85)]
    );
    // read 1 part of a descriptor
    assert_eq!(descs.paddr_range_to_hndl(425, 75).unwrap(), vec![(3, 425, 75)]);
}
