use addrspace::address_space::{AddressSpace, MapEntry, MapError, SourceId, LIMIT};

const A: SourceId = SourceId(1);
const B: SourceId = SourceId(2);
const C: SourceId = SourceId(3);
const D: SourceId = SourceId(4);
const E: SourceId = SourceId(5);

fn assert_sorted_disjoint(space: &AddressSpace) {
    let es = space.entries();
    for e in es.iter() {
        assert!(e.span > 0);
        assert!(e.addr + e.span <= LIMIT);
    }
    for w in es.windows(2) {
        assert!(w[0].addr + w[0].span <= w[1].addr);
    }
}

#[test]
fn new_space_is_empty() {
    let space = AddressSpace::new("kernel");
    assert_eq!(space.name(), "kernel");
    assert!(space.entries().is_empty());
    assert_eq!(space.lookup(0), None);
}

#[test]
fn first_mapping_goes_to_zero() {
    let mut space = AddressSpace::new("p");
    assert_eq!(space.add_mapping(A, 0, 4096), Ok(0));
}

#[test]
fn second_mapping_follows_first() {
    let mut space = AddressSpace::new("p");
    assert_eq!(space.add_mapping(A, 0, 4096), Ok(0));
    assert_eq!(space.add_mapping(B, 0, 8192), Ok(4096));
    assert_sorted_disjoint(&space);
}

#[test]
fn fixed_mapping_then_overlap() {
    let mut space = AddressSpace::new("p");
    assert_eq!(space.add_mapping(A, 0, 4096), Ok(0));
    assert_eq!(space.add_mapping(B, 0, 8192), Ok(4096));
    assert_eq!(space.add_mapping_at(C, 0, 4096, 12288), Ok(()));
    assert_eq!(space.add_mapping_at(C, 0, 4096, 12288), Err(MapError::Overlap));
    assert_eq!(space.entries().len(), 3);
    assert_eq!(space.entries()[2].addr, 12288);
    assert_sorted_disjoint(&space);
}

#[test]
fn too_large_span_is_no_space_and_changes_nothing() {
    let mut space = AddressSpace::new("p");
    space.add_mapping(A, 0, 4096).unwrap();
    space.add_mapping(B, 0, 8192).unwrap();
    let before = space.entries().clone();
    assert_eq!(space.add_mapping(D, 0, LIMIT), Err(MapError::NoSpace));
    assert_eq!(space.entries(), &before);
    assert_eq!(space.add_mapping(D, 0, LIMIT + 1), Err(MapError::NoSpace));
    assert_eq!(space.entries(), &before);
}

#[test]
fn removed_address_is_reused() {
    let mut space = AddressSpace::new("p");
    space.add_mapping(A, 0, 4096).unwrap();
    space.add_mapping(B, 0, 8192).unwrap();
    let removed = space.remove_mapping(A, 0).unwrap();
    assert_eq!(removed, MapEntry { source: A, offset: 0, span: 4096, addr: 0 });
    assert_eq!(space.add_mapping(E, 0, 4096), Ok(0));
    assert_eq!(space.entries()[0].source, E);
    assert_sorted_disjoint(&space);
}

#[test]
fn lookup_gives_source_and_offset() {
    let mut space = AddressSpace::new("p");
    space.add_mapping(A, 0, 4096).unwrap();
    space.add_mapping(B, 0, 8192).unwrap();
    assert_eq!(space.lookup(5000), Some((B, 904)));
    assert_eq!(space.lookup(0), Some((A, 0)));
    assert_eq!(space.lookup(4095), Some((A, 4095)));
    assert_eq!(space.lookup(4096), Some((B, 0)));
    assert_eq!(space.lookup(12288), None);
}

#[test]
fn lookup_adds_source_offset() {
    let mut space = AddressSpace::new("p");
    space.add_mapping_at(A, 100, 4096, 8192).unwrap();
    assert_eq!(space.lookup(8192 + 10), Some((A, 110)));
    assert_eq!(space.lookup(8191), None);
    assert_eq!(space.lookup(8192 + 4096), None);
}

#[test]
fn fixed_mapping_beyond_limit_is_out_of_range() {
    let mut space = AddressSpace::new("p");
    assert_eq!(space.add_mapping_at(A, 0, 4096, LIMIT - 4095), Err(MapError::OutOfRange));
    assert_eq!(space.add_mapping_at(A, 0, 1, u64::MAX), Err(MapError::OutOfRange));
    assert_eq!(space.add_mapping_at(A, 0, LIMIT + 1, 0), Err(MapError::OutOfRange));
    assert!(space.entries().is_empty());
    assert_eq!(space.add_mapping_at(A, 0, 4096, LIMIT - 4096), Ok(()));
}

#[test]
fn out_of_range_is_checked_before_overlap() {
    let mut space = AddressSpace::new("p");
    space.add_mapping_at(A, 0, 4096, LIMIT - 4096).unwrap();
    assert_eq!(space.add_mapping_at(B, 0, 8192, LIMIT - 4096), Err(MapError::OutOfRange));
}

#[test]
fn fixed_mapping_checks_every_entry() {
    let mut space = AddressSpace::new("p");
    space.add_mapping_at(A, 0, 4096, 0).unwrap();
    space.add_mapping_at(B, 0, 4096, 8192).unwrap();
    space.add_mapping_at(C, 0, 4096, 16384).unwrap();
    // spans the gap after the first entry and runs into the third
    assert_eq!(space.add_mapping_at(D, 0, 12288, 4096), Err(MapError::Overlap));
    // touches both neighbours exactly
    assert_eq!(space.add_mapping_at(D, 0, 4096, 12288), Ok(()));
    let addrs: Vec<u64> = space.entries().iter().map(|e| e.addr).collect();
    assert_eq!(addrs, vec![0, 8192, 12288, 16384]);
    assert_sorted_disjoint(&space);
}

#[test]
fn first_fit_takes_lowest_gap() {
    let mut space = AddressSpace::new("p");
    space.add_mapping_at(A, 0, 4096, 4096).unwrap();
    space.add_mapping_at(B, 0, 4096, 16384).unwrap();
    // [0, 4096) is too small for 8192; [8192, 16384) is the first that fits
    assert_eq!(space.add_mapping(C, 0, 8192), Ok(8192));
    // [0, 4096) fits 4096
    assert_eq!(space.add_mapping(D, 0, 4096), Ok(0));
    let addrs: Vec<u64> = space.entries().iter().map(|e| e.addr).collect();
    assert_eq!(addrs, vec![0, 4096, 8192, 16384]);
    assert_sorted_disjoint(&space);
}

#[test]
fn mapping_can_fill_to_limit() {
    let mut space = AddressSpace::new("p");
    assert_eq!(space.add_mapping(A, 0, LIMIT), Ok(0));
    assert_eq!(space.add_mapping(B, 0, 1), Err(MapError::NoSpace));
}

#[test]
fn remove_requires_matching_source() {
    let mut space = AddressSpace::new("p");
    space.add_mapping(A, 0, 4096).unwrap();
    let before = space.entries().clone();
    assert_eq!(space.remove_mapping(B, 0), Err(MapError::NotFound));
    assert_eq!(space.entries(), &before);
    assert_eq!(space.remove_mapping(A, 1), Err(MapError::NotFound));
    assert_eq!(space.entries(), &before);
}

#[test]
fn remove_twice_is_not_found() {
    let mut space = AddressSpace::new("p");
    space.add_mapping(A, 0, 4096).unwrap();
    assert!(space.remove_mapping(A, 0).is_ok());
    assert_eq!(space.remove_mapping(A, 0), Err(MapError::NotFound));
    assert!(space.entries().is_empty());
}

#[test]
fn removed_range_accepts_fixed_mapping() {
    let mut space = AddressSpace::new("p");
    space.add_mapping_at(A, 0, 4096, 0).unwrap();
    space.add_mapping_at(B, 0, 8192, 4096).unwrap();
    space.add_mapping_at(C, 0, 4096, 12288).unwrap();
    assert_eq!(space.add_mapping_at(E, 0, 8192, 4096), Err(MapError::Overlap));
    space.remove_mapping(B, 4096).unwrap();
    assert_eq!(space.add_mapping_at(E, 0, 8192, 4096), Ok(()));
    assert_sorted_disjoint(&space);
}

#[test]
fn into_entries_returns_all_regions() {
    let mut space = AddressSpace::new("p");
    space.add_mapping(A, 0, 4096).unwrap();
    space.add_mapping(B, 7, 8192).unwrap();
    let all = space.into_entries();
    assert_eq!(
        all,
        vec![
            MapEntry { source: A, offset: 0, span: 4096, addr: 0 },
            MapEntry { source: B, offset: 7, span: 8192, addr: 4096 },
        ]
    );
}
