use bootloader::address_space::{AddressSpace, MapToError, Mapping};
use bootloader::frame::{Page, PhysFrame};

#[test]
fn second_map_of_same_page_conflicts() {
    let mut space = AddressSpace::new();
    let page = Page { number: 0xfff00000 };
    assert_eq!(space.map(page, PhysFrame { number: 7 }, true), Ok(()));
    assert_eq!(
        space.map(page, PhysFrame { number: 9 }, false),
        Err(MapToError::PageAlreadyMapped(PhysFrame { number: 7 }))
    );
    assert_eq!(space.len(), 1);
    assert_eq!(space.translate(page), Some(PhysFrame { number: 7 }));
}

#[test]
fn identity_map_range_covers_touched_frames() {
    let mut space = AddressSpace::new();
    assert_eq!(space.identity_map_range(0x1800, 0x1000, true), Ok(()));
    assert_eq!(space.len(), 2);
    assert_eq!(
        space.mapping(0),
        Mapping { page: Page { number: 1 }, frame: PhysFrame { number: 1 }, writable: true }
    );
    assert_eq!(space.translate(Page { number: 2 }), Some(PhysFrame { number: 2 }));
    assert_eq!(space.translate(Page { number: 3 }), None);
}

#[test]
fn identity_map_range_empty_maps_nothing() {
    let mut space = AddressSpace::new();
    assert_eq!(space.identity_map_range(0x5000, 0, true), Ok(()));
    assert_eq!(space.len(), 0);
}

#[test]
fn identity_map_range_conflict_changes_nothing() {
    let mut space = AddressSpace::new();
    space.identity_map(PhysFrame { number: 4 }, false).unwrap();
    assert_eq!(
        space.identity_map_range(0x3000, 0x3000, true),
        Err(MapToError::PageAlreadyMapped(PhysFrame { number: 4 }))
    );
    assert_eq!(space.len(), 1);
}
