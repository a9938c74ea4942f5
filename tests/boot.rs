use bootloader::address_space::{AddressSpace, MapToError, Mapping};
use bootloader::allocator::UefiFrameAllocator;
use bootloader::boot::{map_kernel_stack, map_trampoline, BootError, KERNEL_STACK_ADDR};
use bootloader::frame::{MemoryDescriptor, MemoryType, Page, PhysFrame};

fn conventional(phys_start: u64, page_count: u64) -> Vec<MemoryDescriptor> {
    vec![MemoryDescriptor { phys_start, page_count, ty: MemoryType::Conventional }]
}

#[test]
fn kernel_stack_gets_twenty_fresh_frames() {
    let mut space = AddressSpace::new();
    let mut alloc = UefiFrameAllocator::new(conventional(0x100000, 64));
    let top = map_kernel_stack(&mut space, &mut alloc).unwrap();
    assert_eq!(top, 0xfff_0000_0000 + 20 * 4096);
    assert_eq!(space.len(), 20);
    for i in 0..20u64 {
        assert_eq!(
            space.mapping(i as usize),
            Mapping {
                page: Page { number: KERNEL_STACK_ADDR / 4096 + i },
                frame: PhysFrame { number: 0x100 + i },
                writable: true,
            }
        );
    }
    assert_eq!(alloc.next_frame(), 0x100 + 20);
}

#[test]
fn kernel_stack_out_of_frames() {
    let mut space = AddressSpace::new();
    let mut alloc = UefiFrameAllocator::new(conventional(0, 19));
    assert_eq!(map_kernel_stack(&mut space, &mut alloc), Err(BootError::OutOfFrames));
}

#[test]
fn kernel_stack_conflict_changes_nothing() {
    let mut space = AddressSpace::new();
    let page = Page { number: KERNEL_STACK_ADDR / 4096 + 5 };
    space.map(page, PhysFrame { number: 3 }, false).unwrap();
    let mut alloc = UefiFrameAllocator::new(conventional(0, 64));
    assert_eq!(
        map_kernel_stack(&mut space, &mut alloc),
        Err(BootError::MappingConflict(MapToError::PageAlreadyMapped(PhysFrame { number: 3 })))
    );
    assert_eq!(space.len(), 1);
    assert_eq!(alloc.next_frame(), 0);
}

#[test]
fn trampoline_maps_current_and_next_frame_read_only() {
    let mut space = AddressSpace::new();
    assert_eq!(map_trampoline(&mut space, 0x12345), Ok(()));
    assert_eq!(space.len(), 2);
    assert_eq!(
        space.mapping(0),
        Mapping { page: Page { number: 0x12 }, frame: PhysFrame { number: 0x12 }, writable: false }
    );
    assert_eq!(
        space.mapping(1),
        Mapping { page: Page { number: 0x13 }, frame: PhysFrame { number: 0x13 }, writable: false }
    );
}

#[test]
fn trampoline_conflict_changes_nothing() {
    let mut space = AddressSpace::new();
    space.identity_map(PhysFrame { number: 0x13 }, true).unwrap();
    assert!(map_trampoline(&mut space, 0x12345).is_err());
    assert_eq!(space.len(), 1);
}

#[test]
fn kernel_stack_out_of_frames_keeps_pages_mapped_so_far() {
    let mut space = AddressSpace::new();
    let mut alloc = UefiFrameAllocator::new(conventional(0x4000, 3));
    assert_eq!(map_kernel_stack(&mut space, &mut alloc), Err(BootError::OutOfFrames));
    assert_eq!(space.len(), 3);
    assert_eq!(
        space.mapping(2),
        Mapping {
            page: Page { number: KERNEL_STACK_ADDR / 4096 + 2 },
            frame: PhysFrame { number: 6 },
            writable: true,
        }
    );
}
