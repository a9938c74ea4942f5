use vstd::prelude::*;

use crate::address_space::{
    identity_mappings, is_mapped, page_at, AddressSpace, MapToError, Mapping,
};
use crate::allocator::{
    alloc_after, alloc_run, alloc_step, lemma_frames_strictly_increase, lemma_run_extend, UefiFrameAllocator};
use crate::frame::{all_valid, Page, PhysFrame, PAGE_SIZE};

verus! {

/// Virtual address of the bottom of the kernel stack.
pub const KERNEL_STACK_ADDR: u64 = 0xfff_0000_0000;

/// Number of pages of the kernel stack (80 KiB).
pub const KERNEL_STACK_PAGES: u64 = 20;

/// Why the handoff to the kernel cannot be prepared. Every one of them halts the boot.
#[derive(Clone, Copy, Debug, PartialEq, Eq, Structural)]
pub enum BootError {
    /// No free frame is left.
    OutOfFrames,
    /// A page to be mapped is mapped already.
    MappingConflict(MapToError),
    /// The final memory map does not fit its frame.
    MemoryMapFull,
}

/// Where the framebuffer lies in physical memory.
#[derive(Clone, Copy, Debug, PartialEq, Eq, Structural)]
pub struct FrameBufferInfo {
    pub start_addr: u64,
    pub len: u64,
}

/// What the kernel receives: the address of the final memory map, which lies in a frame
/// of its own, and the framebuffer.
#[derive(Clone, Copy, Debug, PartialEq, Eq, Structural)]
pub struct BootInfo {
    pub memory_map: u64,
    pub framebuffer: FrameBufferInfo,
}

/// What the final switch loads: the new top-level table, the stack pointer, the kernel's
/// entry point, and the boot-info address handed to it.
#[derive(Clone, Copy, Debug, PartialEq, Eq, Structural)]
pub struct Addresses {
    pub page_table: PhysFrame,
    pub stack_top: u64,
    pub entry_point: u64,
    pub boot_info: u64,
}

/// Page number of the bottom of the kernel stack.
pub open spec fn stack_first_page() -> int {
    KERNEL_STACK_ADDR as int / PAGE_SIZE as int
}

/// Some page of the kernel stack is mapped in `s`.
pub open spec fn stack_conflict(s: Seq<Mapping>) -> bool {
    exists|k: int|
        0 <= k < KERNEL_STACK_PAGES && #[trigger] is_mapped(s, page_at(stack_first_page() + k))
}

/// The stack pages, from the bottom up, each mapped writable to the frame that the
/// matching allocation returned.
pub open spec fn stack_mappings(frames: Seq<Option<nat>>) -> Seq<Mapping> {
    Seq::new(
        frames.len(),
        |k: int|
            Mapping {
                page: page_at(stack_first_page() + k),
                frame: PhysFrame { number: frames[k]->0 as u64 },
                writable: true,
            },
    )
}

/// Maps the kernel stack: each of its pages, from the bottom up, to a freshly allocated
/// frame, writable. Returns the stack's top address. Where a stack page is mapped already,
/// nothing changes; where frames run out, the error says so, and the pages mapped up to
/// then stay mapped.
pub fn map_kernel_stack(space: &mut AddressSpace, frame_allocator: &mut UefiFrameAllocator) -> (r:
    Result<u64, BootError>)
    requires
        old(space).wf(),
        old(frame_allocator).wf(),
    ensures
        final(space).wf(),
        final(frame_allocator).wf(),
        stack_conflict(old(space)@) ==> {
            &&& r matches Err(BootError::MappingConflict(_))
            &&& final(space)@ == old(space)@
            &&& final(frame_allocator)@ == old(frame_allocator)@
        },
        !stack_conflict(old(space)@) && old(frame_allocator).frames_left() < KERNEL_STACK_PAGES
            ==> {
            &&& r == Err::<u64, BootError>(BootError::OutOfFrames)
            &&& final(space)@ == old(space)@ + stack_mappings(
                alloc_run(old(frame_allocator)@, old(frame_allocator).frames_left()),
            )
            &&& final(frame_allocator)@ == alloc_after(
                old(frame_allocator)@,
                old(frame_allocator).frames_left() + 1,
            )
        },
        !stack_conflict(old(space)@) && old(frame_allocator).frames_left() >= KERNEL_STACK_PAGES
            ==> {
            &&& r == Ok::<u64, BootError>((KERNEL_STACK_ADDR + KERNEL_STACK_PAGES * PAGE_SIZE) as u64)
            &&& final(space)@ == old(space)@ + stack_mappings(
                alloc_run(old(frame_allocator)@, KERNEL_STACK_PAGES as nat),
            )
            &&& final(frame_allocator)@ == alloc_after(
                old(frame_allocator)@,
                KERNEL_STACK_PAGES as nat,
            )
        },
{
    let first: u64 = KERNEL_STACK_ADDR / PAGE_SIZE;
    let mut k: u64 = 0;
    while k < KERNEL_STACK_PAGES
        invariant
            k <= KERNEL_STACK_PAGES,
            first == stack_first_page(),
            space.wf(),
            space@ == old(space)@,
            frame_allocator@ == old(frame_allocator)@,
            frame_allocator.wf(),
            forall|j: int| 0 <= j < k ==> !#[trigger] is_mapped(space@, page_at(stack_first_page() + j)),
        decreases KERNEL_STACK_PAGES - k,
    {
        match space.translate(Page { number: first + k }) {
            Some(existing) => {
                assert(is_mapped(space@, page_at(stack_first_page() + k)));
                return Err(BootError::MappingConflict(MapToError::PageAlreadyMapped(existing)));
            },
            None => {},
        }
        k = k + 1;
    }
    let ghost s0 = frame_allocator@;
    let ghost before = space@;
    k = 0;
    while k < KERNEL_STACK_PAGES
        invariant
            k <= KERNEL_STACK_PAGES,
            first == stack_first_page(),
            space.wf(),
            frame_allocator.wf(),
            s0 == old(frame_allocator)@,
            all_valid(s0.descriptors),
            before == old(space)@,
            !stack_conflict(before),
            k <= s0.frames_left(),
            space@ == before + stack_mappings(alloc_run(s0, k as nat)),
            frame_allocator@ == alloc_after(s0, k as nat),
        decreases KERNEL_STACK_PAGES - k,
    {
        proof {
            lemma_run_extend(s0, k as nat);
            lemma_frames_strictly_increase(s0, k as nat);
            lemma_frames_strictly_increase(s0, (k + 1) as nat);
        }
        let frame = match frame_allocator.allocate_frame() {
            Some(f) => f,
            None => {
                assert(k == s0.frames_left());
                return Err(BootError::OutOfFrames);
            },
        };
        let ghost cur = space@;
        let ghost added = stack_mappings(alloc_run(s0, k as nat));
        let page = Page { number: first + k };
        assert(page == page_at(stack_first_page() + k));
        assert(!is_mapped(cur, page)) by {
            assert(!is_mapped(before, page_at(stack_first_page() + k)));
            assert(cur.len() == before.len() + added.len());
            assert(added.len() == k);
            if is_mapped(cur, page) {
                let i = choose|i: int| 0 <= i < cur.len() && (#[trigger] cur[i]).page == page;
                if i >= before.len() {
                    assert(cur[i] == added[i - before.len()]);
                    assert(added[i - before.len()].page == page_at(stack_first_page() + (i - before.len())));
                } else {
                    assert(cur[i] == before[i]);
                }
            }
        }
        match space.map(page, frame, true) {
            Ok(()) => {},
            Err(e) => {
                return Err(BootError::MappingConflict(e));
            },
        }
        assert(alloc_step(alloc_after(s0, k as nat)).0 == Some(frame.number as nat));
        assert(stack_mappings(alloc_run(s0, (k + 1) as nat)) =~= added.push(
            Mapping { page, frame, writable: true },
        ));
        k = k + 1;
    }
    Ok(KERNEL_STACK_ADDR + KERNEL_STACK_PAGES * PAGE_SIZE)
}

/// Identity-maps, present but not writable, the frame that holds the instruction pointer
/// `rip` and the frame after it, so that the instructions of the final switch stay
/// fetchable once the new table is active. Where either page is mapped already, nothing
/// changes.
pub fn map_trampoline(space: &mut AddressSpace, rip: u64) -> (r: Result<(), MapToError>)
    requires
        old(space).wf(),
    ensures
        final(space).wf(),
        r is Ok <==> !is_mapped(old(space)@, page_at(rip as int / PAGE_SIZE as int)) && !is_mapped(
            old(space)@,
            page_at(rip as int / PAGE_SIZE as int + 1),
        ),
        r is Ok ==> final(space)@ == old(space)@ + identity_mappings(
            rip as int / PAGE_SIZE as int,
            rip as int / PAGE_SIZE as int + 2,
            false,
        ),
        r is Err ==> final(space)@ == old(space)@,
{
    let current = PhysFrame::containing_address(rip);
    let next = PhysFrame { number: current.number + 1 };
    match space.translate(Page { number: next.number }) {
        Some(existing) => {
            return Err(MapToError::PageAlreadyMapped(existing));
        },
        None => {},
    }
    let ghost s0 = space@;
    match space.identity_map(current, false) {
        Ok(()) => {},
        Err(e) => {
            return Err(e);
        },
    }
    assert(!is_mapped(space@, Page { number: next.number })) by {
        if is_mapped(space@, Page { number: next.number }) {
            let i = choose|i: int| 0 <= i < space@.len() && (#[trigger] space@[i]).page == Page { number: next.number };
            if i < s0.len() {
                assert(space@[i] == s0[i]);
            }
        }
    }
    let _ = space.identity_map(next, false);
    assert(space@ =~= s0 + identity_mappings(
        rip as int / PAGE_SIZE as int,
        rip as int / PAGE_SIZE as int + 2,
        false,
    ));
    Ok(())
}

} // verus!
