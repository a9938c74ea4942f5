use vstd::prelude::*;

verus! {

/// Size in bytes of a physical frame and of a virtual page.
pub const PAGE_SIZE: u64 = 4096;

/// One past the highest physical address (52-bit physical address space).
pub const MAX_PHYS_ADDR: u64 = 0x10_0000_0000_0000;

/// Number of frames in the physical address space.
pub const FRAME_LIMIT: u64 = 0x100_0000_0000;

/// A 4096-byte-aligned frame of physical memory, named by its frame number.
#[derive(Clone, Copy, Debug, PartialEq, Eq, Structural)]
pub struct PhysFrame {
    pub number: u64,
}

impl PhysFrame {
    /// The frame that holds physical address `addr`.
    pub fn containing_address(addr: u64) -> (r: PhysFrame)
        ensures
            r.number == addr / PAGE_SIZE,
    {
        PhysFrame { number: addr / PAGE_SIZE }
    }

    /// The first byte of the frame.
    pub fn start_address(&self) -> (r: u64)
        requires
            self.number < FRAME_LIMIT,
        ensures
            r == self.number * PAGE_SIZE,
    {
        self.number * PAGE_SIZE
    }
}

/// Number of pages in the 64-bit virtual address space.
pub const PAGE_LIMIT: u64 = 0x10_0000_0000_0000;

/// A 4096-byte-aligned page of virtual memory, named by its page number.
#[derive(Clone, Copy, Debug, PartialEq, Eq, Structural)]
pub struct Page {
    pub number: u64,
}

impl Page {
    /// The page that holds virtual address `addr`.
    pub fn containing_address(addr: u64) -> (r: Page)
        ensures
            r.number == addr / PAGE_SIZE,
    {
        Page { number: addr / PAGE_SIZE }
    }

    /// The first byte of the page.
    pub fn start_address(&self) -> (r: u64)
        requires
            self.number < PAGE_LIMIT,
        ensures
            r == self.number * PAGE_SIZE,
    {
        self.number * PAGE_SIZE
    }
}

/// The firmware's tag of a memory descriptor, as far as the bootloader tells tags apart.
#[derive(Clone, Copy, Debug, PartialEq, Eq, Structural)]
pub enum MemoryType {
    /// Free RAM.
    Conventional,
    /// Never usable.
    Reserved,
    /// Any other firmware type, by its raw tag.
    Other(u32),
}

/// One entry of the firmware memory map.
#[derive(Clone, Copy, Debug, PartialEq, Eq, Structural)]
pub struct MemoryDescriptor {
    pub phys_start: u64,
    pub page_count: u64,
    pub ty: MemoryType,
}

/// `addr` rounded up to a multiple of the page size.
pub open spec fn align_up(addr: int) -> int {
    if addr % (PAGE_SIZE as int) == 0 {
        addr
    } else {
        addr - addr % (PAGE_SIZE as int) + PAGE_SIZE as int
    }
}

impl MemoryDescriptor {
    /// First frame that lies wholly inside the descriptor.
    pub open spec fn start_frame(self) -> int {
        align_up(self.phys_start as int) / PAGE_SIZE as int
    }

    /// One past the last frame the allocator may carve from the descriptor.
    pub open spec fn end_frame(self) -> int {
        self.start_frame() + self.page_count
    }

    /// One past the last byte of the descriptor.
    pub open spec fn end_addr(self) -> int {
        self.phys_start + PAGE_SIZE * self.page_count
    }

    /// The descriptor lies in the physical address space.
    pub open spec fn valid(self) -> bool {
        align_up(self.phys_start as int) + PAGE_SIZE * self.page_count <= MAX_PHYS_ADDR
    }

    pub open spec fn is_conventional(self) -> bool {
        self.ty == MemoryType::Conventional
    }

    pub open spec fn is_reserved(self) -> bool {
        self.ty == MemoryType::Reserved
    }
}

/// Every descriptor of `descs` lies in the physical address space.
pub open spec fn all_valid(descs: Seq<MemoryDescriptor>) -> bool {
    forall|i: int| 0 <= i < descs.len() ==> #[trigger] descs[i].valid()
}

/// The descriptors lie in increasing address order and do not overlap.
pub open spec fn descriptors_ordered(descs: Seq<MemoryDescriptor>) -> bool {
    forall|i: int, j: int|
        0 <= i < j < descs.len() ==> #[trigger] descs[i].end_addr() <= #[trigger] descs[j].phys_start
}

/// Facts on a valid descriptor's frame and address bounds.
pub proof fn lemma_descriptor_bounds(d: MemoryDescriptor)
    requires
        d.valid(),
    ensures
        0 <= d.start_frame() <= d.end_frame() <= FRAME_LIMIT,
        d.start_frame() * PAGE_SIZE == align_up(d.phys_start as int),
        d.phys_start <= align_up(d.phys_start as int),
        d.phys_start <= d.end_addr() <= MAX_PHYS_ADDR,
        d.end_addr() <= d.end_frame() * PAGE_SIZE,
{
    let s = d.phys_start as int;
    let a = align_up(s);
    assert(a % 4096 == 0 && s <= a) by {
        if s % 4096 != 0 {
            assert((s - s % 4096 + 4096) % 4096 == 0) by (nonlinear_arith);
        }
    }
    assert(a / 4096 * 4096 == a) by (nonlinear_arith)
        requires a % 4096 == 0;
    assert(d.end_frame() * 4096 == a + 4096 * d.page_count) by (nonlinear_arith)
        requires d.end_frame() == a / 4096 + d.page_count, a / 4096 * 4096 == a;
    assert(a / 4096 >= 0) by (nonlinear_arith) requires a >= 0;
    assert(d.end_frame() <= FRAME_LIMIT) by (nonlinear_arith)
        requires d.end_frame() * 4096 <= MAX_PHYS_ADDR;
}

/// Rounding up keeps a gap of whole pages: where `x + PAGE_SIZE * c <= y`, so it is for
/// `x` and `y` rounded up.
pub proof fn lemma_align_up_gap(x: int, y: int, c: int)
    requires
        0 <= x,
        0 <= c,
        x + PAGE_SIZE * c <= y,
    ensures
        align_up(x) + PAGE_SIZE * c <= align_up(y),
{
    let q = x / 4096;
    let r = x % 4096;
    let q2 = y / 4096;
    let r2 = y % 4096;
    assert(x == 4096 * q + r && 0 <= r < 4096) by (nonlinear_arith)
        requires
            q == x / 4096,
            r == x % 4096,
            x >= 0,
    ;
    assert(y == 4096 * q2 + r2 && 0 <= r2 < 4096) by (nonlinear_arith)
        requires
            q2 == y / 4096,
            r2 == y % 4096,
            y >= 0,
    ;
    let a = if r == 0 { q } else { q + 1 };
    let b = if r2 == 0 { q2 } else { q2 + 1 };
    assert(align_up(x) == 4096 * a);
    assert(align_up(y) == 4096 * b);
    assert(a + c <= b) by (nonlinear_arith)
        requires
            4096 * q + r + 4096 * c <= 4096 * q2 + r2,
            0 <= r < 4096,
            0 <= r2 < 4096,
            a == if r == 0 { q } else { q + 1 },
            b == if r2 == 0 { q2 } else { q2 + 1 },
    ;
}

} // verus!
