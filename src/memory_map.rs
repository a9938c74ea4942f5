use vstd::prelude::*;

use crate::frame::{
    all_valid, descriptors_ordered, lemma_descriptor_bounds, MemoryDescriptor, MAX_PHYS_ADDR,
};

verus! {

/// How the kernel may use a region of physical memory.
#[derive(Clone, Copy, Debug, PartialEq, Eq, Structural)]
pub enum MemoryRegionKind {
    /// Free RAM.
    Usable,
    /// RAM that the bootloader handed out (page tables, stack, boot info, kernel image).
    Bootloader,
    /// Never usable.
    Reserved,
}

/// The physical byte range `[start, end)`, tagged with its kind.
#[derive(Clone, Copy, Debug, PartialEq, Eq, Structural)]
pub struct MemoryRegion {
    pub start: u64,
    pub end: u64,
    pub kind: MemoryRegionKind,
}

/// The most regions a memory map holds: what fits in one frame.
pub const MEMORY_MAP_CAPACITY: usize = 170;

/// The memory map is full.
#[derive(Clone, Copy, Debug, PartialEq, Eq, Structural)]
pub struct MemoryMapFull;

/// An append-only sequence of regions, frozen into a `MemoryMap` by `finalize`.
pub struct MemoryMapBuilder {
    regions: Vec<MemoryRegion>,
}

impl View for MemoryMapBuilder {
    type V = Seq<MemoryRegion>;

    closed spec fn view(&self) -> Seq<MemoryRegion> {
        self.regions@
    }
}

impl MemoryMapBuilder {
    pub open spec fn wf(&self) -> bool {
        self@.len() <= MEMORY_MAP_CAPACITY
    }

    /// An empty builder.
    pub fn new() -> (r: Self)
        ensures
            r.wf(),
            r@ == Seq::<MemoryRegion>::empty(),
    {
        MemoryMapBuilder { regions: Vec::new() }
    }

    /// The number of regions added so far.
    pub fn len(&self) -> (r: usize)
        ensures
            r == self@.len(),
    {
        self.regions.len()
    }

    /// Appends `region`, or reports that the map is full and leaves it unchanged.
    pub fn add_region(&mut self, region: MemoryRegion) -> (r: Result<(), MemoryMapFull>)
        requires
            old(self).wf(),
        ensures
            final(self).wf(),
            r is Ok <==> old(self)@.len() < MEMORY_MAP_CAPACITY,
            r is Ok ==> final(self)@ == old(self)@.push(region),
            r is Err ==> final(self)@ == old(self)@,
    {
        if self.regions.len() < MEMORY_MAP_CAPACITY {
            self.regions.push(region);
            Ok(())
        } else {
            Err(MemoryMapFull)
        }
    }

    /// Freezes the regions added so far into a fixed-size record.
    pub fn finalize(self) -> (r: MemoryMap)
        requires
            self.wf(),
        ensures
            r.wf(),
            r@ == self@,
            r@.len() <= MEMORY_MAP_CAPACITY,
    {
        let empty = MemoryRegion { start: 0, end: 0, kind: MemoryRegionKind::Reserved };
        let mut regions = [empty; MEMORY_MAP_CAPACITY];
        let len = self.regions.len();
        let mut i: usize = 0;
        while i < len
            invariant
                len == self@.len(),
                len <= MEMORY_MAP_CAPACITY,
                i <= len,
                regions@.len() == MEMORY_MAP_CAPACITY,
                forall|k: int| 0 <= k < i ==> regions@[k] == self@[k],
            decreases len - i,
        {
            regions[i] = self.regions[i];
            i = i + 1;
        }
        let r = MemoryMap { regions, len };
        assert(r@ =~= self@);
        r
    }
}

/// A frozen, ordered sequence of memory regions, of a fixed size that fits in one frame.
pub struct MemoryMap {
    regions: [MemoryRegion; MEMORY_MAP_CAPACITY],
    len: usize,
}

impl View for MemoryMap {
    type V = Seq<MemoryRegion>;

    closed spec fn view(&self) -> Seq<MemoryRegion> {
        self.regions@.take(self.len as int)
    }
}

impl MemoryMap {
    pub closed spec fn wf(&self) -> bool {
        self.len <= MEMORY_MAP_CAPACITY
    }

    /// The number of regions.
    pub fn len(&self) -> (r: usize)
        requires
            self.wf(),
        ensures
            r == self@.len(),
    {
        self.len
    }

    /// The region at `index`.
    pub fn region(&self, index: usize) -> (r: MemoryRegion)
        requires
            self.wf(),
            index < self@.len(),
        ensures
            r == self@[index as int],
    {
        self.regions[index]
    }
}

/// The region `[start, end)` of `kind`.
pub open spec fn region(start: int, end: int, kind: MemoryRegionKind) -> MemoryRegion {
    MemoryRegion { start: start as u64, end: end as u64, kind }
}

/// The regions that descriptor `d` contributes to the final map once the allocator's
/// cursor stands at byte address `next_free`. A descriptor without pages contributes none.
pub open spec fn regions_of(d: MemoryDescriptor, next_free: int) -> Seq<MemoryRegion> {
    let start = d.phys_start as int;
    let end = d.end_addr();
    if d.page_count == 0 {
        Seq::empty()
    } else if d.is_conventional() {
        if end <= next_free {
            seq![region(start, end, MemoryRegionKind::Bootloader)]
        } else if start >= next_free {
            seq![region(start, end, MemoryRegionKind::Usable)]
        } else {
            seq![
                region(start, next_free, MemoryRegionKind::Bootloader),
                region(next_free, end, MemoryRegionKind::Usable),
            ]
        }
    } else if d.is_reserved() {
        seq![region(start, end, MemoryRegionKind::Reserved)]
    } else {
        Seq::empty()
    }
}

/// The final memory map of `descs` with the cursor at byte address `next_free`: each
/// descriptor's regions, in descriptor order.
pub open spec fn final_regions(descs: Seq<MemoryDescriptor>, next_free: int) -> Seq<MemoryRegion>
    decreases descs.len(),
{
    if descs.len() == 0 {
        Seq::empty()
    } else {
        final_regions(descs.drop_last(), next_free) + regions_of(descs.last(), next_free)
    }
}

/// Some region of `rs` holds byte address `a`.
pub open spec fn covers(rs: Seq<MemoryRegion>, a: int) -> bool {
    exists|k: int| 0 <= k < rs.len() && (#[trigger] rs[k]).start <= a < rs[k].end
}

/// `d` is free RAM or reserved memory and holds byte address `a`.
pub open spec fn descriptor_covers(d: MemoryDescriptor, a: int) -> bool {
    (d.is_conventional() || d.is_reserved()) && d.phys_start <= a < d.end_addr()
}

/// A free-RAM descriptor wholly below the cursor gives one Bootloader region over its whole
/// range; one wholly at or above it gives one Usable region; one that straddles it gives
/// a Bootloader region and then a Usable region that meet at the cursor.
pub proof fn lemma_descriptor_regions(d: MemoryDescriptor, next_free: int)
    requires
        d.valid(),
        d.is_conventional(),
        d.page_count > 0,
        0 <= next_free <= MAX_PHYS_ADDR,
    ensures
        d.end_addr() <= next_free ==> regions_of(d, next_free) == seq![
            MemoryRegion {
                start: d.phys_start,
                end: d.end_addr() as u64,
                kind: MemoryRegionKind::Bootloader,
            },
        ],
        next_free <= d.phys_start ==> regions_of(d, next_free) == seq![
            MemoryRegion { start: d.phys_start, end: d.end_addr() as u64, kind: MemoryRegionKind::Usable },
        ],
        d.phys_start < next_free < d.end_addr() ==> {
            let rs = regions_of(d, next_free);
            &&& rs.len() == 2
            &&& rs[0] == MemoryRegion {
                start: d.phys_start,
                end: next_free as u64,
                kind: MemoryRegionKind::Bootloader,
            }
            &&& rs[1] == MemoryRegion {
                start: next_free as u64,
                end: d.end_addr() as u64,
                kind: MemoryRegionKind::Usable,
            }
        },
{
    lemma_descriptor_bounds(d);
}

/// Every region of `regions_of(d, next_free)` is non-empty and lies inside `d`, each ends at or before the
/// next one starts, and together they hold exactly the addresses that `d` holds, where it
/// is free RAM or reserved.
proof fn lemma_regions_of(d: MemoryDescriptor, next_free: int, a: int)
    requires
        d.valid(),
        0 <= next_free <= MAX_PHYS_ADDR,
    ensures
        covers(regions_of(d, next_free), a) <==> descriptor_covers(d, a),
        forall|k: int|
            0 <= k < regions_of(d, next_free).len() ==> {
                let r = #[trigger] regions_of(d, next_free)[k];
                d.phys_start <= r.start < r.end <= d.end_addr()
            },
        forall|k: int, l: int|
            0 <= k < l < regions_of(d, next_free).len() ==> regions_of(d, next_free)[k].end
                <= regions_of(d, next_free)[l].start,
{
    lemma_descriptor_bounds(d);
    let rs = regions_of(d, next_free);
    if descriptor_covers(d, a) {
        if d.is_conventional() && d.phys_start < next_free < d.end_addr() {
            if a < next_free {
                assert(rs[0].start <= a < rs[0].end);
            } else {
                assert(rs[1].start <= a < rs[1].end);
            }
        } else {
            assert(rs[0].start <= a < rs[0].end);
        }
    }
}

/// The final map holds exactly the addresses of the free-RAM and reserved descriptors.
pub proof fn lemma_map_covers_input(descs: Seq<MemoryDescriptor>, next_free: int, a: int)
    requires
        all_valid(descs),
        0 <= next_free <= MAX_PHYS_ADDR,
    ensures
        covers(final_regions(descs, next_free), a) <==> exists|i: int|
            0 <= i < descs.len() && descriptor_covers(#[trigger] descs[i], a),
    decreases descs.len(),
{
    if descs.len() > 0 {
        let prefix = descs.drop_last();
        let last = descs.last();
        assert(all_valid(prefix)) by {
            assert forall|i: int| 0 <= i < prefix.len() implies #[trigger] prefix[i].valid() by {
                assert(prefix[i] == descs[i]);
            }
        }
        assert(last == descs[descs.len() - 1]);
        lemma_map_covers_input(prefix, next_free, a);
        lemma_regions_of(last, next_free, a);
        let left = final_regions(prefix, next_free);
        let right = regions_of(last, next_free);
        let all = final_regions(descs, next_free);
        assert(all == left + right);
        if covers(all, a) {
            let k = choose|k: int| 0 <= k < all.len() && (#[trigger] all[k]).start <= a < all[k].end;
            if k < left.len() {
                assert(all[k] == left[k]);
                assert(covers(left, a));
                let i = choose|i: int| 0 <= i < prefix.len() && descriptor_covers(#[trigger] prefix[i], a);
                assert(descs[i] == prefix[i]);
            } else {
                assert(all[k] == right[k - left.len()]);
                assert(covers(right, a));
            }
        }
        if exists|i: int| 0 <= i < descs.len() && descriptor_covers(#[trigger] descs[i], a) {
            let i = choose|i: int| 0 <= i < descs.len() && descriptor_covers(#[trigger] descs[i], a);
            if i < prefix.len() {
                assert(prefix[i] == descs[i]);
                let k = choose|k: int| 0 <= k < left.len() && (#[trigger] left[k]).start <= a < left[k].end;
                assert(all[k] == left[k]);
            } else {
                let k = choose|k: int| 0 <= k < right.len() && (#[trigger] right[k]).start <= a < right[k].end;
                assert(all[k + left.len()] == right[k]);
            }
        }
    }
}

/// Where the descriptors lie in increasing address order and do not overlap, so do the
/// regions of the final map: none is reversed, and each ends at or before any later one
/// starts, so no two overlap.
pub proof fn lemma_map_ordered(descs: Seq<MemoryDescriptor>, next_free: int)
    requires
        all_valid(descs),
        descriptors_ordered(descs),
        0 <= next_free <= MAX_PHYS_ADDR,
    ensures
        forall|k: int|
            0 <= k < final_regions(descs, next_free).len() ==> #[trigger] final_regions(
                descs,
                next_free,
            )[k].start <= final_regions(descs, next_free)[k].end,
        forall|k: int, l: int|
            0 <= k < l < final_regions(descs, next_free).len() ==> #[trigger] final_regions(
                descs,
                next_free,
            )[k].end <= #[trigger] final_regions(descs, next_free)[l].start,
        descs.len() > 0 ==> forall|k: int|
            0 <= k < final_regions(descs, next_free).len() ==> #[trigger] final_regions(
                descs,
                next_free,
            )[k].end <= descs.last().end_addr(),
    decreases descs.len(),
{
    if descs.len() > 0 {
        let prefix = descs.drop_last();
        let last = descs.last();
        assert(all_valid(prefix)) by {
            assert forall|i: int| 0 <= i < prefix.len() implies #[trigger] prefix[i].valid() by {
                assert(prefix[i] == descs[i]);
            }
        }
        assert(descriptors_ordered(prefix)) by {
            assert forall|i: int, j: int| 0 <= i < j < prefix.len() implies #[trigger] prefix[i].end_addr()
                <= #[trigger] prefix[j].phys_start by {
                assert(prefix[i] == descs[i]);
                assert(prefix[j] == descs[j]);
            }
        }
        assert(last == descs[descs.len() - 1]);
        assert(last.valid());
        lemma_descriptor_bounds(last);
        lemma_map_ordered(prefix, next_free);
        lemma_regions_of(last, next_free, 0);
        let left = final_regions(prefix, next_free);
        let right = regions_of(last, next_free);
        let all = final_regions(descs, next_free);
        assert(all == left + right);
        if prefix.len() > 0 {
            assert(prefix.last() == descs[prefix.len() - 1]);
            assert(prefix.last().end_addr() <= last.phys_start);
        }
        assert forall|k: int| 0 <= k < all.len() implies #[trigger] all[k].start <= all[k].end
            && all[k].end <= last.end_addr() by {
            if k < left.len() {
                assert(all[k] == left[k]);
                assert(prefix.last().valid());
                lemma_descriptor_bounds(prefix.last());
            } else {
                assert(all[k] == right[k - left.len()]);
            }
        }
        assert forall|k: int, l: int| 0 <= k < l < all.len() implies #[trigger] all[k].end
            <= #[trigger] all[l].start by {
            if l < left.len() {
                assert(all[k] == left[k]);
                assert(all[l] == left[l]);
            } else if k < left.len() {
                assert(all[k] == left[k]);
                assert(all[l] == right[l - left.len()]);
            } else {
                assert(all[k] == right[k - left.len()]);
                assert(all[l] == right[l - left.len()]);
            }
        }
    }
}

/// Region `r` lies inside descriptor `d`.
pub open spec fn region_inside(r: MemoryRegion, d: MemoryDescriptor) -> bool {
    d.phys_start <= r.start && r.end <= d.end_addr()
}

/// No two descriptors with pages share an address.
pub open spec fn descriptors_disjoint(descs: Seq<MemoryDescriptor>) -> bool {
    forall|i: int, j: int|
        0 <= i < descs.len() && 0 <= j < descs.len() && i != j ==> #[trigger] descs[i].end_addr()
            <= #[trigger] descs[j].phys_start || descs[j].end_addr() <= descs[i].phys_start
            || descs[i].page_count == 0 || descs[j].page_count == 0
}

/// Every region of the final map is non-empty, and lies inside one of the descriptors.
pub proof fn lemma_map_regions_nonempty(descs: Seq<MemoryDescriptor>, next_free: int)
    requires
        all_valid(descs),
        0 <= next_free <= MAX_PHYS_ADDR,
    ensures
        forall|k: int|
            0 <= k < final_regions(descs, next_free).len() ==> {
                &&& (#[trigger] final_regions(descs, next_free)[k]).start < final_regions(
                    descs,
                    next_free,
                )[k].end
                &&& exists|i: int|
                    0 <= i < descs.len() && region_inside(
                        final_regions(descs, next_free)[k],
                        #[trigger] descs[i],
                    )
            },
    decreases descs.len(),
{
    if descs.len() > 0 {
        let prefix = descs.drop_last();
        let last = descs.last();
        assert(all_valid(prefix)) by {
            assert forall|i: int| 0 <= i < prefix.len() implies #[trigger] prefix[i].valid() by {
                assert(prefix[i] == descs[i]);
            }
        }
        assert(last == descs[descs.len() - 1]);
        lemma_map_regions_nonempty(prefix, next_free);
        lemma_regions_of(last, next_free, 0);
        let left = final_regions(prefix, next_free);
        let right = regions_of(last, next_free);
        let all = final_regions(descs, next_free);
        assert(all == left + right);
        assert forall|k: int| 0 <= k < all.len() implies {
            &&& (#[trigger] all[k]).start < all[k].end
            &&& exists|i: int| 0 <= i < descs.len() && region_inside(all[k], #[trigger] descs[i])
        } by {
            if k < left.len() {
                assert(all[k] == left[k]);
                let i = choose|i: int| 0 <= i < prefix.len() && region_inside(left[k], #[trigger] prefix[i]);
                assert(descs[i] == prefix[i]);
            } else {
                assert(all[k] == right[k - left.len()]);
                assert(region_inside(all[k], descs[descs.len() - 1]));
            }
        }
    }
}

/// Where no two descriptors share an address, no two regions of the final map do either.
pub proof fn lemma_map_disjoint(descs: Seq<MemoryDescriptor>, next_free: int)
    requires
        all_valid(descs),
        descriptors_disjoint(descs),
        0 <= next_free <= MAX_PHYS_ADDR,
    ensures
        forall|k: int, l: int|
            0 <= k < final_regions(descs, next_free).len() && 0 <= l < final_regions(
                descs,
                next_free,
            ).len() && k != l ==> #[trigger] final_regions(descs, next_free)[k].end
                <= #[trigger] final_regions(descs, next_free)[l].start || final_regions(
                descs,
                next_free,
            )[l].end <= final_regions(descs, next_free)[k].start,
    decreases descs.len(),
{
    if descs.len() > 0 {
        let prefix = descs.drop_last();
        let last = descs.last();
        let n = descs.len() - 1;
        assert(all_valid(prefix)) by {
            assert forall|i: int| 0 <= i < prefix.len() implies #[trigger] prefix[i].valid() by {
                assert(prefix[i] == descs[i]);
            }
        }
        assert(descriptors_disjoint(prefix)) by {
            assert forall|i: int, j: int|
                0 <= i < prefix.len() && 0 <= j < prefix.len() && i != j implies #[trigger] prefix[i].end_addr()
                <= #[trigger] prefix[j].phys_start || prefix[j].end_addr() <= prefix[i].phys_start
                || prefix[i].page_count == 0 || prefix[j].page_count == 0 by {
                assert(prefix[i] == descs[i]);
                assert(prefix[j] == descs[j]);
            }
        }
        assert(last == descs[n]);
        lemma_map_disjoint(prefix, next_free);
        lemma_map_regions_nonempty(prefix, next_free);
        lemma_regions_of(last, next_free, 0);
        let left = final_regions(prefix, next_free);
        let right = regions_of(last, next_free);
        let all = final_regions(descs, next_free);
        assert(all == left + right);
        assert forall|k: int, l: int| 0 <= k < all.len() && 0 <= l < all.len() && k != l implies #[trigger] all[k].end
            <= #[trigger] all[l].start || all[l].end <= all[k].start by {
            if k < left.len() && l < left.len() {
                assert(all[k] == left[k]);
                assert(all[l] == left[l]);
            } else if k >= left.len() && l >= left.len() {
                assert(all[k] == right[k - left.len()]);
                assert(all[l] == right[l - left.len()]);
            } else {
                let (a, b) = if k < left.len() { (k, l) } else { (l, k) };
                assert(all[a] == left[a]);
                assert(all[b] == right[b - left.len()]);
                let i = choose|i: int| 0 <= i < prefix.len() && region_inside(left[a], #[trigger] prefix[i]);
                assert(descs[i] == prefix[i]);
                assert(i != n);
                assert(descs[i].end_addr() <= descs[n].phys_start || descs[n].end_addr()
                    <= descs[i].phys_start || descs[i].page_count == 0 || descs[n].page_count == 0);
            }
        }
    }
}

} // verus!
