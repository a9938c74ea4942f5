use vstd::prelude::*;

use crate::memory_map::{
    final_regions, MemoryMapBuilder, MemoryMapFull, MemoryRegion, MemoryRegionKind,
    MEMORY_MAP_CAPACITY,
};
use crate::frame::{
    all_valid, descriptors_ordered, lemma_align_up_gap, lemma_descriptor_bounds, MemoryDescriptor, MemoryType, PhysFrame,
    FRAME_LIMIT, MAX_PHYS_ADDR, PAGE_SIZE,
};

verus! {

/// The frame that carving `d` yields at cursor `c`: the cursor, or the descriptor's
/// first frame where the cursor lies below it.
pub open spec fn carve_point(d: MemoryDescriptor, c: int) -> int {
    if c < d.start_frame() {
        d.start_frame()
    } else {
        c
    }
}

/// `d` is free RAM and still has a frame at or above cursor `c`.
pub open spec fn yields_frame(d: MemoryDescriptor, c: int) -> bool {
    d.is_conventional() && carve_point(d, c) < d.end_frame()
}

/// Where the next frame comes from when the scan starts at descriptor `i` with cursor
/// `c`: the descriptor's index and the frame number, or `None` once all is used up.
pub open spec fn next_free(descs: Seq<MemoryDescriptor>, i: nat, c: int) -> Option<(nat, int)>
    decreases descs.len() - i,
{
    if i >= descs.len() {
        None
    } else if yields_frame(descs[i as int], c) {
        Some((i, carve_point(descs[i as int], c)))
    } else {
        next_free(descs, i + 1, c)
    }
}

/// How many frames the allocator still hands out from descriptor `i` on, with cursor `c`:
/// the free-RAM frames that lie at or above the cursor as it moves through the descriptors.
pub open spec fn frames_left(descs: Seq<MemoryDescriptor>, i: nat, c: int) -> nat
    decreases descs.len() - i,
{
    if i >= descs.len() {
        0
    } else if yields_frame(descs[i as int], c) {
        let d = descs[i as int];
        (d.end_frame() - carve_point(d, c)) as nat + frames_left(descs, i + 1, d.end_frame())
    } else {
        frames_left(descs, i + 1, c)
    }
}

/// The state of the frame allocator as a mathematical value.
pub ghost struct AllocState {
    /// The firmware memory map, untouched.
    pub descriptors: Seq<MemoryDescriptor>,
    /// Index of the descriptor being carved, or of the next one to scan.
    pub next_index: nat,
    /// Frame number of the cursor: every frame below it is handed out or skipped.
    pub next_frame: nat,
}

impl AllocState {
    pub open spec fn frames_left(self) -> nat {
        frames_left(self.descriptors, self.next_index, self.next_frame as int)
    }
}

/// One `allocate_frame` call: the frame number returned, and the state after it.
pub open spec fn alloc_step(s: AllocState) -> (Option<nat>, AllocState) {
    match next_free(s.descriptors, s.next_index, s.next_frame as int) {
        Some((j, f)) => (
            Some(f as nat),
            AllocState { descriptors: s.descriptors, next_index: j, next_frame: (f + 1) as nat },
        ),
        None => (
            None,
            AllocState {
                descriptors: s.descriptors,
                next_index: s.descriptors.len(),
                next_frame: s.next_frame,
            },
        ),
    }
}

/// The results of `n` successive `allocate_frame` calls from state `s`.
pub open spec fn alloc_run(s: AllocState, n: nat) -> Seq<Option<nat>>
    decreases n,
{
    if n == 0 {
        Seq::empty()
    } else {
        seq![alloc_step(s).0] + alloc_run(alloc_step(s).1, (n - 1) as nat)
    }
}

proof fn lemma_next_free(descs: Seq<MemoryDescriptor>, i: nat, c: int)
    requires
        all_valid(descs),
    ensures
        next_free(descs, i, c) is None <==> frames_left(descs, i, c) == 0,
        next_free(descs, i, c) matches Some((j, f)) ==> {
            &&& i <= j < descs.len()
            &&& c <= f < descs[j as int].end_frame() <= FRAME_LIMIT
            &&& f >= descs[j as int].start_frame()
            &&& frames_left(descs, i, c) == frames_left(descs, j, f)
            &&& frames_left(descs, j, f + 1) + 1 == frames_left(descs, j, f)
        },
    decreases descs.len() - i,
{
    if i < descs.len() {
        let d = descs[i as int];
        assert(d.valid());
        lemma_descriptor_bounds(d);
        if yields_frame(d, c) {
            let f = carve_point(d, c);
            assert(carve_point(d, f) == f);
            assert(frames_left(descs, i, f) == frames_left(descs, i, c));
            if f + 1 < d.end_frame() {
                assert(carve_point(d, f + 1) == f + 1);
            }
        } else {
            lemma_next_free(descs, i + 1, c);
        }
    }
}

/// A physical-frame source carved from the firmware memory map: frames come out in
/// strictly increasing order and are never handed out twice.
pub struct UefiFrameAllocator {
    pub(crate) descriptors: Vec<MemoryDescriptor>,
    pub(crate) next_index: usize,
    pub(crate) next_frame: u64,
}

impl View for UefiFrameAllocator {
    type V = AllocState;

    open(crate) spec fn view(&self) -> AllocState {
        AllocState {
            descriptors: self.descriptors@,
            next_index: self.next_index as nat,
            next_frame: self.next_frame as nat,
        }
    }
}

impl UefiFrameAllocator {
    pub open spec fn wf(&self) -> bool {
        &&& all_valid(self@.descriptors)
        &&& self@.next_index <= self@.descriptors.len()
        &&& self@.next_frame <= FRAME_LIMIT
    }

    /// The number of frames that the allocator still hands out.
    pub open spec fn frames_left(&self) -> nat {
        self@.frames_left()
    }

    /// Frame number of the cursor.
    pub fn next_frame(&self) -> (r: u64)
        ensures
            r == self@.next_frame,
    {
        self.next_frame
    }

    /// An allocator over the firmware memory map `memory_map`, with its cursor at frame 0.
    pub fn new(memory_map: Vec<MemoryDescriptor>) -> (r: Self)
        requires
            all_valid(memory_map@),
        ensures
            r.wf(),
            r@ == (AllocState { descriptors: memory_map@, next_index: 0, next_frame: 0 }),
    {
        UefiFrameAllocator { descriptors: memory_map, next_index: 0, next_frame: 0 }
    }

    /// Carves one frame from `descriptor` at the cursor, moving the cursor past it.
    fn allocate_frame_from_descriptor(&mut self, descriptor: &MemoryDescriptor) -> (r: Option<
        PhysFrame,
    >)
        requires
            old(self).wf(),
            descriptor.valid(),
        ensures
            final(self).wf(),
            final(self)@.descriptors == old(self)@.descriptors,
            final(self)@.next_index == old(self)@.next_index,
            ({
                let f = carve_point(*descriptor, old(self)@.next_frame as int);
                if f < descriptor.end_frame() {
                    &&& r == Some(PhysFrame { number: f as u64 })
                    &&& final(self)@.next_frame == f + 1
                } else {
                    &&& r is None
                    &&& final(self)@.next_frame == old(self)@.next_frame
                }
            }),
    {
        proof {
            lemma_descriptor_bounds(*descriptor);
        }
        let p = descriptor.phys_start;
        let aligned: u64 = if p % PAGE_SIZE == 0 {
            p
        } else {
            p - p % PAGE_SIZE + PAGE_SIZE
        };
        let start_frame: u64 = aligned / PAGE_SIZE;
        assert(start_frame == descriptor.start_frame());
        let end_frame: u64 = start_frame + descriptor.page_count;
        let candidate: u64 = if self.next_frame < start_frame {
            start_frame
        } else {
            self.next_frame
        };
        if candidate < end_frame {
            self.next_frame = candidate + 1;
            Some(PhysFrame { number: candidate })
        } else {
            None
        }
    }

    /// Hands out the next free frame: the scan resumes at the descriptor being carved and
    /// moves forward over the memory map, skipping all but free RAM. `None` means the
    /// memory map is used up.
    pub fn allocate_frame(&mut self) -> (r: Option<PhysFrame>)
        requires
            old(self).wf(),
        ensures
            final(self).wf(),
            final(self)@ == alloc_step(old(self)@).1,
            match alloc_step(old(self)@).0 {
                Some(n) => r == Some(PhysFrame { number: n as u64 }),
                None => r is None,
            },
            r matches Some(f) ==> alloc_step(old(self)@).0 == Some(f.number as nat),
            r is None <==> old(self).frames_left() == 0,
            r is Some ==> final(self).frames_left() + 1 == old(self).frames_left(),
    {
        let ghost start = self@;
        while self.next_index < self.descriptors.len()
            invariant
                self.wf(),
                start == old(self)@,
                self@.descriptors == start.descriptors,
                self@.next_frame == start.next_frame,
                next_free(self@.descriptors, self@.next_index, self@.next_frame as int) == next_free(
                    start.descriptors,
                    start.next_index,
                    start.next_frame as int,
                ),
            decreases self.descriptors.len() - self.next_index,
        {
            let d = self.descriptors[self.next_index];
            assert(d.valid());
            let ghost before = self@;
            if d.ty == MemoryType::Conventional {
                match self.allocate_frame_from_descriptor(&d) {
                    Some(frame) => {
                        assert(yields_frame(d, start.next_frame as int));
                        assert(next_free(before.descriptors, before.next_index, before.next_frame as int)
                            == Some((before.next_index, frame.number as int)));
                        proof {
                            lemma_next_free(start.descriptors, start.next_index, start.next_frame as int);
                        }
                        return Some(frame);
                    },
                    None => {},
                }
            }
            self.next_index = self.next_index + 1;
        }
        proof {
            lemma_next_free(start.descriptors, start.next_index, start.next_frame as int);
        }
        None
    }

    /// Writes the final memory map into `builder`, once allocation is over: the firmware's
    /// memory map is walked again from its start, and each free-RAM descriptor is split at the cursor into
    /// the part the bootloader used and the part left usable; reserved descriptors are kept
    /// whole and all others left out, as are descriptors without pages. Where the regions
    /// do not all fit, `builder` is left unchanged.
    pub fn construct_memory_map(self, builder: &mut MemoryMapBuilder) -> (r: Result<
        (),
        MemoryMapFull,
    >)
        requires
            self.wf(),
            old(builder).wf(),
        ensures
            final(builder).wf(),
            r is Ok <==> old(builder)@.len() + final_regions(
                self@.descriptors,
                self@.next_frame * PAGE_SIZE,
            ).len() <= MEMORY_MAP_CAPACITY,
            r is Ok ==> final(builder)@ == old(builder)@ + final_regions(
                self@.descriptors,
                self@.next_frame * PAGE_SIZE,
            ),
            r is Err ==> final(builder)@ == old(builder)@,
    {
        assert(self.next_frame * PAGE_SIZE <= FRAME_LIMIT * PAGE_SIZE) by (nonlinear_arith)
            requires
                self.next_frame <= FRAME_LIMIT,
        ;
        let next_free: u64 = self.next_frame * PAGE_SIZE;
        let ghost descs = self@.descriptors;
        let ghost nf = next_free as int;
        let mut regions: Vec<MemoryRegion> = Vec::new();
        let mut i: usize = 0;
        while i < self.descriptors.len()
            invariant
                self.wf(),
                descs == self@.descriptors,
                nf == next_free,
                nf <= MAX_PHYS_ADDR,
                i <= descs.len(),
                regions@ == final_regions(descs.take(i as int), nf),
            decreases descs.len() - i,
        {
            let d = self.descriptors[i];
            assert(d.valid());
            proof {
                lemma_descriptor_bounds(d);
            }
            let end: u64 = d.phys_start + PAGE_SIZE * d.page_count;
            if d.page_count > 0 {
                match d.ty {
                    MemoryType::Conventional => {
                        if end <= next_free {
                            regions.push(
                                MemoryRegion {
                                    start: d.phys_start,
                                    end,
                                    kind: MemoryRegionKind::Bootloader,
                                },
                            );
                        } else if d.phys_start >= next_free {
                            regions.push(
                                MemoryRegion { start: d.phys_start, end, kind: MemoryRegionKind::Usable },
                            );
                        } else {
                            regions.push(
                                MemoryRegion {
                                    start: d.phys_start,
                                    end: next_free,
                                    kind: MemoryRegionKind::Bootloader,
                                },
                            );
                            regions.push(
                                MemoryRegion { start: next_free, end, kind: MemoryRegionKind::Usable },
                            );
                        }
                    },
                    MemoryType::Reserved => {
                        regions.push(
                            MemoryRegion { start: d.phys_start, end, kind: MemoryRegionKind::Reserved },
                        );
                    },
                    MemoryType::Other(_) => {},
                }
            }
            proof {
                assert(descs.take(i + 1).drop_last() == descs.take(i as int));
                assert(descs.take(i + 1).last() == d);
            }
            i = i + 1;
        }
        assert(descs.take(descs.len() as int) == descs);
        if regions.len() > MEMORY_MAP_CAPACITY - builder.len() {
            return Err(MemoryMapFull);
        }
        let ghost start = builder@;
        let mut j: usize = 0;
        while j < regions.len()
            invariant
                j <= regions@.len(),
                start.len() + regions@.len() <= MEMORY_MAP_CAPACITY,
                builder.wf(),
                builder@ == start + regions@.take(j as int),
            decreases regions@.len() - j,
        {
            let _ = builder.add_region(regions[j]);
            assert(regions@.take(j + 1) == regions@.take(j as int).push(regions@[j as int]));
            j = j + 1;
        }
        assert(regions@.take(regions@.len() as int) == regions@);
        Ok(())
    }
}

/// Frames handed out by successive `allocate_frame` calls are strictly increasing, and
/// therefore pairwise distinct, whatever the memory map.
pub proof fn lemma_frames_strictly_increase(s: AllocState, n: nat)
    requires
        all_valid(s.descriptors),
    ensures
        alloc_run(s, n).len() == n,
        forall|i: int, j: int|
            0 <= i < j < n && alloc_run(s, n)[i] is Some && alloc_run(s, n)[j] is Some
                ==> alloc_run(s, n)[i]->0 < alloc_run(s, n)[j]->0,
    decreases n,
{
    lemma_run_above_cursor(s, n);
    if n > 0 {
        let s1 = alloc_step(s).1;
        lemma_next_free(s.descriptors, s.next_index, s.next_frame as int);
        lemma_frames_strictly_increase(s1, (n - 1) as nat);
        lemma_run_above_cursor(s1, (n - 1) as nat);
        let run = alloc_run(s, n);
        let rest = alloc_run(s1, (n - 1) as nat);
        assert forall|i: int, j: int|
            0 <= i < j < n && run[i] is Some && run[j] is Some implies run[i]->0 < run[j]->0 by {
            assert(run[j] == rest[j - 1]);
            if i > 0 {
                assert(run[i] == rest[i - 1]);
            }
        }
    }
}

/// Every frame returned over `n` calls lies at or above the starting cursor.
proof fn lemma_run_above_cursor(s: AllocState, n: nat)
    requires
        all_valid(s.descriptors),
    ensures
        alloc_run(s, n).len() == n,
        forall|k: int|
            0 <= k < n && alloc_run(s, n)[k] is Some ==> alloc_run(s, n)[k]->0 >= s.next_frame,
    decreases n,
{
    if n > 0 {
        let s1 = alloc_step(s).1;
        lemma_next_free(s.descriptors, s.next_index, s.next_frame as int);
        lemma_run_above_cursor(s1, (n - 1) as nat);
        let run = alloc_run(s, n);
        assert forall|k: int| 0 <= k < n && run[k] is Some implies run[k]->0 >= s.next_frame by {
            if k > 0 {
                assert(run[k] == alloc_run(s1, (n - 1) as nat)[k - 1]);
            }
        }
    }
}

/// Over `n` successive `allocate_frame` calls, a call returns `None` exactly when the
/// number of frames requested so far exceeds the free-RAM frames still reachable from
/// the starting cursor.
pub proof fn lemma_exhaustion(s: AllocState, n: nat)
    requires
        all_valid(s.descriptors),
    ensures
        alloc_run(s, n).len() == n,
        forall|k: int| 0 <= k < n ==> (alloc_run(s, n)[k] is None <==> k >= s.frames_left()),
    decreases n,
{
    if n > 0 {
        let s1 = alloc_step(s).1;
        lemma_next_free(s.descriptors, s.next_index, s.next_frame as int);
        lemma_exhaustion(s1, (n - 1) as nat);
        let run = alloc_run(s, n);
        let rest = alloc_run(s1, (n - 1) as nat);
        if s.frames_left() == 0 {
            assert(s1.frames_left() == 0);
        }
        assert forall|k: int| 0 <= k < n implies (run[k] is None <==> k >= s.frames_left()) by {
            if k > 0 {
                assert(run[k] == rest[k - 1]);
            }
        }
    }
}

/// The allocator's state after `n` successive `allocate_frame` calls from state `s`.
pub open spec fn alloc_after(s: AllocState, n: nat) -> AllocState
    decreases n,
{
    if n == 0 {
        s
    } else {
        alloc_after(alloc_step(s).1, (n - 1) as nat)
    }
}

/// One more call extends the run by the result of a call from the state reached so far;
/// the memory map stays as it was and the frames left drop by the frames handed out.
pub proof fn lemma_run_extend(s: AllocState, k: nat)
    requires
        all_valid(s.descriptors),
    ensures
        alloc_run(s, k + 1) == alloc_run(s, k).push(alloc_step(alloc_after(s, k)).0),
        alloc_after(s, k + 1) == alloc_step(alloc_after(s, k)).1,
        alloc_after(s, k).descriptors == s.descriptors,
        alloc_after(s, k).frames_left() == if k <= s.frames_left() {
            s.frames_left() - k
        } else {
            0
        },
    decreases k,
{
    lemma_next_free(s.descriptors, s.next_index, s.next_frame as int);
    let s1 = alloc_step(s).1;
    if s.frames_left() == 0 {
        assert(s1.frames_left() == 0);
    }
    if k > 0 {
        lemma_run_extend(s1, (k - 1) as nat);
        assert(alloc_run(s, k + 1) == seq![alloc_step(s).0] + alloc_run(s1, k));
        assert(alloc_run(s, k) == seq![alloc_step(s).0] + alloc_run(s1, (k - 1) as nat));
        assert(alloc_run(s, k + 1) =~= alloc_run(s, k).push(alloc_step(alloc_after(s, k)).0));
    } else {
        assert(alloc_run(s1, 0) == Seq::<Option<nat>>::empty());
        assert(alloc_after(s1, 0) == s1);
        assert(alloc_run(s, 1) =~= seq![alloc_step(s).0]);
        assert(alloc_run(s, 0) =~= Seq::<Option<nat>>::empty());
    }
}

/// The page count of the free-RAM descriptors from index `i` on.
pub open spec fn free_pages(descs: Seq<MemoryDescriptor>, i: nat) -> nat
    decreases descs.len() - i,
{
    if i >= descs.len() {
        0
    } else {
        (if descs[i as int].is_conventional() {
            descs[i as int].page_count as nat
        } else {
            0
        }) + free_pages(descs, i + 1)
    }
}

proof fn lemma_frames_left_ordered(descs: Seq<MemoryDescriptor>, i: nat, c: int)
    requires
        all_valid(descs),
        descriptors_ordered(descs),
        forall|j: int| i <= j < descs.len() ==> c <= #[trigger] descs[j].start_frame(),
    ensures
        frames_left(descs, i, c) == free_pages(descs, i),
    decreases descs.len() - i,
{
    if i < descs.len() {
        let d = descs[i as int];
        assert(d.valid());
        lemma_descriptor_bounds(d);
        assert(carve_point(d, c) == d.start_frame());
        if yields_frame(d, c) {
            assert forall|j: int| i + 1 <= j < descs.len() implies d.end_frame()
                <= #[trigger] descs[j].start_frame() by {
                let e = descs[j];
                assert(e.valid());
                lemma_descriptor_bounds(e);
                assert(d.end_addr() <= e.phys_start);
                lemma_align_up_gap(d.phys_start as int, e.phys_start as int, d.page_count as int);
                let x = d.end_frame();
                let y = e.start_frame();
                assert(x <= y) by (nonlinear_arith)
                    requires
                        x * 4096 <= y * 4096,
                ;
            }
            lemma_frames_left_ordered(descs, i + 1, d.end_frame());
        } else {
            lemma_frames_left_ordered(descs, i + 1, c);
        }
    }
}

/// On a memory map in increasing address order without overlaps, a fresh allocator hands
/// out exactly as many frames as the free-RAM descriptors hold pages: together with
/// `lemma_exhaustion`, the `k`-th call fails exactly when `k` reaches that page count.
pub proof fn lemma_fresh_frames_left(descs: Seq<MemoryDescriptor>)
    requires
        all_valid(descs),
        descriptors_ordered(descs),
    ensures
        (AllocState { descriptors: descs, next_index: 0, next_frame: 0 }).frames_left()
            == free_pages(descs, 0),
{
    assert forall|j: int| 0 <= j < descs.len() implies 0 <= #[trigger] descs[j].start_frame() by {
        assert(descs[j].valid());
        lemma_descriptor_bounds(descs[j]);
    }
    lemma_frames_left_ordered(descs, 0, 0);
}

} // verus!
