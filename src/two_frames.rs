use vstd::prelude::*;

use crate::allocator::{alloc_after, alloc_run, alloc_step, lemma_run_extend, lemma_frames_strictly_increase, lemma_exhaustion, AllocState, UefiFrameAllocator};
use crate::frame::{all_valid, PhysFrame};

verus! {

/// One call of the reserved pair's `allocate_frame` on slots `p`: the first slot still
/// filled is handed out and emptied.
pub open spec fn pair_take(p: (Option<PhysFrame>, Option<PhysFrame>)) -> (
    Option<PhysFrame>,
    (Option<PhysFrame>, Option<PhysFrame>),
) {
    if p.0 is Some {
        (p.0, (None, p.1))
    } else {
        (p.1, (None, None))
    }
}

/// Two frames claimed from the primary allocator before the memory map is finalized, so
/// that the final switch can still map what it needs without moving the allocator's cursor.
pub struct TwoFrames {
    first: Option<PhysFrame>,
    second: Option<PhysFrame>,
}

impl View for TwoFrames {
    type V = (Option<PhysFrame>, Option<PhysFrame>);

    closed spec fn view(&self) -> (Option<PhysFrame>, Option<PhysFrame>) {
        (self.first, self.second)
    }
}

impl TwoFrames {
    /// Draws two frames from `frame_allocator`. `None` where it has fewer than two left:
    /// an out-of-memory condition on which the boot halts.
    pub fn new(frame_allocator: &mut UefiFrameAllocator) -> (r: Option<Self>)
        requires
            old(frame_allocator).wf(),
        ensures
            final(frame_allocator).wf(),
            r is Some <==> old(frame_allocator).frames_left() >= 2,
            r is Some ==> {
                let (a, s1) = alloc_step(old(frame_allocator)@);
                let (b, s2) = alloc_step(s1);
                &&& final(frame_allocator)@ == s2
                &&& r->0@ == (
                    Some(PhysFrame { number: a->0 as u64 }),
                    Some(PhysFrame { number: b->0 as u64 }),
                )
            },
    {
        let first = frame_allocator.allocate_frame();
        match first {
            None => None,
            Some(a) => {
                let second = frame_allocator.allocate_frame();
                match second {
                    None => None,
                    Some(b) => Some(TwoFrames { first: Some(a), second: Some(b) }),
                }
            },
        }
    }

    /// Hands out the first slot still filled, and empties it.
    pub fn allocate_frame(&mut self) -> (r: Option<PhysFrame>)
        ensures
            (r, final(self)@) == pair_take(old(self)@),
    {
        match self.first {
            Some(f) => {
                self.first = None;
                Some(f)
            },
            None => {
                let r = self.second;
                self.second = None;
                r
            },
        }
    }
}

/// After `n` frames have come from the primary allocator (state `alloc_after(s, n)`), the
/// reserved pair draws the next two, as `TwoFrames::new` states: both are present, differ from each other and from every frame handed out before;
/// its first two calls hand them out in turn and a third finds none.
pub proof fn lemma_reserved_pair(s: AllocState, n: nat)
    requires
        all_valid(s.descriptors),
        s.frames_left() >= n + 2,
    ensures
        ({
            let run = alloc_run(s, n + 2);
            let p = (
                Some(PhysFrame { number: run[n as int]->0 as u64 }),
                Some(PhysFrame { number: run[n + 1int]->0 as u64 }),
            );
            &&& run[n as int] is Some
            &&& run[n + 1int] is Some
            &&& run[n as int]->0 != run[n + 1int]->0
            &&& forall|k: int|
                0 <= k < n ==> (#[trigger] run[k]) is Some && run[k]->0 != run[n as int]->0
                    && run[k]->0 != run[n + 1int]->0
            &&& pair_take(p).0 == p.0
            &&& pair_take(pair_take(p).1).0 == p.1
            &&& pair_take(pair_take(pair_take(p).1).1).0 is None
        }),
        alloc_after(s, n).frames_left() >= 2,
        alloc_step(alloc_after(s, n)).0 == alloc_run(s, n + 2)[n as int],
        alloc_step(alloc_step(alloc_after(s, n)).1).0 == alloc_run(s, n + 2)[n + 1int],
{
    lemma_run_extend(s, n);
    lemma_run_extend(s, n + 1);
    lemma_frames_strictly_increase(s, n + 2);
    lemma_exhaustion(s, n + 2);
}

} // verus!
