use vstd::prelude::*;

use crate::frame::{Page, PhysFrame, MAX_PHYS_ADDR, PAGE_SIZE};

verus! {

/// A leaf entry of the new address space: `page` translates to `frame`.
#[derive(Clone, Copy, Debug, PartialEq, Eq, Structural)]
pub struct Mapping {
    pub page: Page,
    pub frame: PhysFrame,
    pub writable: bool,
}

/// Why a mapping could not be installed.
#[derive(Clone, Copy, Debug, PartialEq, Eq, Structural)]
pub enum MapToError {
    /// The page already translates to the given frame.
    PageAlreadyMapped(PhysFrame),
}

/// `page` has an entry in `s`.
pub open spec fn is_mapped(s: Seq<Mapping>, page: Page) -> bool {
    exists|i: int| 0 <= i < s.len() && (#[trigger] s[i]).page == page
}

/// No page has two entries.
pub open spec fn pages_unique(s: Seq<Mapping>) -> bool {
    forall|i: int, j: int| 0 <= i < j < s.len() ==> #[trigger] s[i].page != #[trigger] s[j].page
}

/// The entry of `page` in `s`, if any.
pub open spec fn translate(s: Seq<Mapping>, page: Page) -> Option<Mapping> {
    if is_mapped(s, page) {
        Some(choose|m: Mapping| s.contains(m) && m.page == page)
    } else {
        None
    }
}

/// The page numbered `n`.
pub open spec fn page_at(n: int) -> Page {
    Page { number: n as u64 }
}

/// First frame that a byte range `[start, start + len)` touches.
pub open spec fn range_first(start: int) -> int {
    start / PAGE_SIZE as int
}

/// One past the last frame that the byte range `[start, start + len)` touches.
pub open spec fn range_end(start: int, len: int) -> int {
    if len == 0 {
        range_first(start)
    } else {
        (start + len - 1) / PAGE_SIZE as int + 1
    }
}

/// The identity mappings of frames `first .. end`.
pub open spec fn identity_mappings(first: int, end: int, writable: bool) -> Seq<Mapping> {
    Seq::new(
        (end - first) as nat,
        |k: int|
            Mapping {
                page: Page { number: (first + k) as u64 },
                frame: PhysFrame { number: (first + k) as u64 },
                writable,
            },
    )
}

/// The leaf mappings that the kernel's new top-level page table is to hold, each page at
/// most once.
pub struct AddressSpace {
    mappings: Vec<Mapping>,
}

impl View for AddressSpace {
    type V = Seq<Mapping>;

    closed spec fn view(&self) -> Seq<Mapping> {
        self.mappings@
    }
}

impl AddressSpace {
    pub open spec fn wf(&self) -> bool {
        pages_unique(self@)
    }

    /// An address space with nothing mapped.
    pub fn new() -> (r: Self)
        ensures
            r.wf(),
            r@ == Seq::<Mapping>::empty(),
    {
        AddressSpace { mappings: Vec::new() }
    }

    /// The number of pages mapped.
    pub fn len(&self) -> (r: usize)
        ensures
            r == self@.len(),
    {
        self.mappings.len()
    }

    /// The mapping at `index`, in the order they were made.
    pub fn mapping(&self, index: usize) -> (r: Mapping)
        requires
            index < self@.len(),
        ensures
            r == self@[index as int],
    {
        self.mappings[index]
    }

    /// The frame that `page` translates to, if it is mapped.
    pub fn translate(&self, page: Page) -> (r: Option<PhysFrame>)
        requires
            self.wf(),
        ensures
            r is Some <==> is_mapped(self@, page),
            r matches Some(f) ==> translate(self@, page) matches Some(m) && m.frame == f,
    {
        let mut i: usize = 0;
        while i < self.mappings.len()
            invariant
                i <= self@.len(),
                pages_unique(self@),
                forall|k: int| 0 <= k < i ==> (#[trigger] self@[k]).page != page,
            decreases self@.len() - i,
        {
            if self.mappings[i].page == page {
                proof {
                    lemma_translate_unique(self@, i as int);
                }
                return Some(self.mappings[i].frame);
            }
            i = i + 1;
        }
        None
    }

    /// Installs `page -> frame`; fails, changing nothing, where `page` is mapped already.
    pub fn map(&mut self, page: Page, frame: PhysFrame, writable: bool) -> (r: Result<(), MapToError>)
        requires
            old(self).wf(),
        ensures
            final(self).wf(),
            r is Ok <==> !is_mapped(old(self)@, page),
            r is Ok ==> final(self)@ == old(self)@.push(Mapping { page, frame, writable }),
            r matches Err(MapToError::PageAlreadyMapped(f)) ==> {
                &&& final(self)@ == old(self)@
                &&& translate(old(self)@, page) matches Some(m) && m.frame == f
            },
    {
        match self.translate(page) {
            Some(existing) => Err(MapToError::PageAlreadyMapped(existing)),
            None => {
                self.mappings.push(Mapping { page, frame, writable });
                Ok(())
            },
        }
    }

    /// Maps the page whose number equals the frame's number to that frame.
    pub fn identity_map(&mut self, frame: PhysFrame, writable: bool) -> (r: Result<(), MapToError>)
        requires
            old(self).wf(),
        ensures
            final(self).wf(),
            r is Ok <==> !is_mapped(old(self)@, Page { number: frame.number }),
            r is Ok ==> final(self)@ == old(self)@.push(
                Mapping { page: Page { number: frame.number }, frame, writable },
            ),
            r is Err ==> final(self)@ == old(self)@,
    {
        self.map(Page { number: frame.number }, frame, writable)
    }

    /// Identity-maps every frame that the byte range `[start, start + len)` touches; fails,
    /// changing nothing, where one of their pages is mapped already.
    pub fn identity_map_range(&mut self, start: u64, len: u64, writable: bool) -> (r: Result<
        (),
        MapToError,
    >)
        requires
            old(self).wf(),
            start + len <= MAX_PHYS_ADDR,
        ensures
            final(self).wf(),
            r is Ok <==> forall|n: int|
                range_first(start as int) <= n < range_end(start as int, len as int) ==> !is_mapped(
                    old(self)@,
                    #[trigger] page_at(n),
                ),
            r is Ok ==> final(self)@ == old(self)@ + identity_mappings(
                range_first(start as int),
                range_end(start as int, len as int),
                writable,
            ),
            r is Err ==> final(self)@ == old(self)@,
    {
        let first: u64 = start / PAGE_SIZE;
        let end: u64 = if len == 0 {
            first
        } else {
            (start + len - 1) / PAGE_SIZE + 1
        };
        let ghost lo = first as int;
        let ghost hi = end as int;
        assert(lo <= hi);
        let mut n: u64 = first;
        while n < end
            invariant
                lo <= n <= hi,
                lo == first,
                hi == end,
                lo == range_first(start as int),
                hi == range_end(start as int, len as int),
                self.wf(),
                self@ == old(self)@,
                forall|k: int| lo <= k < n ==> !is_mapped(self@, #[trigger] page_at(k)),
            decreases hi - n,
        {
            match self.translate(Page { number: n }) {
                Some(existing) => {
                    assert(is_mapped(old(self)@, page_at(n as int)));
                    return Err(MapToError::PageAlreadyMapped(existing));
                },
                None => {},
            }
            assert(!is_mapped(self@, page_at(n as int)));
            n = n + 1;
        }
        let ghost before = self@;
        n = first;
        while n < end
            invariant
                lo <= n <= hi,
                lo == first,
                hi == end,
                lo == range_first(start as int),
                hi == range_end(start as int, len as int),
                self.wf(),
                self@ == before + identity_mappings(lo, n as int, writable),
                forall|k: int| lo <= k < hi ==> !is_mapped(before, #[trigger] page_at(k)),
            decreases hi - n,
        {
            let ghost cur = self@;
            assert(!is_mapped(before, page_at(n as int)));
            assert(!is_mapped(cur, Page { number: n })) by {
                if is_mapped(cur, Page { number: n }) {
                    let i = choose|i: int| 0 <= i < cur.len() && (#[trigger] cur[i]).page == Page { number: n };
                    if i >= before.len() {
                        assert(cur[i] == identity_mappings(lo, n as int, writable)[i - before.len()]);
                    } else {
                        assert(cur[i] == before[i]);
                    }
                }
            }
            let _ = self.identity_map(PhysFrame { number: n }, writable);
            assert(identity_mappings(lo, n + 1, writable) =~= identity_mappings(lo, n as int, writable).push(
                Mapping { page: Page { number: n }, frame: PhysFrame { number: n }, writable },
            ));
            n = n + 1;
        }
        assert(identity_mappings(lo, hi, writable) == identity_mappings(lo, n as int, writable));
        Ok(())
    }
}

/// In a table where no page has two entries, the entry at `i` is the one `translate` finds.
proof fn lemma_translate_unique(s: Seq<Mapping>, i: int)
    requires
        pages_unique(s),
        0 <= i < s.len(),
    ensures
        translate(s, s[i].page) == Some(s[i]),
{
    assert(s.contains(s[i]));
    let m = choose|m: Mapping| s.contains(m) && m.page == s[i].page;
    let j = choose|j: int| 0 <= j < s.len() && s[j] == m;
    assert(j == i);
}

/// Mapping a page that is already mapped reports a conflict, and the first mapping stays
/// in place: after `m` is installed, any later attempt on the same page finds it mapped,
/// to `m`'s frame.
pub proof fn lemma_remap_conflicts(s: Seq<Mapping>, m: Mapping, page: Page)
    requires
        pages_unique(s),
        !is_mapped(s, m.page),
        page == m.page,
    ensures
        pages_unique(s.push(m)),
        is_mapped(s.push(m), page),
        translate(s.push(m), page) == Some(m),
{
    let t = s.push(m);
    assert(t[s.len() as int] == m);
    assert forall|i: int, j: int| 0 <= i < j < t.len() implies #[trigger] t[i].page != #[trigger] t[j].page by {
        if j == s.len() {
            assert(t[i] == s[i]);
        } else {
            assert(t[i] == s[i]);
            assert(t[j] == s[j]);
        }
    }
    lemma_translate_unique(t, s.len() as int);
}

} // verus!
