use vstd::prelude::*;
use crate::frame::{Page, PAGE_SIZE, max_number};
use crate::frame_allocator::FrameAllocator;
use crate::paging::{ActivePageTable, Entry, EntryFlags, MapError};

verus! {

/// A mapped stack: the virtual addresses from `bottom` (included) to `top`
/// (excluded). The page just below `bottom` is left unmapped as a guard.
#[derive(Debug, PartialEq, Eq, Structural)]
pub struct Stack {
    top: usize,
    bottom: usize,
}

impl Stack {
    /// The stack's top: the address just past its highest byte.
    pub closed spec fn top_spec(&self) -> int {
        self.top as int
    }

    /// The stack's bottom: the address of its lowest byte.
    pub closed spec fn bottom_spec(&self) -> int {
        self.bottom as int
    }

    /// The address just past the stack's highest byte.
    pub fn top(&self) -> (r: usize)
        ensures
            r == self.top_spec(),
    {
        self.top
    }

    /// The address of the stack's lowest byte.
    pub fn bottom(&self) -> (r: usize)
        ensures
            r == self.bottom_spec(),
    {
        self.bottom
    }
}

/// The flags of stack pages: writable, never executable.
pub open spec fn stack_flags() -> EntryFlags {
    EntryFlags { writable: true, no_execute: true }
}

/// No page from `lo` (included) to `hi` (excluded) is mapped in `m`.
pub open spec fn all_unmapped(m: Map<usize, Entry>, lo: int, hi: int) -> bool {
    forall|q: usize| lo <= q < hi ==> !#[trigger] m.contains_key(q)
}

/// `a` and `b` translate every page outside `[lo, hi)` alike.
pub open spec fn agrees_outside(a: Map<usize, Entry>, b: Map<usize, Entry>, lo: int, hi: int) -> bool {
    forall|q: usize|
        !(lo <= q < hi) ==> (#[trigger] a.contains_key(q) == b.contains_key(q)) && (a.contains_key(q)
            ==> a[q] == b[q])
}

/// Every page from `lo` (included) to `hi` (excluded) is mapped in `m` as a
/// stack page.
pub open spec fn all_stack_mapped(m: Map<usize, Entry>, lo: int, hi: int) -> bool {
    forall|q: usize|
        lo <= q < hi ==> #[trigger] m.contains_key(q) && m[q].flags == stack_flags()
}

/// Each page from `lo` (included) to `hi` (excluded) that `m` maps is backed
/// by a frame that `before` may hand out, numbered from `before`'s floor up
/// to below `after`'s; and a higher page has a higher frame.
pub open spec fn fresh_rising_frames<A: FrameAllocator>(
    m: Map<usize, Entry>,
    lo: int,
    hi: int,
    before: A,
    after: A,
) -> bool {
    &&& forall|q: usize|
        lo <= q < hi && #[trigger] m.contains_key(q) ==> before.floor() <= m[q].frame
            < after.floor() && before.may_hand_out(m[q].frame as int)
    &&& forall|q1: usize, q2: usize|
        lo <= q1 < q2 < hi && #[trigger] m.contains_key(q1) && #[trigger] m.contains_key(q2)
            ==> m[q1].frame < m[q2].frame
}

/// Hands out stacks from the front of a range of pages, each below a
/// guard page.
pub struct StackAllocator {
    next: usize,
    end: usize,
}

impl StackAllocator {
    /// The first page not yet handed out.
    pub closed spec fn next_page(&self) -> int {
        self.next as int
    }

    /// The page just past the range.
    pub closed spec fn end_page(&self) -> int {
        self.end as int
    }

    /// The remaining range is well formed and its addresses fit in `usize`.
    pub open spec fn wf(&self) -> bool {
        0 <= self.next_page() <= self.end_page() <= max_number()
    }

    /// An allocator over the pages from `start` to `end`, both included.
    pub fn new(start: Page, end: Page) -> (r: StackAllocator)
        requires
            end.number < max_number(),
        ensures
            r.wf(),
            r.end_page() == end.number + 1,
            r.next_page() == (if start.number <= end.number {
                start.number as int
            } else {
                end.number + 1
            }),
    {
        let end_page = end.number + 1;
        let next = if start.number <= end.number {
            start.number
        } else {
            end_page
        };
        StackAllocator { next, end: end_page }
    }

    /// Takes `size_in_pages + 1` pages from the front of the range: a guard
    /// page, left unmapped, then `size_in_pages` pages mapped writable and
    /// non-executable with frames of `frame_allocator`. Returns `None`, with
    /// nothing changed, when `size_in_pages` is zero or the range is too
    /// short; returns `None` too when the frames run out, the pages being
    /// then taken all the same.
    pub fn alloc_stack<A: FrameAllocator>(
        &mut self,
        active_table: &mut ActivePageTable,
        frame_allocator: &mut A,
        size_in_pages: usize,
    ) -> (r: Option<Stack>)
        requires
            old(self).wf(),
            old(active_table).wf(),
            old(frame_allocator).inv(),
            all_unmapped(old(active_table)@, old(self).next_page(), old(self).end_page()),
        ensures
            final(self).wf(),
            final(active_table).wf(),
            final(frame_allocator).inv(),
            old(frame_allocator).evolves_to(final(frame_allocator)),
            final(active_table).root() == old(active_table).root(),
            final(self).end_page() == old(self).end_page(),
            all_unmapped(final(active_table)@, final(self).next_page(), final(self).end_page()),
            agrees_outside(
                old(active_table)@,
                final(active_table)@,
                old(self).next_page() + 1,
                final(self).next_page(),
            ),
            forall|q: usize|
                old(self).next_page() + 1 <= q < final(self).next_page()
                    && #[trigger] final(active_table)@.contains_key(q) ==> final(active_table)@[q].flags
                    == stack_flags(),
            fresh_rising_frames(
                final(active_table)@,
                old(self).next_page() + 1,
                final(self).next_page(),
                *old(frame_allocator),
                *final(frame_allocator),
            ),
            (size_in_pages == 0 || size_in_pages + 1 > old(self).end_page() - old(self).next_page())
                ==> r.is_none() && final(self).next_page() == old(self).next_page()
                && *final(frame_allocator) == *old(frame_allocator)
                && final(active_table)@ == old(active_table)@,
            (size_in_pages > 0 && size_in_pages + 1 <= old(self).end_page() - old(self).next_page())
                ==> final(self).next_page() == old(self).next_page() + size_in_pages + 1
                && (r.is_some() || final(frame_allocator).exhausted()),
            r matches Some(s) ==> {
                &&& s.bottom_spec() == (old(self).next_page() + 1) * PAGE_SIZE
                &&& s.top_spec() == final(self).next_page() * PAGE_SIZE
                &&& final(self).next_page() == old(self).next_page() + size_in_pages + 1
                &&& all_stack_mapped(
                    final(active_table)@,
                    old(self).next_page() + 1,
                    final(self).next_page(),
                )
            },
    {
        proof {
            A::lemma_evolves_refl(&*frame_allocator);
        }
        if size_in_pages == 0 || size_in_pages >= self.end - self.next {
            return None;
        }
        let guard = self.next;
        let first = guard + 1;
        let stop = first + size_in_pages;
        self.next = stop;
        let flags = EntryFlags { writable: true, no_execute: true };
        let mut p: usize = first;
        while p < stop
            invariant
                first <= p <= stop,
                stop == self.next,
                self.end == old(self).end,
                self.wf(),
                first == old(self).next_page() + 1,
                stop == first + size_in_pages,
                size_in_pages > 0,
                size_in_pages + 1 <= old(self).end_page() - old(self).next_page(),
                active_table.wf(),
                frame_allocator.inv(),
                old(frame_allocator).evolves_to(&*frame_allocator),
                active_table.root() == old(active_table).root(),
                flags == stack_flags(),
                agrees_outside(old(active_table)@, active_table@, first as int, p as int),
                fresh_rising_frames(active_table@, first as int, p as int, *old(frame_allocator), *frame_allocator),
                all_stack_mapped(active_table@, first as int, p as int),
                all_unmapped(old(active_table)@, old(self).next_page(), old(self).end_page()),
            decreases stop - p,
        {
            let page = Page { number: p };
            let ghost mid = *frame_allocator;
            let ghost before_map = active_table@;
            proof {
                assert(!old(active_table)@.contains_key(p));
                assert(!before_map.contains_key(p));
            }
            let result = active_table.map(&page, flags, frame_allocator);
            proof {
                A::lemma_evolves_trans(&*old(frame_allocator), &mid, &*frame_allocator);
                A::lemma_evolves_keeps(&*old(frame_allocator), &mid);
                A::lemma_evolves_keeps(&mid, &*frame_allocator);
                if result.is_ok() {
                    let m = active_table@;
                    assert forall|q: usize|
                        first <= q < p + 1 && #[trigger] m.contains_key(q) implies old(frame_allocator).floor() <= m[q].frame
                            < frame_allocator.floor() && old(frame_allocator).may_hand_out(m[q].frame as int) by {
                        if q < p {
                            assert(before_map.contains_key(q));
                        }
                    }
                    assert forall|q1: usize, q2: usize|
                        first <= q1 < q2 < p + 1 && #[trigger] m.contains_key(q1) && #[trigger] m.contains_key(q2)
                            implies m[q1].frame < m[q2].frame by {
                        assert(before_map.contains_key(q1));
                        if q2 < p {
                            assert(before_map.contains_key(q2));
                        }
                    }
                }
            }
            match result {
                Ok(_) => {},
                Err(e) => {
                    proof {
                        assert(result == Err::<crate::frame::Frame, MapError>(e));
                        assert(e != MapError::AlreadyMapped);
                        assert(e == MapError::OutOfFrames);
                        assert(frame_allocator.exhausted());
                        let m = active_table@;
                        assert forall|q: usize|
                            first <= q < stop && #[trigger] m.contains_key(q) implies old(frame_allocator).floor() <= m[q].frame
                                < frame_allocator.floor() && old(frame_allocator).may_hand_out(m[q].frame as int) by {
                            if q >= p {
                                assert(!old(active_table)@.contains_key(q));
                            }
                        }
                        assert forall|q1: usize, q2: usize|
                            first <= q1 < q2 < stop && #[trigger] m.contains_key(q1) && #[trigger] m.contains_key(q2)
                                implies m[q1].frame < m[q2].frame by {
                            if q2 >= p {
                                assert(!old(active_table)@.contains_key(q2));
                            }
                            if q1 >= p {
                                assert(!old(active_table)@.contains_key(q1));
                            }
                        }
                        assert forall|q: usize|
                            first <= q < stop && #[trigger] active_table@.contains_key(q) implies
                            active_table@[q].flags == stack_flags() by {
                            if p <= q {
                                assert(!old(active_table)@.contains_key(q));
                            }
                        }
                        assert forall|q: usize| stop <= q < self.end implies !#[trigger] active_table@.contains_key(q) by {
                            assert(!old(active_table)@.contains_key(q));
                        }
                    }
                    return None;
                },
            }
            p = p + 1;
        }
        proof {
            assert forall|q: usize| stop <= q < self.end implies !#[trigger] active_table@.contains_key(q) by {
                assert(!old(active_table)@.contains_key(q));
            }
        }
        Some(Stack { top: stop * PAGE_SIZE, bottom: first * PAGE_SIZE })
    }
}

} // verus!
