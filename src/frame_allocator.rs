use vstd::prelude::*;
use crate::area::{PhysicalMemoryArea, PhysicalMemoryAreas, AREA_FREE};
use crate::frame::{Frame, PAGE_SIZE, max_number};

verus! {

/// A source of physical frames, consumed as a capability by the paging and
/// stack code.
pub trait FrameAllocator {
    /// The allocator's own state is consistent.
    spec fn inv(&self) -> bool;

    /// `later` is a state that allocating and freeing can take `self` to:
    /// the same source of frames, further along.
    spec fn evolves_to(&self, later: &Self) -> bool;

    /// Every frame handed out from this state on has at least this number:
    /// frames come out in increasing order.
    spec fn floor(&self) -> int;

    /// Frame `n` is one that this allocator may hand out at all.
    spec fn may_hand_out(&self, n: int) -> bool;

    /// No frame is left to hand out.
    open spec fn exhausted(&self) -> bool {
        forall|n: int| n >= self.floor() ==> !#[trigger] self.may_hand_out(n)
    }

    /// Evolving never lowers the floor and keeps the frames that may be
    /// handed out.
    proof fn lemma_evolves_keeps(a: &Self, b: &Self)
        requires
            a.evolves_to(b),
        ensures
            a.floor() <= b.floor(),
            forall|n: int| a.may_hand_out(n) == #[trigger] b.may_hand_out(n),
    ;

    /// A state evolves to itself.
    proof fn lemma_evolves_refl(a: &Self)
        ensures
            a.evolves_to(a),
    ;

    /// Evolving twice is evolving.
    proof fn lemma_evolves_trans(a: &Self, b: &Self, c: &Self)
        requires
            a.evolves_to(b),
            b.evolves_to(c),
        ensures
            a.evolves_to(c),
    ;

    /// A frame that is now owned by the caller, or `None` when none is left.
    fn allocate_frame(&mut self) -> (r: Option<Frame>)
        requires
            old(self).inv(),
        ensures
            final(self).inv(),
            old(self).evolves_to(final(self)),
            r matches Some(f) ==> {
                &&& f.number <= max_number()
                &&& old(self).floor() <= f.number < final(self).floor()
                &&& old(self).may_hand_out(f.number as int)
            },
            r.is_none() ==> final(self).exhausted(),
    ;

    /// Gives back a frame obtained from `allocate_frame`.
    fn deallocate_frame(&mut self, frame: Frame)
        requires
            old(self).inv(),
        ensures
            final(self).inv(),
            old(self).evolves_to(final(self)),
    ;
}

/// The number of the first frame of `a`.
pub open spec fn area_first_frame(a: PhysicalMemoryArea) -> int {
    a.base_addr as int / PAGE_SIZE as int
}

/// The number of the last frame of `a` (an area of positive length), cut
/// at the end of the 64-bit space and at the last addressable frame.
pub open spec fn area_last_frame(a: PhysicalMemoryArea) -> int {
    let last_addr = if a.base_addr + a.length - 1 <= u64::MAX {
        a.base_addr + a.length - 1
    } else {
        u64::MAX as int
    };
    let f = last_addr / PAGE_SIZE as int;
    if f <= max_number() {
        f
    } else {
        max_number()
    }
}

/// `a` is free and holds at least one addressable frame.
pub open spec fn area_usable(a: PhysicalMemoryArea) -> bool {
    &&& a.typ == AREA_FREE
    &&& a.length > 0
    &&& area_first_frame(a) <= area_last_frame(a)
}

/// Frame `n` lies in the free area `a`.
pub open spec fn area_holds(a: PhysicalMemoryArea, n: int) -> bool {
    area_usable(a) && area_first_frame(a) <= n <= area_last_frame(a)
}

/// Frame `n` lies in one of the free areas of `s`.
pub open spec fn in_free_area(s: Seq<PhysicalMemoryArea>, n: int) -> bool {
    exists|i: int| 0 <= i < s.len() && #[trigger] area_holds(s[i], n)
}

/// Frame `n` shares at least one byte with the byte range `[start, end)`.
pub open spec fn frame_overlaps(n: int, start: int, end: int) -> bool {
    start < end && start / PAGE_SIZE as int <= n <= (end - 1) / PAGE_SIZE as int
}

/// Hands out the frames of the free areas in increasing order, skipping the
/// frames of the kernel image and of the boot metadata. Frames are never
/// reused.
pub struct AreaFrameAllocator {
    next_free_frame: Frame,
    current_area: Option<usize>,
    areas: PhysicalMemoryAreas,
    kernel_start: usize,
    kernel_end: usize,
    multiboot_start: usize,
    multiboot_end: usize,
}

impl AreaFrameAllocator {
    /// The number of the next frame that may be handed out.
    pub closed spec fn cursor(&self) -> int {
        self.next_free_frame.number as int
    }

    /// The registered memory areas.
    pub closed spec fn area_list(&self) -> Seq<PhysicalMemoryArea> {
        self.areas@
    }

    /// The kernel image's byte range `[start, end)`.
    pub closed spec fn kernel_range(&self) -> (int, int) {
        (self.kernel_start as int, self.kernel_end as int)
    }

    /// The boot metadata's byte range `[start, end)`.
    pub closed spec fn multiboot_range(&self) -> (int, int) {
        (self.multiboot_start as int, self.multiboot_end as int)
    }

    /// Frame `n` may be handed out: it lies in a free area and outside the
    /// kernel image and the boot metadata.
    pub open spec fn acceptable(&self, n: int) -> bool {
        &&& in_free_area(self.area_list(), n)
        &&& !frame_overlaps(n, self.kernel_range().0, self.kernel_range().1)
        &&& !frame_overlaps(n, self.multiboot_range().0, self.multiboot_range().1)
    }

    /// One call of `allocate_frame` took `pre` to `post` and returned `r`:
    /// the least acceptable frame at or after the cursor, which then stands
    /// just past it; or `None` when there is no such frame.
    pub open spec fn allocation_step(pre: Self, r: Option<Frame>, post: Self) -> bool {
        &&& post.area_list() == pre.area_list()
        &&& post.kernel_range() == pre.kernel_range()
        &&& post.multiboot_range() == pre.multiboot_range()
        &&& post.cursor() >= pre.cursor()
        &&& match r {
            Some(f) => {
                &&& pre.cursor() <= f.number
                &&& pre.acceptable(f.number as int)
                &&& forall|n: int| pre.cursor() <= n < f.number ==> !#[trigger] pre.acceptable(n)
                &&& post.cursor() == f.number + 1
            },
            None => forall|n: int| n >= pre.cursor() ==> !#[trigger] pre.acceptable(n),
        }
    }

    /// The allocator's internal bookkeeping is consistent.
    pub closed spec fn wf(&self) -> bool {
        &&& self.areas.wf()
        &&& self.next_free_frame.number <= max_number() + 1
        &&& match self.current_area {
            Some(i) => {
                &&& i < self.areas@.len()
                &&& area_usable(self.areas@[i as int])
                &&& area_first_frame(self.areas@[i as int]) <= self.next_free_frame.number
            },
            None => forall|n: int| n >= self.cursor() ==> !#[trigger] in_free_area(self.areas@, n),
        }
    }

    /// An allocator over the free areas of `areas` that never hands out a
    /// frame sharing a byte with `[kernel_start, kernel_end)` or with
    /// `[multiboot_start, multiboot_end)`.
    pub fn new(
        kernel_start: usize,
        kernel_end: usize,
        multiboot_start: usize,
        multiboot_end: usize,
        areas: PhysicalMemoryAreas,
    ) -> (r: AreaFrameAllocator)
        requires
            areas.wf(),
        ensures
            r.wf(),
            r.area_list() == areas@,
            r.kernel_range() == (kernel_start as int, kernel_end as int),
            r.multiboot_range() == (multiboot_start as int, multiboot_end as int),
            forall|n: int| n < r.cursor() ==> !#[trigger] r.acceptable(n),
    {
        let mut allocator = AreaFrameAllocator {
            next_free_frame: Frame::containing_address(0),
            current_area: None,
            areas,
            kernel_start,
            kernel_end,
            multiboot_start,
            multiboot_end,
        };
        allocator.choose_next_area();
        allocator
    }

    /// Selects, among the usable areas that end at or after the cursor, one
    /// that starts lowest, and moves the cursor up to its first frame.
    fn choose_next_area(&mut self)
        requires
            old(self).areas.wf(),
            old(self).next_free_frame.number <= max_number() + 1,
        ensures
            final(self).wf(),
            final(self).areas@ == old(self).areas@,
            final(self).kernel_range() == old(self).kernel_range(),
            final(self).multiboot_range() == old(self).multiboot_range(),
            final(self).cursor() >= old(self).cursor(),
            forall|n: int|
                old(self).cursor() <= n < final(self).cursor() ==> !#[trigger] in_free_area(
                    final(self).areas@,
                    n,
                ),
            final(self).current_area matches Some(i) ==> area_holds(
                final(self).areas@[i as int],
                final(self).cursor(),
            ),
    {
        let cursor = self.next_free_frame.number;
        let mut best: Option<usize> = None;
        let mut best_base: u64 = 0;
        let mut iter = self.areas.free_areas();
        let len = self.areas.len();
        loop
            invariant
                self.areas.wf(),
                len == self.areas@.len(),
                cursor == self.next_free_frame.number,
                0 <= iter.index(),
                match best {
                    Some(j) => {
                        &&& j < iter.index()
                        &&& j < len
                        &&& area_usable(self.areas@[j as int])
                        &&& area_last_frame(self.areas@[j as int]) >= cursor
                        &&& best_base == self.areas@[j as int].base_addr
                    },
                    None => true,
                },
                forall|k: int|
                    0 <= k < iter.index() && k < len && area_usable(#[trigger] self.areas@[k])
                        && area_last_frame(self.areas@[k]) >= cursor ==> best.is_some()
                        && best_base <= self.areas@[k].base_addr,
            ensures
                iter.index() >= len,
            decreases len - iter.index(),
        {
            let ghost before = iter.index();
            match iter.next(&self.areas) {
                None => {
                    proof {
                        assert forall|m: int|
                            0 <= m < iter.index() && m < len && area_usable(
                                #[trigger] self.areas@[m],
                            ) && area_last_frame(self.areas@[m]) >= cursor implies best.is_some()
                            && best_base <= self.areas@[m].base_addr by {
                            assert(self.areas@[m].typ != AREA_FREE || m < before);
                        }
                    }
                    break;
                },
                Some(area) => {
                    let ghost k = iter.index() - 1;
                    if area.length > 0 {
                        let first = area.base_addr / (PAGE_SIZE as u64);
                        let last = last_frame_of(&area);
                        if first <= last as u64 && last >= cursor {
                            if best.is_none() || area.base_addr < best_base {
                                best = Some(iter.position() - 1);
                                best_base = area.base_addr;
                            }
                        }
                    }
                    proof {
                        assert forall|m: int|
                            0 <= m < iter.index() && m < len && area_usable(
                                #[trigger] self.areas@[m],
                            ) && area_last_frame(self.areas@[m]) >= cursor implies best.is_some()
                            && best_base <= self.areas@[m].base_addr by {
                            if m < k {
                                assert(self.areas@[m].typ != AREA_FREE || m < before);
                            }
                        }
                    }
                    if iter.position() >= len {
                        break;
                    }
                },
            }
        }
        self.current_area = best;
        match best {
            Some(j) => {
                let area = self.areas.get(j);
                let first = (area.base_addr / (PAGE_SIZE as u64)) as usize;
                if cursor < first {
                    self.next_free_frame = Frame { number: first };
                }
                proof {
                    assert forall|n: int|
                        cursor <= n < self.next_free_frame.number implies !#[trigger] in_free_area(
                        self.areas@,
                        n,
                    ) by {
                        if in_free_area(self.areas@, n) {
                            let b = choose|b: int|
                                0 <= b < self.areas@.len() && #[trigger] area_holds(
                                    self.areas@[b],
                                    n,
                                );
                            assert(area_usable(self.areas@[b]));
                            assert(best_base <= self.areas@[b].base_addr);
                        }
                    }
                }
            },
            None => {
                proof {
                    assert forall|n: int| n >= cursor implies !#[trigger] in_free_area(
                        self.areas@,
                        n,
                    ) by {
                        if in_free_area(self.areas@, n) {
                            let b = choose|b: int|
                                0 <= b < self.areas@.len() && #[trigger] area_holds(
                                    self.areas@[b],
                                    n,
                                );
                            assert(area_usable(self.areas@[b]));
                        }
                    }
                }
            },
        }
    }
}

/// Whether frame `n` shares a byte with `[start, end)`, as `frame_overlaps`.
fn overlaps(n: usize, start: usize, end: usize) -> (r: bool)
    ensures
        r == frame_overlaps(n as int, start as int, end as int),
{
    start < end && start / PAGE_SIZE <= n && n <= (end - 1) / PAGE_SIZE
}

impl FrameAllocator for AreaFrameAllocator {
    open spec fn inv(&self) -> bool {
        self.wf()
    }

    open spec fn evolves_to(&self, later: &Self) -> bool {
        &&& later.area_list() == self.area_list()
        &&& later.kernel_range() == self.kernel_range()
        &&& later.multiboot_range() == self.multiboot_range()
        &&& later.cursor() >= self.cursor()
    }

    open spec fn floor(&self) -> int {
        self.cursor()
    }

    open spec fn may_hand_out(&self, n: int) -> bool {
        self.acceptable(n)
    }

    proof fn lemma_evolves_keeps(a: &Self, b: &Self) {
    }

    proof fn lemma_evolves_refl(a: &Self) {
    }

    proof fn lemma_evolves_trans(a: &Self, b: &Self, c: &Self) {
    }

    /// The least acceptable frame at or after the cursor.
    fn allocate_frame(&mut self) -> (r: Option<Frame>)
        ensures
            Self::allocation_step(*old(self), r, *final(self)),
    {
        let ghost start = self.cursor();
        loop
            invariant
                self.wf(),
                self.areas@ == old(self).areas@,
                self.kernel_range() == old(self).kernel_range(),
                self.multiboot_range() == old(self).multiboot_range(),
                old(self).wf(),
                start == old(self).cursor(),
                self.cursor() >= start,
                forall|n: int| start <= n < self.cursor() ==> !#[trigger] old(self).acceptable(n),
            decreases (max_number() + 2 - self.cursor()) * 2 + match self.current_area {
                Some(i) => if self.cursor() <= area_last_frame(self.areas@[i as int]) {
                    0int
                } else {
                    1int
                },
                None => 0int,
            },
        {
            match self.current_area {
                None => {
                    proof {
                        assert forall|n: int| n >= start implies !#[trigger] old(self).acceptable(
                            n,
                        ) by {
                            if n >= self.cursor() {
                                assert(!in_free_area(self.areas@, n));
                            }
                        }
                    }
                    return None;
                },
                Some(i) => {
                    let area = self.areas.get(i);
                    let last = last_frame_of(&area);
                    let number = self.next_free_frame.number;
                    if number > last {
                        let ghost c0 = self.cursor();
                        self.choose_next_area();
                        proof {
                            assert forall|n: int| start <= n < self.cursor() implies !#[trigger] old(
                                self,
                            ).acceptable(n) by {
                                if n >= c0 {
                                    assert(!in_free_area(self.areas@, n));
                                }
                            }
                        }
                    } else if overlaps(number, self.kernel_start, self.kernel_end) {
                        self.next_free_frame = Frame { number: (self.kernel_end - 1) / PAGE_SIZE + 1 };
                    } else if overlaps(number, self.multiboot_start, self.multiboot_end) {
                        self.next_free_frame = Frame {
                            number: (self.multiboot_end - 1) / PAGE_SIZE + 1,
                        };
                    } else {
                        let frame = Frame { number };
                        self.next_free_frame = Frame { number: number + 1 };
                        proof {
                            assert(area_holds(self.areas@[i as int], number as int));
                            assert(in_free_area(self.areas@, number as int));
                        }
                        return Some(frame);
                    }
                },
            }
        }
    }

    /// Frames are never taken back: the allocator stays as it is.
    fn deallocate_frame(&mut self, frame: Frame)
        ensures
            *final(self) == *old(self),
    {
    }
}

/// The number of the last frame of `a`, as `area_last_frame` gives it.
fn last_frame_of(a: &PhysicalMemoryArea) -> (r: usize)
    requires
        a.length > 0,
    ensures
        r == area_last_frame(*a),
{
    let last_addr: u64 = if a.base_addr <= u64::MAX - (a.length - 1) {
        a.base_addr + (a.length - 1)
    } else {
        u64::MAX
    };
    let f = last_addr / (PAGE_SIZE as u64);
    let top: usize = usize::MAX / PAGE_SIZE;
    if f > top as u64 {
        top
    } else {
        f as usize
    }
}

} // verus!

verus! {

/// `states[i + 1]` is what one call of `allocate_frame` on `states[i]` left,
/// and `results[i]` what it returned.
pub open spec fn is_allocation_run(
    states: Seq<AreaFrameAllocator>,
    results: Seq<Option<Frame>>,
) -> bool {
    &&& states.len() == results.len() + 1
    &&& forall|i: int|
        0 <= i < results.len() ==> AreaFrameAllocator::allocation_step(
            states[i],
            #[trigger] results[i],
            states[i + 1],
        )
}

/// Along a run the cursor never moves back, and the areas and the reserved
/// ranges stay as they were.
pub proof fn lemma_run_keeps_bounds(
    states: Seq<AreaFrameAllocator>,
    results: Seq<Option<Frame>>,
    i: int,
    j: int,
)
    requires
        is_allocation_run(states, results),
        0 <= i <= j < states.len(),
    ensures
        states[i].cursor() <= states[j].cursor(),
        states[j].area_list() == states[i].area_list(),
        states[j].kernel_range() == states[i].kernel_range(),
        states[j].multiboot_range() == states[i].multiboot_range(),
    decreases j - i,
{
    if i < j {
        lemma_run_keeps_bounds(states, results, i, j - 1);
        assert(AreaFrameAllocator::allocation_step(states[j - 1], results[j - 1], states[j]));
    }
}

/// Over any sequence of calls of `allocate_frame`, a later frame has a
/// strictly greater number than an earlier one: frame numbers never
/// decrease, and no frame is handed out twice.
pub proof fn lemma_frames_strictly_increase(
    states: Seq<AreaFrameAllocator>,
    results: Seq<Option<Frame>>,
    i: int,
    j: int,
)
    requires
        is_allocation_run(states, results),
        0 <= i < j < results.len(),
        results[i].is_some(),
        results[j].is_some(),
    ensures
        results[i].unwrap().number < results[j].unwrap().number,
        results[i] != results[j],
{
    assert(AreaFrameAllocator::allocation_step(states[i], results[i], states[i + 1]));
    assert(AreaFrameAllocator::allocation_step(states[j], results[j], states[j + 1]));
    lemma_run_keeps_bounds(states, results, i + 1, j);
}

/// Over any sequence of calls of `allocate_frame`, every frame handed out
/// lies in a free area, and shares no byte with the kernel image or the boot
/// metadata as they were given to the allocator.
pub proof fn lemma_frames_avoid_reserved(
    states: Seq<AreaFrameAllocator>,
    results: Seq<Option<Frame>>,
    i: int,
)
    requires
        is_allocation_run(states, results),
        0 <= i < results.len(),
        results[i].is_some(),
    ensures
        in_free_area(states[0].area_list(), results[i].unwrap().number as int),
        !frame_overlaps(
            results[i].unwrap().number as int,
            states[0].kernel_range().0,
            states[0].kernel_range().1,
        ),
        !frame_overlaps(
            results[i].unwrap().number as int,
            states[0].multiboot_range().0,
            states[0].multiboot_range().1,
        ),
{
    assert(AreaFrameAllocator::allocation_step(states[i], results[i], states[i + 1]));
    lemma_run_keeps_bounds(states, results, 0, i);
}

} // verus!
