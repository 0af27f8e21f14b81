use vstd::prelude::*;
use crate::area::{PhysicalMemoryArea, PhysicalMemoryAreas, AREA_CAPACITY};
use crate::frame::{Page, PAGE_SIZE, max_number};
use crate::frame_allocator::{AreaFrameAllocator, FrameAllocator};
use crate::paging::{ActivePageTable, Entry, EntryFlags, MapError, least_privilege};
use crate::remap::{
    ElfSection,
    boot_info_flags,
    kernel_covers,
    ranges_share_frame,
    remap_the_kernel,
    section_covers,
    section_end,
    section_flags,
};
use crate::frame_allocator::frame_overlaps;
use crate::stack_allocator::{
    Stack,
    StackAllocator,
    agrees_outside,
    all_stack_mapped,
    all_unmapped,
    fresh_rising_frames,
};

verus! {

/// First virtual address of the kernel heap.
pub const HEAP_START: usize = 0x4000_0000;

/// Size in bytes of the kernel heap.
pub const HEAP_SIZE: usize = 0x10_0000;

/// The stack range runs from the page just after the heap to this many
/// pages beyond it, both included.
pub const STACK_RANGE_PAGES: usize = 100;

/// Why memory management could not be set up.
#[derive(Clone, Copy, Debug, PartialEq, Eq, Structural)]
pub enum InitError {
    /// Set-up was already done once.
    AlreadyCalled,
    /// No section of the kernel image is loaded in memory.
    MissingKernelSections,
    /// More memory areas than the registry holds.
    TooManyAreas,
    /// The new page table could not be built.
    Remap(MapError),
    /// The heap could not be mapped.
    Heap(MapError),
    /// A page of the stack range is already mapped.
    StackRangeInUse,
}

/// Remembers whether set-up has been done, so that it is done only once.
pub struct InitGuard {
    called: bool,
}

impl InitGuard {
    /// Set-up has been asked for.
    pub closed spec fn was_called(&self) -> bool {
        self.called
    }

    /// A guard before any set-up.
    pub fn new() -> (r: InitGuard)
        ensures
            !r.was_called(),
    {
        InitGuard { called: false }
    }
}

/// Some section of `secs` is loaded in memory.
pub open spec fn has_allocated(secs: Seq<ElfSection>) -> bool {
    exists|i: int| 0 <= i < secs.len() && #[trigger] secs[i].allocated
}

/// `(lo, hi)` is the lowest start and the highest end of the loaded
/// sections of `secs`.
pub open spec fn is_kernel_bounds(secs: Seq<ElfSection>, lo: int, hi: int) -> bool {
    &&& exists|i: int| 0 <= i < secs.len() && #[trigger] secs[i].allocated && secs[i].start == lo
    &&& exists|i: int| 0 <= i < secs.len() && #[trigger] secs[i].allocated && section_end(secs[i]) == hi
    &&& forall|i: int|
        0 <= i < secs.len() && #[trigger] secs[i].allocated ==> lo <= secs[i].start && section_end(
            secs[i],
        ) <= hi
}

/// The byte range of the kernel image: the lowest start and the highest end
/// of its loaded sections; `None` if none is loaded.
pub fn kernel_bounds(sections: &Vec<ElfSection>) -> (r: Option<(usize, usize)>)
    ensures
        r.is_none() == !has_allocated(sections@),
        r matches Some((lo, hi)) ==> is_kernel_bounds(sections@, lo as int, hi as int),
{
    let mut bounds: Option<(usize, usize)> = None;
    let mut i: usize = 0;
    while i < sections.len()
        invariant
            i <= sections@.len(),
            bounds.is_none() == !has_allocated(sections@.take(i as int)),
            bounds matches Some((lo, hi)) ==> is_kernel_bounds(sections@.take(i as int), lo as int, hi as int),
        decreases sections@.len() - i,
    {
        let s = sections[i];
        let ghost pre = sections@.take(i as int);
        let ghost post = sections@.take(i + 1);
        assert(post == pre.push(s));
        let end: usize = if s.start <= usize::MAX - s.size {
            s.start + s.size
        } else {
            usize::MAX
        };
        if s.allocated {
            bounds = match bounds {
                None => Some((s.start, end)),
                Some((lo, hi)) => Some(
                    (if s.start < lo { s.start } else { lo }, if end > hi { end } else { hi }),
                ),
            };
            assert(post[i as int].allocated);
        }
        proof {
            if has_allocated(post) && !s.allocated {
                let j = choose|j: int| 0 <= j < post.len() && #[trigger] post[j].allocated;
                assert(pre[j].allocated);
            }
            if has_allocated(pre) {
                let j = choose|j: int| 0 <= j < pre.len() && #[trigger] pre[j].allocated;
                assert(post[j].allocated);
            }
            if let Some((lo, hi)) = bounds {
                assert forall|k: int|
                    0 <= k < post.len() && #[trigger] post[k].allocated implies lo <= post[k].start
                    && section_end(post[k]) <= hi by {
                    if k < pre.len() {
                        assert(pre[k] == post[k]);
                    }
                }
                if !s.allocated {
                    let a = choose|a: int| 0 <= a < pre.len() && #[trigger] pre[a].allocated && pre[a].start == lo;
                    assert(post[a] == pre[a]);
                    let b = choose|b: int| 0 <= b < pre.len() && #[trigger] pre[b].allocated && section_end(pre[b]) == hi;
                    assert(post[b] == pre[b]);
                }
            }
        }
        i = i + 1;
    }
    proof {
        assert(sections@.take(sections@.len() as int) == sections@);
    }
    bounds
}

} // verus!

verus! {

/// Owns the page table, the frame allocator and the stack allocator; after
/// set-up it is the only way to change any of them.
pub struct MemoryController {
    active_table: ActivePageTable,
    frame_allocator: AreaFrameAllocator,
    stack_allocator: StackAllocator,
}

impl MemoryController {
    /// The translation of each mapped page.
    pub closed spec fn mappings(&self) -> Map<usize, Entry> {
        self.active_table@
    }

    /// The first page of the stack range not yet handed out.
    pub closed spec fn stack_next(&self) -> int {
        self.stack_allocator.next_page()
    }

    /// The page just past the stack range.
    pub closed spec fn stack_end(&self) -> int {
        self.stack_allocator.end_page()
    }

    /// The frame allocator.
    pub closed spec fn frames(&self) -> AreaFrameAllocator {
        self.frame_allocator
    }

    /// The parts are consistent, the pages of the stack range not yet handed
    /// out are unmapped, and no page is both writable and executable.
    pub closed spec fn wf(&self) -> bool {
        &&& self.active_table.wf()
        &&& self.frame_allocator.wf()
        &&& self.stack_allocator.wf()
        &&& all_unmapped(self.active_table@, self.stack_next(), self.stack_end())
        &&& least_privilege(self.active_table@)
        &&& frames_accounted(self.active_table@, self.frame_allocator)
    }

    /// In a consistent controller, the pages of the stack range not yet
    /// handed out are unmapped, page numbers of the range fit in `usize`, no
    /// page is both writable and executable, and every mapped frame that the
    /// frame allocator could hand out lies below its cursor.
    pub proof fn lemma_remaining_unmapped(&self)
        requires
            self.wf(),
        ensures
            all_unmapped(self.mappings(), self.stack_next(), self.stack_end()),
            0 <= self.stack_next() <= self.stack_end() <= max_number(),
            least_privilege(self.mappings()),
            frames_accounted(self.mappings(), self.frames()),
            self.frames().wf(),
    {
    }

    /// One call of `alloc_stack(size_in_pages)` took `pre` to `post` and
    /// returned `r`: only pages taken from the front of the stack range by
    /// this call changed, each backed by a fresh frame that the allocator
    /// could hand out, in increasing order and unlike any frame mapped
    /// before; a request too large for the range changes nothing; one that
    /// fits gets a stack unless the frames ran out; a stack spans the pages
    /// just above the guard page `pre.stack_next()`.
    pub open spec fn stack_step(pre: Self, size_in_pages: usize, r: Option<Stack>, post: Self) -> bool {
        &&& post.stack_end() == pre.stack_end()
        &&& post.stack_next() >= pre.stack_next()
        &&& agrees_outside(pre.mappings(), post.mappings(), pre.stack_next() + 1, post.stack_next())
        &&& (size_in_pages == 0 || size_in_pages + 1 > pre.stack_end() - pre.stack_next()) ==> r.is_none()
            && post.stack_next() == pre.stack_next()
        &&& (size_in_pages > 0 && size_in_pages + 1 <= pre.stack_end() - pre.stack_next())
            ==> post.stack_next() == pre.stack_next() + size_in_pages + 1
        &&& post.frames().area_list() == pre.frames().area_list()
        &&& post.frames().kernel_range() == pre.frames().kernel_range()
        &&& post.frames().multiboot_range() == pre.frames().multiboot_range()
        &&& post.frames().cursor() >= pre.frames().cursor()
        &&& fresh_rising_frames(
            post.mappings(),
            pre.stack_next() + 1,
            post.stack_next(),
            pre.frames(),
            post.frames(),
        )
        &&& forall|q: usize, q2: usize|
            pre.stack_next() + 1 <= q < post.stack_next() && #[trigger] post.mappings().contains_key(q)
                && #[trigger] pre.mappings().contains_key(q2) ==> post.mappings()[q].frame
                != pre.mappings()[q2].frame
        &&& (size_in_pages == 0 || size_in_pages + 1 > pre.stack_end() - pre.stack_next())
            ==> post.frames() == pre.frames() && post.mappings() == pre.mappings()
        &&& (size_in_pages > 0 && size_in_pages + 1 <= pre.stack_end() - pre.stack_next()) ==> (
        r.is_some() || forall|n: int|
            n >= post.frames().cursor() ==> !#[trigger] post.frames().acceptable(n))
        &&& r matches Some(s) ==> {
            &&& s.bottom_spec() == (pre.stack_next() + 1) * PAGE_SIZE
            &&& s.top_spec() == post.stack_next() * PAGE_SIZE
            &&& all_stack_mapped(post.mappings(), pre.stack_next() + 1, post.stack_next())
        }
    }

    /// A stack of `size_in_pages` pages below a guard page, or `None` when the
    /// stack range or the frames run out.
    pub fn alloc_stack(&mut self, size_in_pages: usize) -> (r: Option<Stack>)
        requires
            old(self).wf(),
        ensures
            final(self).wf(),
            Self::stack_step(*old(self), size_in_pages, r, *final(self)),
    {
        let ghost pre = self.active_table@;
        let ghost pre_frames = self.frame_allocator;
        let r = self.stack_allocator.alloc_stack(
            &mut self.active_table,
            &mut self.frame_allocator,
            size_in_pages,
        );
        proof {
            assert forall|p: usize| #[trigger] self.active_table@.contains_key(p) implies
                crate::paging::flags_least_privilege(self.active_table@[p].flags) by {
                if !pre.contains_key(p) {
                    assert(old(self).stack_next() + 1 <= p < self.stack_next());
                }
                if old(self).stack_next() + 1 <= p < self.stack_next() {
                } else {
                    assert(pre.contains_key(p));
                }
            }
            assert forall|p: usize| #[trigger] self.active_table@.contains_key(p) implies
                self.active_table@[p].frame < self.frame_allocator.cursor()
                || !self.frame_allocator.acceptable(self.active_table@[p].frame as int) by {
                if old(self).stack_next() + 1 <= p < self.stack_next() {
                } else {
                    assert(pre.contains_key(p));
                }
            }
            assert forall|q: usize, q2: usize|
                old(self).stack_next() + 1 <= q < self.stack_next() && #[trigger] self.active_table@.contains_key(q)
                    && #[trigger] pre.contains_key(q2) implies self.active_table@[q].frame
                    != pre[q2].frame by {
                assert(pre_frames.acceptable(self.active_table@[q].frame as int));
            }
            if size_in_pages > 0 && size_in_pages + 1 <= old(self).stack_end() - old(self).stack_next() && r.is_none() {
                assert(self.frame_allocator.exhausted());
                assert forall|n: int| n >= self.frame_allocator.cursor() implies !#[trigger] self.frame_allocator.acceptable(n) by {
                    assert(!self.frame_allocator.may_hand_out(n));
                }
            }
        }
        r
    }

    /// The translation of `page`, if it is mapped.
    pub fn lookup(&self, page: &Page) -> (r: Option<Entry>)
        requires
            self.wf(),
        ensures
            r == (if self.mappings().contains_key(page.number) {
                Some(self.mappings()[page.number])
            } else {
                None
            }),
    {
        self.active_table.lookup(page)
    }
}

/// Page `p` holds bytes of the kernel image or of the boot metadata
/// `[multiboot_start, multiboot_end)`.
pub open spec fn boot_page(secs: Seq<ElfSection>, multiboot_start: int, multiboot_end: int, p: int) -> bool {
    kernel_covers(secs, p) || frame_overlaps(p, multiboot_start, multiboot_end)
}

/// Page `p` is a page of the heap.
pub open spec fn heap_page(p: int) -> bool {
    heap_first_page() <= p <= heap_last_page()
}

/// Page `p` is a page of the stack range that follows the heap.
pub open spec fn stack_range_page(p: int) -> bool {
    heap_last_page() + 1 <= p <= heap_last_page() + 1 + STACK_RANGE_PAGES
}

/// Some page of the heap holds bytes of the kernel image or boot metadata.
pub open spec fn boot_overlaps_heap(secs: Seq<ElfSection>, multiboot_start: int, multiboot_end: int) -> bool {
    exists|p: int| heap_page(p) && #[trigger] boot_page(secs, multiboot_start, multiboot_end, p)
}

/// Some page of the stack range holds bytes of the kernel image or boot
/// metadata.
pub open spec fn boot_overlaps_stacks(secs: Seq<ElfSection>, multiboot_start: int, multiboot_end: int) -> bool {
    exists|p: int| stack_range_page(p) && #[trigger] boot_page(secs, multiboot_start, multiboot_end, p)
}

/// Whether page `p` is a boot page, as `boot_page` says.
fn is_boot_page(sections: &Vec<ElfSection>, multiboot_start: usize, multiboot_end: usize, p: usize) -> (r: bool)
    ensures
        r == boot_page(sections@, multiboot_start as int, multiboot_end as int, p as int),
{
    if multiboot_start < multiboot_end && multiboot_start / PAGE_SIZE <= p && p <= (multiboot_end - 1) / PAGE_SIZE {
        return true;
    }
    let mut i: usize = 0;
    while i < sections.len()
        invariant
            i <= sections@.len(),
            forall|j: int| 0 <= j < i ==> !#[trigger] section_covers(sections@[j], p as int),
        decreases sections@.len() - i,
    {
        let s = sections[i];
        let end: usize = if s.start <= usize::MAX - s.size {
            s.start + s.size
        } else {
            usize::MAX
        };
        if s.allocated && s.start < end && s.start / PAGE_SIZE <= p && p <= (end - 1) / PAGE_SIZE {
            assert(section_covers(sections@[i as int], p as int));
            return true;
        }
        i = i + 1;
    }
    false
}

/// Whether some page from `lo` to `hi` (both included) is a boot page.
fn any_boot_page(sections: &Vec<ElfSection>, multiboot_start: usize, multiboot_end: usize, lo: usize, hi: usize) -> (r: bool)
    requires
        hi < usize::MAX,
    ensures
        r == exists|p: int| lo <= p <= hi && #[trigger] boot_page(sections@, multiboot_start as int, multiboot_end as int, p),
{
    let mut p: usize = lo;
    while p <= hi
        invariant
            lo <= p,
            p <= hi + 1 || p == lo,
            hi < usize::MAX,
            forall|q: int| lo <= q < p ==> !#[trigger] boot_page(sections@, multiboot_start as int, multiboot_end as int, q),
        decreases hi + 1 - p,
    {
        if is_boot_page(sections, multiboot_start, multiboot_end, p) {
            return true;
        }
        p = p + 1;
    }
    false
}

/// Sets up memory management, once: registers the memory areas, builds a
/// frame allocator that skips the kernel image and the boot metadata
/// `[multiboot_start, multiboot_end)`, remaps the kernel into a new page
/// table, maps the heap, and reserves the stack range that follows it.
pub fn init(
    guard: &mut InitGuard,
    memory_areas: &Vec<PhysicalMemoryArea>,
    sections: &Vec<ElfSection>,
    multiboot_start: usize,
    multiboot_end: usize,
) -> (r: Result<MemoryController, InitError>)
    ensures
        final(guard).was_called(),
        old(guard).was_called() ==> r == Err::<MemoryController, InitError>(InitError::AlreadyCalled),
        !old(guard).was_called() ==> {
            let ms = multiboot_start as int;
            let me = multiboot_end as int;
            &&& (r == Err::<MemoryController, InitError>(InitError::MissingKernelSections))
                == !has_allocated(sections@)
            &&& (r == Err::<MemoryController, InitError>(InitError::TooManyAreas)) == (has_allocated(
                sections@,
            ) && memory_areas@.len() > AREA_CAPACITY)
            &&& (r == Err::<MemoryController, InitError>(InitError::Heap(MapError::AlreadyMapped)))
                == (has_allocated(sections@) && memory_areas@.len() <= AREA_CAPACITY
                && boot_overlaps_heap(sections@, ms, me))
            &&& (r == Err::<MemoryController, InitError>(InitError::StackRangeInUse)) == (
            has_allocated(sections@) && memory_areas@.len() <= AREA_CAPACITY
                && !boot_overlaps_heap(sections@, ms, me) && boot_overlaps_stacks(sections@, ms, me))
            &&& r == Err::<MemoryController, InitError>(InitError::Remap(MapError::AlreadyMapped))
                ==> ranges_share_frame(sections@, ms, me)
        },
        r matches Ok(c) ==> {
            let ms = multiboot_start as int;
            let me = multiboot_end as int;
            &&& c.wf()
            &&& least_privilege(c.mappings())
            &&& frames_accounted(c.mappings(), c.frames())
            &&& c.frames().area_list() == memory_areas@
            &&& is_kernel_bounds(sections@, c.frames().kernel_range().0, c.frames().kernel_range().1)
            &&& c.frames().multiboot_range() == (ms, me)
            &&& forall|p: usize|
                #[trigger] c.mappings().contains_key(p) == (boot_page(sections@, ms, me, p as int)
                    || heap_page(p as int))
            &&& maps_boot_image(c.mappings(), sections@, ms, me)
            &&& forall|j: int, p: usize|
                0 <= j < sections@.len() && #[trigger] section_covers(sections@[j], p as int)
                    ==> #[trigger] c.mappings()[p].flags == section_flags(sections@[j])
            &&& forall|p: usize|
                #[trigger] frame_overlaps(p as int, ms, me) ==> c.mappings()[p].flags == boot_info_flags()
            &&& all_stack_mapped(c.mappings(), heap_first_page(), heap_last_page() + 1)
            &&& forall|p: usize|
                heap_page(p as int) ==> c.frames().acceptable(#[trigger] c.mappings()[p].frame as int)
                    && c.mappings()[p].frame < c.frames().cursor()
            &&& forall|p: usize, q: usize|
                heap_page(p as int) && heap_page(q as int) && p < q ==> #[trigger] c.mappings()[p].frame
                    < #[trigger] c.mappings()[q].frame
            &&& c.stack_next() == heap_last_page() + 1
            &&& c.stack_end() == heap_last_page() + 2 + STACK_RANGE_PAGES
        },
{
    if guard.called {
        return Err(InitError::AlreadyCalled);
    }
    guard.called = true;
    let (kernel_start, kernel_end) = match kernel_bounds(sections) {
        Some(b) => b,
        None => {
            return Err(InitError::MissingKernelSections);
        },
    };
    if memory_areas.len() > AREA_CAPACITY {
        return Err(InitError::TooManyAreas);
    }
    proof {
        assert(heap_first_page() == 0x40000);
        assert(heap_last_page() == 0x400FF);
    }
    let heap_start_page = Page::containing_address(HEAP_START);
    let heap_end_page = Page::containing_address(HEAP_START + HEAP_SIZE - 1);
    let stack_start = heap_end_page.number + 1;
    let stack_end = stack_start + STACK_RANGE_PAGES;
    if any_boot_page(sections, multiboot_start, multiboot_end, heap_start_page.number, heap_end_page.number) {
        return Err(InitError::Heap(MapError::AlreadyMapped));
    }
    if any_boot_page(sections, multiboot_start, multiboot_end, stack_start, stack_end) {
        return Err(InitError::StackRangeInUse);
    }
    let ghost ms = multiboot_start as int;
    let ghost me = multiboot_end as int;
    let mut registry = PhysicalMemoryAreas::new();
    let mut i: usize = 0;
    while i < memory_areas.len()
        invariant
            i <= memory_areas@.len() <= AREA_CAPACITY,
            registry.wf(),
            registry@ == memory_areas@.take(i as int),
        decreases memory_areas@.len() - i,
    {
        let _ = registry.register(memory_areas[i]);
        assert(memory_areas@.take(i + 1) == memory_areas@.take(i as int).push(memory_areas@[i as int]));
        i = i + 1;
    }
    assert(memory_areas@.take(memory_areas@.len() as int) == memory_areas@);
    let mut frame_allocator = AreaFrameAllocator::new(
        kernel_start,
        kernel_end,
        multiboot_start,
        multiboot_end,
        registry,
    );
    let mut active_table = match remap_the_kernel(
        &mut frame_allocator,
        sections,
        multiboot_start,
        multiboot_end,
    ) {
        Ok(t) => t,
        Err(e) => {
            return Err(InitError::Remap(e));
        },
    };
    let ghost remapped = active_table@;
    proof {
        assert forall|q: usize| #[trigger] remapped.contains_key(q) implies remapped[q].frame == q
            && !frame_allocator.acceptable(q as int) by {
            if kernel_covers(sections@, q as int) {
                let j = choose|j: int| 0 <= j < sections@.len() && #[trigger] section_covers(sections@[j], q as int);
                assert(sections@[j].allocated);
                lemma_div_mono(kernel_start as int, sections@[j].start as int);
                lemma_div_mono(section_end(sections@[j]) - 1, kernel_end as int - 1);
                assert(frame_overlaps(q as int, kernel_start as int, kernel_end as int));
            }
        }
    }
    let flags = EntryFlags { writable: true, no_execute: true };
    let mut p: usize = heap_start_page.number;
    while p <= heap_end_page.number
        invariant
            heap_start_page.number == heap_first_page(),
            heap_end_page.number == heap_last_page(),
            heap_first_page() <= p <= heap_last_page() + 1,
            guard.was_called(),
            !old(guard).was_called(),
            has_allocated(sections@),
            memory_areas@.len() <= AREA_CAPACITY,
            !boot_overlaps_heap(sections@, ms, me),
            !boot_overlaps_stacks(sections@, ms, me),
            ms == multiboot_start,
            me == multiboot_end,
            is_kernel_bounds(sections@, kernel_start as int, kernel_end as int),
            active_table.wf(),
            frame_allocator.wf(),
            frame_allocator.area_list() == memory_areas@,
            frame_allocator.kernel_range() == (kernel_start as int, kernel_end as int),
            frame_allocator.multiboot_range() == (ms, me),
            least_privilege(active_table@),
            flags == (EntryFlags { writable: true, no_execute: true }),
            forall|q: usize|
                #[trigger] remapped.contains_key(q) == boot_page(sections@, ms, me, q as int),
            forall|q: usize| #[trigger] remapped.contains_key(q) ==> remapped[q].frame == q
                && !frame_allocator.acceptable(q as int),
            forall|q: usize|
                #[trigger] active_table@.contains_key(q) == (remapped.contains_key(q)
                    || heap_first_page() <= q < p),
            forall|q: usize| #[trigger] remapped.contains_key(q) ==> active_table@[q] == remapped[q],
            forall|j: int, q: usize|
                0 <= j < sections@.len() && #[trigger] section_covers(sections@[j], q as int)
                    ==> #[trigger] remapped[q].flags == section_flags(sections@[j]),
            forall|q: usize|
                #[trigger] frame_overlaps(q as int, ms, me) ==> remapped[q].flags == boot_info_flags(),
            all_stack_mapped(active_table@, heap_first_page(), p as int),
            forall|q: usize|
                heap_first_page() <= q < p ==> frame_allocator.acceptable(#[trigger] active_table@[q].frame as int)
                    && active_table@[q].frame < frame_allocator.cursor(),
            forall|a: usize, b: usize|
                heap_first_page() <= a < b < p ==> #[trigger] active_table@[a].frame
                    < #[trigger] active_table@[b].frame,
        decreases heap_last_page() + 1 - p,
    {
        let ghost before = active_table@;
        let ghost fa_before = frame_allocator;
        proof {
            assert(!boot_page(sections@, ms, me, p as int));
            assert(!remapped.contains_key(p));
        }
        match active_table.map(&Page { number: p }, flags, &mut frame_allocator) {
            Ok(_) => {},
            Err(e) => {
                return Err(InitError::Heap(e));
            },
        }
        proof {
            assert forall|q: usize| #[trigger] remapped.contains_key(q) implies active_table@[q] == remapped[q] by {
                assert(before.contains_key(q));
            }
            assert forall|q: usize|
                heap_first_page() <= q < p + 1 implies frame_allocator.acceptable(#[trigger] active_table@[q].frame as int)
                    && active_table@[q].frame < frame_allocator.cursor() by {
                if q < p {
                    assert(before.contains_key(q));
                }
            }
            assert forall|a: usize, b: usize|
                heap_first_page() <= a < b < p + 1 implies #[trigger] active_table@[a].frame
                    < #[trigger] active_table@[b].frame by {
                assert(before.contains_key(a));
                if b < p {
                    assert(before.contains_key(b));
                }
            }
        }
        p = p + 1;
    }
    proof {
        assert forall|q: usize| stack_start <= q <= stack_end implies !#[trigger] active_table@.contains_key(q) by {
            assert(!boot_page(sections@, ms, me, q as int));
        }
        assert forall|q: usize| #[trigger] active_table@.contains_key(q) implies active_table@[q].frame
            < frame_allocator.cursor() || !frame_allocator.acceptable(active_table@[q].frame as int) by {
            if remapped.contains_key(q) {
            }
        }
        assert forall|j: int, q: usize|
            0 <= j < sections@.len() && #[trigger] section_covers(sections@[j], q as int)
                implies #[trigger] active_table@[q].flags == section_flags(sections@[j]) by {
            assert(kernel_covers(sections@, q as int));
            assert(remapped.contains_key(q));
        }
        assert forall|q: usize|
            #[trigger] frame_overlaps(q as int, ms, me) implies active_table@[q].flags == boot_info_flags() by {
            assert(remapped.contains_key(q));
        }
        assert forall|q: usize|
            kernel_covers(sections@, q as int) || frame_overlaps(q as int, ms, me) implies
            #[trigger] active_table@.contains_key(q) && active_table@[q].frame == q by {
            assert(boot_page(sections@, ms, me, q as int));
            assert(remapped.contains_key(q));
        }
    }
    let stack_allocator = StackAllocator::new(
        Page { number: stack_start },
        Page { number: stack_end },
    );
    Ok(MemoryController { active_table, frame_allocator, stack_allocator })
}

/// Division by the page size keeps order.
proof fn lemma_div_mono(a: int, b: int)
    requires
        0 <= a <= b,
    ensures
        a / PAGE_SIZE as int <= b / PAGE_SIZE as int,
{
    assert(a / 4096 <= b / 4096) by (nonlinear_arith)
        requires
            0 <= a <= b,
    ;
}

/// Every frame that `m` maps and that `fa` could hand out lies below `fa`'s
/// cursor, so `fa` will never hand it out again.
pub open spec fn frames_accounted(m: Map<usize, Entry>, fa: AreaFrameAllocator) -> bool {
    forall|q: usize|
        #[trigger] m.contains_key(q) ==> m[q].frame < fa.cursor() || !fa.acceptable(m[q].frame as int)
}

/// Every frame of the kernel image and of the boot metadata
/// `[multiboot_start, multiboot_end)` is mapped in `m` to itself.
pub open spec fn maps_boot_image(
    m: Map<usize, Entry>,
    sections: Seq<ElfSection>,
    multiboot_start: int,
    multiboot_end: int,
) -> bool {
    forall|q: usize|
        kernel_covers(sections, q as int) || frame_overlaps(q as int, multiboot_start, multiboot_end)
            ==> #[trigger] m.contains_key(q) && m[q].frame == q
}

/// The heap's first page.
pub open spec fn heap_first_page() -> int {
    HEAP_START as int / PAGE_SIZE as int
}

/// The heap's last page.
pub open spec fn heap_last_page() -> int {
    (HEAP_START + HEAP_SIZE - 1) as int / PAGE_SIZE as int
}

} // verus!

verus! {

/// `states[i + 1]` is what one call of `alloc_stack(sizes[i])` on
/// `states[i]` left, and `results[i]` what it returned.
pub open spec fn is_stack_run(
    states: Seq<MemoryController>,
    sizes: Seq<usize>,
    results: Seq<Option<Stack>>,
) -> bool {
    &&& states.len() == results.len() + 1
    &&& sizes.len() == results.len()
    &&& forall|i: int| 0 <= i < states.len() ==> #[trigger] states[i].wf()
    &&& forall|i: int|
        0 <= i < results.len() ==> MemoryController::stack_step(
            states[i],
            sizes[i],
            #[trigger] results[i],
            states[i + 1],
        )
}

/// After step `i` of a run, page `g` (below that step's end of the handed
/// out part of the stack range) stays as it was mapped at step `i + 1`.
proof fn lemma_run_keeps_low_pages(
    states: Seq<MemoryController>,
    sizes: Seq<usize>,
    results: Seq<Option<Stack>>,
    i: int,
    j: int,
    g: usize,
)
    requires
        is_stack_run(states, sizes, results),
        0 <= i < j < states.len(),
        g < states[i + 1].stack_next(),
    ensures
        states[i + 1].stack_next() <= states[j].stack_next(),
        states[j].mappings().contains_key(g) == states[i + 1].mappings().contains_key(g),
    decreases j - i,
{
    if j > i + 1 {
        lemma_run_keeps_low_pages(states, sizes, results, i, j - 1, g);
        assert(MemoryController::stack_step(states[j - 1], sizes[j - 1], results[j - 1], states[j]));
        assert(states[j - 1].mappings().contains_key(g) == states[j].mappings().contains_key(g));
    }
}

/// Over any sequence of calls of `alloc_stack`, the page just below each
/// stack handed out stays unmapped, and a stack handed out earlier lies
/// wholly below the guard page of any stack handed out later, so no two
/// stacks overlap.
pub proof fn lemma_stacks_guarded(
    states: Seq<MemoryController>,
    sizes: Seq<usize>,
    results: Seq<Option<Stack>>,
    i: int,
    j: int,
)
    requires
        is_stack_run(states, sizes, results),
        0 <= i < results.len(),
        i < j < states.len(),
        results[i].is_some(),
    ensures
        results[i].unwrap().bottom_spec() >= PAGE_SIZE,
        !states[j].mappings().contains_key(
            (results[i].unwrap().bottom_spec() / PAGE_SIZE as int - 1) as usize,
        ),
        j < results.len() && results[j].is_some() ==> results[i].unwrap().top_spec() + PAGE_SIZE
            <= results[j].unwrap().bottom_spec(),
{
    let g = states[i].stack_next();
    assert(MemoryController::stack_step(states[i], sizes[i], results[i], states[i + 1]));
    assert(results[i].unwrap().bottom_spec() / PAGE_SIZE as int - 1 == g);
    assert(states[i].wf());
    states[i].lemma_remaining_unmapped();
    assert(states[i + 1].wf());
    states[i + 1].lemma_remaining_unmapped();
    assert(!states[i].mappings().contains_key(g as usize));
    assert(!states[i + 1].mappings().contains_key(g as usize));
    lemma_run_keeps_low_pages(states, sizes, results, i, j, g as usize);
    if j < results.len() && results[j].is_some() {
        assert(MemoryController::stack_step(states[j], sizes[j], results[j], states[j + 1]));
    }
}

} // verus!
