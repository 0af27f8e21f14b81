use vstd::prelude::*;
use crate::frame::{Frame, PAGE_SIZE, frame_range, max_number};
use crate::frame_allocator::{FrameAllocator, frame_overlaps};
use crate::paging::{
    ActivePageTable,
    Entry,
    EntryFlags,
    MapError,
    flags_least_privilege,
    least_privilege,
};

verus! {

/// A section of the kernel's ELF image, as the boot loader describes it.
#[derive(Clone, Copy, Debug, PartialEq, Eq, Structural)]
pub struct ElfSection {
    pub start: usize,
    pub size: usize,
    pub allocated: bool,
    pub writable: bool,
    pub executable: bool,
}

/// The number of the first frame of section `s`.
pub open spec fn section_first_frame(s: ElfSection) -> int {
    s.start as int / PAGE_SIZE as int
}

/// The end address of section `s`, cut at the end of the address space.
pub open spec fn section_end(s: ElfSection) -> int {
    if s.start + s.size <= usize::MAX {
        s.start + s.size
    } else {
        usize::MAX as int
    }
}

/// The number of the frame of the last byte of section `s`.
pub open spec fn section_last_frame(s: ElfSection) -> int {
    (section_end(s) - 1) / PAGE_SIZE as int
}

/// Frame `p` holds bytes of section `s`, which is loaded in memory.
pub open spec fn section_covers(s: ElfSection, p: int) -> bool {
    s.allocated && s.start < section_end(s) && section_first_frame(s) <= p <= section_last_frame(s)
}

/// Frame `p` holds bytes of one of the first `n` sections of `secs`.
pub open spec fn covered_upto(secs: Seq<ElfSection>, n: int, p: int) -> bool {
    exists|j: int| 0 <= j < n && #[trigger] section_covers(secs[j], p)
}

/// Frame `p` holds bytes of the kernel image described by `secs`.
pub open spec fn kernel_covers(secs: Seq<ElfSection>, p: int) -> bool {
    covered_upto(secs, secs.len() as int, p)
}

/// The rights of the pages of section `s`: writable if the section is, and
/// executable only if the section is executable and not writable.
pub open spec fn section_flags(s: ElfSection) -> EntryFlags {
    EntryFlags { writable: s.writable, no_execute: !s.executable || s.writable }
}

/// The rights of the pages of the boot metadata: read only, not executable.
pub open spec fn boot_info_flags() -> EntryFlags {
    EntryFlags { writable: false, no_execute: true }
}

/// Two loaded sections, or a loaded section and the boot metadata
/// `[multiboot_start, multiboot_end)`, hold bytes of one same frame.
pub open spec fn ranges_share_frame(secs: Seq<ElfSection>, multiboot_start: int, multiboot_end: int) -> bool {
    ||| exists|p: int, j: int, k: int|
        0 <= j < k < secs.len() && #[trigger] section_covers(secs[j], p) && #[trigger] section_covers(secs[k], p)
    ||| exists|p: int| kernel_covers(secs, p) && #[trigger] frame_overlaps(p, multiboot_start, multiboot_end)
}

/// Every page of `m` is mapped to the frame of the same number.
pub open spec fn identity_only(m: Map<usize, Entry>) -> bool {
    forall|p: usize| #[trigger] m.contains_key(p) ==> m[p].frame == p
}

/// The flags of section `s`, as `section_flags` gives them.
pub fn flags_of_section(s: &ElfSection) -> (r: EntryFlags)
    ensures
        r == section_flags(*s),
        flags_least_privilege(r),
{
    EntryFlags { writable: s.writable, no_execute: !s.executable || s.writable }
}

/// Maps each frame from `lo` to `hi` (both included) to the page of the
/// same number, with `flags`.
fn identity_map_range<A: FrameAllocator>(
    table: &mut ActivePageTable,
    lo: usize,
    hi: usize,
    flags: EntryFlags,
    allocator: &mut A,
) -> (r: Result<(), MapError>)
    requires
        old(table).wf(),
        old(allocator).inv(),
        hi <= max_number(),
    ensures
        final(table).wf(),
        final(allocator).inv(),
        old(allocator).evolves_to(final(allocator)),
        final(table).root() == old(table).root(),
        r.is_ok() ==> forall|p: usize|
            #[trigger] final(table)@.contains_key(p) == (old(table)@.contains_key(p) || lo <= p
                <= hi),
        r.is_ok() ==> forall|p: usize|
            lo <= p <= hi ==> #[trigger] final(table)@[p] == (Entry { page: p, frame: p, flags }),
        r.is_ok() ==> forall|p: usize|
            !(lo <= p <= hi) && #[trigger] old(table)@.contains_key(p) ==> final(table)@[p]
                == old(table)@[p],
        r.is_ok() ==> forall|p: usize| lo <= p <= hi ==> !#[trigger] old(table)@.contains_key(p),
        r == Err::<(), MapError>(MapError::AlreadyMapped) ==> exists|p: usize|
            lo <= p <= hi && #[trigger] old(table)@.contains_key(p),
{
    let mut frames = Frame::range_inclusive(Frame { number: lo }, Frame { number: hi });
    let ghost mut next: int = lo as int;
    proof {
        A::lemma_evolves_refl(&*allocator);
    }
    loop
        invariant
            table.wf(),
            allocator.inv(),
            old(allocator).evolves_to(&*allocator),
            table.root() == old(table).root(),
            hi <= max_number(),
            lo <= next,
            next <= hi + 1 || (lo > hi && next == lo),
            frames@ == frame_range(next, hi as int),
            forall|p: usize|
                #[trigger] table@.contains_key(p) == (old(table)@.contains_key(p) || lo <= p < next),
            forall|p: usize|
                lo <= p < next ==> #[trigger] table@[p] == (Entry { page: p, frame: p, flags }),
            forall|p: usize|
                !(lo <= p < next) && #[trigger] old(table)@.contains_key(p) ==> table@[p]
                    == old(table)@[p],
            forall|p: usize| lo <= p < next ==> !#[trigger] old(table)@.contains_key(p),
        decreases hi + 1 - next,
    {
        match frames.next() {
            None => {
                return Ok(());
            },
            Some(frame) => {
                proof {
                    assert(frames@ =~= frame_range(next + 1, hi as int));
                }
                let number = frame.number;
                proof {
                    assert(table@.contains_key(number) == old(table)@.contains_key(number));
                }
                let ghost mid = *allocator;
                let result = table.identity_map(frame, flags, allocator);
                proof {
                    A::lemma_evolves_trans(&*old(allocator), &mid, &*allocator);
                }
                match result {
                    Ok(()) => {},
                    Err(e) => {
                        return Err(e);
                    },
                }
                proof {
                    next = next + 1;
                    assert(number == next - 1);
                }
            },
        }
    }
}

/// Builds a new page table that maps, each to itself, exactly the frames of
/// the loaded kernel sections (with the rights of their section) and the
/// frames of the boot metadata's byte range `[multiboot_start,
/// multiboot_end)` (read only). No page of it is both writable and
/// executable. Fails if the allocator runs out of frames, or if two of
/// these ranges share a frame.
pub fn remap_the_kernel<A: FrameAllocator>(
    allocator: &mut A,
    sections: &Vec<ElfSection>,
    multiboot_start: usize,
    multiboot_end: usize,
) -> (r: Result<ActivePageTable, MapError>)
    requires
        old(allocator).inv(),
    ensures
        final(allocator).inv(),
        old(allocator).evolves_to(final(allocator)),
        r matches Ok(t) ==> {
            &&& t.wf()
            &&& least_privilege(t@)
            &&& identity_only(t@)
            &&& forall|p: usize|
                #[trigger] t@.contains_key(p) == (kernel_covers(sections@, p as int)
                    || frame_overlaps(p as int, multiboot_start as int, multiboot_end as int))
            &&& forall|j: int, p: usize|
                0 <= j < sections@.len() && #[trigger] section_covers(sections@[j], p as int)
                    ==> #[trigger] t@[p].flags == section_flags(sections@[j])
            &&& forall|p: usize|
                #[trigger] frame_overlaps(p as int, multiboot_start as int, multiboot_end as int)
                    ==> !kernel_covers(sections@, p as int) && t@[p].flags == boot_info_flags()
        },
        r == Err::<ActivePageTable, MapError>(MapError::AlreadyMapped) ==> ranges_share_frame(
            sections@,
            multiboot_start as int,
            multiboot_end as int,
        ),
{
    let root = match allocator.allocate_frame() {
        Some(f) => f,
        None => {
            return Err(MapError::OutOfFrames);
        },
    };
    let mut table = ActivePageTable::new(root);
    let mut i: usize = 0;
    while i < sections.len()
        invariant
            table.wf(),
            allocator.inv(),
            old(allocator).evolves_to(&*allocator),
            i <= sections@.len(),
            least_privilege(table@),
            identity_only(table@),
            forall|p: usize|
                #[trigger] table@.contains_key(p) == covered_upto(sections@, i as int, p as int),
            forall|j: int, p: usize|
                0 <= j < i && #[trigger] section_covers(sections@[j], p as int)
                    ==> #[trigger] table@[p].flags == section_flags(sections@[j]),
        decreases sections@.len() - i,
    {
        let s = sections[i];
        let ghost before = table@;
        let end: usize = if s.start <= usize::MAX - s.size {
            s.start + s.size
        } else {
            usize::MAX
        };
        if s.allocated && s.start < end {
            let last: usize = end - 1;
            let flags = flags_of_section(&s);
            let ghost mid = *allocator;
            let result = identity_map_range(&mut table, s.start / PAGE_SIZE, last / PAGE_SIZE, flags, allocator);
            proof {
                A::lemma_evolves_trans(&*old(allocator), &mid, &*allocator);
            }
            match result {
                Ok(()) => {},
                Err(e) => {
                    proof {
                        if e == MapError::AlreadyMapped {
                            let p = choose|p: usize| (s.start / PAGE_SIZE) as int <= p <= (last / PAGE_SIZE) as int && #[trigger] before.contains_key(p);
                            let j = choose|j: int| 0 <= j < i && #[trigger] section_covers(sections@[j], p as int);
                            assert(section_covers(sections@[i as int], p as int));
                        }
                    }
                    return Err(e);
                },
            }
        }
        proof {
            assert forall|j: int, p: usize|
                0 <= j < i + 1 && #[trigger] section_covers(sections@[j], p as int)
                    implies #[trigger] table@[p].flags == section_flags(sections@[j]) by {
                if j < i {
                    assert(before.contains_key(p));
                    if section_covers(s, p as int) {
                        assert(section_covers(sections@[i as int], p as int));
                    }
                }
            }
        }
        proof {
            assert forall|p: usize|
                #[trigger] table@.contains_key(p) == covered_upto(sections@, i + 1, p as int) by {
                if covered_upto(sections@, i + 1, p as int) && !section_covers(s, p as int) {
                    let j = choose|j: int| 0 <= j < i + 1 && #[trigger] section_covers(sections@[j], p as int);
                    assert(covered_upto(sections@, i as int, p as int));
                }
                if covered_upto(sections@, i as int, p as int) {
                    let j = choose|j: int| 0 <= j < i && #[trigger] section_covers(sections@[j], p as int);
                    assert(covered_upto(sections@, i + 1, p as int));
                }
                if section_covers(s, p as int) {
                    assert(section_covers(sections@[i as int], p as int));
                }
            }
        }
        i = i + 1;
    }
    let ghost before_boot = table@;
    assert(sections@.len() == i);
    if multiboot_start < multiboot_end {
        let flags = EntryFlags { writable: false, no_execute: true };
        let ghost mid = *allocator;
        let boot_lo = multiboot_start / PAGE_SIZE;
        let boot_hi = (multiboot_end - 1) / PAGE_SIZE;
        let result = identity_map_range(
            &mut table,
            boot_lo,
            boot_hi,
            flags,
            allocator,
        );
        proof {
            A::lemma_evolves_trans(&*old(allocator), &mid, &*allocator);
        }
        match result {
            Ok(()) => {},
            Err(e) => {
                proof {
                    if e == MapError::AlreadyMapped {
                        let p = choose|p: usize| boot_lo <= p <= boot_hi && #[trigger] before_boot.contains_key(p);
                        assert(frame_overlaps(p as int, multiboot_start as int, multiboot_end as int));
                        assert(kernel_covers(sections@, p as int));
                    }
                }
                return Err(e);
            },
        }
    }
    proof {
        assert forall|j: int, p: usize|
            0 <= j < sections@.len() && #[trigger] section_covers(sections@[j], p as int)
                implies #[trigger] table@[p].flags == section_flags(sections@[j]) by {
            assert(covered_upto(sections@, i as int, p as int));
            assert(before_boot.contains_key(p));
        }
        assert forall|p: usize|
            #[trigger] frame_overlaps(p as int, multiboot_start as int, multiboot_end as int)
                implies !kernel_covers(sections@, p as int) && table@[p].flags == boot_info_flags() by {
            if kernel_covers(sections@, p as int) {
                assert(before_boot.contains_key(p));
            }
        }
    }
    Ok(table)
}

} // verus!
