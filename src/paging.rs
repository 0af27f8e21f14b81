use vstd::prelude::*;
use crate::frame::{Frame, Page, PAGE_SIZE, max_number};
use crate::frame_allocator::FrameAllocator;

verus! {

/// Number of entries in one page table.
pub const ENTRY_COUNT: usize = 512;

/// Access rights of a mapped page.
#[derive(Clone, Copy, Debug, PartialEq, Eq, Structural)]
pub struct EntryFlags {
    pub writable: bool,
    pub no_execute: bool,
}

/// A page is never both writable and executable under `flags`.
pub open spec fn flags_least_privilege(flags: EntryFlags) -> bool {
    flags.writable ==> flags.no_execute
}

/// One translation: `page` is backed by `frame`.
#[derive(Clone, Copy, Debug, PartialEq, Eq, Structural)]
pub struct Entry {
    pub page: usize,
    pub frame: usize,
    pub flags: EntryFlags,
}

/// A lower-level table, the one that covers the pages of `region`
/// (a page number divided by `ENTRY_COUNT`).
#[derive(Clone, Copy, Debug, PartialEq, Eq, Structural)]
pub struct LevelTable {
    pub region: usize,
    pub frame: usize,
}

/// Why a mapping could not be made.
#[derive(Clone, Copy, Debug, PartialEq, Eq, Structural)]
pub enum MapError {
    /// The page is already mapped.
    AlreadyMapped,
    /// No frame was left for the page or for a table.
    OutOfFrames,
}

/// The region (lower-level table) that page `p` belongs to.
pub open spec fn region_of(p: int) -> int {
    p / ENTRY_COUNT as int
}

/// No mapped page of `m` is both writable and executable.
pub open spec fn least_privilege(m: Map<usize, Entry>) -> bool {
    forall|p: usize| m.contains_key(p) ==> flags_least_privilege(#[trigger] m[p].flags)
}

/// The page table in use: a root table frame, the lower-level tables made
/// so far, and the translations of the mapped pages.
pub struct ActivePageTable {
    p4_frame: Frame,
    tables: Vec<LevelTable>,
    entries: Vec<Entry>,
    mapped: Ghost<Map<usize, Entry>>,
}

impl View for ActivePageTable {
    type V = Map<usize, Entry>;

    /// The translation of each mapped page, by page number.
    closed spec fn view(&self) -> Map<usize, Entry> {
        self.mapped@
    }
}

impl ActivePageTable {
    /// The translations agree with the entry list, each page appears once,
    /// and every frame is addressable.
    pub closed spec fn wf(&self) -> bool {
        &&& forall|i: int, j: int|
            0 <= i < j < self.entries@.len() ==> #[trigger] self.entries@[i].page
                != #[trigger] self.entries@[j].page
        &&& forall|i: int|
            0 <= i < self.entries@.len() ==> self.mapped@.contains_key(
                #[trigger] self.entries@[i].page,
            ) && self.mapped@[self.entries@[i].page] == self.entries@[i]
        &&& forall|p: usize|
            #[trigger] self.mapped@.contains_key(p) ==> exists|i: int|
                0 <= i < self.entries@.len() && #[trigger] self.entries@[i].page == p
        &&& forall|p: usize|
            #[trigger] self.mapped@.contains_key(p) ==> self.mapped@[p].page == p
                && self.mapped@[p].frame <= max_number()
    }

    /// There is a lower-level table for `region`.
    pub closed spec fn has_table(&self, region: int) -> bool {
        exists|i: int| 0 <= i < self.tables@.len() && #[trigger] self.tables@[i].region == region
    }

    /// The frame of the root table.
    pub closed spec fn root(&self) -> int {
        self.p4_frame.number as int
    }

    /// A table with root `p4_frame` and no page mapped.
    pub fn new(p4_frame: Frame) -> (r: ActivePageTable)
        ensures
            r.wf(),
            r@ == Map::<usize, Entry>::empty(),
            r.root() == p4_frame.number,
    {
        ActivePageTable {
            p4_frame,
            tables: Vec::new(),
            entries: Vec::new(),
            mapped: Ghost(Map::empty()),
        }
    }

    /// The number of the root table's frame.
    pub fn p4_frame(&self) -> (r: usize)
        ensures
            r == self.root(),
    {
        self.p4_frame.number
    }

    /// The position of `page` in the entry list, if it is mapped.
    fn find_entry(&self, page: usize) -> (r: Option<usize>)
        requires
            self.wf(),
        ensures
            match r {
                Some(i) => i < self.entries@.len() && self.entries@[i as int].page == page,
                None => !self@.contains_key(page),
            },
    {
        let mut i: usize = 0;
        while i < self.entries.len()
            invariant
                self.wf(),
                i <= self.entries@.len(),
                forall|j: int| 0 <= j < i ==> self.entries@[j].page != page,
            decreases self.entries@.len() - i,
        {
            if self.entries[i].page == page {
                return Some(i);
            }
            i = i + 1;
        }
        None
    }

    /// Whether there is a lower-level table for `region`.
    fn find_table(&self, region: usize) -> (r: bool)
        ensures
            r == self.has_table(region as int),
    {
        let mut i: usize = 0;
        while i < self.tables.len()
            invariant
                i <= self.tables@.len(),
                forall|j: int| 0 <= j < i ==> self.tables@[j].region != region,
            decreases self.tables@.len() - i,
        {
            if self.tables[i].region == region {
                return true;
            }
            i = i + 1;
        }
        false
    }

    /// Whether `page` is mapped.
    pub fn is_mapped(&self, page: &Page) -> (r: bool)
        requires
            self.wf(),
        ensures
            r == self@.contains_key(page.number),
    {
        self.find_entry(page.number).is_some()
    }

    /// The translation of `page`, if it is mapped.
    pub fn lookup(&self, page: &Page) -> (r: Option<Entry>)
        requires
            self.wf(),
        ensures
            r == (if self@.contains_key(page.number) {
                Some(self@[page.number])
            } else {
                None
            }),
    {
        match self.find_entry(page.number) {
            Some(i) => Some(self.entries[i]),
            None => None,
        }
    }

    /// The frame that `page` is mapped to, if any.
    pub fn translate_page(&self, page: &Page) -> (r: Option<Frame>)
        requires
            self.wf(),
        ensures
            r == (if self@.contains_key(page.number) {
                Some(Frame { number: self@[page.number].frame })
            } else {
                None
            }),
    {
        match self.find_entry(page.number) {
            Some(i) => Some(Frame { number: self.entries[i].frame }),
            None => None,
        }
    }

    /// The physical address that `virtual_address` translates to, if its
    /// page is mapped.
    pub fn translate(&self, virtual_address: usize) -> (r: Option<usize>)
        requires
            self.wf(),
        ensures
            ({
                let p = (virtual_address / PAGE_SIZE) as usize;
                r == (if self@.contains_key(p) {
                    Some((self@[p].frame * PAGE_SIZE + virtual_address % PAGE_SIZE) as usize)
                } else {
                    None
                })
            }),
    {
        let page = Page::containing_address(virtual_address);
        match self.translate_page(&page) {
            Some(frame) => {
                let offset = virtual_address % PAGE_SIZE;
                proof {
                    assert(frame.number * PAGE_SIZE + offset <= usize::MAX) by (nonlinear_arith)
                        requires
                            frame.number <= max_number(),
                            offset < PAGE_SIZE,
                            max_number() == usize::MAX as int / PAGE_SIZE as int,
                    ;
                }
                Some(frame.start_address() + offset)
            },
            None => None,
        }
    }

    /// Maps `page` to `frame` with `flags`, making the page's lower-level
    /// table from a frame of `allocator` if there is none yet. Fails if the
    /// page is already mapped, or if a table was needed and no frame was left;
    /// the translations are then unchanged.
    pub fn map_to<A: FrameAllocator>(
        &mut self,
        page: &Page,
        frame: Frame,
        flags: EntryFlags,
        allocator: &mut A,
    ) -> (r: Result<(), MapError>)
        requires
            old(self).wf(),
            old(allocator).inv(),
            frame.number <= max_number(),
        ensures
            final(self).wf(),
            final(allocator).inv(),
            old(allocator).evolves_to(final(allocator)),
            final(self).root() == old(self).root(),
            (r == Err::<(), MapError>(MapError::AlreadyMapped)) == old(self)@.contains_key(
                page.number,
            ),
            r == Err::<(), MapError>(MapError::OutOfFrames) ==> !old(self).has_table(
                region_of(page.number as int),
            ) && final(allocator).exhausted(),
            r.is_ok() ==> final(self)@ == old(self)@.insert(
                page.number,
                Entry { page: page.number, frame: frame.number, flags },
            ),
            r.is_ok() ==> final(self).has_table(region_of(page.number as int)),
            r.is_err() ==> final(self)@ == old(self)@,
    {
        proof {
            A::lemma_evolves_refl(&*allocator);
        }
        if self.find_entry(page.number).is_some() {
            return Err(MapError::AlreadyMapped);
        }
        let region = page.number / ENTRY_COUNT;
        if !self.find_table(region) {
            match allocator.allocate_frame() {
                Some(table_frame) => {
                    self.tables.push(LevelTable { region, frame: table_frame.number });
                    proof {
                        let k = self.tables@.len() - 1;
                        assert(self.tables@[k as int].region == region);
                        assert(self.has_table(region as int));
                    }
                },
                None => {
                    return Err(MapError::OutOfFrames);
                },
            }
        }
        assert(region as int == region_of(page.number as int));
        assert(self.has_table(region_of(page.number as int)));
        let ghost tables_now = self.tables@;
        let entry = Entry { page: page.number, frame: frame.number, flags };
        let ghost old_entries = self.entries@;
        let ghost old_map = self.mapped@;
        self.entries.push(entry);
        self.mapped = Ghost(self.mapped@.insert(page.number, entry));
        proof {
            assert forall|p: usize| #[trigger] self.mapped@.contains_key(p) implies exists|i: int|
                0 <= i < self.entries@.len() && #[trigger] self.entries@[i].page == p by {
                if p == page.number {
                    assert(self.entries@[old_entries.len() as int].page == p);
                } else {
                    assert(old_map.contains_key(p));
                    let i = choose|i: int| 0 <= i < old_entries.len() && #[trigger] old_entries[i].page == p;
                    assert(self.entries@[i].page == p);
                }
            }
            assert(self.tables@ == tables_now);
        }
        Ok(())
    }

    /// Maps `page` to a fresh frame of `allocator` and returns that frame.
    pub fn map<A: FrameAllocator>(
        &mut self,
        page: &Page,
        flags: EntryFlags,
        allocator: &mut A,
    ) -> (r: Result<Frame, MapError>)
        requires
            old(self).wf(),
            old(allocator).inv(),
        ensures
            final(self).wf(),
            final(allocator).inv(),
            old(allocator).evolves_to(final(allocator)),
            final(self).root() == old(self).root(),
            (r == Err::<Frame, MapError>(MapError::AlreadyMapped)) == old(self)@.contains_key(
                page.number,
            ),
            r == Err::<Frame, MapError>(MapError::OutOfFrames) ==> final(allocator).exhausted(),
            r matches Ok(f) ==> old(allocator).floor() <= f.number < final(allocator).floor()
                && old(allocator).may_hand_out(f.number as int),
            r matches Ok(f) ==> final(self)@ == old(self)@.insert(
                page.number,
                Entry { page: page.number, frame: f.number, flags },
            ),
            r.is_err() ==> final(self)@ == old(self)@,
    {
        proof {
            A::lemma_evolves_refl(&*allocator);
        }
        if self.is_mapped(page) {
            return Err(MapError::AlreadyMapped);
        }
        match allocator.allocate_frame() {
            Some(frame) => {
                let copy = frame.clone();
                let ghost mid = *allocator;
                let result = self.map_to(page, frame, flags, allocator);
                proof {
                    A::lemma_evolves_trans(&*old(allocator), &mid, &*allocator);
                    A::lemma_evolves_keeps(&mid, &*allocator);
                }
                match result {
                    Ok(()) => Ok(copy),
                    Err(e) => Err(e),
                }
            },
            None => Err(MapError::OutOfFrames),
        }
    }

    /// Maps the page with the same number as `frame` to `frame`.
    pub fn identity_map<A: FrameAllocator>(
        &mut self,
        frame: Frame,
        flags: EntryFlags,
        allocator: &mut A,
    ) -> (r: Result<(), MapError>)
        requires
            old(self).wf(),
            old(allocator).inv(),
            frame.number <= max_number(),
        ensures
            final(self).wf(),
            final(allocator).inv(),
            old(allocator).evolves_to(final(allocator)),
            final(self).root() == old(self).root(),
            (r == Err::<(), MapError>(MapError::AlreadyMapped)) == old(self)@.contains_key(
                frame.number,
            ),
            r == Err::<(), MapError>(MapError::OutOfFrames) ==> final(allocator).exhausted(),
            r.is_ok() ==> final(self)@ == old(self)@.insert(
                frame.number,
                Entry { page: frame.number, frame: frame.number, flags },
            ),
            r.is_err() ==> final(self)@ == old(self)@,
    {
        let page = Page { number: frame.number };
        self.map_to(&page, frame, flags, allocator)
    }

    /// Removes the translation of `page` and returns the frame it had, or
    /// `None` if the page was not mapped. Lower-level tables stay.
    pub fn unmap(&mut self, page: &Page) -> (r: Option<Frame>)
        requires
            old(self).wf(),
        ensures
            final(self).wf(),
            final(self).root() == old(self).root(),
            final(self)@ == old(self)@.remove(page.number),
            r == (if old(self)@.contains_key(page.number) {
                Some(Frame { number: old(self)@[page.number].frame })
            } else {
                None
            }),
    {
        match self.find_entry(page.number) {
            None => {
                proof {
                    assert(self.mapped@.remove(page.number) =~= self.mapped@);
                }
                None
            },
            Some(i) => {
                let ghost old_entries = self.entries@;
                let ghost old_map = self.mapped@;
                let entry = self.entries.remove(i);
                self.mapped = Ghost(self.mapped@.remove(page.number));
                proof {
                    assert forall|a: int, b: int|
                        0 <= a < b < self.entries@.len() implies #[trigger] self.entries@[a].page
                        != #[trigger] self.entries@[b].page by {
                        let a0 = if a < i { a } else { a + 1 };
                        let b0 = if b < i { b } else { b + 1 };
                        assert(self.entries@[a] == old_entries[a0]);
                        assert(self.entries@[b] == old_entries[b0]);
                    }
                    assert forall|a: int|
                        0 <= a < self.entries@.len() implies self.mapped@.contains_key(
                        #[trigger] self.entries@[a].page,
                    ) && self.mapped@[self.entries@[a].page] == self.entries@[a] by {
                        let a0 = if a < i { a } else { a + 1 };
                        assert(self.entries@[a] == old_entries[a0]);
                        assert(old_entries[a0].page != old_entries[i as int].page);
                    }
                    assert forall|p: usize| #[trigger] self.mapped@.contains_key(p) implies exists|
                        a: int,
                    |
                        0 <= a < self.entries@.len() && #[trigger] self.entries@[a].page == p by {
                        let a0 = choose|a0: int|
                            0 <= a0 < old_entries.len() && #[trigger] old_entries[a0].page == p;
                        assert(a0 != i);
                        let a = if a0 < i { a0 } else { a0 - 1 };
                        assert(self.entries@[a] == old_entries[a0]);
                    }
                }
                Some(Frame { number: entry.frame })
            },
        }
    }
}

} // verus!

verus! {

/// `post` is `pre` with one page other than `page` mapped or unmapped.
pub open spec fn edits_other_page(pre: Map<usize, Entry>, post: Map<usize, Entry>, page: usize) -> bool {
    ||| exists|q: usize, e: Entry| q != page && post == #[trigger] pre.insert(q, e)
    ||| exists|q: usize| q != page && post == #[trigger] pre.remove(q)
}

/// Once `page` is mapped to `frame`, it keeps translating to `frame` through
/// any sequence of later mappings and removals of other pages.
pub proof fn lemma_mapping_round_trip(
    views: Seq<Map<usize, Entry>>,
    page: usize,
    frame: usize,
    flags: EntryFlags,
)
    requires
        views.len() > 0,
        views[0].contains_key(page),
        views[0][page] == (Entry { page, frame, flags }),
        forall|i: int| 0 <= i < views.len() - 1 ==> edits_other_page(#[trigger] views[i], views[i + 1], page),
    ensures
        views.last().contains_key(page),
        views.last()[page].frame == frame,
    decreases views.len(),
{
    if views.len() > 1 {
        let prefix = views.drop_last();
        assert forall|i: int| 0 <= i < prefix.len() - 1 implies edits_other_page(#[trigger] prefix[i], prefix[i + 1], page) by {
            assert(prefix[i] == views[i] && prefix[i + 1] == views[i + 1]);
        }
        lemma_mapping_round_trip(prefix, page, frame, flags);
        let n = views.len() - 1;
        assert(edits_other_page(views[n - 1], views[n], page));
        assert(prefix.last() == views[n - 1]);
        if exists|q: usize, e: Entry| q != page && views[n] == #[trigger] views[n - 1].insert(q, e) {
            let (q, e) = choose|q: usize, e: Entry|
                q != page && views[n] == #[trigger] views[n - 1].insert(q, e);
        } else {
            let q = choose|q: usize| q != page && views[n] == #[trigger] views[n - 1].remove(q);
        }
        assert(views[n].contains_key(page) && views[n][page] == views[n - 1][page]);
    }
}

} // verus!
