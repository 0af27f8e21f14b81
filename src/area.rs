use vstd::prelude::*;

verus! {

/// How many areas the registry can hold.
pub const AREA_CAPACITY: usize = 512;

/// The `typ` of an area that is free for use.
pub const AREA_FREE: u32 = 1;

/// An area of physical memory as reported by the boot loader.
#[derive(Copy, Clone, Debug, Default)]
pub struct PhysicalMemoryArea {
    pub base_addr: u64,
    pub length: u64,
    pub typ: u32,
    pub acpi: u32,
}

impl PhysicalMemoryArea {
    /// A free area of `length` bytes starting at `base_addr`.
    pub fn free(base_addr: u64, length: u64) -> (r: PhysicalMemoryArea)
        ensures
            r.base_addr == base_addr,
            r.length == length,
            r.typ == AREA_FREE,
            r.acpi == 0,
    {
        PhysicalMemoryArea { base_addr, length, typ: AREA_FREE, acpi: 0 }
    }

    /// Whether the area is free for use.
    pub fn is_free(&self) -> (r: bool)
        ensures
            r == (self.typ == AREA_FREE),
    {
        self.typ == AREA_FREE
    }
}

/// The registry could take no more areas.
#[derive(Debug, PartialEq, Eq, Structural)]
pub struct RegistryFull;

/// A fixed-capacity table of physical memory areas, filled in order and
/// never resized, so that it needs no heap.
pub struct PhysicalMemoryAreas {
    areas: [PhysicalMemoryArea; 512],
    len: usize,
}

impl View for PhysicalMemoryAreas {
    type V = Seq<PhysicalMemoryArea>;

    /// The registered areas, in order of registration.
    closed spec fn view(&self) -> Seq<PhysicalMemoryArea> {
        self.areas@.take(self.len as int)
    }
}

impl PhysicalMemoryAreas {
    /// The table holds no more than its capacity.
    pub closed spec fn wf(&self) -> bool {
        self.len <= AREA_CAPACITY
    }

    /// An empty registry.
    pub fn new() -> (r: PhysicalMemoryAreas)
        ensures
            r.wf(),
            r@ == Seq::<PhysicalMemoryArea>::empty(),
    {
        let empty = PhysicalMemoryArea { base_addr: 0, length: 0, typ: 0, acpi: 0 };
        PhysicalMemoryAreas { areas: [empty; 512], len: 0 }
    }

    /// The number of registered areas.
    pub fn len(&self) -> (r: usize)
        requires
            self.wf(),
        ensures
            r == self@.len(),
    {
        self.len
    }

    /// The area registered at `index`.
    pub fn get(&self, index: usize) -> (r: PhysicalMemoryArea)
        requires
            self.wf(),
            index < self@.len(),
        ensures
            r == self@[index as int],
    {
        self.areas[index]
    }

    /// Appends `area`; fails when the registry is already full.
    pub fn register(&mut self, area: PhysicalMemoryArea) -> (r: Result<(), RegistryFull>)
        requires
            old(self).wf(),
        ensures
            final(self).wf(),
            r.is_ok() == (old(self)@.len() < AREA_CAPACITY),
            r.is_ok() ==> final(self)@ == old(self)@.push(area),
            r.is_err() ==> final(self)@ == old(self)@,
    {
        if self.len >= AREA_CAPACITY {
            return Err(RegistryFull);
        }
        let ghost before = self@;
        self.areas[self.len] = area;
        self.len = self.len + 1;
        proof {
            assert(self@ =~= before.push(area));
        }
        Ok(())
    }

    /// A fresh walk over the free areas, from the first one.
    pub fn free_areas(&self) -> (r: PhysicalMemoryAreaIter)
        ensures
            r.index() == 0,
    {
        PhysicalMemoryAreaIter::new()
    }
}

/// The areas at indices from `lo` (included) to `hi` (excluded) are all not free.
pub open spec fn none_free_between(s: Seq<PhysicalMemoryArea>, lo: int, hi: int) -> bool {
    forall|j: int| lo <= j < hi ==> #[trigger] s[j].typ != AREA_FREE
}

/// A cursor over the free areas of a registry. Each walk starts afresh from
/// a new cursor and leaves the registry untouched.
#[derive(Clone, Copy)]
pub struct PhysicalMemoryAreaIter {
    index: usize,
}

impl PhysicalMemoryAreaIter {
    /// The position of the next area to look at.
    pub closed spec fn index(&self) -> int {
        self.index as int
    }

    /// The position of the next area to look at.
    pub fn position(&self) -> (r: usize)
        ensures
            r == self.index(),
    {
        self.index
    }

    /// A cursor at the first area.
    pub fn new() -> (r: PhysicalMemoryAreaIter)
        ensures
            r.index() == 0,
    {
        PhysicalMemoryAreaIter { index: 0 }
    }

    /// The next free area of `areas` at or after the cursor, if any; the
    /// cursor then stands just past it.
    pub fn next(&mut self, areas: &PhysicalMemoryAreas) -> (r: Option<PhysicalMemoryArea>)
        requires
            areas.wf(),
        ensures
            final(self).index() >= old(self).index(),
            match r {
                Some(a) => {
                    let k = final(self).index() - 1;
                    &&& old(self).index() <= k < areas@.len()
                    &&& a == areas@[k]
                    &&& a.typ == AREA_FREE
                    &&& none_free_between(areas@, old(self).index(), k)
                },
                None => {
                    &&& final(self).index() == if old(self).index() >= areas@.len() {
                        old(self).index()
                    } else {
                        areas@.len() as int
                    }
                    &&& none_free_between(areas@, old(self).index(), areas@.len() as int)
                },
            },
    {
        let len = areas.len();
        let ghost start = self.index as int;
        while self.index < len
            invariant
                len == areas@.len(),
                areas.wf(),
                start == old(self).index(),
                start <= self.index,
                start < len ==> self.index <= len,
                start >= len ==> self.index == start,
                none_free_between(areas@, start, self.index as int),
            decreases len - self.index,
        {
            let entry = areas.get(self.index);
            self.index = self.index + 1;
            if entry.typ == AREA_FREE {
                return Some(entry);
            }
        }
        None
    }
}

} // verus!
