use vstd::prelude::*;

verus! {

/// Size in bytes of a physical frame and of a virtual page.
pub const PAGE_SIZE: usize = 4096;

/// The largest frame or page number that an address can yield.
pub open spec fn max_number() -> int {
    usize::MAX as int / PAGE_SIZE as int
}

/// A physical frame, identified by its index (physical address / `PAGE_SIZE`).
#[derive(Debug, PartialEq, Eq, Structural, PartialOrd, Ord)]
pub struct Frame {
    pub number: usize,
}

impl Frame {
    /// The frame that holds the physical address `address`.
    pub fn containing_address(address: usize) -> (r: Frame)
        ensures
            r.number == address / PAGE_SIZE,
            r.number <= max_number(),
    {
        Frame { number: address / PAGE_SIZE }
    }

    /// The physical address of the first byte of the frame.
    pub fn start_address(&self) -> (r: usize)
        requires
            self.number <= max_number(),
        ensures
            r == self.number * PAGE_SIZE,
    {
        self.number * PAGE_SIZE
    }

    /// A copy of the frame.
    pub fn clone(&self) -> (r: Frame)
        ensures
            r == *self,
    {
        Frame { number: self.number }
    }

    /// The frames from `start` to `end`, both included.
    pub fn range_inclusive(start: Frame, end: Frame) -> (r: FrameIter)
        ensures
            r@ == frame_range(start.number as int, end.number as int),
    {
        FrameIter { start, end, done: false }
    }
}

/// The numbers from `lo` to `hi`, both included, in increasing order.
pub open spec fn frame_range(lo: int, hi: int) -> Seq<int> {
    Seq::new(if lo <= hi { (hi - lo + 1) as nat } else { 0 }, |i: int| lo + i)
}

/// An ascending walk over an inclusive range of frames.
pub struct FrameIter {
    start: Frame,
    end: Frame,
    done: bool,
}

impl View for FrameIter {
    type V = Seq<int>;

    /// The numbers of the frames still to come.
    closed spec fn view(&self) -> Seq<int> {
        if self.done {
            Seq::empty()
        } else {
            frame_range(self.start.number as int, self.end.number as int)
        }
    }
}

impl FrameIter {
    /// The next frame of the range, if any is left.
    pub fn next(&mut self) -> (r: Option<Frame>)
        ensures
            old(self)@.len() == 0 ==> r.is_none() && final(self)@ == old(self)@,
            old(self)@.len() > 0 ==> r == Some(Frame { number: old(self)@[0] as usize })
                && final(self)@ == old(self)@.drop_first(),
    {
        if self.done || self.start.number > self.end.number {
            proof {
                assert(self@.len() == 0);
            }
            None
        } else {
            let frame = self.start.clone();
            if self.start.number == self.end.number {
                self.done = true;
            } else {
                self.start.number = self.start.number + 1;
            }
            proof {
                assert(final(self)@ =~= old(self)@.drop_first());
            }
            Some(frame)
        }
    }
}

/// A virtual page, identified by its index (virtual address / `PAGE_SIZE`).
#[derive(Debug, PartialEq, Eq, Structural, PartialOrd, Ord)]
pub struct Page {
    pub number: usize,
}

impl Page {
    /// The page that holds the virtual address `address`.
    pub fn containing_address(address: usize) -> (r: Page)
        ensures
            r.number == address / PAGE_SIZE,
            r.number <= max_number(),
    {
        Page { number: address / PAGE_SIZE }
    }

    /// The virtual address of the first byte of the page.
    pub fn start_address(&self) -> (r: usize)
        requires
            self.number <= max_number(),
        ensures
            r == self.number * PAGE_SIZE,
    {
        self.number * PAGE_SIZE
    }

    /// A copy of the page.
    pub fn clone(&self) -> (r: Page)
        ensures
            r == *self,
    {
        Page { number: self.number }
    }
}

} // verus!
