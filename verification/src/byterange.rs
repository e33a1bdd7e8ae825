//! Byte ranges into text: selection ranges inside a fragment and mapping
//! ranges inside a run, always on UTF-8 boundaries.

use vstd::prelude::*;

verus! {

#[derive(Clone, Copy, Debug, Eq, PartialEq, Structural)]
pub struct ByteRange {
    pub begin: usize,
    pub length: usize,
}

impl ByteRange {
    /// The range does not overflow the address space.
    pub open spec fn wf(self) -> bool {
        self.begin + self.length <= usize::MAX
    }

    pub open spec fn end_spec(self) -> int {
        self.begin + self.length
    }

    pub open spec fn contains_spec(self, i: int) -> bool {
        self.begin <= i < self.begin + self.length
    }

    pub fn new(begin: usize, length: usize) -> (r: ByteRange)
        requires
            begin + length <= usize::MAX,
        ensures
            r == (ByteRange { begin, length }),
    {
        ByteRange { begin, length }
    }

    pub fn begin(&self) -> (r: usize)
        ensures
            r == self.begin,
    {
        self.begin
    }

    pub fn length(&self) -> (r: usize)
        ensures
            r == self.length,
    {
        self.length
    }

    pub fn end(&self) -> (r: usize)
        requires
            self.wf(),
        ensures
            r == self.end_spec(),
    {
        self.begin + self.length
    }

    pub fn is_empty(&self) -> (r: bool)
        ensures
            r == (self.length == 0),
    {
        self.length == 0
    }

    pub fn contains(&self, i: usize) -> (r: bool)
        requires
            self.wf(),
        ensures
            r == self.contains_spec(i as int),
    {
        self.begin <= i && i < self.begin + self.length
    }

    /// The same span, `amount` bytes earlier.
    pub fn shift_down(&self, amount: usize) -> (r: ByteRange)
        requires
            amount <= self.begin,
        ensures
            r.begin == self.begin - amount,
            r.length == self.length,
    {
        ByteRange { begin: self.begin - amount, length: self.length }
    }
}

} // verus!
