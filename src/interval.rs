use vstd::prelude::*;

verus! {

/// Number of rate units in one unit of recombination rate: rates are held
/// as exact integers in billionths.
pub const RATE_SCALE: u64 = 1_000_000_000;

/// One genomic interval `[start, end)` with its recombination rate, given in
/// billionths of a rate unit.
#[derive(Clone, Copy, Debug, PartialEq, Eq)]
pub struct Interval {
    pub start: usize,
    pub end: usize,
    pub rate: u64,
}

impl Interval {
    pub open spec fn len(self) -> int {
        self.end - self.start
    }

    pub fn new(start: usize, end: usize, rate: u64) -> (r: Interval)
        ensures
            r == (Interval { start, end, rate }),
    {
        Interval { start, end, rate }
    }
}

} // verus!
