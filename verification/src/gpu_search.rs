//! The order in which the graphics processor searches.
//!
//! A pass covers a range of upper 36 bits, and decides 2^12 seeds for each of them. Ranges wait on
//! a stack. A pass that finds more than its buffers hold is repeated on both halves of its range,
//! and a range that is too short to be halved is given up.
use vstd::prelude::*;

use crate::gpu::StatsReadback;

verus! {

/// The number of upper 36 bits, 2^36.
pub const TOTAL_UPPER: u64 = 0x10_0000_0000;

/// The length of the first ranges, 2^30.
pub const RANGE_LEN: u32 = 0x4000_0000;

/// The number of coarse results that the buffers hold.
pub const MAX_COARSE: u32 = 16_777_216;

/// The number of seeds that the buffers hold.
pub const MAX_FINE: u32 = 8_388_608;

/// Ranges of at most this length are not halved.
pub const SHORTEST_SPLIT: u32 = 0x4_0000;

/// A range of upper 36 bits.
#[derive(Clone, Copy, Debug, PartialEq, Eq, Structural)]
pub struct GpuRange {
    pub start: u64,
    pub len: u32,
}

impl GpuRange {
    /// The number after the last one of the range.
    pub open spec fn end(self) -> int {
        self.start + self.len
    }

    /// The first half.
    pub open spec fn lower_half(self) -> GpuRange {
        GpuRange { start: self.start, len: self.len / 2 }
    }

    /// The second half.
    pub open spec fn upper_half(self) -> GpuRange {
        GpuRange {
            start: (self.start + self.len / 2) as u64,
            len: (self.len - self.len / 2) as u32,
        }
    }
}

/// Where the ranges on the stack end: everything below is still to be searched.
pub open spec fn frontier(stack: Seq<GpuRange>) -> int {
    if stack.len() == 0 {
        0
    } else {
        stack.last().end()
    }
}

/// The ranges on the stack follow each other without gaps from zero on, and none is shorter than
/// half the shortest one that is halved.
pub open spec fn tiled(stack: Seq<GpuRange>) -> bool
    decreases stack.len(),
{
    stack.len() > 0 ==> {
        &&& stack.last().start == frontier(stack.drop_last())
        &&& stack.last().len >= SHORTEST_SPLIT / 2
        &&& tiled(stack.drop_last())
    }
}

/// The stack after a pass over its top.
pub open spec fn after_pass(stack: Seq<GpuRange>, overflow: bool) -> Seq<GpuRange> {
    let range = stack.last();
    let rest = stack.drop_last();
    if overflow && range.len > SHORTEST_SPLIT {
        rest.push(range.lower_half()).push(range.upper_half())
    } else {
        rest
    }
}

/// What follows a pass.
#[derive(Clone, Copy, Debug, PartialEq, Eq, Structural)]
pub enum PassResult {
    /// The range is given up: it overflows and is too short to be halved.
    GaveUp(GpuRange),
    /// The range was halved.
    Halved,
    /// The range is searched. So many seeds are to be read, and so much progress to be reported.
    Searched { results: u32, progress: u64 },
}

/// A pass found more than its buffers hold, or its counters could not be read.
pub open spec fn overflows(stats: Option<StatsReadback>) -> bool {
    match stats {
        None => true,
        Some(s) => s.coarse_overflow != 0 || s.fine_overflow != 0,
    }
}

/// What follows a pass over a range.
pub open spec fn pass_result(range: GpuRange, stats: Option<StatsReadback>) -> PassResult {
    if overflows(stats) {
        if range.len <= SHORTEST_SPLIT {
            PassResult::GaveUp(range)
        } else {
            PassResult::Halved
        }
    } else {
        PassResult::Searched {
            results: if stats->0.fine_count <= MAX_FINE {
                stats->0.fine_count
            } else {
                MAX_FINE
            },
            progress: (range.len * 0x1000) as u64,
        }
    }
}

/// The state of a search on the graphics processor.
pub struct GpuSearch {
    stack: Vec<GpuRange>,
    candidates: u64,
    ranges: u64,
}

impl GpuSearch {
    /// The ranges that wait.
    pub closed spec fn waiting(self) -> Seq<GpuRange> {
        self.stack@
    }

    /// The number of candidates that were found.
    pub closed spec fn found(self) -> nat {
        self.candidates as nat
    }

    /// The number of ranges that were searched.
    pub closed spec fn searched(self) -> nat {
        self.ranges as nat
    }

    /// The waiting ranges are tiled below 2^36. Every range that was searched lies above them and
    /// has a least length, so there are not many of them, and the counters cannot overflow.
    pub closed spec fn wf(self) -> bool {
        &&& tiled(self.stack@)
        &&& frontier(self.stack@) + self.ranges * 0x2_0000 <= TOTAL_UPPER
        &&& self.candidates <= self.ranges * u32::MAX
    }

    /// A search over all seeds.
    pub fn new() -> (r: Self)
        ensures
            r.wf(),
            r.waiting() == first_ranges(64),
            frontier(r.waiting()) == TOTAL_UPPER,
            r.found() == 0,
            r.searched() == 0,
    {
        let mut stack: Vec<GpuRange> = Vec::new();
        let mut start: u64 = 0;
        while start < TOTAL_UPPER
            invariant
                start <= TOTAL_UPPER,
                start == stack@.len() * RANGE_LEN,
                stack@ == first_ranges(stack@.len()),
                frontier(stack@) == start,
                tiled(stack@),
            decreases TOTAL_UPPER - start,
        {
            let ghost before = stack@;
            stack.push(GpuRange { start, len: RANGE_LEN });
            proof {
                assert(stack@.drop_last() == before);
                assert(stack@ == first_ranges(stack@.len()));
            }
            start += RANGE_LEN as u64;
        }
        GpuSearch { stack, candidates: 0, ranges: 0 }
    }

    /// The range of the next pass.
    pub fn current(&self) -> (r: Option<GpuRange>)
        ensures
            r == (if self.waiting().len() == 0 {
                None
            } else {
                Some(self.waiting().last())
            }),
    {
        if self.stack.len() == 0 {
            None
        } else {
            Some(self.stack[self.stack.len() - 1])
        }
    }

    /// The number of candidates that were found.
    pub fn candidate_count(&self) -> (r: u64)
        ensures
            r == self.found(),
    {
        self.candidates
    }

    /// The number of ranges that were searched.
    pub fn range_count(&self) -> (r: u64)
        ensures
            r == self.searched(),
    {
        self.ranges
    }

    /// Takes the answer to the report of a range: where nobody listens any more, no range waits.
    pub fn answered(&mut self, heard: bool)
        requires
            old(self).wf(),
        ensures
            final(self).wf(),
            heard ==> *final(self) == *old(self),
            !heard ==> final(self).waiting().len() == 0,
            final(self).found() == old(self).found(),
            final(self).searched() == old(self).searched(),
    {
        proof {
            assert(frontier(self.stack@) >= 0);
        }
        if !heard {
            self.stack.clear();
        }
    }

    /// Takes note of a pass over the current range: of its counters, or that they could not be
    /// read. Nothing is done where no range waits.
    pub fn settle(&mut self, stats: Option<StatsReadback>) -> (r: Option<PassResult>)
        requires
            old(self).wf(),
        ensures
            final(self).wf(),
            old(self).waiting().len() == 0 ==> r is None && *final(self) == *old(self),
            old(self).waiting().len() > 0 ==> {
                &&& r == Some(pass_result(old(self).waiting().last(), stats))
                &&& final(self).waiting() == after_pass(old(self).waiting(), overflows(stats))
                &&& final(self).found() == old(self).found() + (if overflows(stats) {
                    0
                } else {
                    stats->0.fine_count as int
                })
                &&& final(self).searched() == old(self).searched() + (if overflows(stats) {
                    0int
                } else {
                    1
                })
            },
    {
        let ghost before = self.stack@;
        if self.stack.len() == 0 {
            return None;
        }
        let range: GpuRange = self.stack[self.stack.len() - 1];
        self.stack.pop();
        let ghost rest = self.stack@;
        proof {
            assert(rest == before.drop_last());
            assert(range == before.last());
        }
        let count: Option<u32> = match stats {
            None => None,
            Some(s) => if s.coarse_overflow != 0 || s.fine_overflow != 0 {
                None
            } else {
                Some(s.fine_count)
            },
        };
        match count {
            None => {
                if range.len <= SHORTEST_SPLIT {
                    Some(PassResult::GaveUp(range))
                } else {
                    let half: u32 = range.len / 2;
                    let lower: GpuRange = GpuRange { start: range.start, len: half };
                    let upper: GpuRange = GpuRange {
                        start: range.start + half as u64,
                        len: range.len - half,
                    };
                    self.stack.push(lower);
                    proof {
                        assert(self.stack@.drop_last() == rest);
                        assert(tiled(self.stack@));
                    }
                    let ghost halfway = self.stack@;
                    self.stack.push(upper);
                    proof {
                        assert(self.stack@.drop_last() == halfway);
                    }
                    Some(PassResult::Halved)
                }
            },
            Some(fine_count) => {
                self.candidates = self.candidates + fine_count as u64;
                self.ranges = self.ranges + 1;
                let results: u32 = if fine_count <= MAX_FINE {
                    fine_count
                } else {
                    MAX_FINE
                };
                let len: u32 = range.len;
                proof {
                    assert((len as u64) << 12 == len * 0x1000u64) by (bit_vector);
                }
                Some(PassResult::Searched { results, progress: (len as u64) << 12 })
            },
        }
    }
}

/// The first ranges of a search.
pub open spec fn first_ranges(count: nat) -> Seq<GpuRange> {
    Seq::new(count, |i: int| GpuRange { start: (i * RANGE_LEN) as u64, len: RANGE_LEN })
}

/// The workgroups of a coarse pass in two directions. Each has 256 invocations.
pub fn coarse_dispatch() -> (r: (u32, u32))
    ensures
        r == (65535u32, 65u32),
{
    let groups: u64 = RANGE_LEN as u64 / 256;
    let dx: u32 = 65535;
    let dy: u32 = ((groups + (dx as u64 - 1)) / dx as u64) as u32;
    (dx, dy)
}

} // verus!
