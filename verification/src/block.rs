//! A simple fixed-size block/sector abstraction used by higher-level
//! filesystems: block addresses, block counts, and an inclusive iterator
//! over a range of blocks.

use vstd::prelude::*;

verus! {

/// The linear numeric address of a block (or sector).
#[derive(Copy, Clone, Debug, Eq, PartialEq, PartialOrd, Ord, Hash, Structural)]
pub struct BlockIdx(pub u64);

impl BlockIdx {
    /// Creates an iterator from the current `BlockIdx` through the given
    /// number of blocks, inclusive of the block at `self + num`.
    pub fn range(self, num: BlockCount) -> (r: BlockIter)
        requires
            self.0 + num.0 <= u64::MAX,
        ensures
            r.current == self,
            r.inclusive_end.0 == self.0 + num.0,
    {
        BlockIter::new(self, self.add(BlockCount(num.0)))
    }

    /// The block address `num` blocks past `self`.
    pub fn add(self, rhs: BlockCount) -> (r: BlockIdx)
        requires
            self.0 + rhs.0 <= u64::MAX,
        ensures
            r.0 == self.0 + rhs.0,
    {
        BlockIdx(self.0 + rhs.0)
    }

    /// The block address `num` blocks before `self`.
    pub fn sub(self, rhs: BlockCount) -> (r: BlockIdx)
        requires
            rhs.0 <= self.0,
        ensures
            r.0 == self.0 - rhs.0,
    {
        BlockIdx(self.0 - rhs.0)
    }
}

impl From<BlockIdx> for u64 {
    fn from(value: BlockIdx) -> (r: u64)
        ensures
            r == value.0,
    {
        value.0
    }
}

impl vstd::std_specs::convert::FromSpecImpl<BlockIdx> for u64 {
    open spec fn obeys_from_spec() -> bool {
        true
    }

    open spec fn from_spec(v: BlockIdx) -> u64 {
        v.0
    }
}

/// A number of blocks (or sectors).
///
/// This may be added to a [`BlockIdx`] to get another `BlockIdx`.
#[derive(Copy, Clone, Debug, Eq, PartialEq, PartialOrd, Ord, Hash, Structural)]
pub struct BlockCount(pub u64);

impl BlockCount {
    /// The sum of two block counts.
    pub fn add(self, rhs: BlockCount) -> (r: BlockCount)
        requires
            self.0 + rhs.0 <= u64::MAX,
        ensures
            r.0 == self.0 + rhs.0,
    {
        BlockCount(self.0 + rhs.0)
    }

    /// The difference of two block counts.
    pub fn sub(self, rhs: BlockCount) -> (r: BlockCount)
        requires
            rhs.0 <= self.0,
        ensures
            r.0 == self.0 - rhs.0,
    {
        BlockCount(self.0 - rhs.0)
    }
}

/// An iterator returned from [`BlockIdx::range`]: yields every block from
/// a start block through (and including) an end block.
pub struct BlockIter {
    /// The last block the iterator will yield.
    pub inclusive_end: BlockIdx,
    /// The next block to be yielded.
    pub current: BlockIdx,
}

impl BlockIter {
    /// The block addresses the iterator has yet to yield, in order.
    pub open spec fn spec_remaining(&self) -> Seq<u64> {
        if self.current.0 <= self.inclusive_end.0 {
            Seq::new(
                (self.inclusive_end.0 - self.current.0 + 1) as nat,
                |i: int| (self.current.0 + i) as u64,
            )
        } else {
            Seq::empty()
        }
    }

    /// Creates a new `BlockIter`, from the given start block, through (and
    /// including) the given end block.
    pub fn new(start: BlockIdx, inclusive_end: BlockIdx) -> (r: BlockIter)
        ensures
            r.current == start,
            r.inclusive_end == inclusive_end,
    {
        BlockIter { inclusive_end, current: start }
    }

    /// The next block of the range, or `None` once the range is exhausted.
    pub fn next(&mut self) -> (r: Option<BlockIdx>)
        ensures
            old(self).spec_remaining().len() == 0 ==> r is None && final(self).spec_remaining()
                == old(self).spec_remaining(),
            old(self).spec_remaining().len() > 0 ==> r == Some(
                BlockIdx(old(self).spec_remaining()[0]),
            ) && final(self).spec_remaining() == old(self).spec_remaining().skip(1),
    {
        if self.current.0 <= self.inclusive_end.0 {
            let this = self.current;
            if self.current.0 < u64::MAX {
                self.current = BlockIdx(self.current.0 + 1);
            } else {
                // The whole address space is exhausted: park the iterator in
                // an empty state.
                self.current = BlockIdx(1);
                self.inclusive_end = BlockIdx(0);
            }
            proof {
                assert(self.spec_remaining() =~= old(self).spec_remaining().skip(1));
            }
            Some(this)
        } else {
            None
        }
    }
}

} // verus!
