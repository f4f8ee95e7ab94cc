//! Splitting a byte range into per-block slices.

use vstd::prelude::*;

verus! {

/// One slice of a byte range, lying within a single block.
#[derive(Debug, PartialEq, Eq, Structural, Clone, Copy)]
pub struct Block {
    /// Absolute offset of the first byte of the slice.
    pub start: u64,
    /// Absolute offset one past the last byte of the slice.
    pub end: u64,
    /// Position of the slice's first byte within the caller's buffer.
    pub offset: u64,
    pub block_size: u64,
}

/// The offset of the first block boundary strictly after `start`.
pub open spec fn next_boundary(block_size: u64, start: u64) -> int {
    start + (block_size - start % block_size)
}

/// The first slice of `[start, end)`, whose first byte lands at `offset`.
pub open spec fn first_block(block_size: u64, start: u64, end: u64, offset: u64) -> Block {
    let stop = if end < next_boundary(block_size, start) { end as int } else { next_boundary(block_size, start) };
    Block { start, end: stop as u64, offset, block_size }
}

/// The slices that tile `[start, end)`, in order, the first landing at `offset`.
pub open spec fn tiling(block_size: u64, start: u64, end: u64, offset: u64) -> Seq<Block>
    decreases end - start,
{
    if block_size == 0 || start >= end || offset + (end - start) > u64::MAX {
        Seq::empty()
    } else {
        let b = first_block(block_size, start, end, offset);
        seq![b] + tiling(block_size, b.end, end, (offset + (b.end - start)) as u64)
    }
}

/// The boundary after `start` is the end of the block that holds `start`.
pub proof fn lemma_next_boundary(block_size: u64, start: u64)
    requires
        block_size > 0,
    ensures
        next_boundary(block_size, start) == (start / block_size + 1) * block_size,
        next_boundary(block_size, start) > start,
        next_boundary(block_size, start) % (block_size as int) == 0,
{
    let b = block_size as int;
    let s = start as int;
    assert(s == (s / b) * b + s % b) by (nonlinear_arith) requires b > 0;
    assert((s / b + 1) * b == (s / b) * b + b) by (nonlinear_arith);
    assert(((s / b + 1) * b) % b == 0) by (nonlinear_arith) requires b > 0;
}

proof fn lemma_tiling_general(block_size: u64, start: u64, end: u64, offset: u64)
    requires
        block_size > 0,
        start <= end,
        offset + (end - start) <= u64::MAX,
    ensures
        ({
            let t = tiling(block_size, start, end, offset);
            &&& (t.len() == 0 <==> start == end)
            &&& t.len() > 0 ==> t[0].start == start && t[0].offset == offset
            &&& t.len() > 0 ==> t.last().end == end
            &&& forall|i: int| 0 <= i < t.len() ==> {
                &&& #[trigger] t[i].start < t[i].end
                &&& t[i].end <= end
                &&& t[i].end <= (t[i].spec_num() + 1) * block_size
                &&& t[i].block_size == block_size
                &&& t[i].offset == offset + (t[i].start - start)
                &&& i > 0 ==> t[i].start % block_size == 0
            }
            &&& forall|i: int| 0 <= i < t.len() - 1 ==> {
                &&& #[trigger] t[i].end == t[i + 1].start
                &&& t[i].end == (t[i].spec_num() + 1) * block_size
            }
        }),
    decreases end - start,
{
    if start < end {
        let b = first_block(block_size, start, end, offset);
        lemma_next_boundary(block_size, start);
        let rest_off = (offset + (b.end - start)) as u64;
        lemma_tiling_general(block_size, b.end, end, rest_off);
        let t = tiling(block_size, start, end, offset);
        let r = tiling(block_size, b.end, end, rest_off);
        assert(t == seq![b] + r);
        assert(forall|i: int| 0 < i < t.len() ==> t[i] == r[i - 1]);
        if r.len() > 0 {
            assert(b.end == next_boundary(block_size, start));
        }
    }
}

/// The slices of `[start, start + size)` tile it exactly: they follow one
/// another without gap or overlap, from `start` to `start + size`, each stays
/// within one block and starts in the caller's buffer where the bytes before it
/// end, and every slice but the first and the last spans one whole block.
pub proof fn lemma_tiling(block_size: u64, start: u64, size: u64)
    requires
        block_size > 0,
        start + size <= u64::MAX,
    ensures
        ({
            let t = tiling(block_size, start, (start + size) as u64, 0);
            &&& (t.len() == 0 <==> size == 0)
            &&& t.len() > 0 ==> t[0].start == start && t[0].offset == 0
            &&& t.len() > 0 ==> t.last().end == start + size
            &&& t.len() > 0 ==> t.last().offset + t.last().spec_size() == size
            &&& forall|i: int| 0 <= i < t.len() ==> {
                &&& #[trigger] t[i].start < t[i].end
                &&& t[i].end <= (t[i].spec_num() + 1) * block_size
                &&& t[i].block_size == block_size
                &&& t[i].offset == t[i].start - start
            }
            &&& forall|i: int| 0 <= i < t.len() - 1 ==> {
                &&& #[trigger] t[i].end == t[i + 1].start
                &&& t[i + 1].offset == t[i].offset + t[i].spec_size()
            }
            &&& forall|i: int| 0 < i < t.len() - 1 ==> #[trigger] t[i].spec_size() == block_size
        }),
{
    let e = (start + size) as u64;
    lemma_tiling_general(block_size, start, e, 0);
    let t = tiling(block_size, start, e, 0);
    assert forall|i: int| 0 < i < t.len() - 1 implies #[trigger] t[i].spec_size() == block_size by {
        assert(t[i].start % block_size == 0);
        assert(t[i].end == (t[i].spec_num() + 1) * block_size);
        let s = t[i].start as int;
        let b = block_size as int;
        assert(s == (s / b) * b + s % b) by (nonlinear_arith) requires b > 0;
        assert((s / b + 1) * b == (s / b) * b + b) by (nonlinear_arith);
    }
}

impl Block {
    pub open spec fn spec_size(&self) -> int {
        self.end - self.start
    }

    pub open spec fn spec_num(&self) -> int {
        (self.start / self.block_size) as int
    }

    /// Number of bytes in the slice.
    pub fn size(&self) -> (r: u64)
        requires
            self.start <= self.end,
        ensures
            r == self.spec_size(),
    {
        self.end - self.start
    }

    /// Index of the block that holds the slice.
    pub fn num(&self) -> (r: u64)
        requires
            self.block_size > 0,
        ensures
            r == self.spec_num(),
    {
        self.start / self.block_size
    }
}

/// Walks the slices of a byte range one block at a time.
pub struct IterBlocks {
    block_size: u64,
    start: u64,
    end: u64,
    offset: u64,
}

impl IterBlocks {
    pub closed spec fn block_size(&self) -> u64 {
        self.block_size
    }

    pub closed spec fn end(&self) -> u64 {
        self.end
    }

    /// Where the next slice starts.
    pub closed spec fn position(&self) -> u64 {
        self.start
    }

    /// Where the next slice lands in the caller's buffer.
    pub closed spec fn buffer_offset(&self) -> u64 {
        self.offset
    }

    /// What every slice still to come satisfies.
    pub proof fn lemma_remaining(&self)
        requires
            self.wf(),
        ensures
            ({
                let t = self.remaining();
                &&& self.position() <= self.end()
                &&& (t.len() == 0 <==> self.position() >= self.end())
                &&& t.len() > 0 ==> t[0].start == self.position() && t[0].offset == self.buffer_offset()
                &&& t.len() > 0 ==> t.last().end == self.end()
                &&& forall|i: int| 0 <= i < t.len() ==> {
                    &&& #[trigger] t[i].start < t[i].end
                    &&& t[i].end <= self.end()
                    &&& t[i].end <= (t[i].spec_num() + 1) * self.block_size()
                    &&& t[i].block_size == self.block_size()
                    &&& t[i].offset == self.buffer_offset() + (t[i].start - self.position())
                }
                &&& forall|i: int| 0 <= i < t.len() - 1 ==> #[trigger] t[i].end == t[i + 1].start
            }),
    {
        if self.start < self.end {
            lemma_tiling_general(self.block_size, self.start, self.end, self.offset);
        } else {
            assert(self.remaining().len() == 0);
        }
    }

    /// The slices still to come.
    pub closed spec fn remaining(&self) -> Seq<Block> {
        tiling(self.block_size, self.start, self.end, self.offset)
    }

    pub closed spec fn wf(&self) -> bool {
        &&& self.block_size > 0
        &&& self.start <= self.end
        &&& self.offset + (self.end - self.start) <= u64::MAX || self.start >= self.end
    }

    /// Hands out the next slice, or `None` once the range is covered.
    pub fn next(&mut self) -> (r: Option<Block>)
        requires
            old(self).wf(),
        ensures
            final(self).wf(),
            final(self).block_size() == old(self).block_size(),
            final(self).end() == old(self).end(),
            r is None ==> *final(self) == *old(self),
            r matches Some(b) ==> (final(self).remaining().len() > 0
                ==> b.end == (b.spec_num() + 1) * final(self).block_size()),
            r matches Some(b) ==> final(self).position() == b.end
                && final(self).buffer_offset() == b.offset + b.spec_size(),
            old(self).remaining().len() == 0 ==> r is None && final(self).remaining().len() == 0,
            old(self).remaining().len() > 0 ==> r == Some(old(self).remaining()[0])
                && final(self).remaining() == old(self).remaining().drop_first(),
    {
        if self.start >= self.end {
            return None;
        }
        proof {
            lemma_tiling_general(self.block_size, self.start, self.end, self.offset);
        }
        let room = self.block_size - self.start % self.block_size;
        let end = if self.end - self.start < room { self.end } else { self.start + room };
        let block = Block { start: self.start, end, offset: self.offset, block_size: self.block_size };
        proof {
            assert(self.remaining() == seq![block] + tiling(self.block_size, end, self.end, (self.offset + (end - self.start)) as u64));
        }
        self.offset = self.offset + (end - self.start);
        self.start = end;
        proof {
            assert(self.remaining() == old(self).remaining().drop_first());
            if self.remaining().len() > 0 {
                assert(old(self).remaining()[0].end == old(self).remaining()[1].start);
            }
        }
        Some(block)
    }
}

/// The slices of `[start, start + size)` for blocks of `block_size` bytes.
pub fn iter_blocks(block_size: u64, start: u64, size: u64) -> (r: IterBlocks)
    requires
        block_size > 0,
        start + size <= u64::MAX,
    ensures
        r.wf(),
        r.block_size() == block_size,
        r.end() == start + size,
        r.position() == start,
        r.buffer_offset() == 0,
        r.remaining() == tiling(block_size, start, (start + size) as u64, 0),
{
    IterBlocks { block_size, start, end: start + size, offset: 0 }
}

} // verus!
