use vstd::prelude::*;

verus! {

/// A half-open range `[lo, hi)` of block numbers.
#[derive(Clone, Copy, Debug, PartialEq, Eq, Structural)]
pub struct Chunk {
    pub lo: u64,
    pub hi: u64,
}

/// The end of the chunk that starts at `lo` when ranges reach up to `hi`.
pub open spec fn chunk_end(lo: u64, hi: u64, size: u64) -> u64 {
    if hi - lo <= size {
        hi
    } else {
        (lo + size) as u64
    }
}

/// The chunks that partition `[lo, hi)` into pieces of at most `size` blocks,
/// in ascending order.
pub open spec fn chunk_seq(lo: u64, hi: u64, size: u64) -> Seq<Chunk>
    decreases hi - lo,
{
    if lo >= hi || size == 0 {
        seq![]
    } else {
        let e = chunk_end(lo, hi, size);
        seq![Chunk { lo, hi: e }] + chunk_seq(e, hi, size)
    }
}

/// Whether block number `n` lies in one of `s`'s chunks.
pub open spec fn covers(s: Seq<Chunk>, n: u64) -> bool {
    exists|k: int| 0 <= k < s.len() && (#[trigger] s[k]).lo <= n < s[k].hi
}

/// Chunking `[start, end)` partitions it exactly: no chunk is empty or larger
/// than `chunk_size`, all but the last hold exactly `chunk_size` blocks, each
/// chunk starts where the one before it ends, the first starts at `start`, the
/// last ends at `end`, chunks never overlap, and a block number lies in some
/// chunk exactly when it lies in `[start, end)`. There are no chunks when
/// `start == end`.
pub proof fn lemma_chunks_partition(start: u64, end: u64, chunk_size: u64)
    requires
        start <= end,
        chunk_size >= 1,
    ensures
        chunk_seq(start, end, chunk_size).len() == 0 <==> start == end,
        chunk_seq(start, end, chunk_size).len() > 0 ==> chunk_seq(start, end, chunk_size)[0].lo
            == start && chunk_seq(start, end, chunk_size).last().hi == end,
        forall|i: int|
            0 <= i < chunk_seq(start, end, chunk_size).len() ==> {
                &&& start <= (#[trigger] chunk_seq(start, end, chunk_size)[i]).lo
                &&& chunk_seq(start, end, chunk_size)[i].lo < chunk_seq(start, end, chunk_size)[i].hi
                &&& chunk_seq(start, end, chunk_size)[i].hi <= end
                &&& chunk_seq(start, end, chunk_size)[i].hi - chunk_seq(start, end, chunk_size)[i].lo
                    <= chunk_size
            },
        forall|i: int|
            0 <= i < chunk_seq(start, end, chunk_size).len() - 1 ==> {
                &&& (#[trigger] chunk_seq(start, end, chunk_size)[i]).hi == chunk_seq(
                    start,
                    end,
                    chunk_size,
                )[i + 1].lo
                &&& chunk_seq(start, end, chunk_size)[i].hi - chunk_seq(start, end, chunk_size)[i].lo
                    == chunk_size
            },
        forall|i: int, j: int|
            0 <= i < j < chunk_seq(start, end, chunk_size).len() ==> (#[trigger] chunk_seq(
                start,
                end,
                chunk_size,
            )[i]).hi <= (#[trigger] chunk_seq(start, end, chunk_size)[j]).lo,
        forall|n: u64|
            #![trigger covers(chunk_seq(start, end, chunk_size), n)]
            covers(chunk_seq(start, end, chunk_size), n) <==> start <= n < end,
    decreases end - start,
{
    let s = chunk_seq(start, end, chunk_size);
    if start < end {
        let e = chunk_end(start, end, chunk_size);
        let t = chunk_seq(e, end, chunk_size);
        lemma_chunks_partition(e, end, chunk_size);
        assert(s == seq![Chunk { lo: start, hi: e }] + t);
        assert forall|i: int| 0 < i < s.len() implies #[trigger] s[i] == t[i - 1] by {}
        assert forall|n: u64| #[trigger] covers(s, n) <==> start <= n < end by {
            if start <= n < end {
                if n < e {
                    assert(s[0].lo <= n < s[0].hi);
                } else {
                    assert(covers(t, n));
                    let k = choose|k: int| 0 <= k < t.len() && (#[trigger] t[k]).lo <= n < t[k].hi;
                    assert(s[k + 1] == t[k]);
                }
            }
            if covers(s, n) {
                let k = choose|k: int| 0 <= k < s.len() && (#[trigger] s[k]).lo <= n < s[k].hi;
                if k > 0 {
                    assert(s[k] == t[k - 1]);
                }
            }
        }
        assert forall|i: int, j: int| 0 <= i < j < s.len() implies (#[trigger] s[i]).hi <= (
        #[trigger] s[j]).lo by {
            assert(s[j] == t[j - 1]);
            if i > 0 {
                assert(s[i] == t[i - 1]);
            }
        }
    }
}

/// Why a range request is refused.
#[derive(Clone, Copy, Debug, PartialEq, Eq, Structural)]
pub enum RangeError {
    /// The range ends before it starts.
    ReversedRange,
    /// Chunks must hold at least one block.
    ZeroChunkSize,
}

/// Walks a block range chunk by chunk.
pub struct RangeChunks {
    pub current: u64,
    pub end: u64,
    pub chunk_size: u64,
}

impl RangeChunks {
    pub open spec fn wf(&self) -> bool {
        self.current <= self.end && self.chunk_size >= 1
    }

    /// The chunks still to come.
    pub open spec fn remaining(&self) -> Seq<Chunk> {
        chunk_seq(self.current, self.end, self.chunk_size)
    }

    pub fn new(start: u64, end: u64, chunk_size: u64) -> (r: RangeChunks)
        requires
            start <= end,
            chunk_size >= 1,
        ensures
            r.wf(),
            r.current == start,
            r.end == end,
            r.chunk_size == chunk_size,
            r.remaining() == chunk_seq(start, end, chunk_size),
    {
        RangeChunks { current: start, end, chunk_size }
    }

    /// Like `new`, but refuses a reversed range or a chunk size of zero
    /// instead of requiring them away.
    pub fn checked(start: u64, end: u64, chunk_size: u64) -> (r: Result<RangeChunks, RangeError>)
        ensures
            start > end ==> r == Err::<RangeChunks, RangeError>(RangeError::ReversedRange),
            start <= end && chunk_size == 0 ==> r == Err::<RangeChunks, RangeError>(
                RangeError::ZeroChunkSize,
            ),
            start <= end && chunk_size >= 1 ==> (r matches Ok(c) && c.wf() && c.current == start
                && c.end == end && c.chunk_size == chunk_size),
    {
        if start > end {
            Err(RangeError::ReversedRange)
        } else if chunk_size == 0 {
            Err(RangeError::ZeroChunkSize)
        } else {
            Ok(RangeChunks::new(start, end, chunk_size))
        }
    }

    /// The next chunk, or `None` once the range is used up.
    pub fn next(&mut self) -> (r: Option<Chunk>)
        requires
            old(self).wf(),
        ensures
            final(self).wf(),
            final(self).end == old(self).end,
            final(self).chunk_size == old(self).chunk_size,
            old(self).current == old(self).end ==> r is None && *final(self) == *old(self),
            old(self).current < old(self).end ==> r == Some(
                Chunk {
                    lo: old(self).current,
                    hi: chunk_end(old(self).current, old(self).end, old(self).chunk_size),
                },
            ) && final(self).current == r->Some_0.hi,
            match r {
                None => old(self).remaining().len() == 0,
                Some(c) => old(self).remaining() == seq![c] + final(self).remaining(),
            },
    {
        if self.current == self.end {
            None
        } else {
            let next_edge = if self.end - self.current <= self.chunk_size {
                self.end
            } else {
                self.current + self.chunk_size
            };
            let range = Chunk { lo: self.current, hi: next_edge };
            self.current = next_edge;
            Some(range)
        }
    }
}

/// All chunks of `[start, end)` with at most `chunk_size` blocks each.
pub fn chunks(start: u64, end: u64, chunk_size: u64) -> (r: Vec<Chunk>)
    requires
        start <= end,
        chunk_size >= 1,
    ensures
        r@ == chunk_seq(start, end, chunk_size),
{
    let mut it = RangeChunks::new(start, end, chunk_size);
    let mut out: Vec<Chunk> = Vec::new();
    loop
        invariant
            it.wf(),
            it.end == end,
            it.chunk_size == chunk_size,
            out@ + it.remaining() == chunk_seq(start, end, chunk_size),
        decreases it.end - it.current,
    {
        let ghost before = it;
        let ghost prev = out@;
        match it.next() {
            None => {
                assert(out@ + it.remaining() =~= out@);
                return out;
            },
            Some(c) => {
                out.push(c);
                assert(out@ + it.remaining() =~= prev + before.remaining());
            },
        }
    }
}

} // verus!
