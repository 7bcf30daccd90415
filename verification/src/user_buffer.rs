//! User buffers as the kernel sees them: a range of user virtual memory
//! split at page boundaries into pieces of physical frames.

use vstd::prelude::*;
use crate::frame_allocator::PAGE_SIZE;
use crate::page_table::{PageTable, VPN_LIMIT};

verus! {

/// Bytes `[start, end)` of physical frame `ppn`.
#[derive(Copy, Clone, Debug, PartialEq, Eq, Structural)]
pub struct BufChunk {
    pub ppn: usize,
    pub start: usize,
    pub end: usize,
}

/// Number of pages that `[ptr, ptr + len)` touches.
pub open spec fn chunk_count(ptr: usize, len: usize) -> int {
    if len == 0 {
        0
    } else {
        (ptr + len - 1) / (PAGE_SIZE as int) - (ptr as int) / (PAGE_SIZE as int) + 1
    }
}

/// The piece of `[ptr, ptr + len)` on its `k`-th page, in the frame that
/// the page table maps that page to.
pub open spec fn chunk_spec(pt: PageTable, ptr: usize, len: usize, k: int) -> BufChunk {
    let vpn = (ptr as int) / (PAGE_SIZE as int) + k;
    let base = vpn * PAGE_SIZE;
    let lo = if ptr > base { ptr as int } else { base };
    let hi = if ptr + len < base + PAGE_SIZE { ptr + len } else { base + PAGE_SIZE };
    BufChunk { ppn: pt.entry(vpn as usize).spec_ppn(), start: (lo - base) as usize, end: (hi - base) as usize }
}

/// The pieces of `[ptr, ptr + len)`, page by page, as the page table `pt`
/// maps its pages.
pub open spec fn chunks_of(pt: PageTable, ptr: usize, len: usize) -> Seq<BufChunk> {
    Seq::new(chunk_count(ptr, len) as nat, |k: int| chunk_spec(pt, ptr, len, k))
}

/// Bytes held by `cs`.
pub open spec fn chunks_len(cs: Seq<BufChunk>) -> int
    decreases cs.len(),
{
    if cs.len() == 0 {
        0
    } else {
        chunks_len(cs.drop_last()) + (cs.last().end - cs.last().start)
    }
}

/// Every page of `[ptr, ptr + len)` reaches a leaf entry.
pub open spec fn range_translates(pt: PageTable, ptr: usize, len: usize) -> bool {
    forall|v: usize| (ptr as int) / (PAGE_SIZE as int) <= v <= (ptr + len - 1) / (PAGE_SIZE as int) ==> #[trigger] pt.spec_translate(v).is_some()
}

/// The pieces of `[ptr, ptr + len)`, page by page.
pub fn translated_byte_buffer(pt: &PageTable, ptr: usize, len: usize) -> (r: Vec<BufChunk>)
    requires
        ptr + len <= VPN_LIMIT * PAGE_SIZE,
        ptr + len <= usize::MAX,
        len > 0 ==> range_translates(*pt, ptr, len),
    ensures
        r@.len() == chunk_count(ptr, len),
        forall|k: int| 0 <= k < r@.len() ==> #[trigger] r@[k] == chunk_spec(*pt, ptr, len, k),
        forall|k: int| 0 <= k < r@.len() ==> (#[trigger] r@[k]).start < r@[k].end <= PAGE_SIZE,
        chunks_len(r@) == len,
{
    let mut r: Vec<BufChunk> = Vec::new();
    let end = ptr + len;
    let mut start = ptr;
    let ghost fl = (ptr as int) / (PAGE_SIZE as int);
    while start < end
        invariant
            end == ptr + len,
            end <= VPN_LIMIT * PAGE_SIZE,
            end <= usize::MAX,
            ptr <= start <= end,
            len > 0 ==> range_translates(*pt, ptr, len),
            r@.len() == 0 ==> start == ptr,
            r@.len() > 0 ==> start == (fl + r@.len()) * PAGE_SIZE || start == end,
            r@.len() > 0 ==> start as int / (PAGE_SIZE as int) == fl + r@.len() || start == end,
            r@.len() > 0 ==> (start - 1) / (PAGE_SIZE as int) == fl + r@.len() - 1,
            fl == (ptr as int) / (PAGE_SIZE as int),
            forall|k: int| 0 <= k < r@.len() ==> #[trigger] r@[k] == chunk_spec(*pt, ptr, len, k),
            forall|k: int| 0 <= k < r@.len() ==> (#[trigger] r@[k]).start < r@[k].end <= PAGE_SIZE,
            chunks_len(r@) == start - ptr,
        decreases end - start,
    {
        let vpn = start / PAGE_SIZE;
        proof {
            assert(fl <= vpn <= (ptr + len - 1) / (PAGE_SIZE as int));
            assert(pt.spec_translate(vpn).is_some());
        }
        let ppn = pt.translate(vpn).unwrap().ppn();
        let room = PAGE_SIZE - start % PAGE_SIZE;
        let next = if room < end - start { start + room } else { end };
        let c = BufChunk { ppn, start: start % PAGE_SIZE, end: next - vpn * PAGE_SIZE };
        proof {
            let k = r@.len() as int;
            assert(vpn == fl + k);
            assert(c == chunk_spec(*pt, ptr, len, k));
        }
        let ghost r0 = r@;
        r.push(c);
        assert(r@.drop_last() =~= r0);
        start = next;
    }
    proof {
        if len > 0 {
            assert(r@.len() > 0);
        }
    }
    r
}

/// A user buffer: the pieces of one user range.
pub struct UserBuffer {
    pub buffers: Vec<BufChunk>,
}

impl UserBuffer {
    pub fn new(buffers: Vec<BufChunk>) -> (b: Self)
        ensures
            b.buffers@ == buffers@,
    {
        UserBuffer { buffers }
    }

    /// Bytes in the buffer.
    pub fn len(&self) -> (n: usize)
        requires
            chunks_len(self.buffers@) <= usize::MAX,
            forall|k: int| 0 <= k < self.buffers@.len() ==> (#[trigger] self.buffers@[k]).start <= self.buffers@[k].end,
        ensures
            n == chunks_len(self.buffers@),
    {
        let mut total: usize = 0;
        let mut k: usize = 0;
        assert(self.buffers@.take(0) =~= Seq::<BufChunk>::empty());
        while k < self.buffers.len()
            invariant
                k <= self.buffers@.len(),
                total == chunks_len(self.buffers@.take(k as int)),
                chunks_len(self.buffers@) <= usize::MAX,
                forall|j: int| 0 <= j < self.buffers@.len() ==> (#[trigger] self.buffers@[j]).start <= self.buffers@[j].end,
            decreases self.buffers@.len() - k,
        {
            let c = self.buffers[k];
            proof {
                assert(self.buffers@.take(k + 1).drop_last() =~= self.buffers@.take(k as int));
                lemma_chunks_len_prefix(self.buffers@, k + 1);
            }
            total = total + (c.end - c.start);
            k = k + 1;
        }
        assert(self.buffers@.take(k as int) =~= self.buffers@);
        total
    }

    /// An iterator over the bytes of the buffer, as (frame, offset) pairs.
    pub fn into_iter(self) -> (it: UserBufferIterator)
        ensures
            it.buffers@ == self.buffers@,
            it.current_buffer == 0,
            it.current_idx == 0,
    {
        UserBufferIterator { buffers: self.buffers, current_buffer: 0, current_idx: 0 }
    }
}

proof fn lemma_chunks_len_prefix(cs: Seq<BufChunk>, n: int)
    requires
        0 <= n <= cs.len(),
        forall|k: int| 0 <= k < cs.len() ==> (#[trigger] cs[k]).start <= cs[k].end,
    ensures
        0 <= chunks_len(cs.take(n)) <= chunks_len(cs),
    decreases cs.len() - n,
{
    if n < cs.len() {
        lemma_chunks_len_prefix(cs, n + 1);
        assert(cs.take(n + 1).drop_last() =~= cs.take(n));
        assert(cs.take(n + 1).last() == cs[n]);
        lemma_chunks_len_nonneg(cs.take(n));
    } else {
        assert(cs.take(n) =~= cs);
        lemma_chunks_len_nonneg(cs);
    }
}

proof fn lemma_chunks_len_nonneg(cs: Seq<BufChunk>)
    requires
        forall|k: int| 0 <= k < cs.len() ==> (#[trigger] cs[k]).start <= cs[k].end,
    ensures
        chunks_len(cs) >= 0,
    decreases cs.len(),
{
    if cs.len() > 0 {
        lemma_chunks_len_nonneg(cs.drop_last());
    }
}

/// The bytes of chunk `c` as physical addresses, in order.
pub open spec fn chunk_addrs(c: BufChunk) -> Seq<int> {
    Seq::new((c.end - c.start) as nat, |j: int| c.ppn * PAGE_SIZE + c.start + j)
}

/// The physical addresses of the bytes of `cs`, in order.
pub open spec fn buf_addrs(cs: Seq<BufChunk>) -> Seq<int>
    decreases cs.len(),
{
    if cs.len() == 0 {
        Seq::empty()
    } else {
        buf_addrs(cs.drop_last()) + chunk_addrs(cs.last())
    }
}

/// `bytes` (held from physical address `base`) after `data` is stored at
/// `addrs`, one byte after the other.
pub open spec fn stored(bytes: Seq<u8>, base: int, addrs: Seq<int>, data: Seq<u8>) -> Seq<u8>
    decreases data.len(),
{
    if data.len() == 0 {
        bytes
    } else {
        stored(bytes, base, addrs, data.drop_last()).update(addrs[data.len() - 1] - base, data.last())
    }
}

/// The bytes of `bytes` (held from physical address `base`) at `addrs`.
pub open spec fn gathered(bytes: Seq<u8>, base: int, addrs: Seq<int>) -> Seq<u8> {
    Seq::new(addrs.len(), |k: int| bytes[addrs[k] - base])
}

/// The addresses of `cs` taken up to chunk `i + 1` are those up to chunk
/// `i` followed by chunk `i`'s.
pub proof fn lemma_buf_addrs_step(cs: Seq<BufChunk>, i: int)
    requires
        0 <= i < cs.len(),
    ensures
        buf_addrs(cs.take(i + 1)) == buf_addrs(cs.take(i)) + chunk_addrs(cs[i]),
{
    assert(cs.take(i + 1).drop_last() =~= cs.take(i));
    assert(cs.take(i + 1).last() == cs[i]);
}

/// The addresses of `cs` number `chunks_len(cs)`.
pub proof fn lemma_buf_addrs_len(cs: Seq<BufChunk>)
    requires
        forall|k: int| 0 <= k < cs.len() ==> (#[trigger] cs[k]).start <= cs[k].end,
    ensures
        buf_addrs(cs).len() == chunks_len(cs),
    decreases cs.len(),
{
    if cs.len() > 0 {
        lemma_buf_addrs_len(cs.drop_last());
    }
}

/// The addresses of `cs` number `chunks_len(cs)` bytes, one per byte.
pub proof fn lemma_buf_addrs_len_pub(cs: Seq<BufChunk>)
    requires
        forall|k: int| 0 <= k < cs.len() ==> (#[trigger] cs[k]).start <= cs[k].end,
    ensures
        buf_addrs(cs).len() == chunks_len(cs),
{
    lemma_buf_addrs_len(cs);
}

/// The addresses of the first `i` chunks start the addresses of all.
pub proof fn lemma_buf_addrs_prefix(cs: Seq<BufChunk>, i: int)
    requires
        0 <= i <= cs.len(),
    ensures
        buf_addrs(cs.take(i)).len() <= buf_addrs(cs).len(),
        forall|k: int| 0 <= k < buf_addrs(cs.take(i)).len() ==> #[trigger] buf_addrs(cs.take(i))[k] == buf_addrs(cs)[k],
    decreases cs.len() - i,
{
    if i == cs.len() {
        assert(cs.take(i) =~= cs);
    } else {
        lemma_buf_addrs_prefix(cs, i + 1);
        lemma_buf_addrs_step(cs, i);
        let p = buf_addrs(cs.take(i));
        let q = buf_addrs(cs.take(i + 1));
        assert forall|k: int| 0 <= k < p.len() implies #[trigger] p[k] == buf_addrs(cs)[k] by {
            assert(q[k] == p[k]);
            assert(q[k] == buf_addrs(cs)[k]);
        }
    }
}

/// Storing depends only on the addresses of the bytes stored.
pub proof fn lemma_stored_prefix(bytes: Seq<u8>, base: int, a1: Seq<int>, a2: Seq<int>, data: Seq<u8>)
    requires
        data.len() <= a1.len(),
        data.len() <= a2.len(),
        forall|k: int| 0 <= k < data.len() ==> a1[k] == a2[k],
    ensures
        stored(bytes, base, a1, data) == stored(bytes, base, a2, data),
    decreases data.len(),
{
    if data.len() > 0 {
        lemma_stored_prefix(bytes, base, a1, a2, data.drop_last());
    }
}

/// Storing keeps the length when every address lies in the bytes.
pub proof fn lemma_stored_len(bytes: Seq<u8>, base: int, addrs: Seq<int>, data: Seq<u8>)
    requires
        data.len() <= addrs.len(),
        forall|k: int| 0 <= k < data.len() ==> 0 <= #[trigger] addrs[k] - base < bytes.len(),
    ensures
        stored(bytes, base, addrs, data).len() == bytes.len(),
    decreases data.len(),
{
    if data.len() > 0 {
        lemma_stored_len(bytes, base, addrs, data.drop_last());
    }
}

/// When the addresses are distinct, each byte stored reads back.
pub proof fn lemma_stored_readback(bytes: Seq<u8>, base: int, addrs: Seq<int>, data: Seq<u8>, k: int)
    requires
        0 <= k < data.len() <= addrs.len(),
        forall|j: int| 0 <= j < data.len() ==> 0 <= #[trigger] addrs[j] - base < bytes.len(),
        forall|j1: int, j2: int| 0 <= j1 < j2 < data.len() ==> #[trigger] addrs[j1] != #[trigger] addrs[j2],
    ensures
        stored(bytes, base, addrs, data)[addrs[k] - base] == data[k],
    decreases data.len(),
{
    let last = data.len() - 1;
    lemma_stored_len(bytes, base, addrs, data.drop_last());
    if k < last {
        lemma_stored_readback(bytes, base, addrs, data.drop_last(), k);
        assert(addrs[k] != addrs[last]);
    }
}

/// Walks the bytes of a user buffer in order.
pub struct UserBufferIterator {
    pub buffers: Vec<BufChunk>,
    pub current_buffer: usize,
    pub current_idx: usize,
}

impl UserBufferIterator {
    /// The position is inside a non-empty piece, or past the last piece.
    pub open spec fn wf(&self) -> bool {
        &&& forall|k: int| 0 <= k < self.buffers@.len() ==> (#[trigger] self.buffers@[k]).start < self.buffers@[k].end
        &&& self.current_buffer < self.buffers@.len() ==> self.current_idx < self.buffers@[self.current_buffer as int].end
            - self.buffers@[self.current_buffer as int].start
    }

    /// The (frame, offset) of the next byte, then moves past it.
    pub fn next(&mut self) -> (r: Option<(usize, usize)>)
        requires
            old(self).wf(),
        ensures
            final(self).wf(),
            final(self).buffers@ == old(self).buffers@,
            ({
                let cb = old(self).current_buffer;
                let ci = old(self).current_idx;
                if cb >= old(self).buffers@.len() {
                    r.is_none() && *final(self) == *old(self)
                } else {
                    let c = old(self).buffers@[cb as int];
                    &&& r == Some((c.ppn, (c.start + ci) as usize))
                    &&& if ci + 1 == c.end - c.start {
                        final(self).current_buffer == cb + 1 && final(self).current_idx == 0
                    } else {
                        final(self).current_buffer == cb && final(self).current_idx == ci + 1
                    }
                }
            }),
    {
        if self.current_buffer >= self.buffers.len() {
            return None;
        }
        let c = self.buffers[self.current_buffer];
        let result = (c.ppn, c.start + self.current_idx);
        if self.current_idx + 1 == c.end - c.start {
            self.current_idx = 0;
            self.current_buffer = self.current_buffer + 1;
        } else {
            self.current_idx = self.current_idx + 1;
        }
        Some(result)
    }
}

} // verus!
