//! Physical page-frame allocator with per-frame reference counts.
//!
//! A frame handed out by `alloc` starts with one owner. Sharing it (as a
//! copy-on-write fork does) adds owners; `dealloc` drops one owner, and the
//! frame is recycled only when no owner is left.

use vstd::prelude::*;
use std::collections::BTreeMap;

verus! {

broadcast use {vstd::std_specs::btree::group_btree_axioms, vstd::laws_cmp::group_laws_cmp};

/// Size of a page in bytes.
pub const PAGE_SIZE: usize = 4096;

pub struct StackFrameAllocator {
    /// Next never-allocated frame.
    pub current: usize,
    /// One past the last frame this allocator manages.
    pub end: usize,
    /// Frames returned to the allocator, reused last-in first-out.
    pub recycled: Vec<usize>,
    /// Number of owners of each allocated frame.
    pub ref_counts: BTreeMap<usize, usize>,
}

/// Reference counts after one more owner of `ppn`.
pub open spec fn after_add_ref(refs: Map<usize, usize>, ppn: usize) -> Map<usize, usize> {
    refs.insert(ppn, (refs[ppn] + 1) as usize)
}

/// Reference counts after one owner of `ppn` lets go.
pub open spec fn after_dealloc(refs: Map<usize, usize>, ppn: usize) -> Map<usize, usize> {
    if refs[ppn] == 1 {
        refs.remove(ppn)
    } else {
        refs.insert(ppn, (refs[ppn] - 1) as usize)
    }
}

/// Frame numbers `top - 1`, `top - 2`, ..., `top - n`: `n` frames below
/// `top`, from high to low.
pub open spec fn descending_frames(top: int, n: int) -> Seq<usize> {
    Seq::new(n as nat, |i: int| (top - 1 - i) as usize)
}

impl StackFrameAllocator {
    pub open spec fn refs(&self) -> Map<usize, usize> {
        self.ref_counts@
    }

    /// Well-formedness: every frame below `current` is either allocated
    /// (with a positive count) or recycled, never both, and recycled at most once.
    pub open spec fn wf(&self) -> bool {
        &&& self.current <= self.end
        &&& self.recycled@.no_duplicates()
        &&& forall|i: int|
            0 <= i < self.recycled@.len() ==> #[trigger] self.recycled@[i] < self.current
                && !self.refs().contains_key(self.recycled@[i])
        &&& forall|p: usize| #[trigger]
            self.refs().contains_key(p) ==> p < self.current && self.refs()[p] > 0
    }

    /// Number of frames that `alloc` can still hand out.
    pub open spec fn free_frames(&self) -> int {
        (self.end - self.current) + self.recycled@.len()
    }

    pub fn new() -> (a: Self)
        ensures
            a.wf(),
            a.current == 0,
            a.end == 0,
            a.recycled@.len() == 0,
            a.refs() == Map::<usize, usize>::empty(),
    {
        StackFrameAllocator {
            current: 0,
            end: 0,
            recycled: Vec::new(),
            ref_counts: BTreeMap::new(),
        }
    }

    /// Hands the frames `[l, r)` to the allocator.
    pub fn init(&mut self, l: usize, r: usize)
        requires
            l <= r,
            old(self).recycled@.len() == 0,
            old(self).refs().len() == 0,
        ensures
            final(self).wf(),
            final(self).current == l,
            final(self).end == r,
            final(self).recycled@ == old(self).recycled@,
            final(self).refs() == old(self).refs(),
    {
        self.current = l;
        self.end = r;
        proof {
            assert forall|p: usize| !#[trigger] self.refs().contains_key(p) by {
                if self.refs().contains_key(p) {
                    assert(self.refs().dom().contains(p));
                    vstd::set_lib::lemma_set_empty_equivalency_len(self.refs().dom());
                }
            }
        }
    }

    /// One more owner of the allocated frame `ppn`.
    pub fn add_ref(&mut self, ppn: usize)
        requires
            old(self).wf(),
            old(self).refs().contains_key(ppn),
            old(self).refs()[ppn] < usize::MAX,
        ensures
            final(self).wf(),
            final(self).refs() == after_add_ref(old(self).refs(), ppn),
            final(self).current == old(self).current,
            final(self).end == old(self).end,
            final(self).recycled@ == old(self).recycled@,
    {
        let count = *self.ref_counts.get(&ppn).unwrap();
        self.ref_counts.insert(ppn, count + 1);
    }

    /// Number of owners of `ppn`; zero for a frame that is not allocated.
    pub fn ref_count(&self, ppn: usize) -> (n: usize)
        ensures
            n == if self.refs().contains_key(ppn) {
                self.refs()[ppn]
            } else {
                0
            },
    {
        match self.ref_counts.get(&ppn) {
            Some(count) => *count,
            None => 0,
        }
    }

    /// Number of allocated frames (not of references).
    pub fn allocated_count(&self) -> (n: usize)
        ensures
            n == self.refs().len(),
    {
        self.ref_counts.len()
    }

    /// Number of frames that can still be handed out.
    pub fn free_count(&self) -> (n: usize)
        requires
            self.wf(),
        ensures
            n == self.free_frames(),
    {
        proof {
            lemma_recycled_bound(self);
        }
        (self.end - self.current) + self.recycled.len()
    }

    /// Allocates one frame: the most recently recycled one if any, else the
    /// next fresh one. `None` when the allocator is exhausted.
    pub fn alloc_one(&mut self) -> (ppn: Option<usize>)
        requires
            old(self).wf(),
        ensures
            final(self).wf(),
            final(self).end == old(self).end,
            ppn.is_none() <==> old(self).free_frames() == 0,
            ppn.is_none() ==> *final(self) == *old(self),
            ppn.is_some() ==> {
                let p = ppn.unwrap();
                &&& !old(self).refs().contains_key(p)
                &&& final(self).refs() == old(self).refs().insert(p, 1)
                &&& final(self).free_frames() == old(self).free_frames() - 1
                &&& if old(self).recycled@.len() > 0 {
                    &&& p == old(self).recycled@.last()
                    &&& final(self).recycled@ == old(self).recycled@.drop_last()
                    &&& final(self).current == old(self).current
                } else {
                    &&& p == old(self).current
                    &&& final(self).current == old(self).current + 1
                    &&& final(self).recycled@ == old(self).recycled@
                }
            },
    {
        let ppn = if self.recycled.len() > 0 {
            let p = self.recycled.pop().unwrap();
            proof {
                let last = old(self).recycled@.len() - 1;
                assert(old(self).recycled@[last] < old(self).current
                    && !old(self).refs().contains_key(old(self).recycled@[last]));
                assert(old(self).recycled@.last() == old(self).recycled@[old(self).recycled@.len() - 1]);
                assert forall|i: int| 0 <= i < self.recycled@.len() implies #[trigger] self.recycled@[i] != p by {
                    assert(old(self).recycled@[i] == self.recycled@[i]);
                }
            }
            p
        } else if self.current == self.end {
            return None;
        } else {
            let p = self.current;
            proof {
                if self.refs().contains_key(p) {
                    assert(p < old(self).current);
                }
            }
            self.current = self.current + 1;
            p
        };
        let previous = self.ref_counts.insert(ppn, 1);
        proof {
            assert(previous.is_none());
            assert forall|i: int| 0 <= i < self.recycled@.len() implies #[trigger] self.recycled@[i] < self.current
                && !self.refs().contains_key(self.recycled@[i]) by {
                assert(old(self).recycled@[i] == self.recycled@[i]);
            }
            assert(self.recycled@.no_duplicates()) by {
                assert forall|i: int, j: int| 0 <= i < j < self.recycled@.len() implies self.recycled@[i] != self.recycled@[j] by {
                    assert(old(self).recycled@[i] == self.recycled@[i]);
                    assert(old(self).recycled@[j] == self.recycled@[j]);
                }
            }
        }
        Some(ppn)
    }

    /// Allocates `pages` fresh frames just above `current`, returned from
    /// the highest frame number to the lowest. `None` unless strictly more
    /// than `pages` fresh frames remain. Recycled frames are not used.
    pub fn alloc_more(&mut self, pages: usize) -> (frames: Option<Vec<usize>>)
        requires
            old(self).wf(),
            old(self).current + pages <= usize::MAX,
        ensures
            final(self).wf(),
            final(self).end == old(self).end,
            final(self).recycled@ == old(self).recycled@,
            frames.is_none() <==> old(self).current + pages >= old(self).end,
            frames.is_none() ==> *final(self) == *old(self),
            frames.is_some() ==> {
                let f = frames.unwrap()@;
                &&& final(self).current == old(self).current + pages
                &&& f == descending_frames(final(self).current as int, pages as int)
                &&& final(self).refs() == old(self).refs().union_prefer_right(
                    Map::new(|p: usize| old(self).current <= p < final(self).current, |p: usize| 1usize),
                )
            },
    {
        if self.current + pages >= self.end {
            return None;
        }
        let ghost old_refs = self.refs();
        let ghost start = self.current;
        self.current = self.current + pages;
        let mut frames: Vec<usize> = Vec::new();
        let mut offset: usize = 1;
        while offset <= pages
            invariant
                1 <= offset <= pages + 1,
                self.current == start + pages,
                self.current < self.end,
                frames@ == descending_frames(self.current as int, offset - 1),
                self.refs() == old_refs.union_prefer_right(
                    Map::new(|p: usize| self.current - (offset - 1) <= p < self.current, |p: usize| 1usize),
                ),
                forall|p: usize| #[trigger] old_refs.contains_key(p) ==> p < start && old_refs[p] > 0,
                old(self).wf(),
                start == old(self).current,
                old_refs == old(self).refs(),
                self.recycled@ == old(self).recycled@,
                self.end == old(self).end,
            decreases pages + 1 - offset,
        {
            let ppn = self.current - offset;
            let previous = self.ref_counts.insert(ppn, 1);
            frames.push(ppn);
            proof {
                assert(frames@ =~= descending_frames(self.current as int, offset as int));
                assert(self.refs() =~= old_refs.union_prefer_right(
                    Map::new(|p: usize| self.current - offset <= p < self.current, |p: usize| 1usize),
                ));
            }
            offset = offset + 1;
        }
        proof {
            assert(self.refs() =~= old_refs.union_prefer_right(
                Map::new(|p: usize| start <= p < self.current, |p: usize| 1usize),
            ));
            assert forall|i: int| 0 <= i < self.recycled@.len() implies #[trigger] self.recycled@[i] < self.current
                && !self.refs().contains_key(self.recycled@[i]) by {
                assert(old(self).recycled@[i] < start);
            }
        }
        Some(frames)
    }

    /// One owner of the allocated frame `ppn` lets go; the frame is recycled
    /// when it was the last.
    pub fn dealloc(&mut self, ppn: usize)
        requires
            old(self).wf(),
            old(self).refs().contains_key(ppn),
        ensures
            final(self).wf(),
            final(self).refs() == after_dealloc(old(self).refs(), ppn),
            final(self).current == old(self).current,
            final(self).end == old(self).end,
            old(self).refs()[ppn] == 1 ==> final(self).recycled@ == old(self).recycled@.push(ppn),
            old(self).refs()[ppn] > 1 ==> final(self).recycled@ == old(self).recycled@,
    {
        let count = *self.ref_counts.get(&ppn).unwrap();
        if count == 1 {
            self.ref_counts.remove(&ppn);
            self.recycled.push(ppn);
            proof {
                assert forall|i: int| 0 <= i < self.recycled@.len() implies #[trigger] self.recycled@[i] < self.current
                    && !self.refs().contains_key(self.recycled@[i]) by {
                    if i < old(self).recycled@.len() {
                        assert(old(self).recycled@[i] == self.recycled@[i]);
                    }
                }
                assert(self.recycled@.no_duplicates()) by {
                    assert forall|i: int, j: int| 0 <= i < j < self.recycled@.len() implies self.recycled@[i] != self.recycled@[j] by {
                        assert(old(self).recycled@.len() + 1 == self.recycled@.len());
                        if j < old(self).recycled@.len() {
                            assert(old(self).recycled@[i] == self.recycled@[i]);
                            assert(old(self).recycled@[j] == self.recycled@[j]);
                        } else {
                            assert(old(self).recycled@[i] == self.recycled@[i]);
                        }
                    }
                }
            }
        } else {
            self.ref_counts.insert(ppn, count - 1);
        }
    }
}

/// Frame number of the first page at or above byte address `addr`.
pub open spec fn spec_page_ceil(addr: usize) -> usize {
    ((addr as int + PAGE_SIZE - 1) / PAGE_SIZE as int) as usize
}

/// Frame number of the page that holds byte address `addr`.
pub open spec fn spec_page_floor(addr: usize) -> usize {
    (addr / PAGE_SIZE) as usize
}

/// The frame allocator of a machine whose kernel image ends at byte
/// `kernel_end` and whose memory ends at byte `memory_end`: it manages
/// every whole page in between.
pub fn init(kernel_end: usize, memory_end: usize) -> (a: StackFrameAllocator)
    requires
        spec_page_ceil(kernel_end) <= spec_page_floor(memory_end),
        kernel_end as int + PAGE_SIZE - 1 <= usize::MAX,
    ensures
        a.wf(),
        a.current == spec_page_ceil(kernel_end),
        a.end == spec_page_floor(memory_end),
        a.recycled@.len() == 0,
        a.refs() == Map::<usize, usize>::empty(),
{
    let mut a = StackFrameAllocator::new();
    let l = (kernel_end + (PAGE_SIZE - 1)) / PAGE_SIZE;
    let r = memory_end / PAGE_SIZE;
    proof {
        assert(a.refs().len() == 0);
    }
    a.init(l, r);
    a
}

/// Sharing a frame and then letting go of it once restores every
/// reference count: `add_ref` followed by `dealloc` of an allocated frame
/// is the identity on the counts.
pub proof fn lemma_share_release_roundtrip(refs: Map<usize, usize>, ppn: usize)
    requires
        refs.contains_key(ppn),
        0 < refs[ppn] < usize::MAX,
    ensures
        after_dealloc(after_add_ref(refs, ppn), ppn) == refs,
{
    assert(after_dealloc(after_add_ref(refs, ppn), ppn) =~= refs);
}

/// A frame is recycled only when its last owner lets go: a freshly
/// allocated frame `ppn` (count 1) that is shared once and then released
/// once is still allocated, with count 1, and the number of allocated
/// frames is one more than before; released once more, it is no longer
/// allocated and the counts are those from before the allocation.
pub proof fn lemma_release_recycles_at_zero(refs: Map<usize, usize>, ppn: usize)
    requires
        refs.dom().finite(),
        !refs.contains_key(ppn),
    ensures
        ({
            let shared = after_add_ref(refs.insert(ppn, 1), ppn);
            let once = after_dealloc(shared, ppn);
            let twice = after_dealloc(once, ppn);
            &&& once.contains_key(ppn) && once[ppn] == 1
            &&& once.len() == refs.len() + 1
            &&& !twice.contains_key(ppn)
            &&& twice == refs
            &&& twice.len() == refs.len()
        }),
{
    let shared = after_add_ref(refs.insert(ppn, 1), ppn);
    let once = after_dealloc(shared, ppn);
    assert(once =~= refs.insert(ppn, 1));
    assert(after_dealloc(once, ppn) =~= refs);
}

/// Recycled frames are distinct frames below `current`, so there are at
/// most `current` of them.
proof fn lemma_recycled_bound(a: &StackFrameAllocator)
    requires
        a.wf(),
    ensures
        a.recycled@.len() <= a.current,
{
    let r = a.recycled@;
    let s = r.map_values(|p: usize| p as int);
    assert(s.no_duplicates()) by {
        assert forall|i: int, j: int| 0 <= i < s.len() && 0 <= j < s.len() && i != j implies s[i] != s[j] by {
            assert(r[i] != r[j]);
        }
    }
    s.unique_seq_to_set();
    vstd::set_lib::lemma_int_range(0, a.current as int);
    assert(s.to_set().subset_of(vstd::set_lib::set_int_range(0, a.current as int))) by {
        assert forall|x: int| s.to_set().contains(x) implies vstd::set_lib::set_int_range(0, a.current as int).contains(x) by {
            let i = choose|i: int| 0 <= i < s.len() && s[i] == x;
            assert(r[i] < a.current);
        }
    }
    vstd::set_lib::lemma_len_subset(s.to_set(), vstd::set_lib::set_int_range(0, a.current as int));
}

} // verus!
