//! Physical memory as the kernel reaches it: the bytes of a range of
//! physical addresses, read and written through user page tables.

use vstd::prelude::*;
use crate::frame_allocator::{StackFrameAllocator, PAGE_SIZE, descending_frames};
use crate::page_table::{PageTable, PageTableEntry, VPN_LIMIT};
use crate::memory_set::{MapArea, MapType};

verus! {

/// The bytes at physical addresses `[base, base + bytes.len())`.
pub struct PhysMem {
    pub base: usize,
    pub bytes: Vec<u8>,
}

impl PhysMem {
    /// The byte at physical address `pa`, if it is held here.
    pub open spec fn byte_at(&self, pa: int) -> Option<u8> {
        if self.base <= pa < self.base + self.bytes@.len() {
            Some(self.bytes@[pa - self.base])
        } else {
            None
        }
    }

    pub open spec fn wf(&self) -> bool {
        self.base + self.bytes@.len() <= usize::MAX
    }
}

/// `bytes` with frame `dst` holding a copy of frame `src` (indices
/// relative to `base`).
pub open spec fn frame_copied(bytes: Seq<u8>, base: int, src: int, dst: int) -> Seq<u8> {
    Seq::new(
        bytes.len(),
        |i: int|
            if dst * PAGE_SIZE - base <= i < dst * PAGE_SIZE - base + PAGE_SIZE {
                bytes[src * PAGE_SIZE - base + (i - (dst * PAGE_SIZE - base))]
            } else {
                bytes[i]
            },
    )
}

/// The frame that index `i` of the bytes from physical address `base` on
/// lies in.
pub open spec fn frame_index(base: int, i: int) -> usize {
    ((base + i) / (PAGE_SIZE as int)) as usize
}

/// Every frame allocated in `a0` is still allocated in `a1`.
pub open spec fn refs_grow(a0: StackFrameAllocator, a1: StackFrameAllocator) -> bool {
    forall|p: usize| #[trigger] a0.refs().contains_key(p) ==> a1.refs().contains_key(p)
}

/// From `b0` to `b1` (the bytes from physical address `base` on) only bytes
/// of frames that were free in `a0` and are allocated in `a1` changed: every
/// frame allocated in `a0`, whichever address space holds it, keeps its
/// bytes.
pub open spec fn only_fresh_changed(
    b0: Seq<u8>,
    b1: Seq<u8>,
    base: int,
    a0: StackFrameAllocator,
    a1: StackFrameAllocator,
) -> bool {
    &&& b1.len() == b0.len()
    &&& forall|i: int|
        0 <= i < b0.len() && #[trigger] b1[i] != b0[i] ==> !a0.refs().contains_key(frame_index(base, i))
            && a1.refs().contains_key(frame_index(base, i))
}

/// Copying into frame `dst` changes bytes of that frame only.
pub proof fn lemma_copy_changes_dst(b: Seq<u8>, base: int, src: int, dst: int, i: int)
    requires
        0 <= i < b.len(),
        0 <= base,
        0 <= dst <= usize::MAX,
        frame_copied(b, base, src, dst)[i] != b[i],
    ensures
        frame_index(base, i) == dst,
{
    let d0 = dst * PAGE_SIZE - base;
    assert(d0 <= i < d0 + PAGE_SIZE);
    let k = i - d0;
    assert((base + i) / 4096 == dst) by (nonlinear_arith)
        requires
            base + i == dst * 4096 + k,
            0 <= k < 4096,
    ;
}

/// Nothing changed: only fresh frames changed.
pub proof fn lemma_only_fresh_same(b: Seq<u8>, base: int, a0: StackFrameAllocator, a1: StackFrameAllocator)
    ensures
        only_fresh_changed(b, b, base, a0, a1),
{
}

/// Two steps that each change only fresh frames, with allocations only
/// growing, change only frames fresh over both.
pub proof fn lemma_only_fresh_trans(
    b0: Seq<u8>,
    b1: Seq<u8>,
    b2: Seq<u8>,
    base: int,
    a0: StackFrameAllocator,
    a1: StackFrameAllocator,
    a2: StackFrameAllocator,
)
    requires
        only_fresh_changed(b0, b1, base, a0, a1),
        only_fresh_changed(b1, b2, base, a1, a2),
        refs_grow(a0, a1),
        refs_grow(a1, a2),
    ensures
        only_fresh_changed(b0, b2, base, a0, a2),
        refs_grow(a0, a2),
{
    assert forall|i: int| 0 <= i < b0.len() && #[trigger] b2[i] != b0[i] implies !a0.refs().contains_key(
        frame_index(base, i),
    ) && a2.refs().contains_key(frame_index(base, i)) by {
        let p = frame_index(base, i);
        if b1[i] != b0[i] {
            assert(a1.refs().contains_key(p));
        } else {
            assert(b2[i] != b1[i]);
            assert(!a1.refs().contains_key(p));
        }
    }
}

/// The byte at offset `off` of user page `vpn` is the byte at that offset
/// of the frame the page maps to.
pub proof fn lemma_user_byte_in_page(pt: PageTable, mem: PhysMem, vpn: usize, off: int)
    requires
        0 <= off < PAGE_SIZE,
        vpn < VPN_LIMIT,
    ensures
        user_byte(pt, mem, vpn * PAGE_SIZE + off) == (if pt.spec_translate(vpn).is_some() {
            mem.byte_at(pt.entry(vpn).spec_ppn() * PAGE_SIZE + off)
        } else {
            None
        }),
{
    let va = vpn * PAGE_SIZE + off;
    let v = vpn as int;
    assert(va / 4096 == v && va % 4096 == off) by (nonlinear_arith)
        requires
            va == v * 4096 + off,
            0 <= off < 4096,
            0 <= v,
    ;
    assert(0 <= va < VPN_LIMIT * PAGE_SIZE) by (nonlinear_arith)
        requires
            va == v * 4096 + off,
            0 <= off < 4096,
            0 <= v < 0x800_0000,
    ;
}

/// The bytes of a frame allocated in `a0` are the same in `b1` as in `b0`
/// when only fresh frames changed between them.
pub proof fn lemma_held_frame_kept(
    b0: Seq<u8>,
    b1: Seq<u8>,
    base: int,
    a0: StackFrameAllocator,
    a1: StackFrameAllocator,
    f: usize,
    off: int,
)
    requires
        only_fresh_changed(b0, b1, base, a0, a1),
        a0.refs().contains_key(f),
        0 <= off < PAGE_SIZE,
        0 <= base,
        0 <= f * PAGE_SIZE + off - base < b0.len(),
    ensures
        b1[f * PAGE_SIZE + off - base] == b0[f * PAGE_SIZE + off - base],
{
    let i = f * PAGE_SIZE + off - base;
    let fi = f as int;
    assert((base + i) / 4096 == fi) by (nonlinear_arith)
        requires
            base + i == fi * 4096 + off,
            0 <= off < 4096,
    ;
    assert(frame_index(base, i) == f);
}

impl PhysMem {
    /// Frame `ppn` lies in this memory.
    pub open spec fn holds_frame(&self, ppn: int) -> bool {
        self.base <= ppn * PAGE_SIZE && ppn * PAGE_SIZE + PAGE_SIZE <= self.base + self.bytes@.len()
    }

    /// Whether frame `ppn` lies in this memory.
    pub fn has_frame(&self, ppn: usize) -> (b: bool)
        requires
            self.wf(),
        ensures
            b == self.holds_frame(ppn as int),
    {
        let lo = match ppn.checked_mul(PAGE_SIZE) {
            Some(lo) => lo,
            None => return false,
        };
        lo >= self.base && lo - self.base <= self.bytes.len() && self.bytes.len() - (lo - self.base) >= PAGE_SIZE
    }

    /// Copies the page in frame `src` to frame `dst` (the two differ), as
    /// fork and the copy-on-write fault handler do for a page that gets a
    /// frame of its own.
    pub fn copy_frame(&mut self, src: usize, dst: usize)
        requires
            old(self).wf(),
            old(self).holds_frame(src as int),
            old(self).holds_frame(dst as int),
            src != dst,
        ensures
            final(self).base == old(self).base,
            final(self).bytes@ == frame_copied(old(self).bytes@, old(self).base as int, src as int, dst as int),
    {
        let ghost b0 = self.bytes@;
        let n = self.bytes.len();
        let s0 = src * PAGE_SIZE - self.base;
        let d0 = dst * PAGE_SIZE - self.base;
        proof {
            let s = src as int;
            let d = dst as int;
            assert(s * 4096 + 4096 <= d * 4096 || d * 4096 + 4096 <= s * 4096) by (nonlinear_arith)
                requires
                    s != d,
                    s >= 0,
                    d >= 0,
            ;
        }
        let mut k: usize = 0;
        while k < PAGE_SIZE
            invariant
                n == b0.len(),
                s0 + PAGE_SIZE <= b0.len(),
                d0 + PAGE_SIZE <= b0.len(),
                s0 == src * PAGE_SIZE - self.base,
                d0 == dst * PAGE_SIZE - self.base,
                s0 + PAGE_SIZE <= d0 || d0 + PAGE_SIZE <= s0,
                self.bytes@.len() == b0.len(),
                k <= PAGE_SIZE,
                forall|i: int|
                    0 <= i < b0.len() ==> self.bytes@[i] == (if d0 <= i < d0 + k { b0[s0 + (i - d0)] } else { b0[i] }),
            decreases PAGE_SIZE - k,
        {
            let b = self.bytes[s0 + k];
            self.bytes.set(d0 + k, b);
            k = k + 1;
        }
        assert(self.bytes@ =~= frame_copied(b0, self.base as int, src as int, dst as int));
    }
}

/// Frame `p` belongs to the allocator: handed out, recycled, or not yet
/// handed out.
pub open spec fn alloc_owns(a: StackFrameAllocator, p: usize) -> bool {
    a.refs().contains_key(p) || a.recycled@.contains(p) || (a.current <= p < a.end)
}

/// `mem` holds every frame that allocator `a` owns.
pub open spec fn covers_alloc(mem: PhysMem, a: StackFrameAllocator) -> bool {
    forall|p: usize| #[trigger] alloc_owns(a, p) ==> mem.holds_frame(p as int)
}

/// The physical address of user address `va`, when its page reaches a
/// leaf entry.
pub open spec fn user_pa(pt: PageTable, va: int) -> Option<int> {
    if 0 <= va < VPN_LIMIT * PAGE_SIZE && pt.spec_translate((va / (PAGE_SIZE as int)) as usize).is_some() {
        Some(pt.entry((va / (PAGE_SIZE as int)) as usize).spec_ppn() * PAGE_SIZE + va % (PAGE_SIZE as int))
    } else {
        None
    }
}

/// The byte at user address `va`.
pub open spec fn user_byte(pt: PageTable, mem: PhysMem, va: int) -> Option<u8> {
    match user_pa(pt, va) {
        Some(pa) => mem.byte_at(pa),
        None => None,
    }
}

/// The user bytes at `va` form a string of `n` bytes ended by a NUL.
pub open spec fn c_string(pt: PageTable, mem: PhysMem, va: int, n: int) -> bool {
    &&& 0 <= n
    &&& forall|i: int| 0 <= i < n ==> (#[trigger] user_byte(pt, mem, va + i) matches Some(b) && b != 0)
    &&& user_byte(pt, mem, va + n) == Some(0u8)
}

/// Reads the byte at physical address `pa`.
fn read_phys(mem: &PhysMem, pa: u64) -> (b: u8)
    requires
        mem.byte_at(pa as int) is Some,
    ensures
        Some(b) == mem.byte_at(pa as int),
{
    let n = mem.bytes.len();
    let base = mem.base as u64;
    let off = pa - base;
    assert(off < n);
    let i = off as usize;
    mem.bytes[i]
}

proof fn lemma_ppn_bound(e: PageTableEntry)
    ensures
        e.spec_ppn() <= 0xfff_ffff_ffff,
{
    let b = e.bits;
    assert((b >> 10u64) & 0xfff_ffff_ffffu64 <= 0xfff_ffff_ffffu64) by (bit_vector);
}

/// The string at user address `va`, without its NUL.
pub fn translated_str(pt: &PageTable, mem: &PhysMem, va: usize) -> (r: Vec<u8>)
    requires
        exists|n: int| c_string(*pt, *mem, va as int, n) && va + n <= usize::MAX,
    ensures
        c_string(*pt, *mem, va as int, r@.len() as int),
        forall|i: int| 0 <= i < r@.len() ==> user_byte(*pt, *mem, va + i) == Some(#[trigger] r@[i]),
{
    let ghost n = choose|n: int| c_string(*pt, *mem, va as int, n) && va + n <= usize::MAX;
    let mut r: Vec<u8> = Vec::new();
    let mut i: usize = 0;
    loop
        invariant
            c_string(*pt, *mem, va as int, n),
            va + n <= usize::MAX,
            i <= n,
            r@.len() == i,
            forall|j: int| 0 <= j < i ==> user_byte(*pt, *mem, va + j) == Some(#[trigger] r@[j]),
        decreases n - i,
    {
        proof {
            if i < n {
                assert(user_byte(*pt, *mem, va + i) matches Some(b) && b != 0);
            }
            assert(user_pa(*pt, va + i) is Some);
        }
        let pa = pt.translate_va(va + i).unwrap();
        let ch = read_phys(mem, pa);
        if ch == 0 {
            proof {
                if i < n {
                    assert(user_byte(*pt, *mem, va + i) matches Some(b) && b != 0);
                }
            }
            return r;
        }
        r.push(ch);
        i = i + 1;
    }
}

/// A string ending in a NUL can be read at user address `va`.
pub open spec fn user_str_ok(pt: PageTable, mem: PhysMem, va: int) -> bool {
    exists|n: int| c_string(pt, mem, va, n) && va + n <= usize::MAX
}

/// A string at `va` has one length: the bytes before its first NUL.
pub proof fn lemma_c_string_unique(pt: PageTable, mem: PhysMem, va: int, n1: int, n2: int)
    requires
        c_string(pt, mem, va, n1),
        c_string(pt, mem, va, n2),
    ensures
        n1 == n2,
{
    if n1 < n2 {
        assert(user_byte(pt, mem, va + n1) matches Some(b) && b != 0);
    } else if n2 < n1 {
        assert(user_byte(pt, mem, va + n2) matches Some(b) && b != 0);
    }
}

/// The byte at user address `va`, which must be readable.
fn read_user_byte(pt: &PageTable, mem: &PhysMem, va: usize) -> (b: u8)
    requires
        user_byte(*pt, *mem, va as int) is Some,
    ensures
        Some(b) == user_byte(*pt, *mem, va as int),
{
    let pa = pt.translate_va(va).unwrap();
    read_phys(mem, pa)
}

/// The 8 bytes at user address `va` as a little-endian word, when all of
/// them can be read.
pub open spec fn user_word(pt: PageTable, mem: PhysMem, va: int) -> Option<u64> {
    if forall|k: int| 0 <= k < 8 ==> (#[trigger] user_byte(pt, mem, va + k)) is Some {
        let b = |k: int| user_byte(pt, mem, va + k).unwrap() as int;
        Some((b(0) + 256 * (b(1) + 256 * (b(2) + 256 * (b(3) + 256 * (b(4) + 256 * (b(5) + 256 * (b(6) + 256
            * b(7)))))))) as u64)
    } else {
        None
    }
}

/// The word at user address `va`, which must be readable.
fn read_user_word(pt: &PageTable, mem: &PhysMem, va: usize) -> (w: u64)
    requires
        user_word(*pt, *mem, va as int) is Some,
        va + 8 <= usize::MAX,
    ensures
        Some(w) == user_word(*pt, *mem, va as int),
{
    proof {
        assert(user_byte(*pt, *mem, va + 0) is Some);
        assert(user_byte(*pt, *mem, va + 1) is Some);
        assert(user_byte(*pt, *mem, va + 2) is Some);
        assert(user_byte(*pt, *mem, va + 3) is Some);
        assert(user_byte(*pt, *mem, va + 4) is Some);
        assert(user_byte(*pt, *mem, va + 5) is Some);
        assert(user_byte(*pt, *mem, va + 6) is Some);
        assert(user_byte(*pt, *mem, va + 7) is Some);
    }
    let b0 = read_user_byte(pt, mem, va) as u64;
    let b1 = read_user_byte(pt, mem, va + 1) as u64;
    let b2 = read_user_byte(pt, mem, va + 2) as u64;
    let b3 = read_user_byte(pt, mem, va + 3) as u64;
    let b4 = read_user_byte(pt, mem, va + 4) as u64;
    let b5 = read_user_byte(pt, mem, va + 5) as u64;
    let b6 = read_user_byte(pt, mem, va + 6) as u64;
    let b7 = read_user_byte(pt, mem, va + 7) as u64;
    let w6 = b6 + 256 * b7;
    let w5 = b5 + 256 * w6;
    let w4 = b4 + 256 * w5;
    let w3 = b3 + 256 * w4;
    let w2 = b2 + 256 * w3;
    let w1 = b1 + 256 * w2;
    b0 + 256 * w1
}

/// The argument array at user address `args`: `n` nonzero words, each the
/// address of a string, then a zero word.
pub open spec fn arg_array(pt: PageTable, mem: PhysMem, args: int, n: int) -> bool {
    &&& 0 <= n
    &&& 0 <= args
    &&& args + 8 * n + 8 <= usize::MAX
    &&& forall|i: int| 0 <= i < n ==> ((#[trigger] user_word(pt, mem, args + 8 * i)) matches Some(w) && w != 0
        && user_str_ok(pt, mem, w as int))
    &&& user_word(pt, mem, args + 8 * n) == Some(0u64)
}

/// An argument array has one length: the words before its first zero.
pub proof fn lemma_arg_array_unique(pt: PageTable, mem: PhysMem, args: int, n1: int, n2: int)
    requires
        arg_array(pt, mem, args, n1),
        arg_array(pt, mem, args, n2),
    ensures
        n1 == n2,
{
    if n1 < n2 {
        assert(user_word(pt, mem, args + 8 * n1) matches Some(w) && w != 0);
    } else if n2 < n1 {
        assert(user_word(pt, mem, args + 8 * n2) matches Some(w) && w != 0);
    }
}

/// The strings that the argument array at user address `args` points to,
/// in order, each without its NUL.
pub fn translated_args(pt: &PageTable, mem: &PhysMem, args: usize) -> (r: Vec<Vec<u8>>)
    requires
        exists|n: int| arg_array(*pt, *mem, args as int, n),
    ensures
        arg_array(*pt, *mem, args as int, r@.len() as int),
        forall|i: int| 0 <= i < r@.len() ==> (#[trigger] user_word(*pt, *mem, args + 8 * i) matches Some(w)
            && c_string(*pt, *mem, w as int, r@[i]@.len() as int)
            && forall|j: int| 0 <= j < r@[i]@.len() ==> user_byte(*pt, *mem, w + j) == Some(#[trigger] r@[i]@[j])),
{
    let ghost n = choose|n: int| arg_array(*pt, *mem, args as int, n);
    let mut r: Vec<Vec<u8>> = Vec::new();
    let mut i: usize = 0;
    loop
        invariant
            arg_array(*pt, *mem, args as int, n),
            i <= n,
            r@.len() == i,
            forall|k: int| 0 <= k < i ==> (#[trigger] user_word(*pt, *mem, args + 8 * k) matches Some(w)
                && c_string(*pt, *mem, w as int, r@[k]@.len() as int)
                && forall|j: int| 0 <= j < r@[k]@.len() ==> user_byte(*pt, *mem, w + j) == Some(#[trigger] r@[k]@[j])),
        decreases n - i,
    {
        let cur = args + 8 * i;
        proof {
            if i < n {
                assert(user_word(*pt, *mem, args + 8 * i) matches Some(w) && w != 0);
            } else {
                assert(user_word(*pt, *mem, args + 8 * n) == Some(0u64));
            }
        }
        let w = read_user_word(pt, mem, cur);
        if w == 0 {
            proof {
                if i < n {
                    assert(user_word(*pt, *mem, args + 8 * i) matches Some(w) && w != 0);
                }
            }
            return r;
        }
        proof {
            assert(i < n);
            assert(user_str_ok(*pt, *mem, w as int));
            let m = choose|m: int| c_string(*pt, *mem, w as int, m) && w + m <= usize::MAX;
            assert(c_string(*pt, *mem, (w as usize) as int, m) && (w as usize) + m <= usize::MAX);
        }
        let s = translated_str(pt, mem, w as usize);
        r.push(s);
        i = i + 1;
    }
}

/// Where byte `k` of data copied to the area starting at page `vpn0`
/// lands, as an index into `mem.bytes`.
pub open spec fn copy_pos(pt: PageTable, mem: PhysMem, vpn0: int, k: int) -> int {
    pt.entry((vpn0 + k / (PAGE_SIZE as int)) as usize).spec_ppn() * PAGE_SIZE + k % (PAGE_SIZE as int) - mem.base
}

/// `bytes` after copying `data` page by page to the frames of the pages
/// from `vpn0` on, one byte after the other.
pub open spec fn copied(bytes: Seq<u8>, pt: PageTable, mem: PhysMem, vpn0: int, data: Seq<u8>) -> Seq<u8>
    decreases data.len(),
{
    if data.len() == 0 {
        bytes
    } else {
        copied(bytes, pt, mem, vpn0, data.drop_last()).update(copy_pos(pt, mem, vpn0, data.len() - 1), data.last())
    }
}

/// Every byte of `data` lands in `mem` through the pages from `vpn0` on,
/// and the first page reaches a leaf entry.
pub open spec fn copy_fits(pt: PageTable, mem: PhysMem, vpn0: int, len: int) -> bool {
    &&& vpn0 + (len + PAGE_SIZE - 1) / (PAGE_SIZE as int) <= VPN_LIMIT
    &&& pt.spec_translate(vpn0 as usize).is_some()
    &&& forall|k: int| 0 <= k < len ==> #[trigger] pt.spec_translate((vpn0 + k / (PAGE_SIZE as int)) as usize).is_some()
        && 0 <= copy_pos(pt, mem, vpn0, k) < mem.bytes@.len()
}

impl MapArea {
    /// Copies `data` to the frames of the area's pages, page by page from
    /// its first page.
    pub fn copy_data(&self, page_table: &PageTable, mem: &mut PhysMem, data: &[u8])
        requires
            self.map_type == MapType::Framed,
            copy_fits(*page_table, *old(mem), self.start_vpn as int, data@.len() as int),
        ensures
            final(mem).base == old(mem).base,
            final(mem).bytes@ == copied(old(mem).bytes@, *page_table, *old(mem), self.start_vpn as int, data@),
    {
        let ghost m0 = *mem;
        let ghost vpn0 = self.start_vpn as int;
        let len = data.len();
        let mut k: usize = 0;
        assert(data@.take(0) =~= Seq::<u8>::empty());
        while k < len
            invariant
                len == data@.len(),
                k <= len,
                mem.base == m0.base,
                m0 == *old(mem),
                vpn0 == self.start_vpn,
                copy_fits(*page_table, m0, vpn0, len as int),
                mem.bytes@ == copied(m0.bytes@, *page_table, m0, vpn0, data@.take(k as int)),
                mem.bytes@.len() == m0.bytes@.len(),
            decreases len - k,
        {
            let vpn = self.start_vpn + k / PAGE_SIZE;
            proof {
                let kk = k as int;
                assert(page_table.spec_translate((vpn0 + kk / (PAGE_SIZE as int)) as usize).is_some());
            }
            let e = page_table.translate(vpn).unwrap();
            let ppn = e.ppn();
            proof {
                lemma_ppn_bound(e);
                let pos = copy_pos(*page_table, m0, vpn0, k as int);
                assert(0 <= pos < m0.bytes@.len());
                assert(vpn == (vpn0 + (k as int) / (PAGE_SIZE as int)) as usize);
            }
            let n = mem.bytes.len();
            let base = mem.base as u64;
            let pa = (ppn as u64) * 4096u64 + (k % PAGE_SIZE) as u64;
            assert(pa >= base);
            let off = pa - base;
            assert(off < n);
            let idx = off as usize;
            proof {
                assert(idx == copy_pos(*page_table, m0, vpn0, k as int));
                assert(data@.take(k + 1).drop_last() =~= data@.take(k as int));
                assert(data@.take(k + 1).last() == data@[k as int]);
            }
            mem.bytes.set(idx, data[k]);
            k = k + 1;
        }
        assert(data@.take(k as int) =~= data@);
    }
}

proof fn lemma_copy_pos_distinct(pt: PageTable, mem: PhysMem, vpn0: int, j1: int, j2: int)
    requires
        0 <= j1,
        0 <= j2,
        j1 != j2,
        j1 / (PAGE_SIZE as int) != j2 / (PAGE_SIZE as int) ==> pt.entry((vpn0 + j1 / (PAGE_SIZE as int)) as usize).spec_ppn()
            != pt.entry((vpn0 + j2 / (PAGE_SIZE as int)) as usize).spec_ppn(),
    ensures
        copy_pos(pt, mem, vpn0, j1) != copy_pos(pt, mem, vpn0, j2),
{
    let p1 = pt.entry((vpn0 + j1 / (PAGE_SIZE as int)) as usize).spec_ppn() as int;
    let p2 = pt.entry((vpn0 + j2 / (PAGE_SIZE as int)) as usize).spec_ppn() as int;
    let o1 = j1 % (PAGE_SIZE as int);
    let o2 = j2 % (PAGE_SIZE as int);
    if j1 / (PAGE_SIZE as int) == j2 / (PAGE_SIZE as int) {
        assert(o1 != o2);
    } else {
        assert(p1 != p2);
        assert(0 <= o1 < 4096 && 0 <= o2 < 4096);
        assert(p1 * 4096 + o1 != p2 * 4096 + o2) by (nonlinear_arith)
            requires
                p1 != p2,
                0 <= o1 < 4096,
                0 <= o2 < 4096,
        ;
    }
}

/// When the pages that receive `data` are backed by distinct frames, every
/// byte copied reads back where it landed.
pub proof fn lemma_copy_data_readback(bytes: Seq<u8>, pt: PageTable, mem: PhysMem, vpn0: int, data: Seq<u8>, k: int)
    requires
        0 <= k < data.len(),
        forall|j: int| 0 <= j < data.len() ==> 0 <= #[trigger] copy_pos(pt, mem, vpn0, j) < bytes.len(),
        forall|q1: int, q2: int|
            0 <= q1 < q2 <= (data.len() - 1) / (PAGE_SIZE as int) ==> #[trigger] pt.entry((vpn0 + q1) as usize).spec_ppn()
                != #[trigger] pt.entry((vpn0 + q2) as usize).spec_ppn(),
    ensures
        copied(bytes, pt, mem, vpn0, data)[copy_pos(pt, mem, vpn0, k)] == data[k],
    decreases data.len(),
{
    let last = data.len() - 1;
    let prev = data.drop_last();
    if k < last {
        lemma_copy_data_readback(bytes, pt, mem, vpn0, prev, k);
        let q1 = k / (PAGE_SIZE as int);
        let q2 = last / (PAGE_SIZE as int);
        if q1 != q2 {
            assert(q1 < q2);
            assert(pt.entry((vpn0 + q1) as usize).spec_ppn() != pt.entry((vpn0 + q2) as usize).spec_ppn());
        }
        lemma_copy_pos_distinct(pt, mem, vpn0, k, last);
        assert(copied(bytes, pt, mem, vpn0, prev).len() == bytes.len()) by {
            lemma_copied_len(bytes, pt, mem, vpn0, prev);
        }
    } else {
        lemma_copied_len(bytes, pt, mem, vpn0, prev);
    }
}

/// Copying keeps the length of the bytes.
pub proof fn lemma_copied_len_pub(bytes: Seq<u8>, pt: PageTable, mem: PhysMem, vpn0: int, data: Seq<u8>)
    requires
        forall|j: int| 0 <= j < data.len() ==> 0 <= #[trigger] copy_pos(pt, mem, vpn0, j) < bytes.len(),
    ensures
        copied(bytes, pt, mem, vpn0, data).len() == bytes.len(),
{
    lemma_copied_len(bytes, pt, mem, vpn0, data);
}

proof fn lemma_copied_len(bytes: Seq<u8>, pt: PageTable, mem: PhysMem, vpn0: int, data: Seq<u8>)
    requires
        forall|j: int| 0 <= j < data.len() ==> 0 <= #[trigger] copy_pos(pt, mem, vpn0, j) < bytes.len(),
    ensures
        copied(bytes, pt, mem, vpn0, data).len() == bytes.len(),
    decreases data.len(),
{
    if data.len() > 0 {
        lemma_copied_len(bytes, pt, mem, vpn0, data.drop_last());
    }
}

/// Pages needed for `len` bytes.
pub open spec fn pages_for(len: int) -> int {
    (len + PAGE_SIZE - 1) / (PAGE_SIZE as int)
}

/// The `n` pages from `vpn0` on reach leaf entries whose frames `mem` holds.
pub open spec fn pages_in_mem(pt: PageTable, mem: PhysMem, vpn0: int, n: int) -> bool {
    &&& vpn0 + n <= VPN_LIMIT
    &&& forall|q: int|
        0 <= q < n ==> #[trigger] pt.spec_translate((vpn0 + q) as usize).is_some() && mem.holds_frame(
            pt.entry((vpn0 + q) as usize).spec_ppn() as int,
        )
}

/// Whether the `n` pages from `vpn0` on reach frames that `mem` holds.
pub fn check_pages_in_mem(pt: &PageTable, mem: &PhysMem, vpn0: usize, n: usize) -> (b: bool)
    requires
        mem.wf(),
    ensures
        b == pages_in_mem(*pt, *mem, vpn0 as int, n as int),
{
    if vpn0 > VPN_LIMIT || n > VPN_LIMIT - vpn0 {
        return false;
    }
    let mut q: usize = 0;
    while q < n
        invariant
            q <= n,
            vpn0 + n <= VPN_LIMIT,
            mem.wf(),
            forall|j: int|
                0 <= j < q ==> #[trigger] pt.spec_translate((vpn0 + j) as usize).is_some() && mem.holds_frame(
                    pt.entry((vpn0 + j) as usize).spec_ppn() as int,
                ),
        decreases n - q,
    {
        match pt.translate(vpn0 + q) {
            Some(e) => {
                if !mem.has_frame(e.ppn()) {
                    return false;
                }
            },
            None => {
                return false;
            },
        }
        q = q + 1;
    }
    assert(pages_in_mem(*pt, *mem, vpn0 as int, n as int)) by {
        assert forall|j: int| 0 <= j < n implies #[trigger] pt.spec_translate((vpn0 as int + j) as usize).is_some()
            && mem.holds_frame(pt.entry((vpn0 as int + j) as usize).spec_ppn() as int) by {
            assert(pt.spec_translate((vpn0 + j) as usize).is_some());
        }
    }
    true
}

/// Pages that reach frames in `mem` take every byte `copy_data` writes.
pub proof fn lemma_pages_fit(pt: PageTable, mem: PhysMem, vpn0: int, len: int)
    requires
        len > 0,
        vpn0 >= 0,
        pages_in_mem(pt, mem, vpn0, pages_for(len)),
    ensures
        copy_fits(pt, mem, vpn0, len),
{
    assert(pages_for(len) >= 1) by (nonlinear_arith)
        requires
            len > 0,
    ;
    assert(pt.spec_translate((vpn0 + 0) as usize).is_some());
    assert forall|k: int| 0 <= k < len implies #[trigger] pt.spec_translate((vpn0 + k / (PAGE_SIZE as int)) as usize).is_some()
        && 0 <= copy_pos(pt, mem, vpn0, k) < mem.bytes@.len() by {
        let q = k / (PAGE_SIZE as int);
        assert(0 <= q < pages_for(len)) by (nonlinear_arith)
            requires
                0 <= k < len,
                q == k / 4096,
        ;
        assert(pt.spec_translate((vpn0 + q) as usize).is_some());
        let p = pt.entry((vpn0 + q) as usize).spec_ppn() as int;
        assert(mem.holds_frame(p));
        assert(0 <= k % 4096 < 4096);
    }
}

/// A position that no byte of `data` lands on keeps its byte.
pub proof fn lemma_copied_other(bytes: Seq<u8>, pt: PageTable, mem: PhysMem, vpn0: int, data: Seq<u8>, i: int)
    requires
        0 <= i < bytes.len(),
        forall|j: int| 0 <= j < data.len() ==> 0 <= #[trigger] copy_pos(pt, mem, vpn0, j) < bytes.len(),
        forall|j: int| 0 <= j < data.len() ==> #[trigger] copy_pos(pt, mem, vpn0, j) != i,
    ensures
        copied(bytes, pt, mem, vpn0, data)[i] == bytes[i],
    decreases data.len(),
{
    if data.len() > 0 {
        lemma_copied_other(bytes, pt, mem, vpn0, data.drop_last(), i);
        lemma_copied_len(bytes, pt, mem, vpn0, data.drop_last());
        assert(copy_pos(pt, mem, vpn0, data.len() - 1) != i);
    }
}

/// Byte `k` (least significant first) of `x` in two's complement, as a
/// little-endian machine stores it.
pub open spec fn i32_byte(x: i32, k: u32) -> u8 {
    (((x as u32) >> (8 * k) as u32) & 0xffu32) as u8
}

/// Where the four bytes at user address `va` lie in `mem.bytes`, when
/// `va`'s page reaches a leaf entry whose frame `mem` holds there.
pub open spec fn i32_slot(pt: PageTable, mem: PhysMem, va: int) -> Option<int> {
    match user_pa(pt, va) {
        Some(pa) => if mem.base <= pa && pa + 4 <= mem.base + mem.bytes@.len() { Some(pa - mem.base) } else { None },
        None => None,
    }
}

/// Stores `x` at the 4-aligned user address `va`, as the kernel writes an
/// `i32` through the page table. `false`, with nothing written, when the
/// page does not translate or its frame lies outside `mem`.
pub fn write_user_i32(pt: &PageTable, mem: &mut PhysMem, va: usize, x: i32) -> (ok: bool)
    requires
        va % 4 == 0,
    ensures
        final(mem).base == old(mem).base,
        ok == i32_slot(*pt, *old(mem), va as int).is_some(),
        ok ==> {
            let d = i32_slot(*pt, *old(mem), va as int).unwrap();
            &&& final(mem).bytes@.len() == old(mem).bytes@.len()
            &&& forall|k: int| 0 <= k < 4 ==> #[trigger] final(mem).bytes@[d + k] == i32_byte(x, k as u32)
            &&& forall|i: int| 0 <= i < old(mem).bytes@.len() && !(d <= i < d + 4) ==> final(mem).bytes@[i]
                == old(mem).bytes@[i]
            &&& forall|k: int| 0 <= k < 4 ==> #[trigger] user_byte(*pt, *final(mem), va + k) == Some(i32_byte(x, k as u32))
        },
        !ok ==> *final(mem) == *old(mem),
{
    if va as u64 >= 0x80_0000_0000u64 {
        return false;
    }
    let pa = match pt.translate_va(va) {
        Some(pa) => pa,
        None => return false,
    };
    let base = mem.base as u64;
    let len = mem.bytes.len() as u64;
    if pa < base || pa - base > len || len - (pa - base) < 4 {
        return false;
    }
    let d = (pa - base) as usize;
    let u = x as u32;
    let ghost b0 = mem.bytes@;
    assert(b0.len() == mem.bytes.len());
    let mut k: u32 = 0;
    while k < 4
        invariant
            k <= 4,
            d + 4 <= b0.len(),
            b0.len() <= usize::MAX,
            u == x as u32,
            mem.bytes@.len() == b0.len(),
            mem.base == old(mem).base,
            forall|j: int| 0 <= j < k ==> #[trigger] mem.bytes@[d + j] == i32_byte(x, j as u32),
            forall|i: int| 0 <= i < b0.len() && !(d <= i < d + k) ==> mem.bytes@[i] == b0[i],
        decreases 4 - k,
    {
        let b = ((u >> (8 * k)) & 0xffu32) as u8;
        let ku = k as usize;
        assert(d + ku < b0.len());
        mem.bytes.set(d + ku, b);
        k = k + 1;
    }
    proof {
        let vpn = (va as int) / (PAGE_SIZE as int);
        assert forall|k: int| 0 <= k < 4 implies #[trigger] user_byte(*pt, *mem, va + k) == Some(i32_byte(x, k as u32)) by {
            assert((va + k) / (PAGE_SIZE as int) == vpn && (va + k) % (PAGE_SIZE as int) == (va as int) % (PAGE_SIZE as int) + k) by {
                assert(va % 4 == 0);
                assert(PAGE_SIZE == 4096);
            }
            assert(mem.bytes@[d + k] == i32_byte(x, k as u32));
        }
    }
    true
}

/// Byte `k` (least significant first) of `x`.
pub open spec fn u64_byte(x: u64, k: u32) -> u8 {
    ((x >> (8 * k) as u64) & 0xffu64) as u8
}

/// Where the eight bytes at user address `va` lie in `mem.bytes`, when
/// `va`'s page reaches a leaf entry whose frame `mem` holds there.
pub open spec fn u64_slot(pt: PageTable, mem: PhysMem, va: int) -> Option<int> {
    match user_pa(pt, va) {
        Some(pa) => if mem.base <= pa && pa + 8 <= mem.base + mem.bytes@.len() { Some(pa - mem.base) } else { None },
        None => None,
    }
}

/// `bytes` with the eight bytes from index `d` on replaced by those of `x`.
pub open spec fn u64_stored(bytes: Seq<u8>, d: int, x: u64) -> Seq<u8> {
    Seq::new(bytes.len(), |i: int| if d <= i < d + 8 { u64_byte(x, (i - d) as u32) } else { bytes[i] })
}

/// Stores `x` (least significant byte first) at physical address `pa`,
/// as the kernel writes a word of a frame it reaches directly. `false`,
/// with nothing written, when the eight bytes are not all in `mem`.
pub fn store_phys_u64(mem: &mut PhysMem, pa: usize, x: u64) -> (ok: bool)
    ensures
        final(mem).base == old(mem).base,
        final(mem).bytes@.len() == old(mem).bytes@.len(),
        ok == (old(mem).base <= pa && pa + 8 <= old(mem).base + old(mem).bytes@.len()),
        ok ==> final(mem).bytes@ == u64_stored(old(mem).bytes@, pa - old(mem).base, x),
        !ok ==> *final(mem) == *old(mem),
{
    if pa < mem.base || pa - mem.base > mem.bytes.len() || mem.bytes.len() - (pa - mem.base) < 8 {
        return false;
    }
    let d = pa - mem.base;
    let ghost b0 = mem.bytes@;
    assert(b0.len() == mem.bytes.len());
    let mut k: u32 = 0;
    while k < 8
        invariant
            k <= 8,
            d + 8 <= b0.len(),
            b0.len() <= usize::MAX,
            mem.bytes@.len() == b0.len(),
            mem.base == old(mem).base,
            b0 == old(mem).bytes@,
            d == pa - old(mem).base,
            forall|j: int| 0 <= j < k ==> #[trigger] mem.bytes@[d + j] == u64_byte(x, j as u32),
            forall|i: int| 0 <= i < b0.len() && !(d <= i < d + k) ==> mem.bytes@[i] == b0[i],
        decreases 8 - k,
    {
        let b = ((x >> (8 * k) as u64) & 0xffu64) as u8;
        mem.bytes.set(d + k as usize, b);
        k = k + 1;
    }
    proof {
        assert forall|i: int| 0 <= i < b0.len() implies mem.bytes@[i] == u64_stored(b0, d as int, x)[i] by {
            if d <= i < d + 8 {
                let j = i - d;
                assert(mem.bytes@[d + j] == u64_byte(x, j as u32));
            }
        }
        assert(mem.bytes@ =~= u64_stored(b0, d as int, x));
    }
    true
}

/// Whether the word at user address `va` can be stored (see `u64_slot`).
pub fn user_word_slot_ok(pt: &PageTable, mem: &PhysMem, va: usize) -> (b: bool)
    ensures
        b == u64_slot(*pt, *mem, va as int).is_some(),
{
    if va as u64 >= 0x80_0000_0000u64 {
        return false;
    }
    let pa = match pt.translate_va(va) {
        Some(pa) => pa,
        None => return false,
    };
    let base = mem.base as u64;
    let len = mem.bytes.len() as u64;
    !(pa < base || pa - base > len || len - (pa - base) < 8)
}

/// Stores `x` at the 8-aligned user address `va`, as the kernel writes a
/// `usize` through the page table. `false`, with nothing written, when the
/// page does not translate or its frame lies outside `mem`.
pub fn write_user_u64(pt: &PageTable, mem: &mut PhysMem, va: usize, x: u64) -> (ok: bool)
    requires
        va % 8 == 0,
    ensures
        final(mem).base == old(mem).base,
        final(mem).bytes@.len() == old(mem).bytes@.len(),
        ok == u64_slot(*pt, *old(mem), va as int).is_some(),
        ok ==> {
            let d = u64_slot(*pt, *old(mem), va as int).unwrap();
            &&& final(mem).bytes@ == u64_stored(old(mem).bytes@, d, x)
            &&& forall|k: int| 0 <= k < 8 ==> #[trigger] user_byte(*pt, *final(mem), va + k) == Some(u64_byte(x, k as u32))
        },
        !ok ==> *final(mem) == *old(mem),
{
    if va as u64 >= 0x80_0000_0000u64 {
        return false;
    }
    let pa = match pt.translate_va(va) {
        Some(pa) => pa,
        None => return false,
    };
    let base = mem.base as u64;
    let len = mem.bytes.len() as u64;
    if pa < base || pa - base > len || len - (pa - base) < 8 {
        return false;
    }
    let d = (pa - base) as usize;
    let ghost b0 = mem.bytes@;
    assert(b0.len() == mem.bytes.len());
    let mut k: u32 = 0;
    while k < 8
        invariant
            k <= 8,
            d + 8 <= b0.len(),
            b0.len() <= usize::MAX,
            mem.bytes@.len() == b0.len(),
            mem.base == old(mem).base,
            forall|j: int| 0 <= j < k ==> #[trigger] mem.bytes@[d + j] == u64_byte(x, j as u32),
            forall|i: int| 0 <= i < b0.len() && !(d <= i < d + k) ==> mem.bytes@[i] == b0[i],
        decreases 8 - k,
    {
        let b = ((x >> (8 * k) as u64) & 0xffu64) as u8;
        let ku = k as usize;
        assert(d + ku < b0.len());
        mem.bytes.set(d + ku, b);
        k = k + 1;
    }
    proof {
        let vpn = (va as int) / (PAGE_SIZE as int);
        assert forall|k: int| 0 <= k < 8 implies #[trigger] user_byte(*pt, *mem, va + k) == Some(u64_byte(x, k as u32)) by {
            assert((va + k) / (PAGE_SIZE as int) == vpn && (va + k) % (PAGE_SIZE as int) == (va as int) % (PAGE_SIZE as int) + k) by {
                assert(va % 8 == 0);
                assert(PAGE_SIZE == 4096);
            }
            assert(mem.bytes@[d + k] == u64_byte(x, k as u32));
        }
        assert forall|i: int| 0 <= i < b0.len() implies mem.bytes@[i] == u64_stored(b0, d as int, x)[i] by {
            if d <= i < d + 8 {
                let j = i - d;
                assert(mem.bytes@[d + j] == u64_byte(x, j as u32));
            }
        }
        assert(mem.bytes@ =~= u64_stored(b0, d as int, x));
    }
    true
}

/// Index `i` of the bytes (relative to `base`) lies in frame `p`.
pub open spec fn in_frame(base: int, p: int, i: int) -> bool {
    p * PAGE_SIZE - base <= i < p * PAGE_SIZE - base + PAGE_SIZE
}

/// `bytes` with every frame of `frames` cleared.
pub open spec fn frames_zeroed(bytes: Seq<u8>, base: int, frames: Seq<usize>) -> Seq<u8> {
    Seq::new(
        bytes.len(),
        |i: int| if exists|k: int| 0 <= k < frames.len() && in_frame(base, frames[k] as int, i) { 0u8 } else { bytes[i] },
    )
}

impl PhysMem {
    /// Clears frame `p`.
    pub fn zero_frame(&mut self, p: usize)
        requires
            old(self).wf(),
            old(self).holds_frame(p as int),
        ensures
            final(self).base == old(self).base,
            final(self).bytes@ == frames_zeroed(old(self).bytes@, old(self).base as int, seq![p]),
    {
        let ghost b0 = self.bytes@;
        let n = self.bytes.len();
        let d0 = p * PAGE_SIZE - self.base;
        let mut k: usize = 0;
        while k < PAGE_SIZE
            invariant
                n == b0.len(),
                d0 == p * PAGE_SIZE - self.base,
                d0 + PAGE_SIZE <= b0.len(),
                self.bytes@.len() == b0.len(),
                k <= PAGE_SIZE,
                forall|i: int| 0 <= i < b0.len() ==> self.bytes@[i] == (if d0 <= i < d0 + k { 0u8 } else { b0[i] }),
            decreases PAGE_SIZE - k,
        {
            self.bytes.set(d0 + k, 0);
            k = k + 1;
        }
        assert forall|i: int| 0 <= i < b0.len() implies self.bytes@[i] == frames_zeroed(b0, self.base as int, seq![p])[i] by {
            if in_frame(self.base as int, p as int, i) {
                assert(seq![p][0] == p);
            }
        }
        assert(self.bytes@ =~= frames_zeroed(b0, self.base as int, seq![p]));
    }
}

/// Allocates a frame, as `alloc_one` picks it, and clears it.
pub fn frame_alloc(alloc: &mut StackFrameAllocator, mem: &mut PhysMem) -> (ppn: Option<usize>)
    requires
        old(alloc).wf(),
        old(mem).wf(),
        covers_alloc(*old(mem), *old(alloc)),
    ensures
        final(alloc).wf(),
        final(mem).base == old(mem).base,
        covers_alloc(*final(mem), *final(alloc)),
        ppn.is_none() <==> old(alloc).free_frames() == 0,
        match ppn {
            None => *final(alloc) == *old(alloc) && *final(mem) == *old(mem),
            Some(p) => {
                &&& p == (if old(alloc).recycled@.len() > 0 { old(alloc).recycled@.last() } else { old(alloc).current })
                &&& final(alloc).refs() == old(alloc).refs().insert(p, 1)
                &&& final(mem).bytes@ == frames_zeroed(old(mem).bytes@, old(mem).base as int, seq![p])
            },
        },
{
    let ghost a0 = *alloc;
    let r = alloc.alloc_one();
    match r {
        Some(p) => {
            proof {
                if a0.recycled@.len() > 0 {
                    assert(a0.recycled@.contains(a0.recycled@.last()));
                }
                assert(alloc_owns(a0, p));
                assert forall|q: usize| #[trigger] alloc_owns(*alloc, q) implies mem.holds_frame(q as int) by {
                    if alloc.recycled@.contains(q) {
                        let j = choose|j: int| 0 <= j < alloc.recycled@.len() && alloc.recycled@[j] == q;
                        assert(a0.recycled@[j] == q);
                    }
                    assert(alloc_owns(a0, q));
                }
            }
            mem.zero_frame(p);
            Some(p)
        },
        None => None,
    }
}

/// Allocates `num` contiguous fresh frames, as `alloc_more` does (from
/// the highest to the lowest), and clears them.
pub fn frame_alloc_more(alloc: &mut StackFrameAllocator, mem: &mut PhysMem, num: usize) -> (frames: Option<Vec<usize>>)
    requires
        old(alloc).wf(),
        old(alloc).current + num <= usize::MAX,
        old(mem).wf(),
        covers_alloc(*old(mem), *old(alloc)),
    ensures
        final(alloc).wf(),
        final(mem).base == old(mem).base,
        covers_alloc(*final(mem), *final(alloc)),
        frames.is_none() <==> old(alloc).current + num >= old(alloc).end,
        match frames {
            None => *final(alloc) == *old(alloc) && *final(mem) == *old(mem),
            Some(f) => {
                &&& final(alloc).current == old(alloc).current + num
                &&& f@ == descending_frames(final(alloc).current as int, num as int)
                &&& final(alloc).refs() == old(alloc).refs().union_prefer_right(
                    Map::new(|p: usize| old(alloc).current <= p < final(alloc).current, |p: usize| 1usize),
                )
                &&& final(mem).bytes@ == frames_zeroed(old(mem).bytes@, old(mem).base as int, f@)
            },
        },
{
    let ghost a0 = *alloc;
    let ghost m0 = *mem;
    let r = alloc.alloc_more(num);
    match r {
        None => None,
        Some(f) => {
            let mut k: usize = 0;
            proof {
                assert forall|q: usize| #[trigger] alloc_owns(*alloc, q) implies m0.holds_frame(q as int) by {
                    assert(alloc_owns(a0, q));
                }
                assert(m0.bytes@ =~= frames_zeroed(m0.bytes@, m0.base as int, f@.take(0)));
            }
            while k < f.len()
                invariant
                    f@ == descending_frames(alloc.current as int, num as int),
                    alloc.current == a0.current + num,
                    alloc.end == a0.end,
                    alloc.current <= alloc.end,
                    a0.wf(),
                    covers_alloc(m0, a0),
                    mem.base == m0.base,
                    mem.bytes@.len() == m0.bytes@.len(),
                    m0.wf(),
                    k <= f@.len(),
                    mem.bytes@ == frames_zeroed(m0.bytes@, m0.base as int, f@.take(k as int)),
                decreases f@.len() - k,
            {
                let p = f[k];
                proof {
                    assert(a0.current <= p < a0.end);
                    assert(alloc_owns(a0, p));
                }
                let ghost b1 = mem.bytes@;
                mem.zero_frame(p);
                proof {
                    let t = f@.take(k + 1);
                    let zb = frames_zeroed(b1, m0.base as int, seq![p]);
                    assert(mem.bytes@ == zb);
                    assert(t[k as int] == p);
                    assert(seq![p][0] == p);
                    assert forall|i: int| 0 <= i < m0.bytes@.len() implies mem.bytes@[i] == frames_zeroed(
                        m0.bytes@, m0.base as int, t)[i] by {
                        if in_frame(m0.base as int, p as int, i) {
                            assert(in_frame(m0.base as int, seq![p][0] as int, i));
                            assert(zb[i] == 0u8);
                            assert(in_frame(m0.base as int, t[k as int] as int, i));
                        } else {
                            assert(zb[i] == b1[i]);
                            if exists|j: int| 0 <= j < t.len() && in_frame(m0.base as int, t[j] as int, i) {
                                let j = choose|j: int| 0 <= j < t.len() && in_frame(m0.base as int, t[j] as int, i);
                                assert(j < k);
                                assert(f@.take(k as int)[j] == t[j]);
                            } else {
                                assert forall|j: int| 0 <= j < k implies !in_frame(m0.base as int, f@.take(k as int)[j] as int, i) by {
                                    assert(f@.take(k as int)[j] == t[j]);
                                }
                            }
                        }
                    }
                    assert(mem.bytes@ =~= frames_zeroed(m0.bytes@, m0.base as int, t));
                }
                k = k + 1;
            }
            assert(f@.take(k as int) =~= f@);
            proof {
                assert forall|q: usize| #[trigger] alloc_owns(*alloc, q) implies mem.holds_frame(q as int) by {
                    assert(alloc_owns(a0, q));
                }
            }
            Some(f)
        },
    }
}

} // verus!
