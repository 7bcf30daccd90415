//! Anonymous memory mappings: `mmap` places private, user-accessible,
//! immediately backed pages in a window of the address space; `munmap`
//! removes a whole such mapping.

use vstd::prelude::*;
use crate::frame_allocator::{StackFrameAllocator, PAGE_SIZE};
use crate::memory_set::{
    MemorySet, MapArea, MapType, MapPermission, alloc_fits, spec_floor, spec_ceil, areas_disjoint,
    released, in_area, first_area_starting, TRAMPOLINE_VPN,
};
use crate::page_table::{PageTableEntry, FLAG_R, FLAG_W, FLAG_X, FLAG_U};

verus! {

/// Anonymous mappings are placed in `[MMAP_BASE, MMAP_TOP)`.
pub const MMAP_BASE: usize = 0x2000_0000;
pub const MMAP_TOP: usize = 0x3000_0000;
pub const MMAP_BASE_VPN: usize = 0x2_0000;
pub const MMAP_TOP_VPN: usize = 0x3_0000;

pub const PROT_READ: usize = 1;
pub const PROT_WRITE: usize = 2;
pub const PROT_EXEC: usize = 4;

/// Rights of an anonymous mapping: user access, and read, write and
/// execute as asked, write implying read (RISC-V has no write-only pages).
pub open spec fn prot_perm(prot: usize) -> u8 {
    FLAG_U | (if prot & (PROT_READ | PROT_WRITE) != 0 { FLAG_R } else { 0 }) | (if prot & PROT_WRITE != 0 {
        FLAG_W
    } else {
        0
    }) | (if prot & PROT_EXEC != 0 { FLAG_X } else { 0 })
}

/// The rights of an anonymous mapping follow `prot` bit by bit: user
/// access always; write exactly when `prot` asks for writing; execute
/// exactly when it asks for executing; read when it asks for reading or
/// writing; and no other flag.
pub proof fn lemma_prot_rights(prot: usize)
    ensures
        prot_perm(prot) & FLAG_U != 0,
        (prot_perm(prot) & FLAG_W != 0) == (prot & PROT_WRITE != 0),
        (prot_perm(prot) & FLAG_X != 0) == (prot & PROT_EXEC != 0),
        (prot_perm(prot) & FLAG_R != 0) == (prot & PROT_READ != 0 || prot & PROT_WRITE != 0),
        prot_perm(prot) & !(FLAG_U | FLAG_R | FLAG_W | FLAG_X) == 0,
{
    assert((1usize | 2usize) == 3usize) by (bit_vector);
    assert((0x10u8 | 2u8 | 4u8 | 8u8) == 0x1eu8) by (bit_vector);
    let b = prot_perm(prot);
    assert(b == 0x10u8 | (if prot & 3usize != 0 { 2u8 } else { 0u8 }) | (if prot & 2usize != 0 { 4u8 } else { 0u8 }) | (
    if prot & 4usize != 0 {
        8u8
    } else {
        0u8
    }));
    assert({
        &&& b & 0x10u8 != 0
        &&& (b & 4u8 != 0) == (prot & 2usize != 0)
        &&& (b & 8u8 != 0) == (prot & 4usize != 0)
        &&& (b & 2u8 != 0) == (prot & 1usize != 0 || prot & 2usize != 0)
        &&& b & !0x1eu8 == 0
    }) by (bit_vector)
        requires
            b == 0x10u8 | (if prot & 3usize != 0 { 2u8 } else { 0u8 }) | (if prot & 2usize != 0 { 4u8 } else { 0u8 }) | (
            if prot & 4usize != 0 {
                8u8
            } else {
                0u8
            }),
    ;
}

/// Pages that hold `len` bytes.
pub open spec fn pages_for(len: usize) -> int {
    (len as int + PAGE_SIZE - 1) / (PAGE_SIZE as int)
}

/// The pages `[s, e)` overlap no area of `areas`.
pub open spec fn range_free(areas: Seq<MapArea>, s: int, e: int) -> bool {
    forall|i: int| 0 <= i < areas.len() ==> !(s < (#[trigger] areas[i]).end_vpn && areas[i].start_vpn < e)
}

/// `v` can start a mapping of `n` pages: inside the window and free.
pub open spec fn fits_at(areas: Seq<MapArea>, v: int, n: int) -> bool {
    MMAP_BASE_VPN <= v && v + n <= MMAP_TOP_VPN && range_free(areas, v, v + n)
}

/// The lowest page where `n` pages fit, or -1.
#[verifier::opaque]
pub open spec fn first_fit(areas: Seq<MapArea>, n: int) -> int {
    if exists|v: int| fits_at(areas, v, n) {
        choose|v: int| fits_at(areas, v, n) && forall|u: int| MMAP_BASE_VPN <= u < v ==> !fits_at(areas, u, n)
    } else {
        -1
    }
}

/// Where `mmap(start, len, prot)` maps, as a page number: the lowest free
/// place for `start` 0, else `start` itself when it is page-aligned, in
/// the window and free. `None` for an empty length or no access rights.
pub open spec fn mmap_target(areas: Seq<MapArea>, start: usize, len: usize, prot: usize) -> Option<int> {
    let n = pages_for(len);
    if len == 0 || prot & (PROT_READ | PROT_WRITE | PROT_EXEC) == 0 {
        None
    } else if start == 0 {
        if first_fit(areas, n) < 0 { None } else { Some(first_fit(areas, n)) }
    } else if start % PAGE_SIZE == 0 && fits_at(areas, (start as int) / (PAGE_SIZE as int), n) {
        Some((start as int) / (PAGE_SIZE as int))
    } else {
        None
    }
}

proof fn lemma_first_fit(areas: Seq<MapArea>, n: int, w: int)
    requires
        fits_at(areas, w, n),
    ensures
        exists|v: int| fits_at(areas, v, n) && forall|u: int| MMAP_BASE_VPN <= u < v ==> !fits_at(areas, u, n),
    decreases w - MMAP_BASE_VPN,
{
    if exists|u: int| MMAP_BASE_VPN <= u < w && fits_at(areas, u, n) {
        let u = choose|u: int| MMAP_BASE_VPN <= u < w && fits_at(areas, u, n);
        lemma_first_fit(areas, n, u);
    }
}

impl MemorySet {
    /// Pages `[s, e)` overlap no area.
    fn range_is_free(&self, s: usize, e: usize) -> (b: bool)
        ensures
            b == range_free(self.areas@, s as int, e as int),
    {
        let mut i: usize = 0;
        while i < self.areas.len()
            invariant
                i <= self.areas@.len(),
                forall|k: int| 0 <= k < i ==> !(s < (#[trigger] self.areas@[k]).end_vpn && self.areas@[k].start_vpn < e),
            decreases self.areas@.len() - i,
        {
            if s < self.areas[i].end_vpn && self.areas[i].start_vpn < e {
                assert(!range_free(self.areas@, s as int, e as int));
                return false;
            }
            i = i + 1;
        }
        true
    }

    /// The lowest page where `n` pages fit in the window, if any.
    fn find_fit(&self, n: usize) -> (r: Option<usize>)
        requires
            1 <= n <= MMAP_TOP_VPN - MMAP_BASE_VPN,
        ensures
            r is None <==> first_fit(self.areas@, n as int) < 0,
            r matches Some(c) ==> c == first_fit(self.areas@, n as int) && fits_at(self.areas@, c as int, n as int),
    {
        reveal(first_fit);
        let mut c: usize = MMAP_BASE_VPN;
        while c + n <= MMAP_TOP_VPN
            invariant
                MMAP_BASE_VPN <= c <= MMAP_TOP_VPN,
                1 <= n <= MMAP_TOP_VPN - MMAP_BASE_VPN,
                forall|u: int| MMAP_BASE_VPN <= u < c ==> !fits_at(self.areas@, u, n as int),
            decreases MMAP_TOP_VPN - c,
        {
            if self.range_is_free(c, c + n) {
                proof {
                    reveal(first_fit);
                    assert(fits_at(self.areas@, c as int, n as int));
                    lemma_first_fit(self.areas@, n as int, c as int);
                    let f = first_fit(self.areas@, n as int);
                    assert(fits_at(self.areas@, f, n as int));
                    if f < c {
                    } else if f > c {
                    }
                }
                return Some(c);
            }
            c = c + 1;
        }
        proof {
            reveal(first_fit);
            if exists|w: int| fits_at(self.areas@, w, n as int) {
                let w = choose|w: int| fits_at(self.areas@, w, n as int);
                assert(!fits_at(self.areas@, w, n as int));
            }
        }
        None
    }

    /// Index of the first area that starts at page `s`, if any.
    fn find_area_starting(&self, s: usize) -> (r: Option<usize>)
        ensures
            r is None <==> first_area_starting(self.areas@, s) < 0,
            r matches Some(i) ==> i == first_area_starting(self.areas@, s) && i < self.areas@.len(),
    {
        let mut i: usize = 0;
        while i < self.areas.len()
            invariant
                i <= self.areas@.len(),
                forall|j: int| 0 <= j < i ==> self.areas@[j].start_vpn != s,
            decreases self.areas@.len() - i,
        {
            if self.areas[i].start_vpn == s {
                proof {
                    let a = self.areas@;
                    let c = first_area_starting(a, s);
                    assert(0 <= c < a.len() && a[c].start_vpn == s && forall|j: int| 0 <= j < c ==> a[j].start_vpn != s);
                    if c < i {
                    } else if c > i {
                    }
                }
                return Some(i);
            }
            i = i + 1;
        }
        None
    }

    /// The page where `mmap(start, len, prot)` maps, if any.
    fn mmap_place(&self, start: usize, len: usize, prot: usize) -> (r: Option<usize>)
        ensures
            match mmap_target(self.areas@, start, len, prot) {
                Some(t) => r matches Some(c) && c == t && fits_at(self.areas@, t, pages_for(len)) && 1 <= pages_for(len),
                None => r.is_none(),
            },
    {
        if len == 0 || prot & (PROT_READ | PROT_WRITE | PROT_EXEC) == 0 {
            return None;
        }
        if len > MMAP_TOP - MMAP_BASE {
            proof {
                reveal(first_fit);
                assert(pages_for(len) > MMAP_TOP_VPN - MMAP_BASE_VPN);
                if exists|w: int| fits_at(self.areas@, w, pages_for(len)) {
                    let w = choose|w: int| fits_at(self.areas@, w, pages_for(len));
                    assert(!fits_at(self.areas@, w, pages_for(len)));
                }
            }
            return None;
        }
        let n: usize = (len + (PAGE_SIZE - 1)) / PAGE_SIZE;
        assert(n == pages_for(len));
        if start == 0 {
            self.find_fit(n)
        } else {
            if start % PAGE_SIZE != 0 {
                return None;
            }
            let s = start / PAGE_SIZE;
            if !(MMAP_BASE_VPN <= s && s + n <= MMAP_TOP_VPN && self.range_is_free(s, s + n)) {
                return None;
            }
            Some(s)
        }
    }

    /// Maps `len` bytes of fresh, private pages with rights from `prot`
    /// (see `mmap_target` for where). Returns the address, or `None` when
    /// nothing can be mapped there or the frames would not suffice.
    pub fn mmap(&mut self, start: usize, len: usize, prot: usize, alloc: &mut StackFrameAllocator) -> (r: Option<usize>)
        requires
            old(self).wf(),
            old(self).frames_held(&*old(alloc)),
            alloc_fits(&*old(alloc)),
        ensures
            final(self).wf(),
            final(self).frames_held(&*final(alloc)),
            alloc_fits(&*final(alloc)),
            ({
                let t = mmap_target(old(self).areas@, start, len, prot);
                let n = pages_for(len);
                if t.is_some() && old(alloc).free_frames() >= 3 * n {
                    &&& r == Some((t.unwrap() * PAGE_SIZE) as usize)
                    &&& MMAP_BASE <= t.unwrap() * PAGE_SIZE < MMAP_TOP
                    &&& final(self).areas@.len() == old(self).areas@.len() + 1
                    &&& forall|i: int| 0 <= i < old(self).areas@.len() ==> #[trigger] final(self).areas@[i] == old(self).areas@[i]
                    &&& final(self).areas@.last().start_vpn == t.unwrap()
                    &&& final(self).areas@.last().end_vpn == t.unwrap() + n
                    &&& final(self).areas@.last().map_type == MapType::Framed
                    &&& final(self).areas@.last().map_perm.bits == prot_perm(prot)
                } else {
                    r.is_none() && *final(self) == *old(self) && *final(alloc) == *old(alloc)
                }
            }),
    {
        let v = match self.mmap_place(start, len, prot) {
            Some(v) => v,
            None => return None,
        };
        let n: usize = (len + (PAGE_SIZE - 1)) / PAGE_SIZE;
        assert(n == pages_for(len));
        let free = alloc.free_count();
        if free < 3 * n {
            return None;
        }
        let bits: u8 = FLAG_U | (if prot & (PROT_READ | PROT_WRITE) != 0 { FLAG_R } else { 0 }) | (if prot & PROT_WRITE
            != 0 {
            FLAG_W
        } else {
            0
        }) | (if prot & PROT_EXEC != 0 { FLAG_X } else { 0 });
        let start_va = v * PAGE_SIZE;
        let end_va = (v + n) * PAGE_SIZE;
        proof {
            let r = prot & (PROT_READ | PROT_WRITE) != 0;
            let w = prot & PROT_WRITE != 0;
            let x = prot & PROT_EXEC != 0;
            assert((0x10u8 | (if r { 2u8 } else { 0u8 }) | (if w { 4u8 } else { 0u8 }) | (if x { 8u8 } else { 0u8 }))
                & !0x1eu8 == 0) by (bit_vector);
            assert(spec_floor(start_va) == v);
            assert(spec_ceil(end_va) == v + n);
            assert forall|i: int| 0 <= i < self.areas@.len() implies areas_disjoint(
                #[trigger] self.areas@[i],
                MapArea {
                    start_vpn: spec_floor(start_va),
                    end_vpn: spec_ceil(end_va),
                    data_frames: self.areas@[i].data_frames,
                    map_type: MapType::Framed,
                    map_perm: MapPermission { bits },
                },
            ) by {
                assert(!(v < self.areas@[i].end_vpn && self.areas@[i].start_vpn < v + n));
            }
        }
        let ghost n0 = self.areas@.len();
        self.insert_framed_area(start_va, end_va, MapPermission { bits }, alloc);
        assert(self.areas@.last() == self.areas@[n0 as int]);
        Some(start_va)
    }

    /// Index of the anonymous mapping that `munmap(start, len)` removes, if any.
    fn munmap_index(&self, start: usize, len: usize) -> (r: Option<usize>)
        ensures
            r is None <==> munmap_target(self.areas@, start, len) < 0,
            r matches Some(i) ==> i == munmap_target(self.areas@, start, len) && i < self.areas@.len(),
    {
        if len == 0 || start % PAGE_SIZE != 0 || len > MMAP_TOP - MMAP_BASE {
            return None;
        }
        let s = start / PAGE_SIZE;
        let n = (len + (PAGE_SIZE - 1)) / PAGE_SIZE;
        assert(n == pages_for(len));
        if !(MMAP_BASE_VPN <= s && s + n <= MMAP_TOP_VPN) {
            return None;
        }
        match self.find_area_starting(s) {
            Some(i) => {
                if self.areas[i].end_vpn != s + n {
                    return None;
                }
                Some(i)
            },
            None => None,
        }
    }

    /// Removes the anonymous mapping that is exactly `[start, start + len)`
    /// (rounded up to pages), letting go of its frames. `false`, and no
    /// change, when no mapping matches exactly.
    #[verifier::spinoff_prover]
    pub fn munmap(&mut self, start: usize, len: usize, alloc: &mut StackFrameAllocator) -> (ok: bool)
        requires
            old(self).wf(),
            old(self).frames_held(&*old(alloc)),
            alloc_fits(&*old(alloc)),
        ensures
            final(self).wf(),
            final(self).frames_held(&*final(alloc)),
            alloc_fits(&*final(alloc)),
            ({
                let ai = munmap_target(old(self).areas@, start, len);
                if ai >= 0 {
                    &&& ok
                    &&& final(self).areas@ == old(self).areas@.remove(ai)
                    &&& forall|v: usize| #[trigger] in_area(old(self).areas@[ai], v) ==> final(self).page_table.spec_translate(v)
                        == Some(PageTableEntry { bits: 0 })
                    &&& forall|v: usize| !in_area(old(self).areas@[ai], v) ==> #[trigger] final(self).page_table.spec_translate(v)
                        == old(self).page_table.spec_translate(v)
                    &&& released(old(alloc).refs(), final(alloc).refs(), old(self).areas@[ai].data_frames@)
                } else {
                    !ok && *final(self) == *old(self) && *final(alloc) == *old(alloc)
                }
            }),
    {
        match self.munmap_index(start, len) {
            Some(i) => {
                self.remove_area_at(i, alloc);
                true
            },
            None => false,
        }
    }
}

/// Index of the mapping that `munmap(start, len)` removes: the first area
/// starting at page `start / PAGE_SIZE` when `start` is page-aligned, the
/// range is non-empty and inside the mapping window, and the area ends
/// exactly where the range does; -1 otherwise.
pub open spec fn munmap_target(areas: Seq<MapArea>, start: usize, len: usize) -> int {
    let s = (start as int) / (PAGE_SIZE as int);
    let ai = first_area_starting(areas, s as usize);
    if len > 0 && start % PAGE_SIZE == 0 && MMAP_BASE_VPN <= s && s + pages_for(len) <= MMAP_TOP_VPN && ai >= 0
        && areas[ai].end_vpn == s + pages_for(len) {
        ai
    } else {
        -1
    }
}

/// `mmap(start, len, prot)` on the caller's address space: the address, or -1.
pub fn sys_mmap(ms: &mut MemorySet, start: usize, len: usize, prot: usize, alloc: &mut StackFrameAllocator) -> (r: isize)
    requires
        old(ms).wf(),
        old(ms).frames_held(&*old(alloc)),
        alloc_fits(&*old(alloc)),
    ensures
        final(ms).wf(),
        final(ms).frames_held(&*final(alloc)),
        alloc_fits(&*final(alloc)),
        ({
            let t = mmap_target(old(ms).areas@, start, len, prot);
            let n = pages_for(len);
            if t.is_some() && old(alloc).free_frames() >= 3 * n {
                &&& r == t.unwrap() * PAGE_SIZE
                &&& MMAP_BASE <= t.unwrap() * PAGE_SIZE < MMAP_TOP
                &&& fits_at(old(ms).areas@, t.unwrap(), n)
                &&& final(ms).areas@.len() == old(ms).areas@.len() + 1
                &&& forall|i: int| 0 <= i < old(ms).areas@.len() ==> #[trigger] final(ms).areas@[i] == old(ms).areas@[i]
                &&& final(ms).areas@.last().start_vpn == t.unwrap()
                &&& final(ms).areas@.last().end_vpn == t.unwrap() + n
                &&& final(ms).areas@.last().map_type == MapType::Framed
                &&& final(ms).areas@.last().map_perm.bits == prot_perm(prot)
            } else {
                r == -1 && *final(ms) == *old(ms) && *final(alloc) == *old(alloc)
            }
        }),
{
    proof {
        if mmap_target(ms.areas@, start, len, prot) is Some {
            lemma_mmap_target_fits(ms.areas@, start, len, prot);
        }
    }
    match ms.mmap(start, len, prot, alloc) {
        Some(a) => a as isize,
        None => -1,
    }
}

/// `munmap(start, len)` on the caller's address space: 0, or -1 when no
/// mapping matches exactly.
pub fn sys_munmap(ms: &mut MemorySet, start: usize, len: usize, alloc: &mut StackFrameAllocator) -> (r: isize)
    requires
        old(ms).wf(),
        old(ms).frames_held(&*old(alloc)),
        alloc_fits(&*old(alloc)),
    ensures
        final(ms).wf(),
        final(ms).frames_held(&*final(alloc)),
        alloc_fits(&*final(alloc)),
        ({
            let ai = munmap_target(old(ms).areas@, start, len);
            if ai >= 0 {
                &&& r == 0
                &&& final(ms).areas@ == old(ms).areas@.remove(ai)
                &&& forall|v: usize| #[trigger] in_area(old(ms).areas@[ai], v) ==> final(ms).page_table.spec_translate(v)
                    == Some(PageTableEntry { bits: 0 })
                &&& forall|v: usize| !in_area(old(ms).areas@[ai], v) ==> #[trigger] final(ms).page_table.spec_translate(v)
                    == old(ms).page_table.spec_translate(v)
                &&& released(old(alloc).refs(), final(alloc).refs(), old(ms).areas@[ai].data_frames@)
            } else {
                r == -1 && *final(ms) == *old(ms) && *final(alloc) == *old(alloc)
            }
        }),
{
    if ms.munmap(start, len, alloc) {
        0
    } else {
        -1
    }
}

/// Where a successful `mmap(start, len, prot)` on areas `areas` maps is a
/// place where its pages fit.
pub proof fn lemma_mmap_target_fits(areas: Seq<MapArea>, start: usize, len: usize, prot: usize)
    requires
        mmap_target(areas, start, len, prot) is Some,
    ensures
        fits_at(areas, mmap_target(areas, start, len, prot).unwrap(), pages_for(len)),
        pages_for(len) >= 1,
{
    reveal(first_fit);
    let n = pages_for(len);
    if start == 0 {
        let w = choose|v: int| fits_at(areas, v, n);
        lemma_first_fit(areas, n, w);
    }
}

/// `munmap` after `mmap` round trip: of the range that `mmap` has just
/// mapped, `munmap` of a part (or of more) is refused, `munmap` of exactly
/// that range removes that mapping and nothing else, leaving the areas
/// from before the `mmap`, and the range is then free again: `mmap` at its
/// address maps there. (It needs every area that starts at the mapped page
/// to be non-empty: an empty area there is found first and does not match.)
pub proof fn lemma_munmap_undoes_mmap(
    areas0: Seq<MapArea>,
    areas1: Seq<MapArea>,
    start: usize,
    len: usize,
    prot: usize,
)
    requires
        mmap_target(areas0, start, len, prot) is Some,
        forall|i: int| 0 <= i < areas0.len() && (#[trigger] areas0[i]).start_vpn == mmap_target(areas0, start, len, prot).unwrap()
            ==> areas0[i].end_vpn > areas0[i].start_vpn,
        areas1.len() == areas0.len() + 1,
        forall|i: int| 0 <= i < areas0.len() ==> #[trigger] areas1[i] == areas0[i],
        areas1.last().start_vpn == mmap_target(areas0, start, len, prot).unwrap(),
        areas1.last().end_vpn == mmap_target(areas0, start, len, prot).unwrap() + pages_for(len),
    ensures
        munmap_target(areas1, (mmap_target(areas0, start, len, prot).unwrap() * PAGE_SIZE) as usize, len)
            == areas0.len(),
        forall|len2: usize|
            pages_for(len2) != pages_for(len) ==> #[trigger] munmap_target(
                areas1,
                (mmap_target(areas0, start, len, prot).unwrap() * PAGE_SIZE) as usize,
                len2,
            ) == -1,
        areas1.remove(areas0.len() as int) == areas0,
        mmap_target(areas0, (mmap_target(areas0, start, len, prot).unwrap() * PAGE_SIZE) as usize, len, prot)
            == mmap_target(areas0, start, len, prot),
{
    let t = mmap_target(areas0, start, len, prot).unwrap();
    let n = pages_for(len);
    lemma_mmap_target_fits(areas0, start, len, prot);
    let a = (t * PAGE_SIZE) as usize;
    assert(a == t * PAGE_SIZE);
    assert((a as int) / (PAGE_SIZE as int) == t);
    assert forall|i: int| 0 <= i < areas0.len() implies (#[trigger] areas1[i]).start_vpn != t by {
        assert(areas1[i] == areas0[i]);
        if areas0[i].start_vpn == t {
            assert(!(t < areas0[i].end_vpn && areas0[i].start_vpn < t + n));
        }
    }
    let last = areas0.len() as int;
    assert(areas1[last].start_vpn == t);
    let c = first_area_starting(areas1, t as usize);
    assert(0 <= c < areas1.len() && areas1[c].start_vpn == t);
    if c < last {
        assert(areas1[c].start_vpn != t);
    }
    assert(c == last);
    assert(areas1.remove(last) =~= areas0);
    assert forall|len2: usize| pages_for(len2) != pages_for(len) implies #[trigger] munmap_target(areas1, a, len2) == -1 by {
        assert(first_area_starting(areas1, t as usize) == last);
    }
    assert(a != 0 && a % PAGE_SIZE == 0) by {
        assert(t >= MMAP_BASE_VPN);
    }
}

} // verus!
