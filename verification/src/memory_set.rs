//! Address spaces: a page table plus the logical areas mapped in it, with
//! copy-on-write fork and the write-fault handler that ends the sharing.

use vstd::prelude::*;
use std::collections::BTreeMap;
use crate::frame_allocator::{StackFrameAllocator, after_add_ref, after_dealloc, PAGE_SIZE};
use crate::phys_mem::{
    PhysMem, alloc_owns, covers_alloc, frame_copied, in_frame, only_fresh_changed, refs_grow, lemma_copy_changes_dst,
    lemma_only_fresh_trans, frame_index, user_byte, user_pa, lemma_user_byte_in_page, lemma_held_frame_kept,
};
use crate::page_table::{
    PageTable, PageTableEntry, PTEFlags, spec_entry_bits, lemma_entry_roundtrip,
    lemma_cow_entry_roundtrip, VPN_LIMIT, PPN_MASK, PTE_COW, FLAG_V, FLAG_R, FLAG_W, FLAG_X,
    FLAG_U,
};

verus! {

broadcast use {vstd::std_specs::btree::group_btree_axioms, vstd::laws_cmp::group_laws_cmp};

/// Page that holds the trap trampoline, the highest page of every address space.
pub const TRAMPOLINE_VPN: usize = 0x7ff_ffff;

#[derive(Copy, Clone, Debug, PartialEq, Eq, Structural)]
pub enum MapType {
    /// Virtual page `n` is physical page `n`.
    Identical,
    /// Each page gets a frame of its own from the frame allocator.
    Framed,
    /// Virtual page `n` is physical page `n + offset`.
    Linear(isize),
}

/// Access rights of an area: R, W, X and U, at the bits of the page-table flags.
#[derive(Copy, Clone, Debug, PartialEq, Eq, Structural)]
pub struct MapPermission {
    pub bits: u8,
}

pub const MAP_PERM_MASK: u8 = 0x1e;

/// A contiguous range of virtual pages `[start_vpn, end_vpn)` mapped the same way.
pub struct MapArea {
    pub start_vpn: usize,
    pub end_vpn: usize,
    /// The frame each page of a framed area owns.
    pub data_frames: BTreeMap<usize, usize>,
    pub map_type: MapType,
    pub map_perm: MapPermission,
}

/// Number of copy-on-write sharing and copying decisions of one fork.
#[derive(Copy, Clone, Debug)]
pub struct CowForkStats {
    pub shared_pages: usize,
    pub copied_pages: usize,
    pub allocated_frames: usize,
}

/// The first page at or above byte address `va`.
pub open spec fn spec_ceil(va: usize) -> usize {
    ((va as int + PAGE_SIZE - 1) / PAGE_SIZE as int) as usize
}

/// The page that holds byte address `va`.
pub open spec fn spec_floor(va: usize) -> usize {
    (va / PAGE_SIZE) as usize
}

pub open spec fn in_area(a: MapArea, v: usize) -> bool {
    a.start_vpn <= v < a.end_vpn
}

/// The frame that page `v` of area `a` is mapped to.
pub open spec fn frame_of(a: MapArea, v: usize) -> int {
    match a.map_type {
        MapType::Identical => v as int,
        MapType::Framed => a.data_frames@[v] as int,
        MapType::Linear(off) => v + off,
    }
}

/// Flags of a page of an area with rights `perm`: the rights made valid,
/// with write permission withheld while the page is copy-on-write.
pub open spec fn page_flags(perm: u8, cow: bool) -> u8 {
    if cow {
        (perm & !FLAG_W) | FLAG_V
    } else {
        perm | FLAG_V
    }
}

/// Page `v` of area `a` is mapped as the area says.
pub open spec fn page_ok(pt: PageTable, a: MapArea, v: usize) -> bool {
    let e = pt.entry(v);
    &&& pt.has_leaf_table(v)
    &&& e.spec_ppn() == frame_of(a, v)
    &&& e.spec_flags() == page_flags(a.map_perm.bits, e.spec_is_cow())
    &&& e.spec_is_cow() ==> a.map_perm.bits & FLAG_W != 0
}

impl MapArea {
    /// Shape constraints of an area whose pages `[start_vpn, mapped_end)` are mapped.
    pub open spec fn shape_ok(self) -> bool {
        &&& self.start_vpn <= self.end_vpn <= TRAMPOLINE_VPN
        &&& self.map_perm.bits & !MAP_PERM_MASK == 0
        &&& match self.map_type {
            MapType::Linear(off) => 0 <= self.start_vpn + off && self.end_vpn + off <= PPN_MASK
                && self.end_vpn + off <= isize::MAX,
            _ => true,
        }
    }

    /// The area's frames are exactly those of its pages `[start_vpn, hi)`.
    pub open spec fn frames_cover(self, hi: int) -> bool {
        if self.map_type == MapType::Framed {
            forall|v: usize| #[trigger] self.data_frames@.contains_key(v) <==> self.start_vpn <= v < hi
        } else {
            self.data_frames@.len() == 0 && forall|v: usize| !#[trigger] self.data_frames@.contains_key(v)
        }
    }

    /// The area covering the pages of `[start_va, end_va)`, not yet mapped.
    pub fn new(start_va: usize, end_va: usize, map_type: MapType, map_perm: MapPermission) -> (a: Self)
        requires
            end_va as int + PAGE_SIZE - 1 <= usize::MAX,
        ensures
            a.start_vpn == spec_floor(start_va),
            a.end_vpn == spec_ceil(end_va),
            a.data_frames@ == Map::<usize, usize>::empty(),
            a.map_type == map_type,
            a.map_perm == map_perm,
    {
        MapArea {
            start_vpn: start_va / PAGE_SIZE,
            end_vpn: (end_va + (PAGE_SIZE - 1)) / PAGE_SIZE,
            data_frames: BTreeMap::new(),
            map_type,
            map_perm,
        }
    }

    /// An unmapped area with the same range, type and rights as `another`.
    pub fn from_another(another: &MapArea) -> (a: Self)
        ensures
            a.start_vpn == another.start_vpn,
            a.end_vpn == another.end_vpn,
            a.data_frames@ == Map::<usize, usize>::empty(),
            a.map_type == another.map_type,
            a.map_perm == another.map_perm,
    {
        MapArea {
            start_vpn: another.start_vpn,
            end_vpn: another.end_vpn,
            data_frames: BTreeMap::new(),
            map_type: another.map_type,
            map_perm: another.map_perm,
        }
    }
}

/// Frames handed out by `alloc` fit the page-number field of an entry.
pub open spec fn alloc_fits(alloc: &StackFrameAllocator) -> bool {
    alloc.wf() && alloc.end <= PPN_MASK
}

/// `new` preserves every translation that existed in `old_pt`, except at `vpn`.
pub open spec fn keeps_other_translations(new_pt: PageTable, old_pt: PageTable, vpn: usize) -> bool {
    &&& forall|v: usize| v != vpn && #[trigger] old_pt.spec_translate(v).is_some() ==>
        new_pt.spec_translate(v) == old_pt.spec_translate(v)
    &&& forall|v: usize| v != vpn && #[trigger] new_pt.spec_translate(v).is_some() ==>
        new_pt.spec_translate(v) == old_pt.spec_translate(v) || new_pt.entry(v).bits == 0
}

impl MapArea {
    /// Maps page `vpn` of the area into `page_table`: a framed area takes a
    /// fresh frame for it, an identical or linear area computes the frame.
    pub fn map_one(&mut self, page_table: &mut PageTable, vpn: usize, alloc: &mut StackFrameAllocator)
        requires
            old(self).shape_ok(),
            in_area(*old(self), vpn),
            old(self).map_type == MapType::Framed ==> !old(self).data_frames@.contains_key(vpn),
            old(page_table).wf(),
            alloc_fits(&*old(alloc)),
            old(alloc).free_frames() >= 3,
            old(page_table).frames_allocated(&*old(alloc)),
            !old(page_table).entry(vpn).has_flag(FLAG_V),
        ensures
            alloc_fits(&*final(alloc)),
            final(page_table).wf(),
            final(page_table).frames_allocated(&*final(alloc)),
            final(page_table).root_ppn == old(page_table).root_ppn,
            final(alloc).free_frames() + 3 >= old(alloc).free_frames(),
            final(self).start_vpn == old(self).start_vpn,
            final(self).end_vpn == old(self).end_vpn,
            final(self).map_type == old(self).map_type,
            final(self).map_perm == old(self).map_perm,
            page_ok(*final(page_table), *final(self), vpn),
            !final(page_table).entry(vpn).spec_is_cow(),
            keeps_other_translations(*final(page_table), *old(page_table), vpn),
            forall|v: usize| old(page_table).has_leaf_table(v) ==> #[trigger] final(page_table).has_leaf_table(v),
            old(self).map_type == MapType::Framed ==> {
                let f = final(self).data_frames@[vpn];
                &&& final(self).data_frames@ == old(self).data_frames@.insert(vpn, f)
                &&& !old(alloc).refs().contains_key(f)
                &&& final(alloc).refs().contains_key(f) && final(alloc).refs()[f] == 1
            },
            old(self).map_type != MapType::Framed ==> final(self).data_frames@ == old(self).data_frames@,
            forall|p: usize| #[trigger] old(alloc).refs().contains_key(p) ==> final(alloc).refs().contains_key(p)
                && final(alloc).refs()[p] == old(alloc).refs()[p],
            final(page_table).frames@.subrange(0, old(page_table).frames@.len() as int) == old(page_table).frames@,
            old(page_table).frames@.len() <= final(page_table).frames@.len(),
            forall|k: int| old(page_table).frames@.len() <= k < final(page_table).frames@.len() ==> !old(alloc).refs().contains_key(
                #[trigger] final(page_table).frames@[k],
            ) && (old(self).map_type == MapType::Framed ==> final(page_table).frames@[k] != final(self).data_frames@[vpn]),
    {
        let ppn: usize;
        let ghost a0 = *alloc;
        match self.map_type {
            MapType::Identical => {
                ppn = vpn;
            },
            MapType::Framed => {
                let frame = alloc.alloc_one().unwrap();
                ppn = frame;
                self.data_frames.insert(vpn, frame);
                assert(alloc.refs().contains_key(frame));
            },
            MapType::Linear(pn_offset) => {
                ppn = (vpn as isize + pn_offset) as usize;
            },
        }
        let ghost a1 = *alloc;
        let flags = PTEFlags::from_bits(self.map_perm.bits);
        page_table.map(vpn, ppn, flags, alloc);
        proof {
            lemma_entry_roundtrip(ppn, (self.map_perm.bits | FLAG_V) as u8);
            let e = page_table.entry(vpn);
            assert(e.bits == spec_entry_bits(ppn, self.map_perm.bits | FLAG_V));
            if self.map_type == MapType::Framed {
                assert(a1.refs().contains_key(ppn));
            }
            assert forall|p: usize| #[trigger] old(alloc).refs().contains_key(p) implies alloc.refs().contains_key(p)
                && alloc.refs()[p] == old(alloc).refs()[p] by {
                assert(a1.refs().contains_key(p));
            }
            assert forall|k: int| old(page_table).frames@.len() <= k < page_table.frames@.len() implies !old(alloc).refs().contains_key(
                #[trigger] page_table.frames@[k]) && (old(self).map_type == MapType::Framed ==> page_table.frames@[k] != self.data_frames@[vpn]) by {
                assert(!a1.refs().contains_key(page_table.frames@[k]));
                if old(alloc).refs().contains_key(page_table.frames@[k]) {
                    assert(a1.refs().contains_key(page_table.frames@[k]));
                }
            }
        }
    }
}

/// An address space.
pub struct MemorySet {
    pub page_table: PageTable,
    pub areas: Vec<MapArea>,
}

pub open spec fn areas_disjoint(a: MapArea, b: MapArea) -> bool {
    a.end_vpn <= b.start_vpn || b.end_vpn <= a.start_vpn
}

impl MemorySet {
    /// The area that holds page `v`, when one does.
    pub open spec fn covers(&self, v: usize) -> bool {
        exists|i: int| 0 <= i < self.areas@.len() && #[trigger] in_area(self.areas@[i], v)
    }

    pub open spec fn wf(&self) -> bool {
        &&& self.page_table.wf()
        &&& forall|i: int| 0 <= i < self.areas@.len() ==> (#[trigger] self.areas@[i]).shape_ok()
            && self.areas@[i].frames_cover(self.areas@[i].end_vpn as int)
        &&& forall|i: int, j: int|
            0 <= i < self.areas@.len() && 0 <= j < self.areas@.len() && i != j ==> areas_disjoint(
                #[trigger] self.areas@[i],
                #[trigger] self.areas@[j],
            )
        &&& forall|i: int, v: usize|
            0 <= i < self.areas@.len() && #[trigger] in_area(self.areas@[i], v) ==> page_ok(
                self.page_table,
                self.areas@[i],
                v,
            )
        &&& forall|i: int, v: usize|
            0 <= i < self.areas@.len() && #[trigger] in_area(self.areas@[i], v)
                && self.page_table.entry(v).spec_is_cow() ==> self.areas@[i].map_type
                == MapType::Framed
        &&& forall|v: usize|
            #![trigger self.page_table.entry(v)]
            self.page_table.entry(v).has_flag(FLAG_V) && v != TRAMPOLINE_VPN ==> self.covers(v)
        &&& !self.page_table.entry(TRAMPOLINE_VPN).has_flag(FLAG_U)
    }

    /// Every frame this address space holds is allocated in `alloc`.
    pub open spec fn frames_held(&self, alloc: &StackFrameAllocator) -> bool {
        &&& self.page_table.frames_allocated(alloc)
        &&& forall|i: int, v: usize|
            0 <= i < self.areas@.len() && #[trigger] self.areas@[i].data_frames@.contains_key(v)
                ==> alloc.refs().contains_key(self.areas@[i].data_frames@[v])
        &&& self.frames_distinct()
        &&& forall|i: int, v: usize, k: int|
            0 <= i < self.areas@.len() && #[trigger] self.areas@[i].data_frames@.contains_key(v)
                && 0 <= k < self.page_table.frames@.len() ==> self.areas@[i].data_frames@[v]
                != #[trigger] self.page_table.frames@[k]
    }

    /// No frame is held twice in this address space.
    pub open spec fn frames_distinct(&self) -> bool {
        forall|i1: int, v1: usize, i2: int, v2: usize|
            0 <= i1 < self.areas@.len() && 0 <= i2 < self.areas@.len()
                && self.areas@[i1].data_frames@.contains_key(v1)
                && self.areas@[i2].data_frames@.contains_key(v2) && (i1 != i2 || v1 != v2)
                ==> #[trigger] self.areas@[i1].data_frames@[v1] != #[trigger] self.areas@[i2].data_frames@[v2]
    }

    /// An address space with an empty page table and no areas.
    pub fn new_bare(alloc: &mut StackFrameAllocator) -> (ms: Self)
        requires
            old(alloc).wf(),
            old(alloc).free_frames() >= 1,
        ensures
            ms.wf(),
            ms.frames_held(&*final(alloc)),
            final(alloc).wf(),
            final(alloc).end == old(alloc).end,
            ms.areas@.len() == 0,
            final(alloc).free_frames() + 1 == old(alloc).free_frames(),
            ms.page_table.frames@ == seq![ms.page_table.root_ppn],
            final(alloc).refs() == old(alloc).refs().insert(ms.page_table.root_ppn, 1),
            !old(alloc).refs().contains_key(ms.page_table.root_ppn),
            forall|v: usize| #[trigger] ms.page_table.spec_translate(v).is_none(),
    {
        let ms = MemorySet { page_table: PageTable::new(alloc), areas: Vec::new() };
        proof {
            assert forall|v: usize| #![trigger ms.page_table.entry(v)]
                ms.page_table.entry(v).has_flag(FLAG_V) && v != TRAMPOLINE_VPN implies ms.covers(v) by {
                assert(ms.page_table.spec_translate(v).is_none());
                assert(!ms.page_table.leaves@.contains_key(v));
                assert(ms.page_table.entry(v).bits == 0);
                assert((0u64 as u8) & FLAG_V == 0) by (bit_vector);
            }
            assert(ms.page_table.spec_translate(TRAMPOLINE_VPN).is_none());
            assert(!ms.page_table.leaves@.contains_key(TRAMPOLINE_VPN));
            assert(ms.page_table.entry(TRAMPOLINE_VPN).bits == 0);
            assert((0u64 as u8) & FLAG_U == 0) by (bit_vector);
        }
        ms
    }

    /// The `satp` token of this address space.
    pub fn token(&self) -> (t: u64)
        ensures
            t == crate::task::spec_satp_token(self.page_table.root_ppn as u64),
    {
        self.page_table.token()
    }

    pub fn translate(&self, vpn: usize) -> (e: Option<PageTableEntry>)
        ensures
            e == self.page_table.spec_translate(vpn),
    {
        self.page_table.translate(vpn)
    }
}

/// Size of the Sv39 virtual address space in bytes.
pub open spec fn va_limit() -> int {
    VPN_LIMIT * PAGE_SIZE
}

pub proof fn lemma_no_table_no_entry(pt: PageTable, v: usize)
    requires
        pt.wf(),
        !pt.has_leaf_table(v),
    ensures
        pt.entry(v).bits == 0,
{
    if pt.leaves@.contains_key(v) {
        assert(pt.has_leaf_table(v));
    }
}

proof fn lemma_zero_entry_invalid(e: PageTableEntry)
    requires
        e.bits == 0,
    ensures
        !e.has_flag(FLAG_V),
        !e.has_flag(FLAG_U),
        !e.spec_is_cow(),
{
    assert((0u64 as u8) & 1u8 == 0) by (bit_vector);
    assert((0u64 as u8) & 0x10u8 == 0) by (bit_vector);
    assert(0u64 & 0x100u64 == 0) by (bit_vector);
}

proof fn lemma_resolved_flags(perm: u8)
    requires
        perm & FLAG_W != 0,
    ensures
        ((perm & !FLAG_W) | FLAG_V) | FLAG_W | FLAG_V == perm | FLAG_V,
        (perm | FLAG_V) & FLAG_W != 0,
        (perm | FLAG_V) & FLAG_V != 0,
{
    assert(perm & 4u8 != 0 ==> ((perm & !4u8) | 1u8) | 4u8 | 1u8 == perm | 1u8) by (bit_vector);
    assert(perm & 4u8 != 0 ==> (perm | 1u8) & 4u8 != 0) by (bit_vector);
    assert((perm | 1u8) & 1u8 != 0) by (bit_vector);
}

impl MemorySet {
    /// Index of the area that holds page `vpn`, if any.
    pub fn find_area(&self, vpn: usize) -> (i: Option<usize>)
        requires
            self.wf(),
        ensures
            i.is_none() <==> !self.covers(vpn),
            i.is_some() ==> i.unwrap() < self.areas@.len() && in_area(self.areas@[i.unwrap() as int], vpn),
    {
        let mut k: usize = 0;
        while k < self.areas.len()
            invariant
                k <= self.areas@.len(),
                forall|j: int| 0 <= j < k ==> !#[trigger] in_area(self.areas@[j], vpn),
            decreases self.areas@.len() - k,
        {
            if self.areas[k].start_vpn <= vpn && vpn < self.areas[k].end_vpn {
                assert(in_area(self.areas@[k as int], vpn));
                return Some(k);
            }
            k += 1;
        }
        None
    }

    /// The frame behind a valid user copy-on-write page is allocated.
    pub proof fn lemma_cow_frame_held(&self, alloc: &StackFrameAllocator, vpn: usize)
        requires
            self.wf(),
            self.frames_held(alloc),
            self.page_table.entry(vpn).has_flag(FLAG_V),
            self.page_table.entry(vpn).has_flag(FLAG_U),
            self.page_table.entry(vpn).spec_is_cow(),
        ensures
            alloc.refs().contains_key(self.page_table.entry(vpn).spec_ppn()),
    {
        assert(vpn != TRAMPOLINE_VPN);
        assert(self.covers(vpn));
        let i = choose|i: int| 0 <= i < self.areas@.len() && #[trigger] in_area(self.areas@[i], vpn);
        assert(page_ok(self.page_table, self.areas@[i], vpn));
        assert(self.areas@[i].map_type == MapType::Framed);
        assert(self.areas@[i].shape_ok() && self.areas@[i].frames_cover(self.areas@[i].end_vpn as int));
        assert(self.areas@[i].data_frames@.contains_key(vpn));
    }

    /// Page `vpn` is a valid user page marked copy-on-write whose frame has
    /// another owner, so a store to it takes a fresh frame.
    pub open spec fn page_needs_copy(&self, alloc: StackFrameAllocator, vpn: usize) -> bool {
        let entry = self.page_table.entry(vpn);
        &&& self.page_table.spec_translate(vpn).is_some()
        &&& entry.has_flag(FLAG_V)
        &&& entry.has_flag(FLAG_U)
        &&& entry.spec_is_cow()
        &&& alloc.refs()[entry.spec_ppn()] > 1
    }

    /// Handles a store fault at `fault_va`. Only a valid user page marked
    /// copy-on-write is handled: its last owner simply regains write
    /// permission, otherwise the page gets a private copy (made in `mem`)
    /// and the shared frame loses one owner. Returns whether the fault was
    /// handled.
    pub fn handle_cow_fault(
        &mut self,
        fault_va: usize,
        alloc: &mut StackFrameAllocator,
        mem: &mut PhysMem,
    ) -> (handled: bool)
        requires
            old(self).wf(),
            old(self).frames_held(&*old(alloc)),
            alloc_fits(&*old(alloc)),
            fault_va < va_limit(),
            old(self).page_needs_copy(*old(alloc), spec_floor(fault_va)) ==> old(alloc).free_frames() >= 1,
            old(mem).wf(),
            covers_alloc(*old(mem), *old(alloc)),
        ensures
            final(mem).base == old(mem).base,
            final(mem).bytes@.len() == old(mem).bytes@.len(),
            covers_alloc(*final(mem), *final(alloc)),
            only_fresh_changed(old(mem).bytes@, final(mem).bytes@, old(mem).base as int, *old(alloc), *final(alloc)),
            refs_grow(*old(alloc), *final(alloc)),
            handled ==> forall|off: int|
                0 <= off < PAGE_SIZE ==> #[trigger] user_byte(
                    final(self).page_table,
                    *final(mem),
                    spec_floor(fault_va) * PAGE_SIZE + off,
                ) == user_byte(old(self).page_table, *old(mem), spec_floor(fault_va) * PAGE_SIZE + off),
            ({
                let vpn = spec_floor(fault_va);
                let old_ppn = old(self).page_table.entry(vpn).spec_ppn();
                if handled && old(alloc).refs()[old_ppn] > 1 {
                    final(mem).bytes@ == frame_copied(
                        old(mem).bytes@,
                        old(mem).base as int,
                        old_ppn as int,
                        final(self).page_table.entry(vpn).spec_ppn() as int,
                    )
                } else {
                    *final(mem) == *old(mem)
                }
            }),
            ({
                let vpn = spec_floor(fault_va);
                let e = old(self).page_table.spec_translate(vpn);
                let old_entry = old(self).page_table.entry(vpn);
                let old_ppn = old_entry.spec_ppn();
                &&& handled == (e.is_some() && old_entry.has_flag(FLAG_V) && old_entry.has_flag(FLAG_U)
                    && old_entry.spec_is_cow())
                &&& !handled ==> *final(self) == *old(self) && *final(alloc) == *old(alloc)
                &&& handled ==> {
                    let new_entry = final(self).page_table.entry(vpn);
                    &&& final(self).wf()
                    &&& final(self).frames_held(&*final(alloc))
                    &&& alloc_fits(&*final(alloc))
                    &&& final(alloc).free_frames() + 1 >= old(alloc).free_frames()
                    &&& final(self).areas@.len() == old(self).areas@.len()
                    &&& final(self).page_table.spec_translate(vpn).is_some()
                    &&& !new_entry.spec_is_cow()
                    &&& new_entry.has_flag(FLAG_W)
                    &&& new_entry.spec_flags() == old_entry.spec_flags() | FLAG_W | FLAG_V
                    &&& forall|v: usize| v != vpn ==> #[trigger] final(self).page_table.spec_translate(v)
                        == old(self).page_table.spec_translate(v)
                    &&& old(alloc).refs()[old_ppn] == 1 ==> new_entry.spec_ppn() == old_ppn
                        && *final(alloc) == *old(alloc)
                    &&& old(alloc).refs()[old_ppn] > 1 ==> {
                        &&& !old(alloc).refs().contains_key(new_entry.spec_ppn())
                        &&& final(alloc).refs() == after_dealloc(
                            old(alloc).refs().insert(new_entry.spec_ppn(), 1),
                            old_ppn,
                        )
                    }
                }
            }),
    {
        let vpn = fault_va / PAGE_SIZE;
        let pte = match self.page_table.translate(vpn) {
            Some(pte) => pte,
            None => return false,
        };
        if !(pte.is_valid() && pte.user_accessible() && pte.is_cow()) {
            return false;
        }
        let ghost ms0 = *self;
        proof {
            assert(self.page_table.entry(vpn).has_flag(FLAG_V));
            assert(vpn != TRAMPOLINE_VPN);
            assert(self.covers(vpn));
        }
        let ai = self.find_area(vpn).unwrap();
        proof {
            assert(in_area(self.areas@[ai as int], vpn));
            assert(page_ok(self.page_table, self.areas@[ai as int], vpn));
            assert(self.areas@[ai as int].map_type == MapType::Framed);
            assert(self.areas@[ai as int].data_frames@.contains_key(vpn));
            assert(alloc.refs().contains_key(self.areas@[ai as int].data_frames@[vpn]));
        }
        let old_ppn = pte.ppn();
        proof {
            assert(vpn < VPN_LIMIT);
        }
        if alloc.ref_count(old_ppn) == 1 {
            self.page_table.resolve_cow(vpn, old_ppn);
            proof {
                lemma_resolved_flags(self.areas@[ai as int].map_perm.bits);
                lemma_entry_roundtrip(old_ppn, (pte.spec_flags() | FLAG_W | FLAG_V) as u8);
                self.lemma_wf_after_entry_change(ms0, vpn, ai as int);
                assert forall|off: int| 0 <= off < PAGE_SIZE implies #[trigger] user_byte(self.page_table, *mem,
                    vpn * PAGE_SIZE + off) == user_byte(ms0.page_table, *old(mem), vpn * PAGE_SIZE + off) by {
                    lemma_user_byte_in_page(self.page_table, *mem, vpn, off);
                    lemma_user_byte_in_page(ms0.page_table, *old(mem), vpn, off);
                }
            }
            return true;
        }
        let ghost a0 = *alloc;
        let new_frame = alloc.alloc_one().unwrap();
        let ghost a1 = *alloc;
        if !(self.areas[ai].map_type == MapType::Framed) {
            alloc.dealloc(new_frame);
            return false;
        }
        proof {
            assert(alloc_owns(a0, old_ppn));
            assert(alloc_owns(a0, new_frame));
        }
        mem.copy_frame(old_ppn, new_frame);
        let old_frame = self.areas[ai].data_frames.insert(vpn, new_frame).unwrap();
        self.page_table.resolve_cow(vpn, new_frame);
        alloc.dealloc(old_frame);
        proof {
            assert(self.areas@[ai as int].data_frames@.dom() =~= ms0.areas@[ai as int].data_frames@.dom());
            lemma_resolved_flags(self.areas@[ai as int].map_perm.bits);
            lemma_entry_roundtrip(new_frame, (pte.spec_flags() | FLAG_W | FLAG_V) as u8);
            assert(old_frame == old_ppn);
            self.lemma_wf_after_entry_change(ms0, vpn, ai as int);
            assert(a1.refs()[old_ppn] > 1);
            assert forall|off: int| 0 <= off < PAGE_SIZE implies #[trigger] user_byte(self.page_table, *mem,
                vpn * PAGE_SIZE + off) == user_byte(ms0.page_table, *old(mem), vpn * PAGE_SIZE + off) by {
                lemma_user_byte_in_page(self.page_table, *mem, vpn, off);
                lemma_user_byte_in_page(ms0.page_table, *old(mem), vpn, off);
                assert(old(mem).holds_frame(old_ppn as int) && old(mem).holds_frame(new_frame as int));
                let d = new_frame * PAGE_SIZE - old(mem).base + off;
                assert(mem.bytes@[d] == old(mem).bytes@[old_ppn * PAGE_SIZE - old(mem).base + off]);
            }
            assert forall|i: int| 0 <= i < old(mem).bytes@.len() && #[trigger] mem.bytes@[i] != old(mem).bytes@[i]
                implies !old(alloc).refs().contains_key(frame_index(old(mem).base as int, i))
                && alloc.refs().contains_key(frame_index(old(mem).base as int, i)) by {
                lemma_copy_changes_dst(old(mem).bytes@, old(mem).base as int, old_ppn as int, new_frame as int, i);
            }
            assert forall|p: usize| #[trigger] alloc_owns(*alloc, p) implies mem.holds_frame(p as int) by {
                assert(alloc_owns(a0, p));
            }
            assert forall|i: int, v: usize|
                0 <= i < self.areas@.len() && #[trigger] self.areas@[i].data_frames@.contains_key(v)
                implies alloc.refs().contains_key(self.areas@[i].data_frames@[v]) by {
                if i == ai && v == vpn {
                    assert(self.areas@[i].data_frames@[v] == new_frame);
                } else {
                    assert(ms0.areas@[i].data_frames@.contains_key(v));
                    assert(self.areas@[i].data_frames@[v] == ms0.areas@[i].data_frames@[v]);
                    assert(a1.refs().contains_key(ms0.areas@[i].data_frames@[v]));
                }
            }
        }
        true
    }

    /// After page `vpn` of area `ai` is remapped writable and private to the
    /// frame the area now holds for it, the address space is still well formed.
    proof fn lemma_wf_after_entry_change(&self, ms0: MemorySet, vpn: usize, ai: int)
        requires
            ms0.wf(),
            0 <= ai < ms0.areas@.len(),
            in_area(ms0.areas@[ai], vpn),
            self.page_table.wf(),
            self.areas@.len() == ms0.areas@.len(),
            forall|i: int| 0 <= i < self.areas@.len() && i != ai ==> #[trigger] self.areas@[i] == ms0.areas@[i],
            self.areas@[ai].start_vpn == ms0.areas@[ai].start_vpn,
            self.areas@[ai].end_vpn == ms0.areas@[ai].end_vpn,
            self.areas@[ai].map_type == ms0.areas@[ai].map_type,
            self.areas@[ai].map_perm == ms0.areas@[ai].map_perm,
            self.areas@[ai].data_frames@.dom() == ms0.areas@[ai].data_frames@.dom(),
            forall|v: usize| v != vpn ==> #[trigger] self.areas@[ai].data_frames@.contains_key(v)
                ==> self.areas@[ai].data_frames@[v] == ms0.areas@[ai].data_frames@[v],
            forall|v: usize| #[trigger] self.page_table.has_leaf_table(v) == ms0.page_table.has_leaf_table(v),
            forall|v: usize| v != vpn ==> #[trigger] self.page_table.spec_translate(v)
                == ms0.page_table.spec_translate(v),
            self.page_table.has_leaf_table(vpn),
            page_ok(self.page_table, self.areas@[ai], vpn),
            self.page_table.entry(vpn).spec_is_cow() ==> self.areas@[ai].map_type == MapType::Framed,
        ensures
            self.wf(),
    {
        assert forall|v: usize| v != vpn implies #[trigger] self.page_table.entry(v) == ms0.page_table.entry(v) by {
            if self.page_table.has_leaf_table(v) {
                assert(self.page_table.spec_translate(v) == ms0.page_table.spec_translate(v));
            } else {
                lemma_no_table_no_entry(self.page_table, v);
                lemma_no_table_no_entry(ms0.page_table, v);
            }
        }
        assert forall|i: int| 0 <= i < self.areas@.len() implies (#[trigger] self.areas@[i]).shape_ok()
            && self.areas@[i].frames_cover(self.areas@[i].end_vpn as int) by {
            assert(ms0.areas@[i].shape_ok());
            assert(ms0.areas@[i].frames_cover(ms0.areas@[i].end_vpn as int));
            if i == ai && self.areas@[ai].map_type == MapType::Framed {
                assert forall|v: usize| #[trigger] self.areas@[i].data_frames@.contains_key(v)
                    <==> self.areas@[i].start_vpn <= v < self.areas@[i].end_vpn by {
                    assert(self.areas@[i].data_frames@.dom().contains(v) == ms0.areas@[i].data_frames@.dom().contains(v));
                }
            }
            if i == ai && self.areas@[ai].map_type != MapType::Framed {
                assert(self.areas@[i].data_frames@.dom() =~= ms0.areas@[i].data_frames@.dom());
                assert forall|v: usize| !#[trigger] self.areas@[i].data_frames@.contains_key(v) by {
                    assert(!ms0.areas@[i].data_frames@.contains_key(v));
                }
                assert(self.areas@[i].data_frames@.len() == self.areas@[i].data_frames@.dom().len());
            }
        }
        assert forall|i: int, j: int|
            0 <= i < self.areas@.len() && 0 <= j < self.areas@.len() && i != j implies areas_disjoint(
            #[trigger] self.areas@[i],
            #[trigger] self.areas@[j],
        ) by {
            assert(areas_disjoint(ms0.areas@[i], ms0.areas@[j]));
        }
        assert forall|i: int, v: usize|
            0 <= i < self.areas@.len() && #[trigger] in_area(self.areas@[i], v) implies page_ok(
            self.page_table,
            self.areas@[i],
            v,
        ) by {
            assert(in_area(ms0.areas@[i], v));
            assert(page_ok(ms0.page_table, ms0.areas@[i], v));
            if v != vpn {
                assert(self.page_table.entry(v) == ms0.page_table.entry(v));
                if i == ai && self.areas@[ai].map_type == MapType::Framed {
                    assert(ms0.areas@[i].data_frames@.contains_key(v));
                }
            } else if i != ai {
                assert(areas_disjoint(ms0.areas@[i], ms0.areas@[ai]));
            }
        }
        assert forall|i: int, v: usize|
            0 <= i < self.areas@.len() && #[trigger] in_area(self.areas@[i], v)
                && self.page_table.entry(v).spec_is_cow() implies self.areas@[i].map_type
            == MapType::Framed by {
            assert(in_area(ms0.areas@[i], v));
            if v != vpn {
                assert(self.page_table.entry(v) == ms0.page_table.entry(v));
            }
        }
        assert forall|v: usize|
            #![trigger self.page_table.entry(v)]
            self.page_table.entry(v).has_flag(FLAG_V) && v != TRAMPOLINE_VPN implies self.covers(v) by {
            if v == vpn {
                assert(in_area(self.areas@[ai], v));
            } else {
                assert(self.page_table.entry(v) == ms0.page_table.entry(v));
                assert(ms0.covers(v));
                let i = choose|i: int| 0 <= i < ms0.areas@.len() && #[trigger] in_area(ms0.areas@[i], v);
                assert(in_area(self.areas@[i], v));
            }
        }
    }
}

/// The virtual address that `VirtAddr::from(a)` keeps: the low 39 bits.
pub open spec fn spec_va(a: usize) -> usize {
    (a as int % va_limit()) as usize
}

/// A page of a user buffer that the kernel may write once it is private:
/// mapped, valid, user-accessible, and writable or copy-on-write.
pub open spec fn privatizable(pt: PageTable, v: usize) -> bool {
    let e = pt.entry(v);
    &&& pt.spec_translate(v).is_some()
    &&& e.has_flag(FLAG_V)
    &&& e.has_flag(FLAG_U)
    &&& (e.spec_is_cow() || e.has_flag(FLAG_W))
}

/// A page the kernel may write without breaking another address space.
pub open spec fn private_writable(pt: PageTable, v: usize) -> bool {
    let e = pt.entry(v);
    &&& pt.spec_translate(v).is_some()
    &&& e.has_flag(FLAG_V)
    &&& e.has_flag(FLAG_U)
    &&& e.has_flag(FLAG_W)
    &&& !e.spec_is_cow()
}

/// Page `v` reads the same through `pt1` from `m1` as through `pt0` from
/// `m0`.
pub open spec fn page_kept(pt0: PageTable, m0: PhysMem, pt1: PageTable, m1: PhysMem, v: usize) -> bool {
    forall|off: int|
        0 <= off < PAGE_SIZE ==> #[trigger] user_byte(pt1, m1, v * PAGE_SIZE + off) == user_byte(pt0, m0, v * PAGE_SIZE + off)
}

/// Page `v` of `pt` is copy-on-write or maps to a frame allocated in `a`.
pub open spec fn page_frame_held(pt: PageTable, a: StackFrameAllocator, v: usize) -> bool {
    pt.entry(v).spec_is_cow() || a.refs().contains_key(pt.entry(v).spec_ppn())
}

/// A page whose translation stays and whose frame is allocated before a
/// step that changes only fresh frames reads the same after the step.
proof fn lemma_page_kept_step(
    pt0: PageTable,
    m0: PhysMem,
    ptb: PageTable,
    mb: PhysMem,
    pta: PageTable,
    ma: PhysMem,
    ab: StackFrameAllocator,
    aa: StackFrameAllocator,
    w: usize,
)
    requires
        page_kept(pt0, m0, ptb, mb, w),
        w < VPN_LIMIT,
        pta.spec_translate(w) == ptb.spec_translate(w),
        ptb.spec_translate(w).is_some() ==> ab.refs().contains_key(ptb.entry(w).spec_ppn()),
        only_fresh_changed(mb.bytes@, ma.bytes@, mb.base as int, ab, aa),
        ma.base == mb.base,
    ensures
        page_kept(pt0, m0, pta, ma, w),
{
    assert forall|off: int| 0 <= off < PAGE_SIZE implies #[trigger] user_byte(pta, ma, w * PAGE_SIZE + off) == user_byte(
        pt0,
        m0,
        w * PAGE_SIZE + off,
    ) by {
        lemma_user_byte_in_page(pta, ma, w, off);
        lemma_user_byte_in_page(ptb, mb, w, off);
        assert(user_byte(ptb, mb, w * PAGE_SIZE + off) == user_byte(pt0, m0, w * PAGE_SIZE + off));
        if ptb.spec_translate(w).is_some() {
            let f = ptb.entry(w).spec_ppn();
            assert(pta.entry(w) == ptb.entry(w));
            let pa = f * PAGE_SIZE + off;
            if mb.base <= pa < mb.base + mb.bytes@.len() {
                lemma_held_frame_kept(mb.bytes@, ma.bytes@, mb.base as int, ab, aa, f, off);
            }
        }
    }
}

/// The kernel's writes into one address space do not reach another: when
/// memory changed from `m0` to `m1` only in frames that were free in `a0`
/// (as `ensure_private_range` states, and `read_fd`, `sys_pipe_user` and
/// `sys_waitpid` besides the bytes they store in the caller's private
/// pages), every valid user page of any address space `other` whose frames
/// `a0` holds, copy-on-write pages shared with the writer among them,
/// reads the same from `m1` as from `m0`.
pub proof fn lemma_other_space_unchanged(
    other: MemorySet,
    a0: StackFrameAllocator,
    a1: StackFrameAllocator,
    m0: PhysMem,
    m1: PhysMem,
    v: usize,
)
    requires
        other.wf(),
        other.frames_held(&a0),
        only_fresh_changed(m0.bytes@, m1.bytes@, m0.base as int, a0, a1),
        m1.base == m0.base,
        v < VPN_LIMIT,
        other.page_table.entry(v).has_flag(FLAG_V),
        other.page_table.entry(v).has_flag(FLAG_U),
        page_frame_held(other.page_table, a0, v),
    ensures
        page_kept(other.page_table, m0, other.page_table, m1, v),
{
    if other.page_table.entry(v).spec_is_cow() {
        other.lemma_cow_frame_held(&a0, v);
    }
    lemma_page_kept_step(other.page_table, m0, other.page_table, m0, other.page_table, m1, a0, a1, v);
}

impl MemorySet {
    /// Makes every page of `[start_va, start_va + len)` private and writable
    /// before the kernel writes there: copy-on-write pages are resolved as a
    /// write fault would. Returns whether every page is a mapped, writable
    /// user page; it stops at the first page that is not. An empty range
    /// succeeds; a range whose end overflows fails.
    #[verifier::rlimit(40)]
    pub fn ensure_private_range(
        &mut self,
        start_va: usize,
        len: usize,
        alloc: &mut StackFrameAllocator,
        mem: &mut PhysMem,
    ) -> (ok: bool)
        requires
            old(self).wf(),
            old(self).frames_held(&*old(alloc)),
            alloc_fits(&*old(alloc)),
            old(mem).wf(),
            covers_alloc(*old(mem), *old(alloc)),
            start_va < va_limit(),
            start_va + len <= usize::MAX && (exists|v: usize|
                spec_floor(start_va) <= v < spec_ceil(spec_va((start_va + len) as usize))
                    && #[trigger] old(self).page_needs_copy(*old(alloc), v)) ==> old(alloc).free_frames()
                >= spec_ceil(spec_va((start_va + len) as usize)) - spec_floor(start_va),
        ensures
            only_fresh_changed(old(mem).bytes@, final(mem).bytes@, old(mem).base as int, *old(alloc), *final(alloc)),
            refs_grow(*old(alloc), *final(alloc)),
            final(self).wf(),
            final(self).frames_held(&*final(alloc)),
            alloc_fits(&*final(alloc)),
            final(mem).base == old(mem).base,
            final(mem).bytes@.len() == old(mem).bytes@.len(),
            covers_alloc(*final(mem), *final(alloc)),
            final(self).areas@.len() == old(self).areas@.len(),
            len == 0 ==> ok && *final(self) == *old(self),
            len > 0 && start_va + len > usize::MAX ==> !ok && *final(self) == *old(self),
            len > 0 && start_va + len <= usize::MAX ==> {
                let first = spec_floor(start_va);
                let last = spec_ceil(spec_va((start_va + len) as usize));
                &&& ok == forall|v: usize| first <= v < last ==> #[trigger] privatizable(old(self).page_table, v)
                &&& ok ==> forall|v: usize| first <= v < last ==> #[trigger] private_writable(final(self).page_table, v)
                &&& ok ==> forall|v: usize|
                    first <= v < last && #[trigger] page_frame_held(old(self).page_table, *old(alloc), v) ==> page_kept(
                        old(self).page_table,
                        *old(mem),
                        final(self).page_table,
                        *final(mem),
                        v,
                    )
            },
    {
        if len == 0 {
            return true;
        }
        let end = match start_va.checked_add(len) {
            Some(end) => end,
            None => return false,
        };
        let end_va = ((end as u64) % 0x80_0000_0000u64) as usize;
        let mut vpn = start_va / PAGE_SIZE;
        let end_vpn = ((end_va as u64 + 4095u64) / 4096u64) as usize;
        let ghost first = vpn;
        assert(end_va == spec_va(end));
        while vpn < end_vpn
            invariant
                first <= vpn,
                first == spec_floor(start_va),
                end_vpn == spec_ceil(spec_va(end)),
                end == start_va + len,
                self.wf(),
                self.frames_held(&*alloc),
                alloc_fits(&*alloc),
                mem.wf(),
                mem.base == old(mem).base,
                mem.bytes@.len() == old(mem).bytes@.len(),
                covers_alloc(*mem, *alloc),
                self.areas@.len() == old(self).areas@.len(),
                (exists|v: usize| first <= v < end_vpn && #[trigger] old(self).page_needs_copy(*old(alloc), v))
                    ==> (vpn < end_vpn ==> alloc.free_frames() >= end_vpn - vpn),
                forall|p: usize| #[trigger] alloc.refs().contains_key(p) && old(alloc).refs().contains_key(p)
                    ==> alloc.refs()[p] <= old(alloc).refs()[p],
                old(self).wf(),
                old(self).frames_held(&*old(alloc)),
                alloc_fits(&*old(alloc)),
                only_fresh_changed(old(mem).bytes@, mem.bytes@, old(mem).base as int, *old(alloc), *alloc),
                refs_grow(*old(alloc), *alloc),
                forall|v: usize| first <= v < vpn ==> #[trigger] privatizable(old(self).page_table, v),
                forall|v: usize| first <= v < vpn ==> #[trigger] private_writable(self.page_table, v),
                forall|v: usize| vpn <= v ==> #[trigger] self.page_table.spec_translate(v)
                    == old(self).page_table.spec_translate(v),
                forall|v: usize|
                    first <= v < vpn && #[trigger] page_frame_held(old(self).page_table, *old(alloc), v) ==> {
                        &&& alloc.refs().contains_key(self.page_table.entry(v).spec_ppn())
                        &&& page_kept(old(self).page_table, *old(mem), self.page_table, *mem, v)
                    },
                end_vpn <= VPN_LIMIT,
                len > 0,
            decreases end_vpn - vpn,
        {
            proof {
                assert(self.page_table.spec_translate(vpn) == old(self).page_table.spec_translate(vpn));
            }
            let pte = match self.page_table.translate(vpn) {
                Some(pte) => pte,
                None => {
                    assert(!privatizable(old(self).page_table, vpn));
                    return false;
                },
            };
            if !(pte.is_valid() && pte.user_accessible()) {
                assert(!privatizable(old(self).page_table, vpn));
                return false;
            }
            if pte.is_cow() {
                let ghost before = *self;
                let ghost a_before = *alloc;
                let ghost m_before = *mem;
                proof {
                    assert(vpn * PAGE_SIZE < va_limit());
                    assert(((vpn * PAGE_SIZE) as usize) / PAGE_SIZE == vpn);
                    let e = self.page_table.entry(vpn);
                    assert(old(self).page_table.entry(vpn) == e);
                    old(self).lemma_cow_frame_held(&*old(alloc), vpn);
                    self.lemma_cow_frame_held(&*alloc, vpn);
                    if self.page_needs_copy(*alloc, vpn) && !old(self).page_needs_copy(*old(alloc), vpn) {
                        assert(alloc.refs()[e.spec_ppn()] <= old(alloc).refs()[e.spec_ppn()]);
                    }
                }
                if !self.handle_cow_fault(vpn * PAGE_SIZE, alloc, mem) {
                    assert(false);
                    return false;
                }
                proof {
                    lemma_only_fresh_trans(old(mem).bytes@, m_before.bytes@, mem.bytes@, old(mem).base as int, *old(alloc),
                        a_before, *alloc);
                    assert forall|p: usize| #[trigger] alloc.refs().contains_key(p) && old(alloc).refs().contains_key(p)
                        implies alloc.refs()[p] <= old(alloc).refs()[p] by {
                        assert(old(alloc).refs()[p] > 0);
                        let old_ppn = before.page_table.entry(vpn).spec_ppn();
                        if a_before.refs()[old_ppn] > 1 {
                            let nf = self.page_table.entry(vpn).spec_ppn();
                            if p != nf {
                                assert(a_before.refs().contains_key(p));
                                assert(alloc.refs()[p] <= a_before.refs()[p]);
                            }
                        }
                    }
                    assert forall|v: usize| first <= v < vpn implies #[trigger] private_writable(self.page_table, v) by {
                        assert(self.page_table.spec_translate(v) == before.page_table.spec_translate(v));
                        assert(private_writable(before.page_table, v));
                    }
                    assert forall|v: usize| vpn + 1 <= v implies #[trigger] self.page_table.spec_translate(v)
                        == old(self).page_table.spec_translate(v) by {
                        assert(self.page_table.spec_translate(v) == before.page_table.spec_translate(v));
                    }
                    assert((before.page_table.entry(vpn).spec_flags() | FLAG_W | FLAG_V) & FLAG_U != 0
                        ==> true);
                    let f = before.page_table.entry(vpn).spec_flags();
                    assert(f & 0x10u8 != 0 ==> (f | 4u8 | 1u8) & 0x10u8 != 0) by (bit_vector);
                    assert((f | 4u8 | 1u8) & 1u8 != 0) by (bit_vector);
                    // Pages made private before keep their frames and contents.
                    assert forall|w: usize|
                        first <= w < vpn && #[trigger] page_frame_held(old(self).page_table, *old(alloc), w) implies {
                        &&& alloc.refs().contains_key(self.page_table.entry(w).spec_ppn())
                        &&& page_kept(old(self).page_table, *old(mem), self.page_table, *mem, w)
                    } by {
                        assert(self.page_table.spec_translate(w) == before.page_table.spec_translate(w));
                        assert(private_writable(before.page_table, w));
                        lemma_page_kept_step(old(self).page_table, *old(mem), before.page_table, m_before, self.page_table,
                            *mem, a_before, *alloc, w);
                    }
                    // This page reads as it did, from the frame it now holds.
                    lemma_page_kept_step(old(self).page_table, *old(mem), old(self).page_table, *old(mem),
                        before.page_table, m_before, *old(alloc), a_before, vpn);
                    assert(((vpn * PAGE_SIZE) as usize) as int == vpn * PAGE_SIZE);
                    assert(spec_floor((vpn * PAGE_SIZE) as usize) == vpn);
                    assert forall|off: int| 0 <= off < PAGE_SIZE implies #[trigger] user_byte(self.page_table, *mem,
                        vpn * PAGE_SIZE + off) == user_byte(old(self).page_table, *old(mem), vpn * PAGE_SIZE + off) by {
                        assert(user_byte(before.page_table, m_before, vpn * PAGE_SIZE + off) == user_byte(
                            old(self).page_table,
                            *old(mem),
                            vpn * PAGE_SIZE + off,
                        ));
                    }
                    let old_ppn = before.page_table.entry(vpn).spec_ppn();
                    assert(a_before.refs().contains_key(old_ppn));
                    assert(alloc.refs().contains_key(self.page_table.entry(vpn).spec_ppn()));
                }
            } else if !pte.writable() {
                assert(!privatizable(old(self).page_table, vpn));
                return false;
            } else {
                proof {
                    if page_frame_held(old(self).page_table, *old(alloc), vpn) {
                        assert(self.page_table.entry(vpn) == old(self).page_table.entry(vpn));
                        lemma_page_kept_step(old(self).page_table, *old(mem), old(self).page_table, *old(mem),
                            self.page_table, *mem, *old(alloc), *alloc, vpn);
                    }
                }
            }
            vpn = vpn + 1;
        }
        true
    }
}

/// Pages `[a.start_vpn, hi)` of `a` are mapped as the area says, none copy-on-write.
pub open spec fn mapped_prefix(pt: PageTable, a: MapArea, hi: int) -> bool {
    forall|v: usize| a.start_vpn <= v < hi ==> #[trigger] page_ok(pt, a, v) && !pt.entry(v).spec_is_cow()
}

impl MapArea {
    /// Maps every page of the area into `page_table`.
    #[verifier::rlimit(80)]
    pub fn map(&mut self, page_table: &mut PageTable, alloc: &mut StackFrameAllocator)
        requires
            old(self).shape_ok(),
            old(self).data_frames@.len() == 0,
            old(page_table).wf(),
            alloc_fits(&*old(alloc)),
            old(alloc).free_frames() >= 3 * (old(self).end_vpn - old(self).start_vpn),
            old(page_table).frames_allocated(&*old(alloc)),
            forall|v: usize| #[trigger] in_area(*old(self), v) ==> !old(page_table).entry(v).has_flag(FLAG_V),
        ensures
            alloc_fits(&*final(alloc)),
            final(page_table).wf(),
            final(page_table).frames_allocated(&*final(alloc)),
            final(page_table).root_ppn == old(page_table).root_ppn,
            final(alloc).free_frames() + 3 * (old(self).end_vpn - old(self).start_vpn) >= old(alloc).free_frames(),
            final(self).start_vpn == old(self).start_vpn,
            final(self).end_vpn == old(self).end_vpn,
            final(self).map_type == old(self).map_type,
            final(self).map_perm == old(self).map_perm,
            final(self).frames_cover(final(self).end_vpn as int),
            forall|v: usize| #[trigger] in_area(*final(self), v) ==> page_ok(*final(page_table), *final(self), v)
                && !final(page_table).entry(v).spec_is_cow(),
            forall|v: usize| !in_area(*old(self), v) && #[trigger] old(page_table).spec_translate(v).is_some()
                ==> final(page_table).spec_translate(v) == old(page_table).spec_translate(v),
            forall|v: usize| !in_area(*old(self), v) && #[trigger] final(page_table).spec_translate(v).is_some()
                ==> final(page_table).spec_translate(v) == old(page_table).spec_translate(v)
                || final(page_table).entry(v).bits == 0,
            forall|v: usize| old(page_table).has_leaf_table(v) ==> #[trigger] final(page_table).has_leaf_table(v),
            forall|p: usize| #[trigger] old(alloc).refs().contains_key(p) ==> final(alloc).refs().contains_key(p)
                && final(alloc).refs()[p] == old(alloc).refs()[p],
            forall|v: usize| #[trigger] final(self).data_frames@.contains_key(v) ==> final(alloc).refs().contains_key(
                final(self).data_frames@[v],
            ) && !old(alloc).refs().contains_key(final(self).data_frames@[v]),
            forall|v1: usize, v2: usize| #[trigger] final(self).data_frames@.contains_key(v1)
                && #[trigger] final(self).data_frames@.contains_key(v2) && v1 != v2
                ==> final(self).data_frames@[v1] != final(self).data_frames@[v2],
            final(page_table).frames@.subrange(0, old(page_table).frames@.len() as int) == old(page_table).frames@,
            old(page_table).frames@.len() <= final(page_table).frames@.len(),
            forall|k: int| old(page_table).frames@.len() <= k < final(page_table).frames@.len() ==> !old(alloc).refs().contains_key(
                #[trigger] final(page_table).frames@[k],
            ),
            forall|v: usize, k: int| #[trigger] final(self).data_frames@.contains_key(v)
                && old(page_table).frames@.len() <= k < final(page_table).frames@.len()
                ==> final(self).data_frames@[v] != #[trigger] final(page_table).frames@[k],
    {
        let mut vpn = self.start_vpn;
        let ghost pt0 = *page_table;
        let ghost a0 = *alloc;
        proof {
            if self.map_type == MapType::Framed {
                assert forall|v: usize| #[trigger] self.data_frames@.contains_key(v) <==> self.start_vpn <= v < vpn by {
                    if self.data_frames@.contains_key(v) {
                        assert(self.data_frames@.dom().contains(v));
                        vstd::set_lib::lemma_set_empty_equivalency_len(self.data_frames@.dom());
                    }
                }
            } else {
                assert forall|v: usize| !#[trigger] self.data_frames@.contains_key(v) by {
                    if self.data_frames@.contains_key(v) {
                        assert(self.data_frames@.dom().contains(v));
                        vstd::set_lib::lemma_set_empty_equivalency_len(self.data_frames@.dom());
                    }
                }
            }
        }
        assert forall|v: usize| vpn <= v < self.end_vpn implies !#[trigger] page_table.entry(v).has_flag(FLAG_V) by {
            assert(in_area(*old(self), v));
        }
        while vpn < self.end_vpn
            invariant
                self.shape_ok(),
                self.start_vpn == old(self).start_vpn,
                self.end_vpn == old(self).end_vpn,
                self.map_type == old(self).map_type,
                self.map_perm == old(self).map_perm,
                self.start_vpn <= vpn <= self.end_vpn,
                self.frames_cover(vpn as int),
                page_table.wf(),
                alloc_fits(&*alloc),
                page_table.frames_allocated(&*alloc),
                page_table.root_ppn == pt0.root_ppn,
                alloc.free_frames() >= 3 * (self.end_vpn - vpn),
                alloc.free_frames() + 3 * (vpn - self.start_vpn) >= a0.free_frames(),
                mapped_prefix(*page_table, *self, vpn as int),
                forall|v: usize| vpn <= v < self.end_vpn ==> !#[trigger] page_table.entry(v).has_flag(FLAG_V),
                forall|v: usize| !(self.start_vpn <= v < vpn) && #[trigger] pt0.spec_translate(v).is_some()
                    ==> page_table.spec_translate(v) == pt0.spec_translate(v),
                forall|v: usize| !(self.start_vpn <= v < vpn) && #[trigger] page_table.spec_translate(v).is_some()
                    ==> page_table.spec_translate(v) == pt0.spec_translate(v) || page_table.entry(v).bits == 0,
                forall|v: usize| pt0.has_leaf_table(v) ==> #[trigger] page_table.has_leaf_table(v),
                forall|p: usize| #[trigger] a0.refs().contains_key(p) ==> alloc.refs().contains_key(p)
                    && alloc.refs()[p] == a0.refs()[p],
                forall|v: usize| #[trigger] self.data_frames@.contains_key(v) ==> alloc.refs().contains_key(
                    self.data_frames@[v],
                ) && !a0.refs().contains_key(self.data_frames@[v]),
                forall|v1: usize, v2: usize| #[trigger] self.data_frames@.contains_key(v1)
                    && #[trigger] self.data_frames@.contains_key(v2) && v1 != v2
                    ==> self.data_frames@[v1] != self.data_frames@[v2],
                a0 == *old(alloc),
                pt0 == *old(page_table),
                page_table.frames@.subrange(0, pt0.frames@.len() as int) == pt0.frames@,
                pt0.frames@.len() <= page_table.frames@.len(),
                forall|k: int| pt0.frames@.len() <= k < page_table.frames@.len() ==> !a0.refs().contains_key(
                    #[trigger] page_table.frames@[k],
                ) && alloc.refs().contains_key(page_table.frames@[k]),
                forall|v: usize, k: int| #[trigger] self.data_frames@.contains_key(v)
                    && pt0.frames@.len() <= k < page_table.frames@.len()
                    ==> self.data_frames@[v] != #[trigger] page_table.frames@[k],
            decreases self.end_vpn - vpn,
        {
            let ghost pt1 = *page_table;
            let ghost a1 = *alloc;
            let ghost s1 = *self;
            self.map_one(page_table, vpn, alloc);
            proof {
                assert forall|v: usize| self.start_vpn <= v < vpn + 1 implies #[trigger] page_ok(*page_table, *self, v)
                    && !page_table.entry(v).spec_is_cow() by {
                    if v != vpn {
                        assert(page_ok(pt1, s1, v));
                        assert(pt1.spec_translate(v).is_some());
                        assert(page_table.spec_translate(v) == pt1.spec_translate(v));
                        assert(page_table.entry(v) == pt1.entry(v));
                        assert(page_table.has_leaf_table(v));
                        if self.map_type == MapType::Framed {
                            assert(s1.data_frames@.contains_key(v));
                            assert(self.data_frames@[v] == s1.data_frames@[v]);
                        }
                        assert(frame_of(*self, v) == frame_of(s1, v));
                    }
                }
                assert forall|v: usize| vpn + 1 <= v < self.end_vpn implies !#[trigger] page_table.entry(v).has_flag(FLAG_V) by {
                    assert(!pt1.entry(v).has_flag(FLAG_V));
                    if page_table.spec_translate(v).is_some() {
                        if page_table.entry(v).bits == 0 {
                            lemma_zero_entry_invalid(page_table.entry(v));
                        } else {
                            assert(page_table.spec_translate(v) == pt1.spec_translate(v));
                        }
                    } else {
                        lemma_no_table_no_entry(*page_table, v);
                        lemma_zero_entry_invalid(page_table.entry(v));
                    }
                }
                assert forall|v: usize| !(self.start_vpn <= v < vpn + 1) && #[trigger] pt0.spec_translate(v).is_some()
                    implies page_table.spec_translate(v) == pt0.spec_translate(v) by {
                    assert(pt1.spec_translate(v) == pt0.spec_translate(v));
                }
                assert forall|v: usize| !(self.start_vpn <= v < vpn + 1) && #[trigger] page_table.spec_translate(v).is_some()
                    implies page_table.spec_translate(v) == pt0.spec_translate(v) || page_table.entry(v).bits == 0 by {
                    if page_table.spec_translate(v) == pt1.spec_translate(v) {
                        assert(pt1.spec_translate(v).is_some());
                    }
                }
                assert forall|v: usize| pt0.has_leaf_table(v) implies #[trigger] page_table.has_leaf_table(v) by {
                    assert(pt1.has_leaf_table(v));
                }
                assert forall|p: usize| #[trigger] a0.refs().contains_key(p) implies alloc.refs().contains_key(p)
                    && alloc.refs()[p] == a0.refs()[p] by {
                    assert(a1.refs().contains_key(p));
                }
                assert forall|v: usize| #[trigger] self.data_frames@.contains_key(v) implies alloc.refs().contains_key(
                    self.data_frames@[v]) && !a0.refs().contains_key(self.data_frames@[v]) by {
                    if v != vpn {
                        assert(s1.data_frames@.contains_key(v));
                        assert(a1.refs().contains_key(s1.data_frames@[v]));
                    } else {
                        let f = self.data_frames@[vpn];
                        if a0.refs().contains_key(f) {
                            assert(a1.refs().contains_key(f));
                        }
                    }
                }
                assert forall|v1: usize, v2: usize| #[trigger] self.data_frames@.contains_key(v1)
                    && #[trigger] self.data_frames@.contains_key(v2) && v1 != v2
                    implies self.data_frames@[v1] != self.data_frames@[v2] by {
                    if v1 != vpn && v2 != vpn {
                        assert(s1.data_frames@.contains_key(v1));
                        assert(s1.data_frames@.contains_key(v2));
                    } else if v1 == vpn {
                        assert(s1.data_frames@.contains_key(v2));
                        assert(a1.refs().contains_key(s1.data_frames@[v2]));
                    } else {
                        assert(s1.data_frames@.contains_key(v1));
                        assert(a1.refs().contains_key(s1.data_frames@[v1]));
                    }
                }
                let n1 = pt1.frames@.len() as int;
                assert(page_table.frames@.subrange(0, pt0.frames@.len() as int) =~= pt0.frames@) by {
                    assert forall|k: int| 0 <= k < pt0.frames@.len() implies page_table.frames@[k] == pt0.frames@[k] by {
                        assert(page_table.frames@.subrange(0, n1)[k] == pt1.frames@[k]);
                        assert(pt1.frames@.subrange(0, pt0.frames@.len() as int)[k] == pt0.frames@[k]);
                    }
                }
                assert forall|k: int| pt0.frames@.len() <= k < page_table.frames@.len() implies !a0.refs().contains_key(
                    #[trigger] page_table.frames@[k]) && alloc.refs().contains_key(page_table.frames@[k]) by {
                    assert(page_table.frames_allocated(&*alloc));
                    if k < n1 {
                        assert(page_table.frames@.subrange(0, n1)[k] == pt1.frames@[k]);
                    } else {
                        if a0.refs().contains_key(page_table.frames@[k]) {
                            assert(a1.refs().contains_key(page_table.frames@[k]));
                        }
                    }
                }
                assert forall|v: usize, k: int| #[trigger] self.data_frames@.contains_key(v)
                    && pt0.frames@.len() <= k < page_table.frames@.len()
                    implies self.data_frames@[v] != #[trigger] page_table.frames@[k] by {
                    if k < n1 {
                        assert(page_table.frames@.subrange(0, n1)[k] == pt1.frames@[k]);
                        if v != vpn {
                            assert(s1.data_frames@.contains_key(v));
                        } else {
                            assert(alloc.refs().contains_key(pt1.frames@[k]));
                            assert(a1.refs().contains_key(pt1.frames@[k]));
                        }
                    } else {
                        if v != vpn {
                            assert(s1.data_frames@.contains_key(v));
                            assert(a1.refs().contains_key(s1.data_frames@[v]));
                        }
                    }
                }
                if self.map_type == MapType::Framed {
                    assert forall|v: usize| #[trigger] self.data_frames@.contains_key(v) <==> self.start_vpn <= v < vpn + 1 by {
                        if v != vpn {
                            assert(self.data_frames@.contains_key(v) == s1.data_frames@.contains_key(v));
                        }
                    }
                }
                assert(mapped_prefix(*page_table, *self, vpn + 1));
            }
            vpn = vpn + 1;
        }
    }
}

impl MemorySet {
    /// Maps `map_area` and adds it to the address space. The area must not
    /// overlap an existing one.
    pub fn push(&mut self, map_area: MapArea, alloc: &mut StackFrameAllocator)
        requires
            old(self).wf(),
            old(self).frames_held(&*old(alloc)),
            alloc_fits(&*old(alloc)),
            map_area.shape_ok(),
            map_area.data_frames@.len() == 0,
            forall|i: int| 0 <= i < old(self).areas@.len() ==> areas_disjoint(#[trigger] old(self).areas@[i], map_area),
            old(alloc).free_frames() >= 3 * (map_area.end_vpn - map_area.start_vpn),
        ensures
            final(self).wf(),
            final(self).frames_held(&*final(alloc)),
            alloc_fits(&*final(alloc)),
            final(alloc).free_frames() + 3 * (map_area.end_vpn - map_area.start_vpn) >= old(alloc).free_frames(),
            final(self).areas@.len() == old(self).areas@.len() + 1,
            forall|i: int| 0 <= i < old(self).areas@.len() ==> #[trigger] final(self).areas@[i] == old(self).areas@[i],
            ({
                let a = final(self).areas@[old(self).areas@.len() as int];
                &&& a.start_vpn == map_area.start_vpn
                &&& a.end_vpn == map_area.end_vpn
                &&& a.map_type == map_area.map_type
                &&& a.map_perm == map_area.map_perm
            }),
            forall|v: usize| !in_area(map_area, v) ==> #[trigger] final(self).page_table.entry(v)
                == old(self).page_table.entry(v),
            forall|p: usize| #[trigger] old(alloc).refs().contains_key(p) ==> final(alloc).refs().contains_key(p)
                && final(alloc).refs()[p] == old(alloc).refs()[p],
            forall|v: usize| #[trigger] final(self).areas@[old(self).areas@.len() as int].data_frames@.contains_key(v)
                ==> !old(alloc).refs().contains_key(final(self).areas@[old(self).areas@.len() as int].data_frames@[v]),
    {
        let mut map_area = map_area;
        let ghost ms0 = *self;
        let ghost a0 = *alloc;
        proof {
            assert forall|v: usize| #[trigger] in_area(map_area, v) implies !self.page_table.entry(v).has_flag(FLAG_V) by {
                if self.page_table.entry(v).has_flag(FLAG_V) {
                    assert(v != TRAMPOLINE_VPN);
                    assert(self.covers(v));
                    let i = choose|i: int| 0 <= i < self.areas@.len() && #[trigger] in_area(self.areas@[i], v);
                    assert(areas_disjoint(self.areas@[i], map_area));
                }
            }
        }
        map_area.map(&mut self.page_table, alloc);
        self.areas.push(map_area);
        proof {
            let n = ms0.areas@.len() as int;
            assert(self.areas@[n] == map_area);
            assert forall|i: int| 0 <= i < n implies #[trigger] self.areas@[i] == ms0.areas@[i] by {}
            assert forall|v: usize| !in_area(map_area, v) implies #[trigger] self.page_table.entry(v)
                == ms0.page_table.entry(v) by {
                if self.page_table.spec_translate(v).is_some() {
                    if self.page_table.spec_translate(v) != ms0.page_table.spec_translate(v) {
                        assert(self.page_table.entry(v).bits == 0);
                        if ms0.page_table.has_leaf_table(v) {
                            assert(ms0.page_table.spec_translate(v).is_some());
                        } else {
                            lemma_no_table_no_entry(ms0.page_table, v);
                        }
                    }
                } else {
                    lemma_no_table_no_entry(self.page_table, v);
                    if ms0.page_table.has_leaf_table(v) {
                        assert(self.page_table.has_leaf_table(v));
                    }
                    lemma_no_table_no_entry(ms0.page_table, v);
                }
            }
            assert forall|v: usize| #[trigger] ms0.page_table.has_leaf_table(v) implies self.page_table.has_leaf_table(v) by {}
            assert forall|i: int| 0 <= i < self.areas@.len() implies (#[trigger] self.areas@[i]).shape_ok()
                && self.areas@[i].frames_cover(self.areas@[i].end_vpn as int) by {
                if i < n {
                    assert(ms0.areas@[i].shape_ok());
                }
            }
            assert forall|i: int, j: int|
                0 <= i < self.areas@.len() && 0 <= j < self.areas@.len() && i != j implies areas_disjoint(
                #[trigger] self.areas@[i],
                #[trigger] self.areas@[j],
            ) by {
                if i < n && j < n {
                    assert(areas_disjoint(ms0.areas@[i], ms0.areas@[j]));
                } else if i < n {
                    assert(areas_disjoint(ms0.areas@[i], map_area));
                } else {
                    assert(areas_disjoint(ms0.areas@[j], map_area));
                }
            }
            assert forall|i: int, v: usize|
                0 <= i < self.areas@.len() && #[trigger] in_area(self.areas@[i], v) implies page_ok(
                self.page_table,
                self.areas@[i],
                v,
            ) && (self.page_table.entry(v).spec_is_cow() ==> self.areas@[i].map_type == MapType::Framed) by {
                if i < n {
                    assert(in_area(ms0.areas@[i], v));
                    assert(page_ok(ms0.page_table, ms0.areas@[i], v));
                    assert(areas_disjoint(ms0.areas@[i], map_area));
                    assert(!in_area(map_area, v));
                    assert(self.page_table.entry(v) == ms0.page_table.entry(v));
                    assert(self.page_table.has_leaf_table(v));
                } else {
                    assert(in_area(map_area, v));
                }
            }
            assert forall|v: usize|
                #![trigger self.page_table.entry(v)]
                self.page_table.entry(v).has_flag(FLAG_V) && v != TRAMPOLINE_VPN implies self.covers(v) by {
                if in_area(map_area, v) {
                    assert(in_area(self.areas@[n], v));
                } else {
                    assert(self.page_table.entry(v) == ms0.page_table.entry(v));
                    assert(ms0.covers(v));
                    let i = choose|i: int| 0 <= i < ms0.areas@.len() && #[trigger] in_area(ms0.areas@[i], v);
                    assert(in_area(self.areas@[i], v));
                }
            }
            assert(!in_area(map_area, TRAMPOLINE_VPN));
            assert(self.page_table.entry(TRAMPOLINE_VPN) == ms0.page_table.entry(TRAMPOLINE_VPN));
            assert forall|i: int, v: usize|
                0 <= i < self.areas@.len() && #[trigger] self.areas@[i].data_frames@.contains_key(v)
                implies alloc.refs().contains_key(self.areas@[i].data_frames@[v]) by {
                if i < n {
                    assert(a0.refs().contains_key(ms0.areas@[i].data_frames@[v]));
                }
            }
            let n0 = ms0.page_table.frames@.len() as int;
            assert forall|k: int| 0 <= k < n0 implies #[trigger] self.page_table.frames@[k] == ms0.page_table.frames@[k] by {
                assert(self.page_table.frames@.subrange(0, n0)[k] == ms0.page_table.frames@[k]);
            }
            assert forall|i: int, v: usize, k: int|
                0 <= i < self.areas@.len() && #[trigger] self.areas@[i].data_frames@.contains_key(v)
                    && 0 <= k < self.page_table.frames@.len() implies self.areas@[i].data_frames@[v]
                != #[trigger] self.page_table.frames@[k] by {
                if i < n {
                    assert(a0.refs().contains_key(ms0.areas@[i].data_frames@[v]));
                    if k < n0 {
                        assert(self.page_table.frames@[k] == ms0.page_table.frames@[k]);
                    }
                } else {
                    if k < n0 {
                        assert(self.page_table.frames@[k] == ms0.page_table.frames@[k]);
                        assert(a0.refs().contains_key(ms0.page_table.frames@[k]));
                    }
                }
            }
            assert forall|i1: int, v1: usize, i2: int, v2: usize|
                0 <= i1 < self.areas@.len() && 0 <= i2 < self.areas@.len()
                    && self.areas@[i1].data_frames@.contains_key(v1)
                    && self.areas@[i2].data_frames@.contains_key(v2) && (i1 != i2 || v1 != v2)
                implies #[trigger] self.areas@[i1].data_frames@[v1] != #[trigger] self.areas@[i2].data_frames@[v2] by {
                if i1 < n && i2 < n {
                } else if i1 < n {
                    assert(a0.refs().contains_key(ms0.areas@[i1].data_frames@[v1]));
                } else if i2 < n {
                    assert(a0.refs().contains_key(ms0.areas@[i2].data_frames@[v2]));
                }
            }
        }
    }

    /// Maps the trampoline page to frame `trampoline_ppn`, readable and
    /// executable by the kernel only. The trampoline is not an area.
    pub fn map_trampoline(&mut self, trampoline_ppn: usize, alloc: &mut StackFrameAllocator)
        requires
            old(self).wf(),
            old(self).frames_held(&*old(alloc)),
            alloc_fits(&*old(alloc)),
            old(alloc).free_frames() >= 2,
            !old(self).page_table.entry(TRAMPOLINE_VPN).has_flag(FLAG_V),
        ensures
            final(self).wf(),
            final(self).frames_held(&*final(alloc)),
            alloc_fits(&*final(alloc)),
            final(alloc).free_frames() + 2 >= old(alloc).free_frames(),
            final(self).areas@ == old(self).areas@,
            final(self).page_table.spec_translate(TRAMPOLINE_VPN) == Some(
                PageTableEntry { bits: spec_entry_bits(trampoline_ppn, FLAG_R | FLAG_X | FLAG_V) },
            ),
            forall|v: usize| v != TRAMPOLINE_VPN ==> #[trigger] final(self).page_table.entry(v)
                == old(self).page_table.entry(v),
            forall|p: usize| #[trigger] old(alloc).refs().contains_key(p) ==> final(alloc).refs().contains_key(p)
                && final(alloc).refs()[p] == old(alloc).refs()[p],
            old(self).page_table.frames@.len() <= final(self).page_table.frames@.len(),
            final(self).page_table.frames@.subrange(0, old(self).page_table.frames@.len() as int)
                == old(self).page_table.frames@,
            forall|k: int| old(self).page_table.frames@.len() <= k < final(self).page_table.frames@.len()
                ==> !old(alloc).refs().contains_key(#[trigger] final(self).page_table.frames@[k]),
    {
        let ghost ms0 = *self;
        let ghost a0 = *alloc;
        self.page_table.map(TRAMPOLINE_VPN, trampoline_ppn, PTEFlags::from_bits(FLAG_R | FLAG_X), alloc);
        proof {
            let p = trampoline_ppn as u64;
            assert(((p << 10u64) | ((((2u8 | 8u8) | 1u8) as u8) as u64)) as u8 & 0x10u8 == 0) by (bit_vector);
            assert(self.page_table.entry(TRAMPOLINE_VPN).bits == spec_entry_bits(trampoline_ppn, (FLAG_R | FLAG_X) | FLAG_V));
            assert forall|v: usize| v != TRAMPOLINE_VPN implies #[trigger] self.page_table.entry(v)
                == ms0.page_table.entry(v) by {
                if self.page_table.spec_translate(v).is_some() {
                    if self.page_table.spec_translate(v) != ms0.page_table.spec_translate(v) {
                        if ms0.page_table.has_leaf_table(v) {
                            assert(ms0.page_table.spec_translate(v).is_some());
                        } else {
                            lemma_no_table_no_entry(ms0.page_table, v);
                        }
                    }
                } else {
                    lemma_no_table_no_entry(self.page_table, v);
                    if ms0.page_table.has_leaf_table(v) {
                        assert(self.page_table.has_leaf_table(v));
                    }
                    lemma_no_table_no_entry(ms0.page_table, v);
                }
            }
            assert forall|i: int, v: usize|
                0 <= i < self.areas@.len() && #[trigger] in_area(self.areas@[i], v) implies page_ok(
                self.page_table,
                self.areas@[i],
                v,
            ) by {
                assert(page_ok(ms0.page_table, ms0.areas@[i], v));
                assert(ms0.areas@[i].shape_ok());
                assert(self.page_table.entry(v) == ms0.page_table.entry(v));
                assert(ms0.page_table.has_leaf_table(v));
            }
            assert forall|i: int, v: usize|
                0 <= i < self.areas@.len() && #[trigger] in_area(self.areas@[i], v)
                    && self.page_table.entry(v).spec_is_cow() implies self.areas@[i].map_type
                == MapType::Framed by {
                assert(ms0.areas@[i].shape_ok());
                assert(self.page_table.entry(v) == ms0.page_table.entry(v));
            }
            assert forall|v: usize|
                #![trigger self.page_table.entry(v)]
                self.page_table.entry(v).has_flag(FLAG_V) && v != TRAMPOLINE_VPN implies self.covers(v) by {
                assert(self.page_table.entry(v) == ms0.page_table.entry(v));
                assert(ms0.covers(v));
            }
            assert forall|i: int, v: usize|
                0 <= i < self.areas@.len() && #[trigger] self.areas@[i].data_frames@.contains_key(v)
                implies alloc.refs().contains_key(self.areas@[i].data_frames@[v]) by {
                assert(a0.refs().contains_key(ms0.areas@[i].data_frames@[v]));
            }
            let n0 = ms0.page_table.frames@.len() as int;
            assert forall|k: int| 0 <= k < n0 implies #[trigger] self.page_table.frames@[k] == ms0.page_table.frames@[k] by {
                assert(self.page_table.frames@.subrange(0, n0)[k] == ms0.page_table.frames@[k]);
            }
            assert forall|i: int, v: usize, k: int|
                0 <= i < self.areas@.len() && #[trigger] self.areas@[i].data_frames@.contains_key(v)
                    && 0 <= k < self.page_table.frames@.len() implies self.areas@[i].data_frames@[v]
                != #[trigger] self.page_table.frames@[k] by {
                assert(a0.refs().contains_key(ms0.areas@[i].data_frames@[v]));
                if k < n0 {
                    assert(self.page_table.frames@[k] == ms0.page_table.frames@[k]);
                }
            }
        }
    }

    /// Adds a framed area over `[start_va, end_va)` with rights `permission`.
    pub fn insert_framed_area(
        &mut self,
        start_va: usize,
        end_va: usize,
        permission: MapPermission,
        alloc: &mut StackFrameAllocator,
    )
        requires
            old(self).wf(),
            old(self).frames_held(&*old(alloc)),
            alloc_fits(&*old(alloc)),
            spec_floor(start_va) <= spec_ceil(end_va) <= TRAMPOLINE_VPN,
            end_va as int + PAGE_SIZE - 1 <= usize::MAX,
            permission.bits & !MAP_PERM_MASK == 0,
            forall|i: int| 0 <= i < old(self).areas@.len() ==> areas_disjoint(
                #[trigger] old(self).areas@[i],
                MapArea {
                    start_vpn: spec_floor(start_va),
                    end_vpn: spec_ceil(end_va),
                    data_frames: old(self).areas@[i].data_frames,
                    map_type: MapType::Framed,
                    map_perm: permission,
                },
            ),
            old(alloc).free_frames() >= 3 * (spec_ceil(end_va) - spec_floor(start_va)),
        ensures
            final(self).wf(),
            final(self).frames_held(&*final(alloc)),
            alloc_fits(&*final(alloc)),
            final(self).areas@.len() == old(self).areas@.len() + 1,
            forall|i: int| 0 <= i < old(self).areas@.len() ==> #[trigger] final(self).areas@[i] == old(self).areas@[i],
            ({
                let a = final(self).areas@[old(self).areas@.len() as int];
                &&& a.start_vpn == spec_floor(start_va)
                &&& a.end_vpn == spec_ceil(end_va)
                &&& a.map_type == MapType::Framed
                &&& a.map_perm == permission
            }),
    {
        let area = MapArea::new(start_va, end_va, MapType::Framed, permission);
        proof {
            assert(area.data_frames@.len() == 0);
            assert forall|i: int| 0 <= i < self.areas@.len() implies areas_disjoint(#[trigger] self.areas@[i], area) by {
                assert(areas_disjoint(self.areas@[i], MapArea {
                    start_vpn: spec_floor(start_va),
                    end_vpn: spec_ceil(end_va),
                    data_frames: self.areas@[i].data_frames,
                    map_type: MapType::Framed,
                    map_perm: permission,
                }));
            }
        }
        self.push(area, alloc);
    }
}

/// Reference counts after every frame of `frames` loses one owner.
pub open spec fn released(old_refs: Map<usize, usize>, new_refs: Map<usize, usize>, frames: Map<usize, usize>) -> bool {
    &&& forall|p: usize| #![trigger new_refs.contains_key(p)]
        (forall|v: usize| #[trigger] frames.contains_key(v) ==> frames[v] != p) ==> (new_refs.contains_key(p)
            == old_refs.contains_key(p) && (old_refs.contains_key(p) ==> new_refs[p] == old_refs[p]))
    &&& forall|v: usize| #[trigger] frames.contains_key(v) ==> {
        let p = frames[v];
        &&& new_refs.contains_key(p) == (old_refs[p] > 1)
        &&& new_refs.contains_key(p) ==> new_refs[p] == old_refs[p] - 1
    }
}

impl MapArea {
    /// Unmaps page `vpn`; a framed area lets go of the page's frame.
    pub fn unmap_one(&mut self, page_table: &mut PageTable, vpn: usize, alloc: &mut StackFrameAllocator)
        requires
            in_area(*old(self), vpn),
            old(self).shape_ok(),
            old(page_table).wf(),
            old(alloc).wf(),
            page_ok(*old(page_table), *old(self), vpn),
            old(self).map_type == MapType::Framed ==> old(self).data_frames@.contains_key(vpn)
                && old(alloc).refs().contains_key(old(self).data_frames@[vpn]),
            old(self).map_type != MapType::Framed ==> !old(self).data_frames@.contains_key(vpn),
        ensures
            final(page_table).wf(),
            final(alloc).wf(),
            final(alloc).end == old(alloc).end,
            final(alloc).free_frames() >= old(alloc).free_frames(),
            final(page_table).root_ppn == old(page_table).root_ppn,
            final(page_table).frames@ == old(page_table).frames@,
            forall|v: usize| #[trigger] final(page_table).has_leaf_table(v) == old(page_table).has_leaf_table(v),
            final(page_table).spec_translate(vpn) == Some(PageTableEntry { bits: 0 }),
            forall|v: usize| v != vpn ==> #[trigger] final(page_table).spec_translate(v)
                == old(page_table).spec_translate(v),
            final(self).start_vpn == old(self).start_vpn,
            final(self).end_vpn == old(self).end_vpn,
            final(self).map_type == old(self).map_type,
            final(self).map_perm == old(self).map_perm,
            final(self).data_frames@ == old(self).data_frames@.remove(vpn),
            old(self).map_type == MapType::Framed ==> final(alloc).refs() == after_dealloc(
                old(alloc).refs(),
                old(self).data_frames@[vpn],
            ),
            old(self).map_type != MapType::Framed ==> *final(alloc) == *old(alloc),
    {
        let ghost df0 = self.data_frames@;
        if self.map_type == MapType::Framed {
            let frame = self.data_frames.remove(&vpn).unwrap();
            alloc.dealloc(frame);
        }
        proof {
            let e = page_table.entry(vpn);
            assert(e.spec_flags() == page_flags(self.map_perm.bits, e.spec_is_cow()));
            let m = self.map_perm.bits;
            assert(((m & !4u8) | 1u8) & 1u8 != 0) by (bit_vector);
            assert((m | 1u8) & 1u8 != 0) by (bit_vector);
            assert(self.data_frames@ =~= df0.remove(vpn));
        }
        page_table.unmap(vpn);
    }
}

impl MemorySet {
    /// Unmaps every page of area `ai`, letting go of its frames, and
    /// removes the area.
    #[verifier::spinoff_prover]
    pub(crate) fn remove_area_at(&mut self, ai: usize, alloc: &mut StackFrameAllocator)
        requires
            old(self).wf(),
            old(self).frames_held(&*old(alloc)),
            alloc_fits(&*old(alloc)),
            ai < old(self).areas@.len(),
        ensures
            final(self).wf(),
            final(self).frames_held(&*final(alloc)),
            alloc_fits(&*final(alloc)),
            final(alloc).free_frames() >= old(alloc).free_frames(),
            final(self).areas@ == old(self).areas@.remove(ai as int),
            forall|v: usize| #[trigger] in_area(old(self).areas@[ai as int], v) ==> final(self).page_table.spec_translate(v)
                == Some(PageTableEntry { bits: 0 }),
            forall|v: usize| !in_area(old(self).areas@[ai as int], v) ==> #[trigger] final(self).page_table.spec_translate(v)
                == old(self).page_table.spec_translate(v),
            released(old(alloc).refs(), final(alloc).refs(), old(self).areas@[ai as int].data_frames@),
    {
        let ghost ms0 = *self;
        let ghost a0 = *alloc;
        let ghost area0 = self.areas@[ai as int];
        let start = self.areas[ai].start_vpn;
        let end = self.areas[ai].end_vpn;
        let mut vpn = start;
        proof {
            assert(area0.shape_ok());
            assert(area0.frames_cover(area0.end_vpn as int));
        }
        while vpn < end
            invariant
                start == area0.start_vpn,
                end == area0.end_vpn,
                start <= vpn <= end,
                area0.shape_ok(),
                area0.frames_cover(area0.end_vpn as int),
                ai < self.areas@.len(),
                self.areas@.len() == ms0.areas@.len(),
                ms0.areas@[ai as int] == area0,
                forall|i: int| 0 <= i < self.areas@.len() && i != ai ==> #[trigger] self.areas@[i] == ms0.areas@[i],
                self.areas@[ai as int].start_vpn == start,
                self.areas@[ai as int].end_vpn == end,
                self.areas@[ai as int].map_type == area0.map_type,
                self.areas@[ai as int].map_perm == area0.map_perm,
                self.areas@[ai as int].data_frames@ == area0.data_frames@.restrict(
                    Set::new(|v: usize| vpn <= v < end),
                ),
                self.page_table.wf(),
                alloc.wf(),
                alloc.end == a0.end,
                alloc.free_frames() >= a0.free_frames(),
                self.page_table.root_ppn == ms0.page_table.root_ppn,
                self.page_table.frames@ == ms0.page_table.frames@,
                forall|v: usize| #[trigger] self.page_table.has_leaf_table(v) == ms0.page_table.has_leaf_table(v),
                forall|v: usize| start <= v < vpn ==> #[trigger] self.page_table.spec_translate(v)
                    == Some(PageTableEntry { bits: 0 }),
                forall|v: usize| !(start <= v < vpn) ==> #[trigger] self.page_table.spec_translate(v)
                    == ms0.page_table.spec_translate(v),
                ms0.wf(),
                ms0.frames_held(&a0),
                released(a0.refs(), alloc.refs(), area0.data_frames@.restrict(Set::new(|v: usize| start <= v < vpn))),
            decreases end - vpn,
        {
            proof {
                assert(in_area(ms0.areas@[ai as int], vpn));
                assert(page_ok(ms0.page_table, area0, vpn));
                assert(self.page_table.spec_translate(vpn) == ms0.page_table.spec_translate(vpn));
                assert(self.page_table.entry(vpn) == ms0.page_table.entry(vpn));
                if area0.map_type == MapType::Framed {
                    assert(area0.data_frames@.contains_key(vpn));
                    assert(a0.refs().contains_key(area0.data_frames@[vpn]));
                    let done = area0.data_frames@.restrict(Set::new(|v: usize| start <= v < vpn));
                    assert forall|v: usize| #[trigger] done.contains_key(v) implies done[v] != area0.data_frames@[vpn] by {
                        assert(ms0.areas@[ai as int].data_frames@.contains_key(v));
                        assert(ms0.areas@[ai as int].data_frames@[v] != ms0.areas@[ai as int].data_frames@[vpn]);
                    }
                    assert(alloc.refs().contains_key(area0.data_frames@[vpn]));
                } else {
                    assert(!area0.data_frames@.contains_key(vpn));
                }
            }
            let ghost a1 = *alloc;
            self.areas[ai].unmap_one(&mut self.page_table, vpn, alloc);
            proof {
                let done = area0.data_frames@.restrict(Set::new(|v: usize| start <= v < vpn));
                let done2 = area0.data_frames@.restrict(Set::new(|v: usize| start <= v < vpn + 1));
                if area0.map_type == MapType::Framed {
                    let f = area0.data_frames@[vpn];
                    assert(done2 =~= done.insert(vpn, f));
                    assert forall|p: usize| #![trigger alloc.refs().contains_key(p)]
                        (forall|v: usize| #[trigger] done2.contains_key(v) ==> done2[v] != p) implies (alloc.refs().contains_key(p)
                        == a0.refs().contains_key(p) && (a0.refs().contains_key(p) ==> alloc.refs()[p] == a0.refs()[p])) by {
                        assert(done2.contains_key(vpn));
                        assert forall|v: usize| #[trigger] done.contains_key(v) implies done[v] != p by {
                            assert(done2.contains_key(v));
                        }
                        assert(a1.refs().contains_key(p) == a0.refs().contains_key(p));
                    }
                    assert forall|v: usize| #[trigger] done2.contains_key(v) implies ({
                        let p = done2[v];
                        &&& alloc.refs().contains_key(p) == (a0.refs()[p] > 1)
                        &&& alloc.refs().contains_key(p) ==> alloc.refs()[p] == a0.refs()[p] - 1
                    }) by {
                        if v == vpn {
                            assert forall|w: usize| #[trigger] done.contains_key(w) implies done[w] != f by {}
                            assert(a1.refs().contains_key(f) == a0.refs().contains_key(f));
                        } else {
                            assert(done.contains_key(v));
                            assert(ms0.areas@[ai as int].data_frames@.contains_key(v));
                            assert(done[v] != f);
                            assert(a1.refs().contains_key(done[v]) == (a0.refs()[done[v]] > 1));
                        }
                    }
                } else {
                    assert(done2 =~= done) by {
                        assert forall|v: usize| !#[trigger] area0.data_frames@.contains_key(v) by {}
                    }
                }
                assert(self.areas@[ai as int].data_frames@ =~= area0.data_frames@.restrict(
                    Set::new(|v: usize| vpn + 1 <= v < end)));
            }
            vpn = vpn + 1;
        }
        let ghost pre = *self;
        self.areas.remove(ai);
        proof {
            let n = ms0.areas@.len() as int;
            assert forall|i: int| 0 <= i < self.areas@.len() implies #[trigger] self.areas@[i] == ms0.areas@[if i < ai { i } else { i + 1 }] by {
                if i < ai {
                    assert(self.areas@[i] == pre.areas@[i]);
                } else {
                    assert(self.areas@[i] == pre.areas@[i + 1]);
                }
            }
            assert(self.areas@ =~= ms0.areas@.remove(ai as int));
            assert forall|v: usize| #[trigger] self.page_table.entry(v) == (if in_area(area0, v) {
                PageTableEntry { bits: 0 }
            } else {
                ms0.page_table.entry(v)
            }) by {
                if in_area(area0, v) {
                    assert(self.page_table.spec_translate(v) == Some(PageTableEntry { bits: 0 }));
                } else {
                    assert(self.page_table.spec_translate(v) == ms0.page_table.spec_translate(v));
                    if !self.page_table.has_leaf_table(v) {
                        lemma_no_table_no_entry(self.page_table, v);
                        lemma_no_table_no_entry(ms0.page_table, v);
                    }
                }
            }
            assert forall|i: int| 0 <= i < self.areas@.len() implies (#[trigger] self.areas@[i]).shape_ok()
                && self.areas@[i].frames_cover(self.areas@[i].end_vpn as int) by {
                let j = if i < ai { i } else { i + 1 };
                assert(ms0.areas@[j].shape_ok());
            }
            assert forall|i: int, j: int|
                0 <= i < self.areas@.len() && 0 <= j < self.areas@.len() && i != j implies areas_disjoint(
                #[trigger] self.areas@[i],
                #[trigger] self.areas@[j],
            ) by {
                let i2 = if i < ai { i } else { i + 1 };
                let j2 = if j < ai { j } else { j + 1 };
                assert(areas_disjoint(ms0.areas@[i2], ms0.areas@[j2]));
            }
            assert forall|i: int, v: usize|
                0 <= i < self.areas@.len() && #[trigger] in_area(self.areas@[i], v) implies page_ok(
                self.page_table,
                self.areas@[i],
                v,
            ) && (self.page_table.entry(v).spec_is_cow() ==> self.areas@[i].map_type == MapType::Framed) by {
                let i2 = if i < ai { i } else { i + 1 };
                assert(in_area(ms0.areas@[i2], v));
                assert(areas_disjoint(ms0.areas@[i2], area0));
                assert(!in_area(area0, v));
                assert(page_ok(ms0.page_table, ms0.areas@[i2], v));
                assert(self.page_table.entry(v) == ms0.page_table.entry(v));
            }
            assert forall|v: usize|
                #![trigger self.page_table.entry(v)]
                self.page_table.entry(v).has_flag(FLAG_V) && v != TRAMPOLINE_VPN implies self.covers(v) by {
                if in_area(area0, v) {
                    lemma_zero_entry_invalid(self.page_table.entry(v));
                } else {
                    assert(ms0.page_table.entry(v).has_flag(FLAG_V));
                    assert(ms0.covers(v));
                    let j = choose|j: int| 0 <= j < ms0.areas@.len() && #[trigger] in_area(ms0.areas@[j], v);
                    assert(j != ai);
                    let i = if j < ai { j } else { j - 1 };
                    assert(self.areas@[i] == ms0.areas@[j]);
                    assert(in_area(self.areas@[i], v));
                }
            }
            assert(!in_area(area0, TRAMPOLINE_VPN));
            assert(self.page_table.entry(TRAMPOLINE_VPN) == ms0.page_table.entry(TRAMPOLINE_VPN));
            // frames
            assert forall|k: int| 0 <= k < self.page_table.frames@.len() implies alloc.refs().contains_key(
                #[trigger] self.page_table.frames@[k]) by {
                let p = self.page_table.frames@[k];
                assert(a0.refs().contains_key(p));
                assert forall|v: usize| #[trigger] area0.data_frames@.contains_key(v) implies area0.data_frames@[v] != p by {
                    assert(ms0.areas@[ai as int].data_frames@.contains_key(v));
                    assert(ms0.areas@[ai as int].data_frames@[v] != ms0.page_table.frames@[k]);
                }
                assert(area0.data_frames@.restrict(Set::new(|v: usize| start <= v < end)) =~= area0.data_frames@) by {
                    assert forall|v: usize| #[trigger] area0.data_frames@.contains_key(v) implies start <= v < end by {}
                }
                assert(alloc.refs().contains_key(p));
            }
            assert(area0.data_frames@.restrict(Set::new(|v: usize| start <= v < end)) =~= area0.data_frames@) by {
                assert forall|v: usize| #[trigger] area0.data_frames@.contains_key(v) implies start <= v < end by {}
            }
            assert forall|i: int, v: usize|
                0 <= i < self.areas@.len() && #[trigger] self.areas@[i].data_frames@.contains_key(v)
                implies alloc.refs().contains_key(self.areas@[i].data_frames@[v]) by {
                let j = if i < ai { i } else { i + 1 };
                let p = ms0.areas@[j].data_frames@[v];
                assert(a0.refs().contains_key(p));
                assert forall|w: usize| #[trigger] area0.data_frames@.contains_key(w) implies area0.data_frames@[w] != p by {
                    assert(ms0.areas@[ai as int].data_frames@.contains_key(w));
                    assert(ms0.areas@[j].data_frames@.contains_key(v));
                    assert(ms0.areas@[ai as int].data_frames@[w] != ms0.areas@[j].data_frames@[v]);
                }
                assert(alloc.refs().contains_key(p));
            }
            assert forall|i: int, v: usize, k: int|
                0 <= i < self.areas@.len() && #[trigger] self.areas@[i].data_frames@.contains_key(v)
                    && 0 <= k < self.page_table.frames@.len() implies self.areas@[i].data_frames@[v]
                != #[trigger] self.page_table.frames@[k] by {
                let j = if i < ai { i } else { i + 1 };
                assert(ms0.areas@[j].data_frames@.contains_key(v));
            }
            assert forall|i1: int, v1: usize, i2: int, v2: usize|
                0 <= i1 < self.areas@.len() && 0 <= i2 < self.areas@.len()
                    && self.areas@[i1].data_frames@.contains_key(v1)
                    && self.areas@[i2].data_frames@.contains_key(v2) && (i1 != i2 || v1 != v2)
                implies #[trigger] self.areas@[i1].data_frames@[v1] != #[trigger] self.areas@[i2].data_frames@[v2] by {
                let j1 = if i1 < ai { i1 } else { i1 + 1 };
                let j2 = if i2 < ai { i2 } else { i2 + 1 };
                assert(ms0.areas@[j1].data_frames@.contains_key(v1));
                assert(ms0.areas@[j2].data_frames@.contains_key(v2));
            }
        }
    }
}

/// Index of the first area of `areas` that starts at page `start`, or -1.
pub open spec fn first_area_starting(areas: Seq<MapArea>, start: usize) -> int {
    if exists|i: int| 0 <= i < areas.len() && areas[i].start_vpn == start {
        choose|i: int| 0 <= i < areas.len() && areas[i].start_vpn == start && forall|j: int|
            0 <= j < i ==> areas[j].start_vpn != start
    } else {
        -1
    }
}

impl MemorySet {
    /// Unmaps and removes the first area that starts at page `start_vpn`,
    /// letting go of its frames; nothing happens when there is none.
    pub fn remove_area_with_start_vpn(&mut self, start_vpn: usize, alloc: &mut StackFrameAllocator)
        requires
            old(self).wf(),
            old(self).frames_held(&*old(alloc)),
            alloc_fits(&*old(alloc)),
        ensures
            final(self).wf(),
            final(self).frames_held(&*final(alloc)),
            alloc_fits(&*final(alloc)),
            ({
                let ai = first_area_starting(old(self).areas@, start_vpn);
                if ai < 0 {
                    *final(self) == *old(self) && *final(alloc) == *old(alloc)
                } else {
                    &&& final(self).areas@ == old(self).areas@.remove(ai)
                    &&& forall|v: usize| #[trigger] in_area(old(self).areas@[ai], v) ==> final(self).page_table.spec_translate(v)
                        == Some(PageTableEntry { bits: 0 })
                    &&& forall|v: usize| !in_area(old(self).areas@[ai], v) ==> #[trigger] final(self).page_table.spec_translate(v)
                        == old(self).page_table.spec_translate(v)
                    &&& released(old(alloc).refs(), final(alloc).refs(), old(self).areas@[ai].data_frames@)
                }
            }),
    {
        let mut i: usize = 0;
        while i < self.areas.len()
            invariant
                i <= self.areas@.len(),
                forall|j: int| 0 <= j < i ==> self.areas@[j].start_vpn != start_vpn,
                *self == *old(self),
                *alloc == *old(alloc),
                old(self).wf(),
                old(self).frames_held(&*old(alloc)),
                alloc_fits(&*old(alloc)),
            decreases self.areas@.len() - i,
        {
            if self.areas[i].start_vpn == start_vpn {
                proof {
                    let a = self.areas@;
                    let c = first_area_starting(a, start_vpn);
                    assert(0 <= c < a.len() && a[c].start_vpn == start_vpn && forall|j: int| 0 <= j < c ==> a[j].start_vpn != start_vpn);
                    if c < i {
                    } else if c > i {
                    }
                }
                self.remove_area_at(i, alloc);
                return;
            }
            i = i + 1;
        }
    }
}

impl MemorySet {
    /// The mappings of the eager fork of this user address space: the
    /// child gets the same areas, each page backed by a frame of its own,
    /// and its own trampoline mapping.
    fn fork_eager_mappings(&self, trampoline_ppn: usize, alloc: &mut StackFrameAllocator) -> (child: MemorySet)
        requires
            self.wf(),
            self.frames_held(&*old(alloc)),
            alloc_fits(&*old(alloc)),
            old(alloc).free_frames() >= 3 + 3 * total_pages(self.areas@, self.areas@.len() as int),
        ensures
            child.wf(),
            child.frames_held(&*final(alloc)),
            self.frames_held(&*final(alloc)),
            alloc_fits(&*final(alloc)),
            child.areas@.len() == self.areas@.len(),
            forall|i: int| 0 <= i < self.areas@.len() ==> {
                &&& (#[trigger] child.areas@[i]).start_vpn == self.areas@[i].start_vpn
                &&& child.areas@[i].end_vpn == self.areas@[i].end_vpn
                &&& child.areas@[i].map_type == self.areas@[i].map_type
                &&& child.areas@[i].map_perm == self.areas@[i].map_perm
            },
            forall|i: int, v: usize| 0 <= i < child.areas@.len() && #[trigger] child.areas@[i].data_frames@.contains_key(v)
                ==> !old(alloc).refs().contains_key(child.areas@[i].data_frames@[v]),
            forall|p: usize| #[trigger] old(alloc).refs().contains_key(p) ==> final(alloc).refs().contains_key(p)
                && final(alloc).refs()[p] == old(alloc).refs()[p],
    {
        let ghost a0 = *alloc;
        let n = self.areas.len();
        proof {
            assert forall|i: int| 0 <= i < self.areas@.len() implies (#[trigger] self.areas@[i]).start_vpn <= self.areas@[i].end_vpn by {
                assert(self.areas@[i].shape_ok());
            }
            lemma_total_pages_mono(self.areas@, 0, n as int);
        }
        let mut memory_set = MemorySet::new_bare(alloc);
        let ghost a1 = *alloc;
        proof {
            assert(memory_set.page_table.spec_translate(TRAMPOLINE_VPN).is_none());
            assert(!memory_set.page_table.leaves@.contains_key(TRAMPOLINE_VPN));
            lemma_zero_entry_invalid(memory_set.page_table.entry(TRAMPOLINE_VPN));
        }
        memory_set.map_trampoline(trampoline_ppn, alloc);
        proof {
            assert forall|p: usize| #[trigger] a0.refs().contains_key(p) implies alloc.refs().contains_key(p)
                && alloc.refs()[p] == a0.refs()[p] by {
                assert(a1.refs().contains_key(p));
            }
        }
        let mut i: usize = 0;
        while i < n
            invariant
                n == self.areas@.len(),
                i <= n,
                self.wf(),
                a0 == *old(alloc),
                self.frames_held(&a0),
                memory_set.wf(),
                memory_set.frames_held(&*alloc),
                alloc_fits(&*alloc),
                memory_set.areas@.len() == i,
                forall|k: int| 0 <= k < i ==> {
                    &&& (#[trigger] memory_set.areas@[k]).start_vpn == self.areas@[k].start_vpn
                    &&& memory_set.areas@[k].end_vpn == self.areas@[k].end_vpn
                    &&& memory_set.areas@[k].map_type == self.areas@[k].map_type
                    &&& memory_set.areas@[k].map_perm == self.areas@[k].map_perm
                },
                forall|k: int, v: usize| 0 <= k < i && #[trigger] memory_set.areas@[k].data_frames@.contains_key(v)
                    ==> !a0.refs().contains_key(memory_set.areas@[k].data_frames@[v]),
                forall|p: usize| #[trigger] a0.refs().contains_key(p) ==> alloc.refs().contains_key(p)
                    && alloc.refs()[p] == a0.refs()[p],
                forall|k: int| 0 <= k < self.areas@.len() ==> (#[trigger] self.areas@[k]).start_vpn <= self.areas@[k].end_vpn,
                alloc.free_frames() >= 3 * (total_pages(self.areas@, n as int) - total_pages(self.areas@, i as int)),
            decreases n - i,
        {
            let new_area = MapArea::from_another(&self.areas[i]);
            proof {
                assert(self.areas@[i as int].shape_ok());
                lemma_total_pages_mono(self.areas@, i + 1, n as int);
                assert(total_pages(self.areas@, i + 1) == total_pages(self.areas@, i as int)
                    + (self.areas@[i as int].end_vpn - self.areas@[i as int].start_vpn));
                assert forall|k: int| 0 <= k < memory_set.areas@.len() implies areas_disjoint(#[trigger] memory_set.areas@[k], new_area) by {
                    assert(areas_disjoint(self.areas@[k], self.areas@[i as int]));
                }
            }
            let ghost a2 = *alloc;
            let ghost before = memory_set.areas@;
            memory_set.push(new_area, alloc);
            proof {
                assert forall|p: usize| #[trigger] a0.refs().contains_key(p) implies alloc.refs().contains_key(p)
                    && alloc.refs()[p] == a0.refs()[p] by {
                    assert(a2.refs().contains_key(p));
                }
                assert forall|k: int, v: usize| 0 <= k < i + 1 && #[trigger] memory_set.areas@[k].data_frames@.contains_key(v)
                    implies !a0.refs().contains_key(memory_set.areas@[k].data_frames@[v]) by {
                    if k < i {
                        assert(memory_set.areas@[k] == before[k]);
                    } else {
                        if a0.refs().contains_key(memory_set.areas@[k].data_frames@[v]) {
                            assert(a2.refs().contains_key(memory_set.areas@[k].data_frames@[v]));
                        }
                    }
                }
                assert forall|k: int| 0 <= k < i + 1 implies {
                    &&& (#[trigger] memory_set.areas@[k]).start_vpn == self.areas@[k].start_vpn
                    &&& memory_set.areas@[k].end_vpn == self.areas@[k].end_vpn
                    &&& memory_set.areas@[k].map_type == self.areas@[k].map_type
                    &&& memory_set.areas@[k].map_perm == self.areas@[k].map_perm
                } by {
                    if k < i {
                        assert(memory_set.areas@[k] == before[k]);
                    }
                }
            }
            i = i + 1;
        }
        proof {
            lemma_frames_held_grow(*self, a0, *alloc);
        }
        memory_set
    }

    /// The eager fork of this user address space, as `fork_eager_mappings`
    /// maps it, with the contents of every page of a framed area copied
    /// into the child's frame for it, where `mem` holds both frames;
    /// nothing else in `mem` changes.
    pub fn from_existed_user(
        &self,
        trampoline_ppn: usize,
        alloc: &mut StackFrameAllocator,
        mem: &mut PhysMem,
    ) -> (child: MemorySet)
        requires
            old(mem).wf(),
            self.wf(),
            self.frames_held(&*old(alloc)),
            alloc_fits(&*old(alloc)),
            old(alloc).free_frames() >= 3 + 3 * total_pages(self.areas@, self.areas@.len() as int),
        ensures
            child.wf(),
            child.frames_held(&*final(alloc)),
            self.frames_held(&*final(alloc)),
            alloc_fits(&*final(alloc)),
            child.areas@.len() == self.areas@.len(),
            forall|i: int| 0 <= i < self.areas@.len() ==> {
                &&& (#[trigger] child.areas@[i]).start_vpn == self.areas@[i].start_vpn
                &&& child.areas@[i].end_vpn == self.areas@[i].end_vpn
                &&& child.areas@[i].map_type == self.areas@[i].map_type
                &&& child.areas@[i].map_perm == self.areas@[i].map_perm
            },
            forall|i: int, v: usize| 0 <= i < child.areas@.len() && #[trigger] child.areas@[i].data_frames@.contains_key(v)
                ==> !old(alloc).refs().contains_key(child.areas@[i].data_frames@[v]),
            forall|p: usize| #[trigger] old(alloc).refs().contains_key(p) ==> final(alloc).refs().contains_key(p)
                && final(alloc).refs()[p] == old(alloc).refs()[p],
            final(mem).base == old(mem).base,
            final(mem).bytes@.len() == old(mem).bytes@.len(),
            forall|i: int, v: usize| #[trigger] copied_page(*self, child, *old(mem), i, v, true) ==> frame_bytes(
                final(mem).bytes@,
                old(mem).base as int,
                child.areas@[i].data_frames@[v] as int,
            ) == frame_bytes(old(mem).bytes@, old(mem).base as int, self.areas@[i].data_frames@[v] as int),
            forall|k: int|
                0 <= k < old(mem).bytes@.len() && (forall|i: int, v: usize| #[trigger] copied_page(*self, child, *old(mem), i, v, true)
                    ==> !in_frame(old(mem).base as int, child.areas@[i].data_frames@[v] as int, k)) ==> final(mem).bytes@[k]
                    == old(mem).bytes@[k],
    {
        let ghost a0 = *alloc;
        let child = self.fork_eager_mappings(trampoline_ppn, alloc);
        proof {
            assert forall|i: int| 0 <= i < self.areas@.len() implies {
                &&& (#[trigger] child.areas@[i]).start_vpn == self.areas@[i].start_vpn
                &&& child.areas@[i].end_vpn == self.areas@[i].end_vpn
                &&& child.areas@[i].map_type == self.areas@[i].map_type
                &&& child.areas@[i].map_perm == self.areas@[i].map_perm
                &&& self.areas@[i].start_vpn <= self.areas@[i].end_vpn
                &&& self.areas@[i].frames_cover(self.areas@[i].end_vpn as int)
                &&& child.areas@[i].frames_cover(child.areas@[i].end_vpn as int)
            } by {
                assert(self.areas@[i].shape_ok());
            }
            assert forall|i: int, v: usize, j: int, w: usize|
                #[trigger] copy_page(*self, i, v, true) && 0 <= j < self.areas@.len()
                    && #[trigger] self.areas@[j].data_frames@.contains_key(w) implies child.areas@[i].data_frames@[v]
                != self.areas@[j].data_frames@[w] by {
                assert(child.areas@[i].frames_cover(child.areas@[i].end_vpn as int));
                assert(child.areas@[i].data_frames@.contains_key(v));
                assert(a0.refs().contains_key(self.areas@[j].data_frames@[w]));
            }
            assert forall|i: int, v: usize, j: int, w: usize|
                #[trigger] copy_page(*self, i, v, true) && #[trigger] copy_page(*self, j, w, true) && (i != j || v != w)
                    implies child.areas@[i].data_frames@[v] != child.areas@[j].data_frames@[w] by {
                assert(child.areas@[i].frames_cover(child.areas@[i].end_vpn as int));
                assert(child.areas@[j].frames_cover(child.areas@[j].end_vpn as int));
                assert(child.areas@[i].data_frames@.contains_key(v));
                assert(child.areas@[j].data_frames@.contains_key(w));
            }
        }
        copy_fork_pages(self, &child, mem, true);
        child
    }
}

/// Where the linker put the kernel's sections, and where memory ends.
#[derive(Copy, Clone, Debug)]
pub struct KernelLayout {
    pub stext: usize,
    pub etext: usize,
    pub srodata: usize,
    pub erodata: usize,
    pub sdata: usize,
    pub edata: usize,
    pub sbss_with_stack: usize,
    pub ebss: usize,
    pub ekernel: usize,
    pub memory_end: usize,
}

/// The identical mappings of the kernel address space, in the order they
/// are made: `(start address, end address, rights)`.
pub open spec fn kernel_regions(l: KernelLayout, mmio: Seq<(usize, usize)>) -> Seq<(usize, usize, u8)> {
    seq![
        (l.stext, l.etext, FLAG_R | FLAG_X),
        (l.srodata, l.erodata, FLAG_R),
        (l.sdata, l.edata, FLAG_R | FLAG_W),
        (l.sbss_with_stack, l.ebss, FLAG_R | FLAG_W),
        (l.ekernel, l.memory_end, FLAG_R | FLAG_W),
    ] + mmio.map_values(|m: (usize, usize)| ((m.0, (m.0 + m.1) as usize, FLAG_R | FLAG_W)))
}

/// Pages of region `r` once its ends are rounded out to pages.
pub open spec fn region_pages(r: (usize, usize, u8)) -> int {
    spec_ceil(r.1) - spec_floor(r.0)
}

pub open spec fn regions_pages(rs: Seq<(usize, usize, u8)>) -> int
    decreases rs.len(),
{
    if rs.len() == 0 { 0 } else { regions_pages(rs.drop_last()) + region_pages(rs.last()) }
}

/// The regions can be mapped: each fits below the trampoline, their page
/// ranges do not overlap, and the memory-mapped ranges do not wrap.
pub open spec fn kernel_layout_ok(l: KernelLayout, mmio: Seq<(usize, usize)>) -> bool {
    let rs = kernel_regions(l, mmio);
    &&& forall|k: int| 0 <= k < mmio.len() ==> (#[trigger] mmio[k]).0 + mmio[k].1 <= usize::MAX
    &&& forall|k: int| 0 <= k < rs.len() ==> {
        &&& (#[trigger] rs[k]).0 <= rs[k].1
        &&& rs[k].1 + PAGE_SIZE - 1 <= usize::MAX
        &&& spec_ceil(rs[k].1) <= TRAMPOLINE_VPN
    }
    &&& forall|j: int, k: int| 0 <= j < k < rs.len() ==> spec_ceil((#[trigger] rs[j]).1) <= spec_floor((#[trigger] rs[k]).0)
        || spec_ceil(rs[k].1) <= spec_floor(rs[j].0)
}

proof fn lemma_regions_pages_mono(rs: Seq<(usize, usize, u8)>, m: int, n: int)
    requires
        0 <= m <= n <= rs.len(),
        forall|k: int| 0 <= k < rs.len() ==> spec_floor((#[trigger] rs[k]).0) <= spec_ceil(rs[k].1),
    ensures
        regions_pages(rs.take(m)) <= regions_pages(rs.take(n)),
        regions_pages(rs.take(m)) >= 0,
    decreases n,
{
    if n > m {
        lemma_regions_pages_mono(rs, m, n - 1);
        assert(rs.take(n).drop_last() =~= rs.take(n - 1));
        assert(rs.take(n).last() == rs[n - 1]);
    } else if m > 0 {
        lemma_regions_pages_mono(rs, m - 1, m - 1);
        assert(rs.take(m).drop_last() =~= rs.take(m - 1));
        assert(rs.take(m).last() == rs[m - 1]);
    } else {
        assert(rs.take(0) =~= Seq::<(usize, usize, u8)>::empty());
    }
}

impl MemorySet {
    /// The kernel address space: the trampoline, then each kernel section,
    /// the rest of physical memory and each memory-mapped device range,
    /// every one mapped identically with its rights.
    pub fn new_kernel(
        layout: &KernelLayout,
        mmio: &Vec<(usize, usize)>,
        trampoline_ppn: usize,
        alloc: &mut StackFrameAllocator,
    ) -> (ms: MemorySet)
        requires
            kernel_layout_ok(*layout, mmio@),
            alloc_fits(&*old(alloc)),
            old(alloc).free_frames() >= 3 + 3 * regions_pages(kernel_regions(*layout, mmio@)),
        ensures
            ms.wf(),
            ms.frames_held(&*final(alloc)),
            alloc_fits(&*final(alloc)),
            ms.areas@.len() == kernel_regions(*layout, mmio@).len(),
            forall|k: int| 0 <= k < ms.areas@.len() ==> {
                let r = kernel_regions(*layout, mmio@)[k];
                &&& (#[trigger] ms.areas@[k]).start_vpn == spec_floor(r.0)
                &&& ms.areas@[k].end_vpn == spec_ceil(r.1)
                &&& ms.areas@[k].map_type == MapType::Identical
                &&& ms.areas@[k].map_perm.bits == r.2
            },
            ms.page_table.spec_translate(TRAMPOLINE_VPN) == Some(
                PageTableEntry { bits: spec_entry_bits(trampoline_ppn, FLAG_R | FLAG_X | FLAG_V) },
            ),
            forall|p: usize| #[trigger] old(alloc).refs().contains_key(p) ==> final(alloc).refs().contains_key(p)
                && final(alloc).refs()[p] == old(alloc).refs()[p],
    {
        let ghost a0 = *alloc;
        let ghost rs = kernel_regions(*layout, mmio@);
        let mut regions: Vec<(usize, usize, u8)> = Vec::new();
        regions.push((layout.stext, layout.etext, FLAG_R | FLAG_X));
        regions.push((layout.srodata, layout.erodata, FLAG_R));
        regions.push((layout.sdata, layout.edata, FLAG_R | FLAG_W));
        regions.push((layout.sbss_with_stack, layout.ebss, FLAG_R | FLAG_W));
        regions.push((layout.ekernel, layout.memory_end, FLAG_R | FLAG_W));
        let mut m: usize = 0;
        while m < mmio.len()
            invariant
                m <= mmio@.len(),
                regions@ == rs.take(5 + m),
                rs == kernel_regions(*layout, mmio@),
                kernel_layout_ok(*layout, mmio@),
            decreases mmio@.len() - m,
        {
            let (base, len) = mmio[m];
            assert((mmio@[m as int]).0 + mmio@[m as int].1 <= usize::MAX);
            regions.push((base, base + len, FLAG_R | FLAG_W));
            assert(rs[5 + m] == (base, (base + len) as usize, FLAG_R | FLAG_W));
            assert(regions@ =~= rs.take(5 + m + 1));
            m = m + 1;
        }
        assert(regions@ =~= rs);
        proof {
            assert forall|k: int| 0 <= k < rs.len() implies spec_floor((#[trigger] rs[k]).0) <= spec_ceil(rs[k].1) by {
                assert(rs[k].0 <= rs[k].1);
            }
            lemma_regions_pages_mono(rs, 0, rs.len() as int);
            assert(rs.take(rs.len() as int) =~= rs);
        }
        let mut memory_set = MemorySet::new_bare(alloc);
        let ghost a1 = *alloc;
        proof {
            assert(memory_set.page_table.spec_translate(TRAMPOLINE_VPN).is_none());
            assert(!memory_set.page_table.leaves@.contains_key(TRAMPOLINE_VPN));
            lemma_zero_entry_invalid(memory_set.page_table.entry(TRAMPOLINE_VPN));
        }
        memory_set.map_trampoline(trampoline_ppn, alloc);
        let ghost tr = memory_set.page_table.spec_translate(TRAMPOLINE_VPN);
        proof {
            assert forall|p: usize| #[trigger] a0.refs().contains_key(p) implies alloc.refs().contains_key(p)
                && alloc.refs()[p] == a0.refs()[p] by {
                assert(a1.refs().contains_key(p));
            }
        }
        let mut i: usize = 0;
        while i < regions.len()
            invariant
                regions@ == rs,
                rs == kernel_regions(*layout, mmio@),
                kernel_layout_ok(*layout, mmio@),
                i <= rs.len(),
                a0 == *old(alloc),
                memory_set.wf(),
                memory_set.frames_held(&*alloc),
                alloc_fits(&*alloc),
                memory_set.areas@.len() == i,
                forall|k: int| 0 <= k < i ==> {
                    let r = rs[k];
                    &&& (#[trigger] memory_set.areas@[k]).start_vpn == spec_floor(r.0)
                    &&& memory_set.areas@[k].end_vpn == spec_ceil(r.1)
                    &&& memory_set.areas@[k].map_type == MapType::Identical
                    &&& memory_set.areas@[k].map_perm.bits == r.2
                },
                memory_set.page_table.spec_translate(TRAMPOLINE_VPN) == tr,
                tr == Some(PageTableEntry { bits: spec_entry_bits(trampoline_ppn, FLAG_R | FLAG_X | FLAG_V) }),
                forall|p: usize| #[trigger] a0.refs().contains_key(p) ==> alloc.refs().contains_key(p)
                    && alloc.refs()[p] == a0.refs()[p],
                forall|k: int| 0 <= k < rs.len() ==> spec_floor((#[trigger] rs[k]).0) <= spec_ceil(rs[k].1),
                alloc.free_frames() >= 3 * (regions_pages(rs) - regions_pages(rs.take(i as int))),
            decreases rs.len() - i,
        {
            let (start, end, perm) = regions[i];
            assert(rs[i as int].0 <= rs[i as int].1);
            let area = MapArea::new(start, end, MapType::Identical, MapPermission { bits: perm });
            proof {
                assert(perm & !MAP_PERM_MASK == 0) by (bit_vector)
                    requires
                        perm == (0x02u8 | 0x08u8) || perm == 0x02u8 || perm == (0x02u8 | 0x04u8);
                assert(area.shape_ok());
                assert forall|k: int| 0 <= k < memory_set.areas@.len() implies areas_disjoint(#[trigger] memory_set.areas@[k], area) by {
                    assert(spec_ceil(rs[k].1) <= spec_floor(rs[i as int].0) || spec_ceil(rs[i as int].1) <= spec_floor(rs[k].0));
                }
                lemma_regions_pages_mono(rs, i + 1, rs.len() as int);
                assert(rs.take(rs.len() as int) =~= rs);
                assert(rs.take(i + 1).drop_last() =~= rs.take(i as int));
                assert(rs.take(i + 1).last() == rs[i as int]);
            }
            let ghost a2 = *alloc;
            let ghost before = memory_set.areas@;
            let ghost mid = memory_set;
            memory_set.push(area, alloc);
            proof {
                assert forall|p: usize| #[trigger] a0.refs().contains_key(p) implies alloc.refs().contains_key(p)
                    && alloc.refs()[p] == a0.refs()[p] by {
                    assert(a2.refs().contains_key(p));
                }
                assert forall|k: int| 0 <= k < i + 1 implies {
                    let r = rs[k];
                    &&& (#[trigger] memory_set.areas@[k]).start_vpn == spec_floor(r.0)
                    &&& memory_set.areas@[k].end_vpn == spec_ceil(r.1)
                    &&& memory_set.areas@[k].map_type == MapType::Identical
                    &&& memory_set.areas@[k].map_perm.bits == r.2
                } by {
                    if k < i {
                        assert(memory_set.areas@[k] == before[k]);
                    }
                }
                assert(!in_area(area, TRAMPOLINE_VPN));
                assert(memory_set.page_table.entry(TRAMPOLINE_VPN) == mid.page_table.entry(TRAMPOLINE_VPN));
                assert(mid.page_table.has_leaf_table(TRAMPOLINE_VPN));
                assert(memory_set.page_table.has_leaf_table(TRAMPOLINE_VPN)) by {
                    assert(mid.page_table.entry(TRAMPOLINE_VPN).has_flag(FLAG_V)) by {
                        let pp = trampoline_ppn as u64;
                        assert(((pp << 10u64) | ((((2u8 | 8u8) | 1u8) as u8) as u64)) as u8 & 1u8 != 0) by (bit_vector);
                    }
                    assert(memory_set.page_table.entry(TRAMPOLINE_VPN).has_flag(FLAG_V));
                    assert(memory_set.page_table.leaves@.contains_key(TRAMPOLINE_VPN)) by {
                        if !memory_set.page_table.leaves@.contains_key(TRAMPOLINE_VPN) {
                            lemma_zero_entry_invalid(memory_set.page_table.entry(TRAMPOLINE_VPN));
                        }
                    }
                }
            }
            i = i + 1;
        }
        memory_set
    }
}

/// `new_pt` is `old_pt` with more page-table pages, all newly allocated.
pub open spec fn pt_grew(new_pt: PageTable, old_pt: PageTable, alloc: &StackFrameAllocator, old_alloc: &StackFrameAllocator) -> bool {
    &&& new_pt.wf()
    &&& new_pt.root_ppn == old_pt.root_ppn
    &&& new_pt.frames_allocated(alloc)
    &&& old_pt.frames@.len() <= new_pt.frames@.len()
    &&& new_pt.frames@.subrange(0, old_pt.frames@.len() as int) == old_pt.frames@
    &&& forall|k: int| old_pt.frames@.len() <= k < new_pt.frames@.len() ==> !old_alloc.refs().contains_key(
        #[trigger] new_pt.frames@[k],
    )
    &&& forall|v: usize| old_pt.has_leaf_table(v) ==> #[trigger] new_pt.has_leaf_table(v)
}

/// A user page that fork shares copy-on-write: writable, or already copy-on-write.
pub open spec fn shared_cow(e: PageTableEntry) -> bool {
    e.has_flag(FLAG_U) && (e.has_flag(FLAG_W) || e.spec_is_cow())
}

proof fn lemma_flag_facts(perm: u8)
    ensures
        ((perm | FLAG_V) & !FLAG_W) | FLAG_V == (perm & !FLAG_W) | FLAG_V,
        (perm | FLAG_V) & !FLAG_W == (perm & !FLAG_W) | FLAG_V,
        (((perm & !FLAG_W) | FLAG_V) & !FLAG_W) | FLAG_V == (perm & !FLAG_W) | FLAG_V,
        (perm | FLAG_V) | FLAG_V == perm | FLAG_V,
        ((perm | FLAG_V) & FLAG_W != 0) == (perm & FLAG_W != 0),
        ((perm | FLAG_V) & FLAG_U != 0) == (perm & FLAG_U != 0),
        (((perm & !FLAG_W) | FLAG_V) & FLAG_U != 0) == (perm & FLAG_U != 0),
        ((perm & !FLAG_W) | FLAG_V) & FLAG_W == 0,
        (perm | FLAG_V) & FLAG_V != 0,
        ((perm & !FLAG_W) | FLAG_V) & FLAG_V != 0,
{
    assert(((perm | 1u8) & !4u8) | 1u8 == (perm & !4u8) | 1u8) by (bit_vector);
    assert((perm | 1u8) & !4u8 == (perm & !4u8) | 1u8) by (bit_vector);
    assert((((perm & !4u8) | 1u8) & !4u8) | 1u8 == (perm & !4u8) | 1u8) by (bit_vector);
    assert((perm | 1u8) | 1u8 == perm | 1u8) by (bit_vector);
    assert(((perm | 1u8) & 4u8 != 0) == (perm & 4u8 != 0)) by (bit_vector);
    assert(((perm | 1u8) & 0x10u8 != 0) == (perm & 0x10u8 != 0)) by (bit_vector);
    assert((((perm & !4u8) | 1u8) & 0x10u8 != 0) == (perm & 0x10u8 != 0)) by (bit_vector);
    assert(((perm & !4u8) | 1u8) & 4u8 == 0) by (bit_vector);
    assert((perm | 1u8) & 1u8 != 0) by (bit_vector);
    assert(((perm & !4u8) | 1u8) & 1u8 != 0) by (bit_vector);
}

/// What forking page `vpn` of area `ai` does: `p0`, `na0`, `c0`, `a_0`
/// before, `p1`, `na1`, `c1`, `a_1` after; `shared` is the result.
pub open spec fn fork_page_post(
    p0: MemorySet,
    p1: MemorySet,
    ai: int,
    vpn: usize,
    na0: MapArea,
    na1: MapArea,
    c0: PageTable,
    c1: PageTable,
    a_0: StackFrameAllocator,
    a_1: StackFrameAllocator,
    shared: bool,
) -> bool {
    let e = p0.page_table.entry(vpn);
    let pa = p0.areas@[ai];
    &&& shared == e.has_flag(FLAG_U)
    &&& p1.wf()
    &&& p1.frames_held(&a_1)
    &&& p1.areas@ == p0.areas@
    &&& alloc_fits(&a_1)
    &&& a_1.free_frames() + 3 >= a_0.free_frames()
    &&& forall|v: usize| #[trigger] p1.page_table.has_leaf_table(v) == p0.page_table.has_leaf_table(v)
    &&& forall|v: usize| v != vpn ==> #[trigger] p1.page_table.spec_translate(v) == p0.page_table.spec_translate(v)
    &&& p1.page_table.entry(vpn).spec_ppn() == e.spec_ppn()
    &&& p1.page_table.entry(vpn).spec_is_cow() == (e.spec_is_cow() || shared_cow(e))
    &&& pt_grew(c1, c0, &a_1, &a_0)
    &&& keeps_other_translations(c1, c0, vpn)
    &&& page_ok(c1, na1, vpn)
    &&& c1.entry(vpn).spec_is_cow() == shared_cow(e)
    &&& na1.start_vpn == na0.start_vpn
    &&& na1.end_vpn == na0.end_vpn
    &&& na1.map_type == na0.map_type
    &&& na1.map_perm == na0.map_perm
    &&& pa.map_type == MapType::Framed ==> na1.data_frames@ == na0.data_frames@.insert(vpn, na1.data_frames@[vpn])
    &&& pa.map_type != MapType::Framed ==> na1.data_frames@ == na0.data_frames@
    &&& shared ==> na1.data_frames@[vpn] == pa.data_frames@[vpn]
    &&& shared ==> forall|p: usize| #[trigger] a_0.refs().contains_key(p) ==> a_1.refs().contains_key(p)
        && a_1.refs()[p] == (if p == pa.data_frames@[vpn] { a_0.refs()[p] + 1 } else { a_0.refs()[p] as int })
    &&& !shared ==> forall|p: usize| #[trigger] a_0.refs().contains_key(p) ==> a_1.refs().contains_key(p)
        && a_1.refs()[p] == a_0.refs()[p]
    &&& !shared && pa.map_type == MapType::Framed ==> !a_0.refs().contains_key(na1.data_frames@[vpn])
        && a_1.refs().contains_key(na1.data_frames@[vpn])
    &&& !shared && pa.map_type == MapType::Framed ==> forall|k: int| c0.frames@.len() <= k < c1.frames@.len()
        ==> #[trigger] c1.frames@[k] != na1.data_frames@[vpn]
}

impl MemorySet {
    /// Every area with user-accessible pages is framed.
    pub open spec fn user_areas_framed(&self) -> bool {
        forall|i: int| 0 <= i < self.areas@.len() && (#[trigger] self.areas@[i]).map_perm.bits & FLAG_U != 0
            ==> self.areas@[i].map_type == MapType::Framed
    }

    /// Forks page `vpn` of area `ai` into `new_area` and `child_pt`: a user
    /// page shares its frame (copy-on-write in both spaces when it is
    /// writable or already copy-on-write), any other page gets a page of its own.
    /// Returns whether the page was shared.
    fn fork_page(
        &mut self,
        ai: usize,
        vpn: usize,
        new_area: &mut MapArea,
        child_pt: &mut PageTable,
        alloc: &mut StackFrameAllocator,
    ) -> (shared: bool)
        requires
            old(self).wf(),
            old(self).frames_held(&*old(alloc)),
            old(self).user_areas_framed(),
            alloc_fits(&*old(alloc)),
            old(alloc).free_frames() >= 3,
            ai < old(self).areas@.len(),
            in_area(old(self).areas@[ai as int], vpn),
            old(self).areas@[ai as int].data_frames@.contains_key(vpn) ==> old(alloc).refs()[old(self).areas@[ai as int].data_frames@[vpn]] < usize::MAX,
            old(new_area).start_vpn == old(self).areas@[ai as int].start_vpn,
            old(new_area).end_vpn == old(self).areas@[ai as int].end_vpn,
            old(new_area).map_type == old(self).areas@[ai as int].map_type,
            old(new_area).map_perm == old(self).areas@[ai as int].map_perm,
            !old(new_area).data_frames@.contains_key(vpn),
            old(child_pt).wf(),
            old(child_pt).frames_allocated(&*old(alloc)),
            !old(child_pt).entry(vpn).has_flag(FLAG_V),
        ensures
            fork_page_post(*old(self), *final(self), ai as int, vpn, *old(new_area), *final(new_area),
                *old(child_pt), *final(child_pt), *old(alloc), *final(alloc), shared),
    {
        let ghost ms0 = *self;
        let ghost a0 = *alloc;
        let ghost pa = self.areas@[ai as int];
        proof {
            assert(page_ok(self.page_table, pa, vpn));
            assert(pa.shape_ok());
            assert(pa.frames_cover(pa.end_vpn as int));
            lemma_flag_facts(pa.map_perm.bits);
        }
        let parent_pte = self.page_table.translate(vpn).unwrap();
        let ppn = parent_pte.ppn();
        let flags = parent_pte.flags();
        if parent_pte.user_accessible() {
            proof {
                assert(pa.map_type == MapType::Framed);
                assert(pa.data_frames@.contains_key(vpn));
                assert(a0.refs().contains_key(pa.data_frames@[vpn]));
            }
            let shared_frame = *self.areas[ai].data_frames.get(&vpn).unwrap();
            alloc.add_ref(shared_frame);
            let ghost a1 = *alloc;
            new_area.data_frames.insert(vpn, shared_frame);
            if parent_pte.writable() || parent_pte.is_cow() {
                proof {
                    assert(ppn < a0.current);
                }
                self.page_table.mark_cow(vpn);
                child_pt.map_cow(vpn, ppn, flags, alloc);
                proof {
                    lemma_cow_entry_roundtrip(ppn, (pa.map_perm.bits & !FLAG_W) | FLAG_V);
                    if !parent_pte.spec_is_cow() {
                        assert(self.page_table.entry(vpn).bits == spec_entry_bits(ppn, ((pa.map_perm.bits | FLAG_V) & !FLAG_W)) | PTE_COW);
                    }
                    assert(child_pt.entry(vpn).bits == PageTable::cow_bits(ppn, flags.bits));
                    self.lemma_wf_after_entry_change(ms0, vpn, ai as int);
                    assert(self.page_table.entry(vpn).has_flag(FLAG_V));
                }
            } else {
                child_pt.map(vpn, ppn, flags, alloc);
                proof {
                    lemma_entry_roundtrip(ppn, pa.map_perm.bits | FLAG_V);
                    assert(*self == ms0);
                }
            }
            proof {
                assert forall|p: usize| #[trigger] a0.refs().contains_key(p) implies alloc.refs().contains_key(p)
                    && alloc.refs()[p] == (if p == pa.data_frames@[vpn] { a0.refs()[p] + 1 } else { a0.refs()[p] as int }) by {
                    assert(a1.refs().contains_key(p));
                }
                assert forall|i: int, v: usize|
                    0 <= i < self.areas@.len() && #[trigger] self.areas@[i].data_frames@.contains_key(v)
                    implies alloc.refs().contains_key(self.areas@[i].data_frames@[v]) by {
                    assert(a0.refs().contains_key(ms0.areas@[i].data_frames@[v]));
                    assert(a1.refs().contains_key(ms0.areas@[i].data_frames@[v]));
                }
                assert forall|k: int| 0 <= k < self.page_table.frames@.len() implies alloc.refs().contains_key(
                    #[trigger] self.page_table.frames@[k]) by {
                    assert(a0.refs().contains_key(ms0.page_table.frames@[k]));
                    assert(a1.refs().contains_key(ms0.page_table.frames@[k]));
                }
            }
            true
        } else {
            proof {
                assert(!shared_cow(parent_pte));
                if pa.map_type == MapType::Linear(0) {
                }
            }
            new_area.map_one(child_pt, vpn, alloc);
            // `from_existed_user_cow` copies the page into the child's frame.
            proof {
                assert forall|i: int, v: usize|
                    0 <= i < self.areas@.len() && #[trigger] self.areas@[i].data_frames@.contains_key(v)
                    implies alloc.refs().contains_key(self.areas@[i].data_frames@[v]) by {
                    assert(a0.refs().contains_key(ms0.areas@[i].data_frames@[v]));
                }
                assert forall|k: int| 0 <= k < self.page_table.frames@.len() implies alloc.refs().contains_key(
                    #[trigger] self.page_table.frames@[k]) by {
                    assert(a0.refs().contains_key(ms0.page_table.frames@[k]));
                }
            }
            false
        }
    }
}

/// Number of pages in the first `n` areas.
pub open spec fn total_pages(areas: Seq<MapArea>, n: int) -> int
    decreases n,
{
    if n <= 0 {
        0
    } else {
        total_pages(areas, n - 1) + (areas[n - 1].end_vpn - areas[n - 1].start_vpn)
    }
}

/// Pages of the first `n` areas of `areas` that are user-accessible.
pub open spec fn user_pages(areas: Seq<MapArea>, n: int) -> int
    decreases n,
{
    if n <= 0 {
        0
    } else {
        user_pages(areas, n - 1) + (if areas[n - 1].map_perm.bits & FLAG_U != 0 {
            areas[n - 1].end_vpn - areas[n - 1].start_vpn
        } else {
            0
        })
    }
}

proof fn lemma_total_pages_mono(areas: Seq<MapArea>, m: int, n: int)
    requires
        0 <= m <= n <= areas.len(),
        forall|i: int| 0 <= i < areas.len() ==> (#[trigger] areas[i]).start_vpn <= areas[i].end_vpn,
    ensures
        total_pages(areas, m) <= total_pages(areas, n),
        total_pages(areas, m) >= 0,
    decreases n,
{
    if n > m {
        lemma_total_pages_mono(areas, m, n - 1);
        assert(areas[n - 1].start_vpn <= areas[n - 1].end_vpn);
    } else if m > 0 {
        lemma_total_pages_mono(areas, m - 1, m - 1);
        assert(areas[m - 1].start_vpn <= areas[m - 1].end_vpn);
    }
}

/// Page `v` of area `i` of `ms0` comes before page `vpn` of area `ai` in fork order.
pub open spec fn forked_before(ms0: MemorySet, ai: int, vpn: int, i: int, v: usize) -> bool {
    &&& 0 <= i < ms0.areas@.len()
    &&& in_area(ms0.areas@[i], v)
    &&& (i < ai || (i == ai && v < vpn))
}

/// How fork left page `v` (of area `i` of the parent `ms0` before it) in the
/// parent's page table `ppt`, and in the child's table `cpt` and area `ca`.
pub open spec fn page_forked(ms0: MemorySet, ppt: PageTable, cpt: PageTable, ca: MapArea, i: int, v: usize, refs0: Map<usize, usize>) -> bool {
    let e = ms0.page_table.entry(v);
    &&& ppt.entry(v).spec_ppn() == e.spec_ppn()
    &&& ppt.entry(v).spec_is_cow() == (e.spec_is_cow() || shared_cow(e))
    &&& page_ok(cpt, ca, v)
    &&& cpt.entry(v).spec_is_cow() == shared_cow(e)
    &&& e.has_flag(FLAG_U) ==> ca.data_frames@.contains_key(v) && ca.data_frames@[v] == ms0.areas@[i].data_frames@[v]
    &&& !e.has_flag(FLAG_U) && ca.map_type == MapType::Framed ==> !refs0.contains_key(ca.data_frames@[v])
}


/// Some page `v` of an area of `ms0` is forked already.
pub open spec fn done_page(ms0: MemorySet, ai: int, vpn: int, v: usize) -> bool {
    exists|i: int| #[trigger] forked_before(ms0, ai, vpn, i, v)
}

/// `p` is the frame of a user page of `ms0` forked already.
pub open spec fn shared_upto(ms0: MemorySet, ai: int, vpn: int, p: usize) -> bool {
    exists|i: int, v: usize|
        #[trigger] forked_before(ms0, ai, vpn, i, v) && ms0.page_table.entry(v).has_flag(FLAG_U)
            && ms0.areas@[i].data_frames@[v] == p
}

/// The pages of a fork of `ms0` handled so far: those before page `vpn` of area `ai`.
pub open spec fn fork_pages_ok(
    ms0: MemorySet,
    a0: StackFrameAllocator,
    parent: MemorySet,
    child_areas: Seq<MapArea>,
    cpt: PageTable,
    ai: int,
    vpn: int,
) -> bool {
    &&& forall|i: int| 0 <= i < child_areas.len() ==> {
        &&& (#[trigger] child_areas[i]).start_vpn == ms0.areas@[i].start_vpn
        &&& child_areas[i].end_vpn == ms0.areas@[i].end_vpn
        &&& child_areas[i].map_type == ms0.areas@[i].map_type
        &&& child_areas[i].map_perm == ms0.areas@[i].map_perm
        &&& child_areas[i].frames_cover(if i < ai { child_areas[i].end_vpn as int } else { vpn })
    }
    &&& forall|i: int, v: usize| #[trigger] forked_before(ms0, ai, vpn, i, v) ==> page_forked(
        ms0,
        parent.page_table,
        cpt,
        child_areas[i],
        i,
        v,
        a0.refs(),
    )
    &&& forall|v: usize| !done_page(ms0, ai, vpn, v) ==> #[trigger] parent.page_table.spec_translate(v)
        == ms0.page_table.spec_translate(v)
    &&& forall|v: usize| #![trigger cpt.entry(v)]
        cpt.entry(v).has_flag(FLAG_V) && v != TRAMPOLINE_VPN ==> done_page(ms0, ai, vpn, v)
    &&& !cpt.entry(TRAMPOLINE_VPN).has_flag(FLAG_U)
}

/// The frames of a fork of `ms0` handled so far: reference counts, and the
/// child's frames held and distinct.
pub open spec fn fork_frames_ok(
    ms0: MemorySet,
    a0: StackFrameAllocator,
    child_areas: Seq<MapArea>,
    cpt: PageTable,
    alloc: StackFrameAllocator,
    ai: int,
    vpn: int,
) -> bool {
    &&& forall|p: usize| #[trigger] a0.refs().contains_key(p) ==> alloc.refs().contains_key(p)
        && alloc.refs()[p] == a0.refs()[p] + (if shared_upto(ms0, ai, vpn, p) { 1int } else { 0 })
    &&& cpt.frames_allocated(&alloc)
    &&& forall|k: int| 0 <= k < cpt.frames@.len() ==> !a0.refs().contains_key(#[trigger] cpt.frames@[k])
    &&& forall|i: int, v: usize| 0 <= i < child_areas.len() && #[trigger] child_areas[i].data_frames@.contains_key(v)
        ==> alloc.refs().contains_key(child_areas[i].data_frames@[v])
    &&& forall|i1: int, v1: usize, i2: int, v2: usize|
        0 <= i1 < child_areas.len() && 0 <= i2 < child_areas.len()
            && child_areas[i1].data_frames@.contains_key(v1)
            && child_areas[i2].data_frames@.contains_key(v2) && (i1 != i2 || v1 != v2)
            ==> #[trigger] child_areas[i1].data_frames@[v1] != #[trigger] child_areas[i2].data_frames@[v2]
    &&& forall|i: int, v: usize, k: int|
        0 <= i < child_areas.len() && #[trigger] child_areas[i].data_frames@.contains_key(v)
            && 0 <= k < cpt.frames@.len() ==> child_areas[i].data_frames@[v] != #[trigger] cpt.frames@[k]
}

/// The state of a fork of `ms0` (allocator `a0` before) that has handled
/// the pages before page `vpn` of area `ai`, `done` of them.
pub open spec fn fork_state(
    ms0: MemorySet,
    a0: StackFrameAllocator,
    parent: MemorySet,
    child_areas: Seq<MapArea>,
    cpt: PageTable,
    alloc: StackFrameAllocator,
    ai: int,
    vpn: int,
    done: int,
) -> bool {
    &&& fork_pages_ok(ms0, a0, parent, child_areas, cpt, ai, vpn)
    &&& fork_frames_ok(ms0, a0, child_areas, cpt, alloc, ai, vpn)
    &&& done == total_pages(ms0.areas@, ai) + (vpn - (if ai < ms0.areas@.len() { ms0.areas@[ai].start_vpn as int } else { 0 }))
}

proof fn lemma_keeps_entry(new_pt: PageTable, old_pt: PageTable, vpn: usize, v: usize)
    requires
        new_pt.wf(),
        keeps_other_translations(new_pt, old_pt, vpn),
        v != vpn,
    ensures
        new_pt.entry(v) == old_pt.entry(v) || new_pt.entry(v).bits == 0,
{
    if new_pt.leaves@.contains_key(v) {
        assert(new_pt.has_leaf_table(v));
        assert(new_pt.spec_translate(v).is_some());
        if new_pt.spec_translate(v) == old_pt.spec_translate(v) {
            assert(old_pt.has_leaf_table(v));
        }
    }
}

/// A page of `ms` that user code can reach belongs to a framed area that holds a frame for it.
proof fn lemma_user_page_framed(ms: MemorySet, i: int, v: usize)
    requires
        ms.wf(),
        ms.user_areas_framed(),
        0 <= i < ms.areas@.len(),
        in_area(ms.areas@[i], v),
        ms.page_table.entry(v).has_flag(FLAG_U),
    ensures
        ms.areas@[i].map_type == MapType::Framed,
        ms.areas@[i].data_frames@.contains_key(v),
{
    let a = ms.areas@[i];
    assert(page_ok(ms.page_table, a, v));
    assert(a.shape_ok());
    lemma_flag_facts(a.map_perm.bits);
    assert(a.map_perm.bits & FLAG_U != 0);
    assert(a.frames_cover(a.end_vpn as int));
}

proof fn lemma_frames_held_grow(ms: MemorySet, a_old: StackFrameAllocator, a_new: StackFrameAllocator)
    requires
        ms.frames_held(&a_old),
        forall|p: usize| #[trigger] a_old.refs().contains_key(p) ==> a_new.refs().contains_key(p),
    ensures
        ms.frames_held(&a_new),
{
    assert forall|k: int| 0 <= k < ms.page_table.frames@.len() implies a_new.refs().contains_key(
        #[trigger] ms.page_table.frames@[k]) by {
        assert(a_old.refs().contains_key(ms.page_table.frames@[k]));
    }
    assert forall|i: int, v: usize|
        0 <= i < ms.areas@.len() && #[trigger] ms.areas@[i].data_frames@.contains_key(v)
        implies a_new.refs().contains_key(ms.areas@[i].data_frames@[v]) by {
        assert(a_old.refs().contains_key(ms.areas@[i].data_frames@[v]));
    }
}

/// Start of area `ai`, or 0 past the last area.
pub open spec fn area_start(ms0: MemorySet, ai: int) -> int {
    if ai < ms0.areas@.len() { ms0.areas@[ai].start_vpn as int } else { 0 }
}

proof fn lemma_fork_state_next_area(
    ms0: MemorySet,
    a0: StackFrameAllocator,
    parent: MemorySet,
    cas: Seq<MapArea>,
    cpt: PageTable,
    alloc: StackFrameAllocator,
    ai: int,
    done: int,
)
    requires
        ms0.wf(),
        0 <= ai < ms0.areas@.len(),
        cas.len() == ai + 1,
        fork_state(ms0, a0, parent, cas, cpt, alloc, ai, ms0.areas@[ai].end_vpn as int, done),
    ensures
        fork_state(ms0, a0, parent, cas, cpt, alloc, ai + 1, area_start(ms0, ai + 1), done),
{
    let e = ms0.areas@[ai].end_vpn as int;
    let s1 = area_start(ms0, ai + 1);
    assert forall|i: int, v: usize| forked_before(ms0, ai, e, i, v) == forked_before(ms0, ai + 1, s1, i, v) by {
        if forked_before(ms0, ai + 1, s1, i, v) && i == ai + 1 {
            assert(in_area(ms0.areas@[i], v));
        }
    }
    assert forall|v: usize| done_page(ms0, ai, e, v) == done_page(ms0, ai + 1, s1, v) by {
        if done_page(ms0, ai, e, v) {
            let i = choose|i: int| #[trigger] forked_before(ms0, ai, e, i, v);
            assert(forked_before(ms0, ai + 1, s1, i, v));
        }
        if done_page(ms0, ai + 1, s1, v) {
            let i = choose|i: int| #[trigger] forked_before(ms0, ai + 1, s1, i, v);
            assert(forked_before(ms0, ai, e, i, v));
        }
    }
    assert forall|p: usize| shared_upto(ms0, ai, e, p) == shared_upto(ms0, ai + 1, s1, p) by {
        if shared_upto(ms0, ai, e, p) {
            let (i, v) = choose|i: int, v: usize| #[trigger] forked_before(ms0, ai, e, i, v)
                && ms0.page_table.entry(v).has_flag(FLAG_U) && ms0.areas@[i].data_frames@[v] == p;
            assert(forked_before(ms0, ai + 1, s1, i, v));
        }
        if shared_upto(ms0, ai + 1, s1, p) {
            let (i, v) = choose|i: int, v: usize| #[trigger] forked_before(ms0, ai + 1, s1, i, v)
                && ms0.page_table.entry(v).has_flag(FLAG_U) && ms0.areas@[i].data_frames@[v] == p;
            assert(forked_before(ms0, ai, e, i, v));
        }
    }
    assert forall|i: int| 0 <= i < cas.len() implies (#[trigger] cas[i]).frames_cover(
        if i < ai + 1 { cas[i].end_vpn as int } else { s1 },
    ) by {
        assert(cas[i].frames_cover(if i < ai { cas[i].end_vpn as int } else { e }));
    }
    assert(total_pages(ms0.areas@, ai + 1) == total_pages(ms0.areas@, ai) + (e - ms0.areas@[ai].start_vpn));
    assert forall|i: int, v: usize| #[trigger] forked_before(ms0, ai + 1, s1, i, v) implies page_forked(
        ms0, parent.page_table, cpt, cas[i], i, v, a0.refs()) by {
        assert(forked_before(ms0, ai, e, i, v));
    }
    assert forall|v: usize| !done_page(ms0, ai + 1, s1, v) implies #[trigger] parent.page_table.spec_translate(v)
        == ms0.page_table.spec_translate(v) by {
        assert(!done_page(ms0, ai, e, v));
    }
    assert forall|v: usize| #![trigger cpt.entry(v)]
        cpt.entry(v).has_flag(FLAG_V) && v != TRAMPOLINE_VPN implies done_page(ms0, ai + 1, s1, v) by {
        assert(done_page(ms0, ai, e, v));
    }
    assert forall|p: usize| #[trigger] a0.refs().contains_key(p) implies alloc.refs().contains_key(p)
        && alloc.refs()[p] == a0.refs()[p] + (if shared_upto(ms0, ai + 1, s1, p) { 1int } else { 0 }) by {
        assert(shared_upto(ms0, ai, e, p) == shared_upto(ms0, ai + 1, s1, p));
    }
}

/// Page `vpn` is the next in fork order after the pages forked before it.
proof fn lemma_forked_next(ms0: MemorySet, ai: int, vpn: usize)
    requires
        ms0.wf(),
        0 <= ai < ms0.areas@.len(),
        in_area(ms0.areas@[ai], vpn),
    ensures
        forall|i: int, v: usize| #[trigger] forked_before(ms0, ai, vpn + 1, i, v)
            <==> (forked_before(ms0, ai, vpn as int, i, v) || (i == ai && v == vpn)),
        forall|i: int, v: usize| #[trigger] forked_before(ms0, ai, vpn as int, i, v) ==> v != vpn,
        !done_page(ms0, ai, vpn as int, vpn),
        done_page(ms0, ai, vpn + 1, vpn),
        forall|v: usize| #[trigger] done_page(ms0, ai, vpn as int, v) ==> done_page(ms0, ai, vpn + 1, v),
        forall|v: usize| #[trigger] done_page(ms0, ai, vpn + 1, v) && v != vpn ==> done_page(ms0, ai, vpn as int, v),
{
    assert forall|i: int, v: usize| #[trigger] forked_before(ms0, ai, vpn as int, i, v) implies v != vpn by {
        if i != ai {
            assert(areas_disjoint(ms0.areas@[i], ms0.areas@[ai]));
        }
    }
    assert(forked_before(ms0, ai, vpn + 1, ai, vpn));
    assert forall|v: usize| #[trigger] done_page(ms0, ai, vpn as int, v) implies done_page(ms0, ai, vpn + 1, v) by {
        let i = choose|i: int| #[trigger] forked_before(ms0, ai, vpn as int, i, v);
        assert(forked_before(ms0, ai, vpn + 1, i, v));
    }
    assert forall|v: usize| #[trigger] done_page(ms0, ai, vpn + 1, v) && v != vpn implies done_page(ms0, ai, vpn as int, v) by {
        let i = choose|i: int| #[trigger] forked_before(ms0, ai, vpn + 1, i, v);
        assert(forked_before(ms0, ai, vpn as int, i, v));
    }
}

/// The pages part of one step of the fork loop.
proof fn lemma_fork_step_pages(
    ms0: MemorySet,
    a0: StackFrameAllocator,
    p0: MemorySet,
    p1: MemorySet,
    cas: Seq<MapArea>,
    na0: MapArea,
    na1: MapArea,
    c0: PageTable,
    c1: PageTable,
    al0: StackFrameAllocator,
    al1: StackFrameAllocator,
    ai: int,
    vpn: usize,
    shared: bool,
)
    requires
        ms0.wf(),
        ms0.user_areas_framed(),
        p0.areas@ == ms0.areas@,
        p0.wf(),
        0 <= ai < ms0.areas@.len(),
        cas.len() == ai,
        in_area(ms0.areas@[ai], vpn),
        fork_pages_ok(ms0, a0, p0, cas.push(na0), c0, ai, vpn as int),
        forall|p: usize| #[trigger] a0.refs().contains_key(p) ==> al0.refs().contains_key(p),
        fork_page_post(p0, p1, ai, vpn, na0, na1, c0, c1, al0, al1, shared),
    ensures
        fork_pages_ok(ms0, a0, p1, cas.push(na1), c1, ai, vpn + 1),
{
    let cas0 = cas.push(na0);
    let cas1 = cas.push(na1);
    let pa = ms0.areas@[ai];
    let e = ms0.page_table.entry(vpn);
    lemma_forked_next(ms0, ai, vpn);
    assert(page_ok(ms0.page_table, pa, vpn));
    assert(p0.page_table.spec_translate(vpn) == ms0.page_table.spec_translate(vpn));
    assert(p0.page_table.entry(vpn) == e);
    assert(pa.shape_ok());
    assert(cas0[ai] == na0);
    assert(cas1[ai] == na1);
    assert(na0.start_vpn == pa.start_vpn);
    assert(na0.frames_cover(vpn as int));
    assert forall|i: int| 0 <= i < cas1.len() implies {
        &&& (#[trigger] cas1[i]).start_vpn == ms0.areas@[i].start_vpn
        &&& cas1[i].end_vpn == ms0.areas@[i].end_vpn
        &&& cas1[i].map_type == ms0.areas@[i].map_type
        &&& cas1[i].map_perm == ms0.areas@[i].map_perm
        &&& cas1[i].frames_cover(if i < ai { cas1[i].end_vpn as int } else { vpn + 1 })
    } by {
        assert(cas0[i].start_vpn == ms0.areas@[i].start_vpn);
        if i < ai {
            assert(cas1[i] == cas0[i]);
        } else {
            if pa.map_type == MapType::Framed {
                assert forall|v: usize| #[trigger] na1.data_frames@.contains_key(v) <==> na1.start_vpn <= v < vpn + 1 by {
                    assert(na0.data_frames@.contains_key(v) <==> na0.start_vpn <= v < vpn);
                }
            }
        }
    }
    assert forall|i: int, v: usize| #[trigger] forked_before(ms0, ai, vpn + 1, i, v) implies page_forked(
        ms0, p1.page_table, c1, cas1[i], i, v, a0.refs()) by {
        if i == ai && v == vpn {
            if e.has_flag(FLAG_U) {
                lemma_user_page_framed(ms0, ai, vpn);
            }
        } else {
            assert(forked_before(ms0, ai, vpn as int, i, v));
            assert(page_forked(ms0, p0.page_table, c0, cas0[i], i, v, a0.refs()));
            assert(in_area(p0.areas@[i], v));
            assert(page_ok(p0.page_table, p0.areas@[i], v));
            assert(p1.page_table.spec_translate(v) == p0.page_table.spec_translate(v));
            assert(p1.page_table.entry(v) == p0.page_table.entry(v));
            assert(c0.spec_translate(v).is_some());
            assert(c1.spec_translate(v) == c0.spec_translate(v));
            assert(c1.entry(v) == c0.entry(v));
            if i == ai {
                assert(na1.data_frames@.contains_key(v) == na0.data_frames@.contains_key(v));
                assert(na1.data_frames@[v] == na0.data_frames@[v]);
                assert(frame_of(na1, v) == frame_of(na0, v));
            } else {
                assert(cas1[i] == cas0[i]);
            }
        }
    }
    assert forall|v: usize| !done_page(ms0, ai, vpn + 1, v) implies #[trigger] p1.page_table.spec_translate(v)
        == ms0.page_table.spec_translate(v) by {
        assert(!done_page(ms0, ai, vpn as int, v));
        assert(p0.page_table.spec_translate(v) == ms0.page_table.spec_translate(v));
    }
    assert forall|v: usize| #![trigger c1.entry(v)]
        c1.entry(v).has_flag(FLAG_V) && v != TRAMPOLINE_VPN implies done_page(ms0, ai, vpn + 1, v) by {
        if v != vpn {
            lemma_keeps_entry(c1, c0, vpn, v);
            if c1.entry(v).bits == 0 {
                lemma_zero_entry_invalid(c1.entry(v));
            } else {
                assert(c0.entry(v).has_flag(FLAG_V));
                assert(done_page(ms0, ai, vpn as int, v));
            }
        }
    }
    lemma_keeps_entry(c1, c0, vpn, TRAMPOLINE_VPN);
    if c1.entry(TRAMPOLINE_VPN).bits == 0 {
        lemma_zero_entry_invalid(c1.entry(TRAMPOLINE_VPN));
    }
}

/// Forking page `vpn` adds its frame to the shared ones exactly when the page is a user page.
proof fn lemma_shared_next(ms0: MemorySet, a0: StackFrameAllocator, ai: int, vpn: usize, p: usize)
    requires
        ms0.wf(),
        ms0.user_areas_framed(),
        ms0.frames_held(&a0),
        0 <= ai < ms0.areas@.len(),
        in_area(ms0.areas@[ai], vpn),
    ensures
        shared_upto(ms0, ai, vpn + 1, p) == (shared_upto(ms0, ai, vpn as int, p) || (
        ms0.page_table.entry(vpn).has_flag(FLAG_U) && ms0.areas@[ai].data_frames@[vpn] == p)),
        ms0.areas@[ai].data_frames@.contains_key(vpn) && ms0.areas@[ai].data_frames@[vpn] == p
            ==> !shared_upto(ms0, ai, vpn as int, p),
{
    lemma_forked_next(ms0, ai, vpn);
    if shared_upto(ms0, ai, vpn + 1, p) {
        let (i, v) = choose|i: int, v: usize| #[trigger] forked_before(ms0, ai, vpn + 1, i, v)
            && ms0.page_table.entry(v).has_flag(FLAG_U) && ms0.areas@[i].data_frames@[v] == p;
        if !(i == ai && v == vpn) {
            assert(forked_before(ms0, ai, vpn as int, i, v));
        }
    }
    if shared_upto(ms0, ai, vpn as int, p) {
        let (i, v) = choose|i: int, v: usize| #[trigger] forked_before(ms0, ai, vpn as int, i, v)
            && ms0.page_table.entry(v).has_flag(FLAG_U) && ms0.areas@[i].data_frames@[v] == p;
        assert(forked_before(ms0, ai, vpn + 1, i, v));
        if ms0.areas@[ai].data_frames@.contains_key(vpn) && ms0.areas@[ai].data_frames@[vpn] == p {
            lemma_user_page_framed(ms0, i, v);
            assert(ms0.frames_distinct());
            assert(v != vpn);
            assert(ms0.areas@[i].data_frames@[v] != ms0.areas@[ai].data_frames@[vpn]);
        }
    }
    if ms0.page_table.entry(vpn).has_flag(FLAG_U) && ms0.areas@[ai].data_frames@[vpn] == p {
        assert(forked_before(ms0, ai, vpn + 1, ai, vpn));
    }
}

/// The frames part of one step of the fork loop.
proof fn lemma_fork_step_frames(
    ms0: MemorySet,
    a0: StackFrameAllocator,
    p0: MemorySet,
    p1: MemorySet,
    cas: Seq<MapArea>,
    na0: MapArea,
    na1: MapArea,
    c0: PageTable,
    c1: PageTable,
    al0: StackFrameAllocator,
    al1: StackFrameAllocator,
    ai: int,
    vpn: usize,
    shared: bool,
)
    requires
        ms0.wf(),
        ms0.user_areas_framed(),
        ms0.frames_held(&a0),
        p0.areas@ == ms0.areas@,
        p0.wf(),
        p0.frames_held(&al0),
        0 <= ai < ms0.areas@.len(),
        cas.len() == ai,
        in_area(ms0.areas@[ai], vpn),
        fork_pages_ok(ms0, a0, p0, cas.push(na0), c0, ai, vpn as int),
        fork_frames_ok(ms0, a0, cas.push(na0), c0, al0, ai, vpn as int),
        fork_page_post(p0, p1, ai, vpn, na0, na1, c0, c1, al0, al1, shared),
    ensures
        fork_frames_ok(ms0, a0, cas.push(na1), c1, al1, ai, vpn + 1),
{
    let cas0 = cas.push(na0);
    let cas1 = cas.push(na1);
    let pa = ms0.areas@[ai];
    let e = ms0.page_table.entry(vpn);
    lemma_forked_next(ms0, ai, vpn);
    assert(page_ok(ms0.page_table, pa, vpn));
    assert(p0.page_table.spec_translate(vpn) == ms0.page_table.spec_translate(vpn));
    assert(p0.page_table.entry(vpn) == e);
    assert(cas0[ai] == na0);
    assert(cas1[ai] == na1);
    assert(na0.frames_cover(vpn as int));
    assert(!na0.data_frames@.contains_key(vpn));
    if shared {
        lemma_user_page_framed(ms0, ai, vpn);
        assert(a0.refs().contains_key(pa.data_frames@[vpn]));
    }
    assert forall|p: usize| #[trigger] a0.refs().contains_key(p) implies al1.refs().contains_key(p)
        && al1.refs()[p] == a0.refs()[p] + (if shared_upto(ms0, ai, vpn + 1, p) { 1int } else { 0 }) by {
        lemma_shared_next(ms0, a0, ai, vpn, p);
        if e.has_flag(FLAG_U) {
            lemma_user_page_framed(ms0, ai, vpn);
        }
        assert(al0.refs().contains_key(p));
    }
    assert forall|k: int| 0 <= k < c1.frames@.len() implies !a0.refs().contains_key(#[trigger] c1.frames@[k]) by {
        if k < c0.frames@.len() {
            assert(c1.frames@.subrange(0, c0.frames@.len() as int)[k] == c1.frames@[k]);
            assert(c0.frames@[k] == c1.frames@[k]);
        } else {
            if a0.refs().contains_key(c1.frames@[k]) {
                assert(al0.refs().contains_key(c1.frames@[k]));
            }
        }
    }
    // Every frame of the child areas before this step is allocated in `al0`.
    assert forall|i: int, v: usize| 0 <= i < cas1.len() && #[trigger] cas1[i].data_frames@.contains_key(v)
        implies al1.refs().contains_key(cas1[i].data_frames@[v]) by {
        if i == ai && v == vpn {
            if shared {
                assert(p0.areas@[ai].data_frames@.contains_key(vpn));
                assert(al0.refs().contains_key(pa.data_frames@[vpn]));
            }
        } else {
            if i == ai {
                assert(na0.data_frames@.contains_key(v));
                assert(na1.data_frames@[v] == na0.data_frames@[v]);
            } else {
                assert(cas1[i] == cas0[i]);
            }
            assert(cas0[i].data_frames@.contains_key(v));
            assert(al0.refs().contains_key(cas0[i].data_frames@[v]));
        }
    }
    // A frame of a child page forked before: the parent's, for a user page, else one the parent did not hold.
    assert forall|i: int, v: usize| 0 <= i < cas0.len() && #[trigger] cas0[i].data_frames@.contains_key(v)
        implies (ms0.page_table.entry(v).has_flag(FLAG_U) && ms0.areas@[i].data_frames@.contains_key(v)
            && cas0[i].data_frames@[v] == ms0.areas@[i].data_frames@[v] && v != vpn)
            || !a0.refs().contains_key(cas0[i].data_frames@[v]) by {
        assert(cas0[i].start_vpn == ms0.areas@[i].start_vpn);
        assert(cas0[i].frames_cover(if i < ai { cas0[i].end_vpn as int } else { vpn as int }));
        if cas0[i].map_type != MapType::Framed {
            assert(!cas0[i].data_frames@.contains_key(v));
        }
        assert(forked_before(ms0, ai, vpn as int, i, v));
        assert(page_forked(ms0, p0.page_table, c0, cas0[i], i, v, a0.refs()));
        if ms0.page_table.entry(v).has_flag(FLAG_U) {
            lemma_user_page_framed(ms0, i, v);
        }
    }
    let f = na1.data_frames@[vpn];
    assert forall|i: int, v: usize| 0 <= i < cas0.len() && #[trigger] cas0[i].data_frames@.contains_key(v)
        && pa.map_type == MapType::Framed implies cas0[i].data_frames@[v] != f by {
        assert(al0.refs().contains_key(cas0[i].data_frames@[v]));
        if shared {
            if ms0.page_table.entry(v).has_flag(FLAG_U) && ms0.areas@[i].data_frames@.contains_key(v)
                && cas0[i].data_frames@[v] == ms0.areas@[i].data_frames@[v] && v != vpn {
                assert(ms0.frames_distinct());
                assert(ms0.areas@[ai].data_frames@.contains_key(vpn));
            }
        }
    }
    assert forall|i1: int, v1: usize, i2: int, v2: usize|
        0 <= i1 < cas1.len() && 0 <= i2 < cas1.len()
            && cas1[i1].data_frames@.contains_key(v1)
            && cas1[i2].data_frames@.contains_key(v2) && (i1 != i2 || v1 != v2)
            implies #[trigger] cas1[i1].data_frames@[v1] != #[trigger] cas1[i2].data_frames@[v2] by {
        if i1 == ai && v1 == vpn {
            assert(pa.map_type == MapType::Framed);
            if i2 == ai {
                assert(na0.data_frames@.contains_key(v2));
                assert(na1.data_frames@[v2] == na0.data_frames@[v2]);
            } else {
                assert(cas1[i2] == cas0[i2]);
            }
            assert(cas0[i2].data_frames@.contains_key(v2));
        } else if i2 == ai && v2 == vpn {
            assert(pa.map_type == MapType::Framed);
            if i1 == ai {
                assert(na0.data_frames@.contains_key(v1));
                assert(na1.data_frames@[v1] == na0.data_frames@[v1]);
            } else {
                assert(cas1[i1] == cas0[i1]);
            }
            assert(cas0[i1].data_frames@.contains_key(v1));
        } else {
            if i1 == ai {
                assert(na1.data_frames@[v1] == na0.data_frames@[v1]);
            } else {
                assert(cas1[i1] == cas0[i1]);
            }
            if i2 == ai {
                assert(na1.data_frames@[v2] == na0.data_frames@[v2]);
            } else {
                assert(cas1[i2] == cas0[i2]);
            }
            assert(cas0[i1].data_frames@.contains_key(v1));
            assert(cas0[i2].data_frames@.contains_key(v2));
        }
    }
    assert forall|i: int, v: usize, k: int|
        0 <= i < cas1.len() && #[trigger] cas1[i].data_frames@.contains_key(v)
            && 0 <= k < c1.frames@.len() implies cas1[i].data_frames@[v] != #[trigger] c1.frames@[k] by {
        if k < c0.frames@.len() {
            assert(c1.frames@.subrange(0, c0.frames@.len() as int)[k] == c1.frames@[k]);
            assert(c0.frames@[k] == c1.frames@[k]);
            assert(al0.refs().contains_key(c0.frames@[k]));
        } else {
            assert(!al0.refs().contains_key(c1.frames@[k]));
            assert(!a0.refs().contains_key(c1.frames@[k]));
        }
        if i == ai && v == vpn {
            if shared {
                assert(a0.refs().contains_key(f));
            }
        } else {
            if i == ai {
                assert(na0.data_frames@.contains_key(v));
                assert(na1.data_frames@[v] == na0.data_frames@[v]);
            } else {
                assert(cas1[i] == cas0[i]);
            }
            assert(cas0[i].data_frames@.contains_key(v));
            assert(al0.refs().contains_key(cas0[i].data_frames@[v]));
        }
    }
}

/// `p` is the frame of a user page of `ms`.
pub open spec fn user_frame(ms: MemorySet, p: usize) -> bool {
    exists|i: int, v: usize|
        0 <= i < ms.areas@.len() && #[trigger] in_area(ms.areas@[i], v) && ms.page_table.entry(v).has_flag(FLAG_U)
            && ms.areas@[i].data_frames@[v] == p
}

/// A fork of `ms0` that has handled every page leaves a well-formed child
/// and the parent and allocator as the fork promises.
proof fn lemma_fork_done(
    ms0: MemorySet,
    a0: StackFrameAllocator,
    parent: MemorySet,
    child: MemorySet,
    alloc: StackFrameAllocator,
    done: int,
)
    requires
        ms0.wf(),
        ms0.user_areas_framed(),
        child.page_table.wf(),
        child.areas@.len() == ms0.areas@.len(),
        fork_state(ms0, a0, parent, child.areas@, child.page_table, alloc, ms0.areas@.len() as int, 0, done),
    ensures
        child.wf(),
        child.frames_held(&alloc),
        forall|i: int, v: usize| 0 <= i < ms0.areas@.len() && #[trigger] in_area(ms0.areas@[i], v)
            ==> page_forked(ms0, parent.page_table, child.page_table, child.areas@[i], i, v, a0.refs()),
        forall|v: usize| !ms0.covers(v) ==> #[trigger] parent.page_table.spec_translate(v)
            == ms0.page_table.spec_translate(v),
        forall|p: usize| #[trigger] a0.refs().contains_key(p) ==> alloc.refs().contains_key(p)
            && alloc.refs()[p] == a0.refs()[p] + (if user_frame(ms0, p) { 1int } else { 0 }),
        done == total_pages(ms0.areas@, ms0.areas@.len() as int),
{
    let n = ms0.areas@.len() as int;
    let cas = child.areas@;
    assert forall|i: int, v: usize| 0 <= i < n && #[trigger] in_area(ms0.areas@[i], v)
        implies page_forked(ms0, parent.page_table, child.page_table, cas[i], i, v, a0.refs()) by {
        assert(forked_before(ms0, n, 0, i, v));
    }
    assert forall|v: usize| !ms0.covers(v) implies #[trigger] parent.page_table.spec_translate(v)
        == ms0.page_table.spec_translate(v) by {
        if done_page(ms0, n, 0, v) {
            let i = choose|i: int| #[trigger] forked_before(ms0, n, 0, i, v);
            assert(in_area(ms0.areas@[i], v));
        }
    }
    assert forall|p: usize| #[trigger] a0.refs().contains_key(p) implies alloc.refs().contains_key(p)
        && alloc.refs()[p] == a0.refs()[p] + (if user_frame(ms0, p) { 1int } else { 0 }) by {
        if shared_upto(ms0, n, 0, p) {
            let (i, v) = choose|i: int, v: usize| #[trigger] forked_before(ms0, n, 0, i, v)
                && ms0.page_table.entry(v).has_flag(FLAG_U) && ms0.areas@[i].data_frames@[v] == p;
            assert(in_area(ms0.areas@[i], v));
        }
        if user_frame(ms0, p) {
            let (i, v) = choose|i: int, v: usize|
                0 <= i < ms0.areas@.len() && #[trigger] in_area(ms0.areas@[i], v) && ms0.page_table.entry(v).has_flag(FLAG_U)
                    && ms0.areas@[i].data_frames@[v] == p;
            assert(forked_before(ms0, n, 0, i, v));
        }
    }
    assert forall|i: int| 0 <= i < cas.len() implies (#[trigger] cas[i]).shape_ok()
        && cas[i].frames_cover(cas[i].end_vpn as int) by {
        assert(ms0.areas@[i].shape_ok());
    }
    assert forall|i: int, j: int| 0 <= i < cas.len() && 0 <= j < cas.len() && i != j
        implies areas_disjoint(#[trigger] cas[i], #[trigger] cas[j]) by {
        assert(areas_disjoint(ms0.areas@[i], ms0.areas@[j]));
    }
    assert forall|i: int, v: usize| 0 <= i < cas.len() && #[trigger] in_area(cas[i], v)
        implies page_ok(child.page_table, cas[i], v) by {
        assert(cas[i].start_vpn == ms0.areas@[i].start_vpn);
        assert(forked_before(ms0, n, 0, i, v));
    }
    assert forall|i: int, v: usize| 0 <= i < cas.len() && #[trigger] in_area(cas[i], v)
        && child.page_table.entry(v).spec_is_cow() implies cas[i].map_type == MapType::Framed by {
        assert(cas[i].start_vpn == ms0.areas@[i].start_vpn);
        assert(forked_before(ms0, n, 0, i, v));
        lemma_user_page_framed(ms0, i, v);
    }
    assert forall|v: usize| #![trigger child.page_table.entry(v)]
        child.page_table.entry(v).has_flag(FLAG_V) && v != TRAMPOLINE_VPN implies child.covers(v) by {
        let i = choose|i: int| #[trigger] forked_before(ms0, n, 0, i, v);
        assert(cas[i].start_vpn == ms0.areas@[i].start_vpn);
        assert(in_area(cas[i], v));
    }
}

impl MemorySet {
    /// The mappings of the copy-on-write fork of this user address space:
    /// user pages are shared with the child (both sides copy-on-write when
    /// the page is writable or already copy-on-write, read-only pages shared
    /// as they are), any other page gets a frame of its own. The child gets
    /// its own trampoline mapping to `trampoline_ppn`.
    fn fork_cow_mappings(&mut self, trampoline_ppn: usize, alloc: &mut StackFrameAllocator) -> (res: (MemorySet, CowForkStats))
        requires
            old(self).wf(),
            old(self).frames_held(&*old(alloc)),
            old(self).user_areas_framed(),
            alloc_fits(&*old(alloc)),
            forall|i: int, v: usize| 0 <= i < old(self).areas@.len() && #[trigger] old(self).areas@[i].data_frames@.contains_key(v)
                ==> old(alloc).refs()[old(self).areas@[i].data_frames@[v]] < usize::MAX,
            total_pages(old(self).areas@, old(self).areas@.len() as int) <= VPN_LIMIT,
            old(alloc).free_frames() >= 3 + 3 * total_pages(old(self).areas@, old(self).areas@.len() as int),
        ensures
            final(self).wf(),
            final(self).frames_held(&*final(alloc)),
            final(self).areas@ == old(self).areas@,
            alloc_fits(&*final(alloc)),
            res.0.wf(),
            res.0.frames_held(&*final(alloc)),
            res.0.areas@.len() == old(self).areas@.len(),
            forall|i: int| 0 <= i < old(self).areas@.len() ==> {
                &&& (#[trigger] res.0.areas@[i]).start_vpn == old(self).areas@[i].start_vpn
                &&& res.0.areas@[i].end_vpn == old(self).areas@[i].end_vpn
                &&& res.0.areas@[i].map_type == old(self).areas@[i].map_type
                &&& res.0.areas@[i].map_perm == old(self).areas@[i].map_perm
            },
            forall|i: int, v: usize| 0 <= i < old(self).areas@.len() && #[trigger] in_area(old(self).areas@[i], v)
                ==> page_forked(*old(self), final(self).page_table, res.0.page_table, res.0.areas@[i], i, v, old(alloc).refs()),
            forall|v: usize| !old(self).covers(v) ==> #[trigger] final(self).page_table.spec_translate(v)
                == old(self).page_table.spec_translate(v),
            forall|p: usize| #[trigger] old(alloc).refs().contains_key(p) ==> final(alloc).refs().contains_key(p)
                && final(alloc).refs()[p] == old(alloc).refs()[p] + (if user_frame(*old(self), p) { 1int } else { 0 }),
            res.1.shared_pages + res.1.copied_pages == total_pages(old(self).areas@, old(self).areas@.len() as int),
            res.1.shared_pages == user_pages(old(self).areas@, old(self).areas@.len() as int),
            res.1.copied_pages == total_pages(old(self).areas@, old(self).areas@.len() as int) - user_pages(
                old(self).areas@,
                old(self).areas@.len() as int,
            ),
            res.1.allocated_frames == final(alloc).refs().len() - old(alloc).refs().len(),
    {
        let before = alloc.allocated_count();
        let ghost ms0 = *self;
        let ghost a0 = *alloc;
        let n = self.areas.len();
        proof {
            assert forall|i: int| 0 <= i < ms0.areas@.len() implies (#[trigger] ms0.areas@[i]).start_vpn <= ms0.areas@[i].end_vpn by {
                assert(ms0.areas@[i].shape_ok());
            }
            lemma_total_pages_mono(ms0.areas@, 0, n as int);
        }
        let mut memory_set = MemorySet::new_bare(alloc);
        let ghost a1 = *alloc;
        proof {
            assert(memory_set.page_table.spec_translate(TRAMPOLINE_VPN).is_none());
            assert(!memory_set.page_table.leaves@.contains_key(TRAMPOLINE_VPN));
            lemma_zero_entry_invalid(memory_set.page_table.entry(TRAMPOLINE_VPN));
        }
        memory_set.map_trampoline(trampoline_ppn, alloc);
        let ghost child0 = memory_set;
        let mut shared_pages: usize = 0;
        let mut copied_pages: usize = 0;
        let mut ai: usize = 0;
        proof {
            assert forall|v: usize| v != TRAMPOLINE_VPN implies !(#[trigger] memory_set.page_table.entry(v)).has_flag(FLAG_V) by {
                assert(memory_set.page_table.entry(v) == child0.page_table.entry(v));
                if memory_set.page_table.entry(v).has_flag(FLAG_V) {
                    assert(memory_set.covers(v));
                }
            }
            assert forall|p: usize| #[trigger] a0.refs().contains_key(p) implies alloc.refs().contains_key(p)
                && alloc.refs()[p] == a0.refs()[p] by {
                assert(a1.refs().contains_key(p));
            }
            lemma_frames_held_grow(ms0, a0, *alloc);
            assert forall|k: int| 0 <= k < memory_set.page_table.frames@.len() implies !a0.refs().contains_key(
                #[trigger] memory_set.page_table.frames@[k]) by {
                if k == 0 {
                    assert(memory_set.page_table.frames@.subrange(0, 1)[0] == memory_set.page_table.frames@[0]);
                } else if a0.refs().contains_key(memory_set.page_table.frames@[k]) {
                    assert(a1.refs().contains_key(memory_set.page_table.frames@[k]));
                }
            }
            assert forall|i: int, v: usize| !forked_before(ms0, 0, area_start(ms0, 0), i, v) by {}
            assert forall|p: usize| !shared_upto(ms0, 0, area_start(ms0, 0), p) by {}
            assert forall|v: usize| !done_page(ms0, 0, area_start(ms0, 0), v) by {}
        }
        while ai < n
            invariant
                n == ms0.areas@.len(),
                ai <= n,
                self.wf(),
                self.frames_held(&*alloc),
                self.areas@ == ms0.areas@,
                ms0 == *old(self),
                a0 == *old(alloc),
                ms0.wf(),
                ms0.frames_held(&a0),
                ms0.user_areas_framed(),
                forall|i: int, v: usize| 0 <= i < ms0.areas@.len() && #[trigger] ms0.areas@[i].data_frames@.contains_key(v)
                    ==> a0.refs()[ms0.areas@[i].data_frames@[v]] < usize::MAX,
                forall|i: int| 0 <= i < ms0.areas@.len() ==> (#[trigger] ms0.areas@[i]).start_vpn <= ms0.areas@[i].end_vpn,
                alloc_fits(&*alloc),
                memory_set.page_table.wf(),
                memory_set.areas@.len() == ai,
                fork_state(ms0, a0, *self, memory_set.areas@, memory_set.page_table, *alloc, ai as int,
                    area_start(ms0, ai as int), shared_pages + copied_pages),
                alloc.free_frames() >= 3 * (total_pages(ms0.areas@, n as int) - (shared_pages + copied_pages)),
                total_pages(ms0.areas@, n as int) <= VPN_LIMIT,
                before == a0.refs().len(),
                shared_pages == user_pages(ms0.areas@, ai as int),
            decreases n - ai,
        {
            let mut new_area = MapArea::from_another(&self.areas[ai]);
            let end = self.areas[ai].end_vpn;
            let mut vpn = self.areas[ai].start_vpn;
            proof {
                lemma_total_pages_mono(ms0.areas@, ai + 1, n as int);
                assert(total_pages(ms0.areas@, ai + 1) == total_pages(ms0.areas@, ai as int)
                    + (ms0.areas@[ai as int].end_vpn - ms0.areas@[ai as int].start_vpn));
                let cas = memory_set.areas@.push(new_area);
                assert(cas[ai as int] == new_area);
                assert forall|i: int| 0 <= i < cas.len() implies {
                    &&& (#[trigger] cas[i]).start_vpn == ms0.areas@[i].start_vpn
                    &&& cas[i].end_vpn == ms0.areas@[i].end_vpn
                    &&& cas[i].map_type == ms0.areas@[i].map_type
                    &&& cas[i].map_perm == ms0.areas@[i].map_perm
                    &&& cas[i].frames_cover(if i < ai { cas[i].end_vpn as int } else { vpn as int })
                } by {
                    if i < ai {
                        assert(cas[i] == memory_set.areas@[i]);
                    }
                }
                assert forall|i: int, v: usize| 0 <= i < cas.len() && #[trigger] cas[i].data_frames@.contains_key(v)
                    implies alloc.refs().contains_key(cas[i].data_frames@[v]) by {
                    assert(cas[i] == memory_set.areas@[i]);
                }
                assert forall|i1: int, v1: usize, i2: int, v2: usize|
                    0 <= i1 < cas.len() && 0 <= i2 < cas.len()
                        && cas[i1].data_frames@.contains_key(v1)
                        && cas[i2].data_frames@.contains_key(v2) && (i1 != i2 || v1 != v2)
                        implies #[trigger] cas[i1].data_frames@[v1] != #[trigger] cas[i2].data_frames@[v2] by {
                    assert(cas[i1] == memory_set.areas@[i1]);
                    assert(cas[i2] == memory_set.areas@[i2]);
                }
                assert forall|i: int, v: usize, k: int|
                    0 <= i < cas.len() && #[trigger] cas[i].data_frames@.contains_key(v)
                        && 0 <= k < memory_set.page_table.frames@.len()
                        implies cas[i].data_frames@[v] != #[trigger] memory_set.page_table.frames@[k] by {
                    assert(cas[i] == memory_set.areas@[i]);
                }
                assert forall|i: int, v: usize| #[trigger] forked_before(ms0, ai as int, vpn as int, i, v) implies page_forked(
                    ms0, self.page_table, memory_set.page_table, cas[i], i, v, a0.refs()) by {
                    assert(cas[i] == memory_set.areas@[i]);
                }
            }
            while vpn < end
                invariant
                    n == ms0.areas@.len(),
                    ai < n,
                    end == ms0.areas@[ai as int].end_vpn,
                    ms0.areas@[ai as int].start_vpn <= vpn <= end,
                    new_area.start_vpn == ms0.areas@[ai as int].start_vpn,
                    new_area.end_vpn == ms0.areas@[ai as int].end_vpn,
                    new_area.map_type == ms0.areas@[ai as int].map_type,
                    new_area.map_perm == ms0.areas@[ai as int].map_perm,
                    self.wf(),
                    self.frames_held(&*alloc),
                    self.areas@ == ms0.areas@,
                    ms0 == *old(self),
                    a0 == *old(alloc),
                    ms0.wf(),
                    ms0.frames_held(&a0),
                    ms0.user_areas_framed(),
                    forall|i: int, v: usize| 0 <= i < ms0.areas@.len() && #[trigger] ms0.areas@[i].data_frames@.contains_key(v)
                        ==> a0.refs()[ms0.areas@[i].data_frames@[v]] < usize::MAX,
                    forall|i: int| 0 <= i < ms0.areas@.len() ==> (#[trigger] ms0.areas@[i]).start_vpn <= ms0.areas@[i].end_vpn,
                    alloc_fits(&*alloc),
                    memory_set.page_table.wf(),
                    memory_set.areas@.len() == ai,
                    fork_state(ms0, a0, *self, memory_set.areas@.push(new_area), memory_set.page_table, *alloc, ai as int,
                        vpn as int, shared_pages + copied_pages),
                    alloc.free_frames() >= 3 * (total_pages(ms0.areas@, n as int) - (shared_pages + copied_pages)),
                    total_pages(ms0.areas@, n as int) <= VPN_LIMIT,
                    total_pages(ms0.areas@, ai + 1) <= total_pages(ms0.areas@, n as int),
                    total_pages(ms0.areas@, ai + 1) == total_pages(ms0.areas@, ai as int)
                        + (ms0.areas@[ai as int].end_vpn - ms0.areas@[ai as int].start_vpn),
                    before == a0.refs().len(),
                    shared_pages == user_pages(ms0.areas@, ai as int) + (if ms0.areas@[ai as int].map_perm.bits & FLAG_U
                        != 0 {
                        vpn - ms0.areas@[ai as int].start_vpn
                    } else {
                        0
                    }),
                decreases end - vpn,
            {
                let ghost p0 = *self;
                let ghost na0 = new_area;
                let ghost c0 = memory_set.page_table;
                let ghost al0 = *alloc;
                let ghost cas = memory_set.areas@;
                proof {
                    let pa = ms0.areas@[ai as int];
                    assert(cas.push(na0)[ai as int] == na0);
                    assert(na0.frames_cover(vpn as int));
                    assert(pa.shape_ok());
                    lemma_forked_next(ms0, ai as int, vpn);
                    assert(!memory_set.page_table.entry(vpn).has_flag(FLAG_V));
                    if pa.data_frames@.contains_key(vpn) {
                        lemma_shared_next(ms0, a0, ai as int, vpn, pa.data_frames@[vpn]);
                        assert(a0.refs().contains_key(pa.data_frames@[vpn]));
                    }
                    assert(self.user_areas_framed());
                }
                proof {
                    let pa = ms0.areas@[ai as int];
                    assert(in_area(pa, vpn));
                    assert(page_ok(ms0.page_table, pa, vpn));
                    assert(self.page_table.spec_translate(vpn) == ms0.page_table.spec_translate(vpn));
                    assert(self.page_table.entry(vpn) == ms0.page_table.entry(vpn));
                    lemma_flag_facts(pa.map_perm.bits);
                    assert(ms0.page_table.entry(vpn).has_flag(FLAG_U) == (pa.map_perm.bits & FLAG_U != 0));
                }
                let shared = self.fork_page(ai, vpn, &mut new_area, &mut memory_set.page_table, alloc);
                proof {
                    lemma_fork_step_pages(ms0, a0, p0, *self, cas, na0, new_area, c0, memory_set.page_table,
                        al0, *alloc, ai as int, vpn, shared);
                    lemma_fork_step_frames(ms0, a0, p0, *self, cas, na0, new_area, c0, memory_set.page_table,
                        al0, *alloc, ai as int, vpn, shared);
                    assert(memory_set.areas@ == cas);
                }
                if shared {
                    shared_pages = shared_pages + 1;
                } else {
                    copied_pages = copied_pages + 1;
                }
                vpn = vpn + 1;
            }
            assert(shared_pages == user_pages(ms0.areas@, ai + 1));
            let ghost cas = memory_set.areas@.push(new_area);
            memory_set.areas.push(new_area);
            proof {
                assert(memory_set.areas@ == cas);
                lemma_fork_state_next_area(ms0, a0, *self, cas, memory_set.page_table, *alloc, ai as int,
                    shared_pages + copied_pages);
            }
            ai = ai + 1;
        }
        proof {
            lemma_fork_done(ms0, a0, *self, memory_set, *alloc, shared_pages + copied_pages);
            assert(a0.ref_counts@.dom().finite());
            assert(alloc.ref_counts@.dom().finite());
            assert(a0.refs().dom().subset_of(alloc.refs().dom()));
            vstd::set_lib::lemma_len_subset(a0.refs().dom(), alloc.refs().dom());
        }
        // Flush the parent's TLB entries of the pages now read-only.
        let after = alloc.allocated_count();
        (memory_set, CowForkStats { shared_pages, copied_pages, allocated_frames: after - before })
    }

    /// The copy-on-write fork of this user address space, as
    /// `fork_cow_mappings` maps it, with every page that gets a frame of its
    /// own (a framed page without user access) copied into that frame, where
    /// `mem` holds both frames; nothing else in `mem` changes.
    pub fn from_existed_user_cow(
        &mut self,
        trampoline_ppn: usize,
        alloc: &mut StackFrameAllocator,
        mem: &mut PhysMem,
    ) -> (res: (MemorySet, CowForkStats))
        requires
            old(mem).wf(),
            old(self).wf(),
            old(self).frames_held(&*old(alloc)),
            old(self).user_areas_framed(),
            alloc_fits(&*old(alloc)),
            forall|i: int, v: usize| 0 <= i < old(self).areas@.len() && #[trigger] old(self).areas@[i].data_frames@.contains_key(v)
                ==> old(alloc).refs()[old(self).areas@[i].data_frames@[v]] < usize::MAX,
            total_pages(old(self).areas@, old(self).areas@.len() as int) <= VPN_LIMIT,
            old(alloc).free_frames() >= 3 + 3 * total_pages(old(self).areas@, old(self).areas@.len() as int),
        ensures
            final(self).wf(),
            final(self).frames_held(&*final(alloc)),
            final(self).areas@ == old(self).areas@,
            alloc_fits(&*final(alloc)),
            res.0.wf(),
            res.0.frames_held(&*final(alloc)),
            res.0.areas@.len() == old(self).areas@.len(),
            forall|i: int| 0 <= i < old(self).areas@.len() ==> {
                &&& (#[trigger] res.0.areas@[i]).start_vpn == old(self).areas@[i].start_vpn
                &&& res.0.areas@[i].end_vpn == old(self).areas@[i].end_vpn
                &&& res.0.areas@[i].map_type == old(self).areas@[i].map_type
                &&& res.0.areas@[i].map_perm == old(self).areas@[i].map_perm
            },
            forall|i: int, v: usize| 0 <= i < old(self).areas@.len() && #[trigger] in_area(old(self).areas@[i], v)
                ==> page_forked(*old(self), final(self).page_table, res.0.page_table, res.0.areas@[i], i, v, old(alloc).refs()),
            forall|v: usize| !old(self).covers(v) ==> #[trigger] final(self).page_table.spec_translate(v)
                == old(self).page_table.spec_translate(v),
            forall|p: usize| #[trigger] old(alloc).refs().contains_key(p) ==> final(alloc).refs().contains_key(p)
                && final(alloc).refs()[p] == old(alloc).refs()[p] + (if user_frame(*old(self), p) { 1int } else { 0 }),
            res.1.shared_pages + res.1.copied_pages == total_pages(old(self).areas@, old(self).areas@.len() as int),
            res.1.shared_pages == user_pages(old(self).areas@, old(self).areas@.len() as int),
            res.1.copied_pages == total_pages(old(self).areas@, old(self).areas@.len() as int) - user_pages(
                old(self).areas@,
                old(self).areas@.len() as int,
            ),
            res.1.allocated_frames == final(alloc).refs().len() - old(alloc).refs().len(),
            final(mem).base == old(mem).base,
            final(mem).bytes@.len() == old(mem).bytes@.len(),
            forall|i: int, v: usize| #[trigger] copied_page(*final(self), res.0, *old(mem), i, v, false) ==> frame_bytes(
                final(mem).bytes@,
                old(mem).base as int,
                res.0.areas@[i].data_frames@[v] as int,
            ) == frame_bytes(old(mem).bytes@, old(mem).base as int, final(self).areas@[i].data_frames@[v] as int),
            forall|k: int|
                0 <= k < old(mem).bytes@.len() && (forall|i: int, v: usize| #[trigger] copied_page(*final(self), res.0, *old(mem), i, v, false)
                    ==> !in_frame(old(mem).base as int, res.0.areas@[i].data_frames@[v] as int, k)) ==> final(mem).bytes@[k]
                    == old(mem).bytes@[k],
    {
        let ghost ms0 = *self;
        let ghost a0 = *alloc;
        let res = self.fork_cow_mappings(trampoline_ppn, alloc);
        proof {
            let child = res.0;
            assert forall|i: int| 0 <= i < self.areas@.len() implies {
                &&& (#[trigger] child.areas@[i]).start_vpn == self.areas@[i].start_vpn
                &&& child.areas@[i].end_vpn == self.areas@[i].end_vpn
                &&& child.areas@[i].map_type == self.areas@[i].map_type
                &&& child.areas@[i].map_perm == self.areas@[i].map_perm
                &&& self.areas@[i].start_vpn <= self.areas@[i].end_vpn
                &&& self.areas@[i].frames_cover(self.areas@[i].end_vpn as int)
                &&& child.areas@[i].frames_cover(child.areas@[i].end_vpn as int)
            } by {
                assert(self.areas@[i].shape_ok());
            }
            assert forall|i: int, v: usize, j: int, w: usize|
                #[trigger] copy_page(*self, i, v, false) && 0 <= j < self.areas@.len()
                    && #[trigger] self.areas@[j].data_frames@.contains_key(w) implies child.areas@[i].data_frames@[v]
                != self.areas@[j].data_frames@[w] by {
                let pa = ms0.areas@[i];
                assert(in_area(ms0.areas@[i], v));
                assert(page_forked(ms0, self.page_table, child.page_table, child.areas@[i], i, v, a0.refs()));
                assert(page_ok(ms0.page_table, pa, v));
                lemma_flag_facts(pa.map_perm.bits);
                assert(ms0.page_table.entry(v).has_flag(FLAG_U) == (pa.map_perm.bits & FLAG_U != 0));
                assert(ms0.areas@[j].data_frames@.contains_key(w));
                assert(a0.refs().contains_key(ms0.areas@[j].data_frames@[w]));
            }
            assert forall|i: int, v: usize, j: int, w: usize|
                #[trigger] copy_page(*self, i, v, false) && #[trigger] copy_page(*self, j, w, false) && (i != j || v != w)
                    implies child.areas@[i].data_frames@[v] != child.areas@[j].data_frames@[w] by {
                assert(child.areas@[i].frames_cover(child.areas@[i].end_vpn as int));
                assert(child.areas@[j].frames_cover(child.areas@[j].end_vpn as int));
                assert(child.areas@[i].data_frames@.contains_key(v));
                assert(child.areas@[j].data_frames@.contains_key(w));
            }
        }
        copy_fork_pages(&*self, &res.0, mem, false);
        res
    }
}

/// Page `v` of area `i` of `ms` is a framed page that a fork gives a
/// copy in a frame of its own: any framed page in an eager fork (`all`),
/// one without user access in a copy-on-write fork.
pub open spec fn copy_page(ms: MemorySet, i: int, v: usize, all: bool) -> bool {
    &&& 0 <= i < ms.areas@.len()
    &&& in_area(ms.areas@[i], v)
    &&& ms.areas@[i].map_type == MapType::Framed
    &&& (all || ms.areas@[i].map_perm.bits & FLAG_U == 0)
}

/// A page of `parent` to copy whose frame and whose frame in `child`
/// both lie in `mem`: one that `copy_fork_pages` copies.
pub open spec fn copied_page(parent: MemorySet, child: MemorySet, mem: PhysMem, i: int, v: usize, all: bool) -> bool {
    &&& copy_page(parent, i, v, all)
    &&& mem.holds_frame(parent.areas@[i].data_frames@[v] as int)
    &&& mem.holds_frame(child.areas@[i].data_frames@[v] as int)
}

/// The page held in frame `p` of `bytes`, which start at physical address `base`.
pub open spec fn frame_bytes(bytes: Seq<u8>, base: int, p: int) -> Seq<u8> {
    bytes.subrange(p * PAGE_SIZE - base, p * PAGE_SIZE - base + PAGE_SIZE)
}

/// What `copy_fork_pages` needs of a parent and its child: the same
/// areas, each framed area with a frame for every page, and the child's
/// frames of the pages to copy distinct from each other and from every
/// frame of the parent.
pub open spec fn private_copy_ok(parent: MemorySet, child: MemorySet, all: bool) -> bool {
    &&& child.areas@.len() == parent.areas@.len()
    &&& forall|i: int| 0 <= i < parent.areas@.len() ==> {
        &&& (#[trigger] child.areas@[i]).start_vpn == parent.areas@[i].start_vpn
        &&& child.areas@[i].end_vpn == parent.areas@[i].end_vpn
        &&& child.areas@[i].map_type == parent.areas@[i].map_type
        &&& child.areas@[i].map_perm == parent.areas@[i].map_perm
        &&& parent.areas@[i].start_vpn <= parent.areas@[i].end_vpn
        &&& parent.areas@[i].frames_cover(parent.areas@[i].end_vpn as int)
        &&& child.areas@[i].frames_cover(child.areas@[i].end_vpn as int)
    }
    &&& forall|i: int, v: usize, j: int, w: usize|
        #[trigger] copy_page(parent, i, v, all) && 0 <= j < parent.areas@.len() && #[trigger] parent.areas@[j].data_frames@.contains_key(w)
            ==> child.areas@[i].data_frames@[v] != parent.areas@[j].data_frames@[w]
    &&& forall|i: int, v: usize, j: int, w: usize|
        #[trigger] copy_page(parent, i, v, all) && #[trigger] copy_page(parent, j, w, all) && (i != j || v != w)
            ==> child.areas@[i].data_frames@[v] != child.areas@[j].data_frames@[w]
}

proof fn lemma_frames_apart(base: int, p: int, q: int, i: int)
    requires
        p != q,
        in_frame(base, p, i),
    ensures
        !in_frame(base, q, i),
{
    assert(!(q * 4096 - base <= i < q * 4096 - base + 4096)) by (nonlinear_arith)
        requires
            p != q,
            p * 4096 - base <= i < p * 4096 - base + 4096,
    {
        if q < p {
            assert(q * 4096 + 4096 <= p * 4096);
        } else {
            assert(p * 4096 + 4096 <= q * 4096);
        }
    }
}

/// Copies every page of `parent` that the fork gave a frame of its own
/// (see `copy_page`) into the child's frame for it, where `mem` holds both
/// frames.
pub fn copy_fork_pages(parent: &MemorySet, child: &MemorySet, mem: &mut PhysMem, all: bool)
    requires
        old(mem).wf(),
        private_copy_ok(*parent, *child, all),
    ensures
        final(mem).base == old(mem).base,
        final(mem).bytes@.len() == old(mem).bytes@.len(),
        forall|i: int, v: usize| #[trigger] copied_page(*parent, *child, *old(mem), i, v, all) ==> frame_bytes(
            final(mem).bytes@,
            old(mem).base as int,
            child.areas@[i].data_frames@[v] as int,
        ) == frame_bytes(old(mem).bytes@, old(mem).base as int, parent.areas@[i].data_frames@[v] as int),
        forall|k: int|
            0 <= k < old(mem).bytes@.len() && (forall|i: int, v: usize| #[trigger] copied_page(*parent, *child, *old(mem), i, v, all)
                ==> !in_frame(old(mem).base as int, child.areas@[i].data_frames@[v] as int, k)) ==> final(mem).bytes@[k]
                == old(mem).bytes@[k],
{
    let ghost m0 = *mem;
    let ghost base = mem.base as int;
    let n = parent.areas.len();
    let mut ai: usize = 0;
    while ai < n
        invariant
            n == parent.areas@.len(),
            ai <= n,
            mem.wf(),
            mem.base == m0.base,
            base == m0.base,
            mem.bytes@.len() == m0.bytes@.len(),
            private_copy_ok(*parent, *child, all),
            forall|i: int, v: usize| #[trigger] copied_page(*parent, *child, m0, i, v, all) && i < ai ==> frame_bytes(
                mem.bytes@,
                base,
                child.areas@[i].data_frames@[v] as int,
            ) == frame_bytes(m0.bytes@, base, parent.areas@[i].data_frames@[v] as int),
            forall|k: int|
                0 <= k < m0.bytes@.len() && (forall|i: int, v: usize| #[trigger] copied_page(*parent, *child, m0, i, v, all) && i < ai
                    ==> !in_frame(base, child.areas@[i].data_frames@[v] as int, k)) ==> mem.bytes@[k] == m0.bytes@[k],
        decreases n - ai,
    {
        let area = &parent.areas[ai];
        let copy = area.map_type == MapType::Framed && (all || area.map_perm.bits & FLAG_U == 0);
        let end = area.end_vpn;
        let mut vpn = area.start_vpn;
        assert(child.areas@[ai as int].start_vpn == area.start_vpn);
        while vpn < end
            invariant
                n == parent.areas@.len(),
                ai < n,
                *area == parent.areas@[ai as int],
                end == area.end_vpn,
                area.start_vpn <= vpn <= end,
                copy == (area.map_type == MapType::Framed && (all || area.map_perm.bits & FLAG_U == 0)),
                mem.wf(),
                mem.base == m0.base,
                base == m0.base,
                mem.bytes@.len() == m0.bytes@.len(),
                private_copy_ok(*parent, *child, all),
                forall|i: int, v: usize|
                    #[trigger] copied_page(*parent, *child, m0, i, v, all) && (i < ai || (i == ai && v < vpn)) ==> frame_bytes(
                        mem.bytes@,
                        base,
                        child.areas@[i].data_frames@[v] as int,
                    ) == frame_bytes(m0.bytes@, base, parent.areas@[i].data_frames@[v] as int),
                forall|k: int|
                    0 <= k < m0.bytes@.len() && (forall|i: int, v: usize|
                        #[trigger] copied_page(*parent, *child, m0, i, v, all) && (i < ai || (i == ai && v < vpn)) ==> !in_frame(
                            base,
                            child.areas@[i].data_frames@[v] as int,
                            k,
                        )) ==> mem.bytes@[k] == m0.bytes@[k],
            decreases end - vpn,
        {
            if copy {
                proof {
                    assert(copy_page(*parent, ai as int, vpn, all));
                    assert(parent.areas@[ai as int].frames_cover(parent.areas@[ai as int].end_vpn as int));
                    assert(child.areas@[ai as int].frames_cover(child.areas@[ai as int].end_vpn as int));
                    assert(parent.areas@[ai as int].data_frames@.contains_key(vpn));
                    assert(child.areas@[ai as int].data_frames@.contains_key(vpn));
                }
                let src = *parent.areas[ai].data_frames.get(&vpn).unwrap();
                let dst = *child.areas[ai].data_frames.get(&vpn).unwrap();
                if mem.has_frame(src) && mem.has_frame(dst) {
                    let ghost b1 = mem.bytes@;
                    assert(dst != src);
                    mem.copy_frame(src, dst);
                    proof {
                        let s = src as int;
                        let d = dst as int;
                        assert(copied_page(*parent, *child, m0, ai as int, vpn, all));
                        assert forall|j: int| 0 <= j < 4096 implies #[trigger] frame_bytes(mem.bytes@, base, d)[j] == frame_bytes(
                            m0.bytes@,
                            base,
                            s,
                        )[j] by {
                            let kk = s * 4096 - base + j;
                            assert(in_frame(base, s, kk));
                            assert forall|i: int, v: usize|
                                #[trigger] copied_page(*parent, *child, m0, i, v, all) && (i < ai || (i == ai && v < vpn)) implies !in_frame(
                                    base,
                                    child.areas@[i].data_frames@[v] as int,
                                    kk,
                                ) by {
                                assert(parent.areas@[ai as int].data_frames@.contains_key(vpn));
                                lemma_frames_apart(base, s, child.areas@[i].data_frames@[v] as int, kk);
                            }
                            assert(b1[kk] == m0.bytes@[kk]);
                        }
                        assert(frame_bytes(mem.bytes@, base, d) =~= frame_bytes(m0.bytes@, base, s));
                        assert forall|i: int, v: usize|
                            #[trigger] copied_page(*parent, *child, m0, i, v, all) && (i < ai || (i == ai && v < vpn + 1)) implies frame_bytes(
                                mem.bytes@,
                                base,
                                child.areas@[i].data_frames@[v] as int,
                            ) == frame_bytes(m0.bytes@, base, parent.areas@[i].data_frames@[v] as int) by {
                            if i < ai || v < vpn {
                                let c = child.areas@[i].data_frames@[v] as int;
                                assert(copy_page(*parent, i, v, all));
                                assert(c != d);
                                assert forall|j: int| 0 <= j < 4096 implies #[trigger] frame_bytes(mem.bytes@, base, c)[j]
                                    == frame_bytes(b1, base, c)[j] by {
                                    let kk = c * 4096 - base + j;
                                    assert(in_frame(base, c, kk));
                                    lemma_frames_apart(base, c, d, kk);
                                }
                                assert(frame_bytes(mem.bytes@, base, c) =~= frame_bytes(b1, base, c));
                            }
                        }
                        assert forall|k: int|
                            0 <= k < m0.bytes@.len() && (forall|i: int, v: usize|
                                #[trigger] copied_page(*parent, *child, m0, i, v, all) && (i < ai || (i == ai && v < vpn + 1)) ==> !in_frame(
                                    base,
                                    child.areas@[i].data_frames@[v] as int,
                                    k,
                                )) implies mem.bytes@[k] == m0.bytes@[k] by {
                            assert(copied_page(*parent, *child, m0, ai as int, vpn, all));
                            assert(!in_frame(base, d, k));
                        }
                    }
                } else {
                    proof {
                        assert(!copied_page(*parent, *child, m0, ai as int, vpn, all));
                    }
                }
            } else {
                proof {
                    assert forall|i: int, v: usize| #[trigger] copied_page(*parent, *child, m0, i, v, all) implies !(i == ai && v == vpn) by {}
                }
            }
            vpn = vpn + 1;
        }
        proof {
            assert forall|i: int, v: usize| #[trigger] copied_page(*parent, *child, m0, i, v, all) && i == ai implies v < end by {}
        }
        ai = ai + 1;
    }
}

/// After the copy-on-write fork of `ms0` (the parent now `parent`, the
/// child `child`, the allocator `a0` before and `a1` after), a user page
/// `v` of area `i` is shared: both map one frame. Once the child's write
/// fault on it is handled (the child then `child2`), the child's page is
/// backed by a frame the parent's page is not: its writes no longer reach
/// the parent.
pub proof fn lemma_cow_fault_isolates(
    ms0: MemorySet,
    a0: StackFrameAllocator,
    parent: MemorySet,
    child: MemorySet,
    a1: StackFrameAllocator,
    child2: MemorySet,
    i: int,
    v: usize,
)
    requires
        ms0.wf(),
        ms0.frames_held(&a0),
        alloc_fits(&a0),
        ms0.user_areas_framed(),
        0 <= i < ms0.areas@.len(),
        in_area(ms0.areas@[i], v),
        ms0.page_table.entry(v).has_flag(FLAG_U),
        page_forked(ms0, parent.page_table, child.page_table, child.areas@[i], i, v, a0.refs()),
        child.areas@[i].map_type == ms0.areas@[i].map_type,
        forall|p: usize| #[trigger] a0.refs().contains_key(p) ==> a1.refs().contains_key(p) && a1.refs()[p]
            == a0.refs()[p] + (if user_frame(ms0, p) { 1int } else { 0 }),
        a1.refs()[child.page_table.entry(v).spec_ppn()] > 1 ==> !a1.refs().contains_key(
            child2.page_table.entry(v).spec_ppn(),
        ),
    ensures
        parent.page_table.entry(v).spec_ppn() == child.page_table.entry(v).spec_ppn(),
        child2.page_table.entry(v).spec_ppn() != parent.page_table.entry(v).spec_ppn(),
{
    let a = ms0.areas@[i];
    let e = ms0.page_table.entry(v);
    assert(page_ok(ms0.page_table, a, v));
    lemma_flag_facts(a.map_perm.bits);
    assert(a.map_perm.bits & FLAG_U != 0);
    assert(a.map_type == MapType::Framed);
    assert(a.frames_cover(a.end_vpn as int));
    assert(a.data_frames@.contains_key(v));
    let p = a.data_frames@[v];
    assert(e.spec_ppn() == p);
    assert(a0.refs().contains_key(p));
    assert(user_frame(ms0, p));
    assert(a1.refs()[p] > 1);
}

} // verus!
