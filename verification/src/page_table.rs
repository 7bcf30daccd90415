//! Sv39 page-table entries and page tables.
//!
//! Entry layout: bit 0 V, bit 1 R, bit 2 W, bit 3 X, bit 4 U, bit 5 G,
//! bit 6 A, bit 7 D, bits 8..9 reserved for software (bit 8 marks a
//! copy-on-write page), bits 10..53 the physical page number.

use vstd::prelude::*;
use std::collections::BTreeMap;
use crate::frame_allocator::{StackFrameAllocator, PAGE_SIZE};

verus! {

/// Software bit that marks a copy-on-write mapping.
pub const PTE_COW: u64 = 0x100;
/// Mask of the 44-bit physical page number field.
pub const PPN_MASK: u64 = 0xfff_ffff_ffff;

/// The eight hardware flag bits of an entry.
#[derive(Copy, Clone, Debug, PartialEq, Eq, Structural)]
pub struct PTEFlags {
    pub bits: u8,
}

pub const FLAG_V: u8 = 0x01;
pub const FLAG_R: u8 = 0x02;
pub const FLAG_W: u8 = 0x04;
pub const FLAG_X: u8 = 0x08;
pub const FLAG_U: u8 = 0x10;
pub const FLAG_G: u8 = 0x20;
pub const FLAG_A: u8 = 0x40;
pub const FLAG_D: u8 = 0x80;

impl PTEFlags {
    pub fn from_bits(bits: u8) -> (f: PTEFlags)
        ensures
            f.bits == bits,
    {
        PTEFlags { bits }
    }

    pub fn empty() -> (f: PTEFlags)
        ensures
            f.bits == 0,
    {
        PTEFlags { bits: 0 }
    }

    /// Whether every flag of `other` is set in `self`.
    pub fn contains(&self, other: PTEFlags) -> (b: bool)
        ensures
            b == (self.bits & other.bits == other.bits),
    {
        self.bits & other.bits == other.bits
    }

    pub fn insert(&mut self, other: PTEFlags)
        ensures
            final(self).bits == old(self).bits | other.bits,
    {
        self.bits = self.bits | other.bits;
    }

    pub fn remove(&mut self, other: PTEFlags)
        ensures
            final(self).bits == old(self).bits & !other.bits,
    {
        self.bits = self.bits & !other.bits;
    }

    pub fn union(self, other: PTEFlags) -> (f: PTEFlags)
        ensures
            f.bits == self.bits | other.bits,
    {
        PTEFlags { bits: self.bits | other.bits }
    }
}

#[derive(Copy, Clone, Debug, PartialEq, Eq, Structural)]
pub struct PageTableEntry {
    pub bits: u64,
}

/// Bits of an entry that maps `ppn` with `flags`.
pub open spec fn spec_entry_bits(ppn: usize, flags: u8) -> u64 {
    ((ppn as u64) << 10u64) | (flags as u64)
}

impl PageTableEntry {
    pub open spec fn spec_ppn(self) -> usize {
        ((self.bits >> 10u64) & PPN_MASK) as usize
    }

    pub open spec fn spec_flags(self) -> u8 {
        self.bits as u8
    }

    pub open spec fn has_flag(self, flag: u8) -> bool {
        self.spec_flags() & flag != 0
    }

    pub open spec fn spec_is_cow(self) -> bool {
        self.bits & PTE_COW != 0
    }

    /// An entry mapping `ppn` with `flags` (no copy-on-write mark).
    pub fn new(ppn: usize, flags: PTEFlags) -> (e: Self)
        ensures
            e.bits == spec_entry_bits(ppn, flags.bits),
    {
        PageTableEntry { bits: ((ppn as u64) << 10u64) | (flags.bits as u64) }
    }

    /// An entry mapping `ppn` with `flags`, marked copy-on-write.
    pub fn new_cow(ppn: usize, flags: PTEFlags) -> (e: Self)
        ensures
            e.bits == spec_entry_bits(ppn, flags.bits) | PTE_COW,
    {
        PageTableEntry { bits: ((ppn as u64) << 10u64) | (flags.bits as u64) | PTE_COW }
    }

    pub fn empty() -> (e: Self)
        ensures
            e.bits == 0,
    {
        PageTableEntry { bits: 0 }
    }

    pub fn ppn(&self) -> (p: usize)
        ensures
            p == self.spec_ppn(),
    {
        ((self.bits >> 10u64) & PPN_MASK) as usize
    }

    /// The eight hardware flag bits; the copy-on-write mark is not among them.
    pub fn flags(&self) -> (f: PTEFlags)
        ensures
            f.bits == self.spec_flags(),
    {
        PTEFlags::from_bits(self.bits as u8)
    }

    pub fn is_valid(&self) -> (b: bool)
        ensures
            b == self.has_flag(FLAG_V),
    {
        self.flags().bits & FLAG_V != 0
    }

    pub fn readable(&self) -> (b: bool)
        ensures
            b == self.has_flag(FLAG_R),
    {
        self.flags().bits & FLAG_R != 0
    }

    pub fn writable(&self) -> (b: bool)
        ensures
            b == self.has_flag(FLAG_W),
    {
        self.flags().bits & FLAG_W != 0
    }

    pub fn executable(&self) -> (b: bool)
        ensures
            b == self.has_flag(FLAG_X),
    {
        self.flags().bits & FLAG_X != 0
    }

    pub fn user_accessible(&self) -> (b: bool)
        ensures
            b == self.has_flag(FLAG_U),
    {
        self.flags().bits & FLAG_U != 0
    }

    pub fn is_cow(&self) -> (b: bool)
        ensures
            b == self.spec_is_cow(),
    {
        self.bits & PTE_COW != 0
    }
}

/// An entry built by `new` gives back the page number and the flags it was
/// built from, and carries no copy-on-write mark.
pub proof fn lemma_entry_roundtrip(ppn: usize, flags: u8)
    requires
        ppn <= PPN_MASK,
    ensures
        (PageTableEntry { bits: spec_entry_bits(ppn, flags) }).spec_ppn() == ppn,
        (PageTableEntry { bits: spec_entry_bits(ppn, flags) }).spec_flags() == flags,
        !(PageTableEntry { bits: spec_entry_bits(ppn, flags) }).spec_is_cow(),
{
    let p = ppn as u64;
    let f = flags as u64;
    assert(((((p << 10u64) | f) >> 10u64) & 0xfff_ffff_ffffu64) == p) by (bit_vector)
        requires
            p <= 0xfff_ffff_ffffu64,
            f < 256u64,
    ;
    assert(((p << 10u64) | f) as u8 == f as u8) by (bit_vector)
        requires
            f < 256u64,
    ;
    assert(((p << 10u64) | f) & 0x100u64 == 0) by (bit_vector)
        requires
            f < 256u64,
    ;
}

/// An entry built by `new_cow` gives back the page number and the flags it
/// was built from, and carries the copy-on-write mark.
pub proof fn lemma_cow_entry_roundtrip(ppn: usize, flags: u8)
    requires
        ppn <= PPN_MASK,
    ensures
        (PageTableEntry { bits: spec_entry_bits(ppn, flags) | PTE_COW }).spec_ppn() == ppn,
        (PageTableEntry { bits: spec_entry_bits(ppn, flags) | PTE_COW }).spec_flags() == flags,
        (PageTableEntry { bits: spec_entry_bits(ppn, flags) | PTE_COW }).spec_is_cow(),
{
    let p = ppn as u64;
    let f = flags as u64;
    assert((((((p << 10u64) | f) | 0x100u64) >> 10u64) & 0xfff_ffff_ffffu64) == p) by (bit_vector)
        requires
            p <= 0xfff_ffff_ffffu64,
            f < 256u64,
    ;
    assert((((p << 10u64) | f) | 0x100u64) as u8 == f as u8) by (bit_vector)
        requires
            f < 256u64,
    ;
    assert((((p << 10u64) | f) | 0x100u64) & 0x100u64 != 0) by (bit_vector);
}


broadcast use {vstd::std_specs::btree::group_btree_axioms, vstd::laws_cmp::group_laws_cmp};

/// Number of virtual page numbers in the 39-bit Sv39 address space.
pub const VPN_LIMIT: usize = 0x800_0000;
/// Entries per page-table page.
pub const ENTRIES_PER_TABLE: usize = 512;

/// A three-level Sv39 page table.
///
/// The page-table pages are held by the path that leads to them: the
/// level-1 table reached through root entry `i` is `l1_tables[i]`, the leaf
/// table reached through root entry `i` and level-1 entry `j` is
/// `leaf_tables[i * 512 + j]`, and the leaf entry of page `vpn` is
/// `leaves[vpn]`, absent when all-zero (a fresh page-table page is zeroed).
pub struct PageTable {
    pub root_ppn: usize,
    /// Frames of the page-table pages, root first, in allocation order.
    pub frames: Vec<usize>,
    pub l1_tables: BTreeMap<usize, usize>,
    pub leaf_tables: BTreeMap<usize, usize>,
    pub leaves: BTreeMap<usize, PageTableEntry>,
}

/// Index path of the level-1 table that serves `vpn`.
pub open spec fn l1_key(vpn: usize) -> usize {
    (vpn / 0x4_0000) as usize
}

/// Index path of the leaf table that serves `vpn`.
pub open spec fn leaf_key(vpn: usize) -> usize {
    (vpn / 0x200) as usize
}

impl PageTable {
    /// Whether the walk for `vpn` reaches a leaf table.
    pub open spec fn has_leaf_table(&self, vpn: usize) -> bool {
        self.l1_tables@.contains_key(l1_key(vpn)) && self.leaf_tables@.contains_key(leaf_key(vpn))
    }

    /// The leaf entry of `vpn` (all-zero when never written).
    pub open spec fn entry(&self, vpn: usize) -> PageTableEntry {
        if self.leaves@.contains_key(vpn) {
            self.leaves@[vpn]
        } else {
            PageTableEntry { bits: 0 }
        }
    }

    /// What `translate(vpn)` gives.
    pub open spec fn spec_translate(&self, vpn: usize) -> Option<PageTableEntry> {
        if self.has_leaf_table(vpn) {
            Some(self.entry(vpn))
        } else {
            None
        }
    }

    pub open spec fn wf(&self) -> bool {
        &&& self.frames@.len() > 0
        &&& self.frames@[0] == self.root_ppn
        &&& forall|k: usize| #[trigger] self.leaf_tables@.contains_key(k) ==> self.l1_tables@.contains_key(
            (k / 512) as usize,
        ) && k < VPN_LIMIT / ENTRIES_PER_TABLE
        &&& forall|v: usize| #[trigger]
            self.leaves@.contains_key(v) ==> v < VPN_LIMIT && self.has_leaf_table(v)
    }

    /// Every page-table page is an allocated frame of `alloc`.
    pub open spec fn frames_allocated(&self, alloc: &StackFrameAllocator) -> bool {
        forall|i: int| 0 <= i < self.frames@.len() ==> alloc.refs().contains_key(#[trigger] self.frames@[i])
    }

    /// The same leaf entries everywhere but at `vpn`.
    pub open spec fn same_except(&self, other: &PageTable, vpn: usize) -> bool {
        forall|v: usize| v != vpn ==> #[trigger] self.spec_translate(v) == other.spec_translate(v)
    }

    /// A page table with only its zeroed root page.
    pub fn new(alloc: &mut StackFrameAllocator) -> (pt: Self)
        requires
            old(alloc).wf(),
            old(alloc).free_frames() >= 1,
        ensures
            pt.wf(),
            final(alloc).wf(),
            final(alloc).end == old(alloc).end,
            final(alloc).refs() == old(alloc).refs().insert(pt.root_ppn, 1),
            !old(alloc).refs().contains_key(pt.root_ppn),
            final(alloc).free_frames() == old(alloc).free_frames() - 1,
            pt.frames@ == seq![pt.root_ppn],
            pt.frames_allocated(&*final(alloc)),
            forall|v: usize| #[trigger] pt.spec_translate(v).is_none(),
    {
        let root_ppn = alloc.alloc_one().unwrap();
        let mut frames: Vec<usize> = Vec::new();
        frames.push(root_ppn);
        PageTable {
            root_ppn,
            frames,
            l1_tables: BTreeMap::new(),
            leaf_tables: BTreeMap::new(),
            leaves: BTreeMap::new(),
        }
    }

    /// Walks to the leaf table of `vpn`, creating the missing page-table
    /// pages on the way.
    fn find_pte_create(&mut self, vpn: usize, alloc: &mut StackFrameAllocator)
        requires
            old(self).wf(),
            vpn < VPN_LIMIT,
            old(alloc).wf(),
            old(alloc).free_frames() >= 2,
            old(self).frames_allocated(&*old(alloc)),
        ensures
            final(self).wf(),
            final(alloc).wf(),
            final(self).has_leaf_table(vpn),
            final(self).root_ppn == old(self).root_ppn,
            final(self).leaves@ == old(self).leaves@,
            forall|v: usize| old(self).has_leaf_table(v) ==> #[trigger] final(self).has_leaf_table(v),
            forall|v: usize| #[trigger] old(self).spec_translate(v).is_some() ==> final(self).spec_translate(v) == old(self).spec_translate(v),
            forall|v: usize| #[trigger] final(self).spec_translate(v).is_some() && v != vpn ==> final(self).spec_translate(v) == old(self).spec_translate(v) || final(self).entry(v).bits == 0,
            final(self).frames_allocated(&*final(alloc)),
            final(alloc).end == old(alloc).end,
            old(self).frames@.len() <= final(self).frames@.len() <= old(self).frames@.len() + 2,
            final(alloc).free_frames() + final(self).frames@.len() == old(alloc).free_frames() + old(self).frames@.len(),
            forall|p: usize| #[trigger] old(alloc).refs().contains_key(p) ==> final(alloc).refs().contains_key(p) && final(alloc).refs()[p] == old(alloc).refs()[p],
            forall|p: usize| #[trigger] final(alloc).refs().contains_key(p) && !old(alloc).refs().contains_key(p) ==> final(alloc).refs()[p] == 1,
            final(alloc).refs().dom().len() == old(alloc).refs().dom().len() + (final(self).frames@.len() - old(self).frames@.len()),
            final(self).frames@.subrange(0, old(self).frames@.len() as int) == old(self).frames@,
            forall|k: int| old(self).frames@.len() <= k < final(self).frames@.len() ==> !old(alloc).refs().contains_key(
                #[trigger] final(self).frames@[k],
            ),
    {
        let k1 = vpn / 0x4_0000;
        if self.l1_tables.get(&k1).is_none() {
            let ppn = alloc.alloc_one().unwrap();
            self.l1_tables.insert(k1, ppn);
            self.frames.push(ppn);
            proof {
                assert forall|i: int| 0 <= i < self.frames@.len() implies alloc.refs().contains_key(#[trigger] self.frames@[i]) by {
                    if i < self.frames@.len() - 1 {
                        assert(old(self).frames@[i] == self.frames@[i]);
                    }
                }
                assert(self.frames@.subrange(0, old(self).frames@.len() as int) =~= old(self).frames@);
            }
        }
        let k2 = vpn / 0x200;
        let ghost a_mid = *alloc;
        let ghost f_mid = self.frames@;
        assert forall|k: int| old(self).frames@.len() <= k < self.frames@.len() implies !old(alloc).refs().contains_key(
            #[trigger] self.frames@[k]) by {}
        if self.leaf_tables.get(&k2).is_none() {
            let ghost before = self.frames@;
            let ppn = alloc.alloc_one().unwrap();
            self.leaf_tables.insert(k2, ppn);
            self.frames.push(ppn);
            proof {
                assert forall|i: int| 0 <= i < self.frames@.len() implies alloc.refs().contains_key(#[trigger] self.frames@[i]) by {
                    if i < self.frames@.len() - 1 {
                        assert(before[i] == self.frames@[i]);
                    }
                }
                assert((k2 / 512) as usize == k1);
                assert(self.frames@.subrange(0, before.len() as int) =~= before);
                assert(self.frames@.subrange(0, old(self).frames@.len() as int) =~= old(self).frames@) by {
                    assert(before.subrange(0, old(self).frames@.len() as int) =~= old(self).frames@);
                }
                assert forall|k: int| old(self).frames@.len() <= k < self.frames@.len() implies !old(alloc).refs().contains_key(
                    #[trigger] self.frames@[k]) by {
                    if k < before.len() {
                        assert(self.frames@[k] == before[k]);
                    } else {
                        if old(alloc).refs().contains_key(ppn) {
                            assert(a_mid.refs().contains_key(ppn));
                        }
                    }
                }
            }
        }
        assert(self.frames@.subrange(0, old(self).frames@.len() as int) =~= old(self).frames@);
    }
}

impl PageTable {
    /// Entry bits of a mapping of `ppn` with `flags`, valid.
    pub open spec fn mapped_bits(ppn: usize, flags: u8) -> u64 {
        spec_entry_bits(ppn, flags | FLAG_V)
    }

    /// Entry bits of a copy-on-write mapping of `ppn`: not writable, valid, marked.
    pub open spec fn cow_bits(ppn: usize, flags: u8) -> u64 {
        spec_entry_bits(ppn, (flags & !FLAG_W) | FLAG_V) | PTE_COW
    }

    /// Effects of creating the walk for one page on the table and allocator.
    pub open spec fn grown_from(
        &self,
        old_pt: &PageTable,
        alloc: &StackFrameAllocator,
        old_alloc: &StackFrameAllocator,
    ) -> bool {
        &&& self.wf()
        &&& alloc.wf()
        &&& alloc.end == old_alloc.end
        &&& self.root_ppn == old_pt.root_ppn
        &&& self.frames_allocated(alloc)
        &&& alloc.free_frames() + self.frames@.len() == old_alloc.free_frames() + old_pt.frames@.len()
        &&& old_pt.frames@.len() <= self.frames@.len() <= old_pt.frames@.len() + 2
        &&& forall|v: usize| old_pt.has_leaf_table(v) ==> #[trigger] self.has_leaf_table(v)
        &&& forall|p: usize| #[trigger]
            old_alloc.refs().contains_key(p) ==> alloc.refs().contains_key(p) && alloc.refs()[p]
                == old_alloc.refs()[p]
        &&& forall|p: usize| #[trigger]
            alloc.refs().contains_key(p) && !old_alloc.refs().contains_key(p) ==> alloc.refs()[p] == 1
        &&& alloc.refs().dom().len() == old_alloc.refs().dom().len() + (self.frames@.len()
            - old_pt.frames@.len())
        &&& self.frames@.subrange(0, old_pt.frames@.len() as int) == old_pt.frames@
        &&& forall|k: int| old_pt.frames@.len() <= k < self.frames@.len() ==> !old_alloc.refs().contains_key(
            #[trigger] self.frames@[k],
        )
    }

    /// Maps `vpn` to `ppn` with `flags` (made valid). The page must not be mapped yet.
    pub fn map(&mut self, vpn: usize, ppn: usize, flags: PTEFlags, alloc: &mut StackFrameAllocator)
        requires
            old(self).wf(),
            vpn < VPN_LIMIT,
            old(alloc).wf(),
            old(alloc).free_frames() >= 2,
            old(self).frames_allocated(&*old(alloc)),
            !old(self).entry(vpn).has_flag(FLAG_V),
        ensures
            final(self).grown_from(&*old(self), &*final(alloc), &*old(alloc)),
            final(self).spec_translate(vpn) == Some(
                PageTableEntry { bits: PageTable::mapped_bits(ppn, flags.bits) },
            ),
            forall|v: usize| v != vpn && #[trigger] old(self).spec_translate(v).is_some() ==>
                final(self).spec_translate(v) == old(self).spec_translate(v),
            forall|v: usize| v != vpn && #[trigger] final(self).spec_translate(v).is_some() ==>
                final(self).spec_translate(v) == old(self).spec_translate(v)
                || final(self).entry(v).bits == 0,
    {
        self.find_pte_create(vpn, alloc);
        let ghost mid = *self;
        let mut f = flags;
        f.insert(PTEFlags::from_bits(FLAG_V));
        self.leaves.insert(vpn, PageTableEntry::new(ppn, f));
        assert forall|v: usize| old(self).has_leaf_table(v) implies #[trigger] self.has_leaf_table(v) by {
            assert(mid.has_leaf_table(v));
        }
    }

    /// Maps the shared frame `ppn` at `vpn` as copy-on-write: the hardware
    /// write permission is dropped so that a write faults.
    pub fn map_cow(
        &mut self,
        vpn: usize,
        ppn: usize,
        flags: PTEFlags,
        alloc: &mut StackFrameAllocator,
    )
        requires
            old(self).wf(),
            vpn < VPN_LIMIT,
            old(alloc).wf(),
            old(alloc).free_frames() >= 2,
            old(self).frames_allocated(&*old(alloc)),
            !old(self).entry(vpn).has_flag(FLAG_V),
        ensures
            final(self).grown_from(&*old(self), &*final(alloc), &*old(alloc)),
            final(self).spec_translate(vpn) == Some(
                PageTableEntry { bits: PageTable::cow_bits(ppn, flags.bits) },
            ),
            forall|v: usize| v != vpn && #[trigger] old(self).spec_translate(v).is_some() ==>
                final(self).spec_translate(v) == old(self).spec_translate(v),
            forall|v: usize| v != vpn && #[trigger] final(self).spec_translate(v).is_some() ==>
                final(self).spec_translate(v) == old(self).spec_translate(v)
                || final(self).entry(v).bits == 0,
    {
        self.find_pte_create(vpn, alloc);
        let ghost mid = *self;
        let mut f = flags;
        f.remove(PTEFlags::from_bits(FLAG_W));
        f.insert(PTEFlags::from_bits(FLAG_V));
        self.leaves.insert(vpn, PageTableEntry::new_cow(ppn, f));
        assert forall|v: usize| old(self).has_leaf_table(v) implies #[trigger] self.has_leaf_table(v) by {
            assert(mid.has_leaf_table(v));
        }
    }

    /// Whether the walk for `vpn` reaches a leaf table.
    fn find_pte(&self, vpn: usize) -> (found: bool)
        ensures
            found == self.has_leaf_table(vpn),
    {
        let k1 = vpn / 0x4_0000;
        if self.l1_tables.get(&k1).is_none() {
            return false;
        }
        let k2 = vpn / 0x200;
        self.leaf_tables.get(&k2).is_some()
    }

    fn entry_at(&self, vpn: usize) -> (e: PageTableEntry)
        ensures
            e == self.entry(vpn),
    {
        match self.leaves.get(&vpn) {
            Some(e) => *e,
            None => PageTableEntry::empty(),
        }
    }

    /// Turns a writable mapping into a read-only copy-on-write mapping of the
    /// same frame; a page that is already copy-on-write is left alone.
    pub fn mark_cow(&mut self, vpn: usize)
        requires
            old(self).wf(),
            old(self).has_leaf_table(vpn),
            old(self).entry(vpn).has_flag(FLAG_V),
            old(self).entry(vpn).spec_is_cow() ==> !old(self).entry(vpn).has_flag(FLAG_W),
            !old(self).entry(vpn).spec_is_cow() ==> old(self).entry(vpn).has_flag(FLAG_W),
        ensures
            final(self).wf(),
            final(self).root_ppn == old(self).root_ppn,
            final(self).frames@ == old(self).frames@,
            forall|v: usize| #[trigger] final(self).has_leaf_table(v) == old(self).has_leaf_table(v),
            old(self).entry(vpn).spec_is_cow() ==> *final(self) == *old(self),
            !old(self).entry(vpn).spec_is_cow() ==> final(self).spec_translate(vpn) == Some(
                PageTableEntry {
                    bits: spec_entry_bits(
                        old(self).entry(vpn).spec_ppn(),
                        old(self).entry(vpn).spec_flags() & !FLAG_W,
                    ) | PTE_COW,
                },
            ),
            forall|v: usize| v != vpn ==> #[trigger] final(self).spec_translate(v)
                == old(self).spec_translate(v),
    {
        let pte = self.entry_at(vpn);
        let ppn = pte.ppn();
        let mut flags = pte.flags();
        if pte.is_cow() {
            return;
        }
        flags.remove(PTEFlags::from_bits(FLAG_W));
        self.leaves.insert(vpn, PageTableEntry::new_cow(ppn, flags));
    }

    /// Replaces a copy-on-write mapping by a private writable mapping of
    /// `new_ppn` (the old frame when it has no other owner, else a copy).
    pub fn resolve_cow(&mut self, vpn: usize, new_ppn: usize)
        requires
            old(self).wf(),
            old(self).has_leaf_table(vpn),
            old(self).entry(vpn).has_flag(FLAG_V),
            old(self).entry(vpn).spec_is_cow(),
        ensures
            final(self).wf(),
            final(self).root_ppn == old(self).root_ppn,
            final(self).frames@ == old(self).frames@,
            forall|v: usize| #[trigger] final(self).has_leaf_table(v) == old(self).has_leaf_table(v),
            final(self).spec_translate(vpn) == Some(
                PageTableEntry {
                    bits: spec_entry_bits(new_ppn, old(self).entry(vpn).spec_flags() | FLAG_W | FLAG_V),
                },
            ),
            forall|v: usize| v != vpn ==> #[trigger] final(self).spec_translate(v)
                == old(self).spec_translate(v),
    {
        let pte = self.entry_at(vpn);
        let mut flags = pte.flags();
        flags.insert(PTEFlags::from_bits(FLAG_W));
        flags.insert(PTEFlags::from_bits(FLAG_V));
        self.leaves.insert(vpn, PageTableEntry::new(new_ppn, flags));
    }

    /// Clears the mapping of `vpn`, which must be mapped.
    pub fn unmap(&mut self, vpn: usize)
        requires
            old(self).wf(),
            old(self).has_leaf_table(vpn),
            old(self).entry(vpn).has_flag(FLAG_V),
        ensures
            final(self).wf(),
            final(self).root_ppn == old(self).root_ppn,
            final(self).frames@ == old(self).frames@,
            forall|v: usize| #[trigger] final(self).has_leaf_table(v) == old(self).has_leaf_table(v),
            final(self).spec_translate(vpn) == Some(PageTableEntry { bits: 0 }),
            forall|v: usize| v != vpn ==> #[trigger] final(self).spec_translate(v)
                == old(self).spec_translate(v),
    {
        self.leaves.insert(vpn, PageTableEntry::empty());
    }

    /// The leaf entry of `vpn` when the walk reaches a leaf table (the
    /// entry itself may be invalid).
    pub fn translate(&self, vpn: usize) -> (e: Option<PageTableEntry>)
        ensures
            e == self.spec_translate(vpn),
    {
        if self.find_pte(vpn) {
            Some(self.entry_at(vpn))
        } else {
            None
        }
    }

    /// Physical address of virtual address `va` (below 2^39): the frame of
    /// its page plus the offset inside the page.
    pub fn translate_va(&self, va: usize) -> (pa: Option<u64>)
        requires
            va < VPN_LIMIT * PAGE_SIZE,
        ensures
            pa.is_some() == self.spec_translate((va / PAGE_SIZE) as usize).is_some(),
            pa.is_some() ==> pa.unwrap() == self.entry((va / PAGE_SIZE) as usize).spec_ppn()
                * PAGE_SIZE + va % PAGE_SIZE,
    {
        let vpn = va / PAGE_SIZE;
        match self.translate(vpn) {
            Some(pte) => {
                let ppn = pte.ppn();
                proof {
                    let b = pte.bits;
                    assert((b >> 10u64) & 0xfff_ffff_ffffu64 <= 0xfff_ffff_ffffu64) by (bit_vector);
                }
                Some((ppn as u64) * 4096u64 + (va % PAGE_SIZE) as u64)
            },
            None => None,
        }
    }

    /// The `satp` token that selects this table.
    pub fn token(&self) -> (t: u64)
        ensures
            t == crate::task::spec_satp_token(self.root_ppn as u64),
    {
        (8u64 << 60u64) | (self.root_ppn as u64)
    }
}

} // verus!
