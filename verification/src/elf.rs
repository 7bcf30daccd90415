//! Loading programs: reading ELF headers (through the `xmas_elf` crate),
//! building a user address space from the loadable segments, and the
//! `exec` decisions: where a command is looked up and what is accepted.

use vstd::prelude::*;
use crate::frame_allocator::{StackFrameAllocator, PAGE_SIZE};
use crate::memory_set::{
    MemorySet, MapArea, MapType, MapPermission, alloc_fits, spec_floor, spec_ceil, areas_disjoint,
    TRAMPOLINE_VPN, MAP_PERM_MASK,
};
use crate::page_table::{FLAG_R, FLAG_W, FLAG_X, FLAG_U, FLAG_V, PageTableEntry, spec_entry_bits};
use crate::syscall_fs::{SLASH, lookup_from, resolve_path};
use crate::process::Process;
use crate::vfs::{EasyFileSystem, Inode, read_spec};
use crate::fs_inode::OSInode;
use crate::phys_mem::{
    PhysMem, pages_for, pages_in_mem, check_pages_in_mem, copy_pos, copied, user_byte, user_pa, lemma_copied_other,
    lemma_copy_data_readback, in_frame, c_string, arg_array, translated_str, translated_args,
    lemma_c_string_unique, lemma_arg_array_unique,
};
use crate::page_table::{PageTable, VPN_LIMIT};
use crate::memory_set::{page_ok, frame_of, in_area};

verus! {

/// What the ELF header says of the program headers and the entry point.
#[derive(Copy, Clone, Debug, PartialEq, Eq, Structural)]
pub struct ElfHeaderInfo {
    /// The file is of the 64-bit class (else 32-bit).
    pub is_64: bool,
    pub entry: u64,
    pub ph_offset: u64,
    pub ph_entry_size: u16,
    pub ph_count: u16,
}

/// One program header.
#[derive(Copy, Clone, Debug, PartialEq, Eq, Structural)]
pub struct SegmentInfo {
    /// Of type `LOAD`.
    pub is_load: bool,
    pub vaddr: u64,
    pub mem_size: u64,
    pub offset: u64,
    pub file_size: u64,
    pub readable: bool,
    pub writable: bool,
    pub executable: bool,
}

/// The header `xmas_elf` reads from `data`; `None` when it rejects the file.
pub uninterp spec fn elf_header_of(data: Seq<u8>) -> Option<ElfHeaderInfo>;

/// Program header `index` as `xmas_elf` reads it from `data`; `None` when
/// it rejects the header or its type.
pub uninterp spec fn elf_segment_of(data: Seq<u8>, index: u16) -> Option<SegmentInfo>;

/// `data` starts with the ELF magic number.
pub open spec fn has_elf_magic(data: Seq<u8>) -> bool {
    data.len() >= 4 && data[0] == 0x7f && data[1] == 0x45 && data[2] == 0x4c && data[3] == 0x46
}

/// Reads the ELF header with `xmas_elf::ElfFile::new`. The result is named
/// by `elf_header_of`; a header is only read from a file that starts with
/// the magic number. The crate reads the header in place and needs a
/// buffer aligned for its 64-bit fields, so the bytes are first copied into
/// 8-byte words (`bytemuck::pod_collect_to_vec`) and read from there.
#[verifier::external_body]
fn read_elf_header(data: &[u8]) -> (r: Option<ElfHeaderInfo>)
    requires
        data@.len() >= 64,
    ensures
        r == elf_header_of(data@),
        r.is_some() ==> has_elf_magic(data@),
{
    let words: Vec<u64> = bytemuck::pod_collect_to_vec(data);
    let elf = xmas_elf::ElfFile::new(&bytemuck::cast_slice::<u64, u8>(&words)[..data.len()]).ok()?;
    let p = elf.header.pt2;
    Some(ElfHeaderInfo {
        is_64: matches!(p, xmas_elf::header::HeaderPt2::Header64(_)),
        entry: p.entry_point(),
        ph_offset: p.ph_offset(),
        ph_entry_size: p.ph_entry_size(),
        ph_count: p.ph_count(),
    })
}

/// Program header `i` lies inside `data`, is large enough for its class,
/// and starts at an offset aligned for its fields (8 bytes for the 64-bit
/// class, 4 for the 32-bit one), as the crate reads it in place.
pub open spec fn ph_in_bounds(data: Seq<u8>, h: ElfHeaderInfo, i: int) -> bool {
    &&& h.ph_offset + (i + 1) * h.ph_entry_size <= data.len()
    &&& h.ph_entry_size >= (if h.is_64 { 56int } else { 32int })
    &&& (h.ph_offset + i * h.ph_entry_size) % (if h.is_64 { 8int } else { 4int }) == 0
}

/// Reads program header `index` with `xmas_elf` (`ElfFile::program_header`,
/// then its type, addresses, sizes and flags). The result is named by
/// `elf_segment_of`. The header must lie inside the file at an aligned
/// offset, as the crate slices the file there and reads in place; like the
/// ELF header, it is read from a copy of the bytes in 8-byte words.
#[verifier::external_body]
fn read_elf_segment(data: &[u8], index: u16) -> (r: Option<SegmentInfo>)
    requires
        data@.len() >= 64,
        elf_header_of(data@).is_some(),
        index < elf_header_of(data@).unwrap().ph_count,
        ph_in_bounds(data@, elf_header_of(data@).unwrap(), index as int),
    ensures
        r == elf_segment_of(data@, index),
{
    let words: Vec<u64> = bytemuck::pod_collect_to_vec(data);
    let elf = xmas_elf::ElfFile::new(&bytemuck::cast_slice::<u64, u8>(&words)[..data.len()]).ok()?;
    let ph = elf.program_header(index).ok()?;
    let ty = ph.get_type().ok()?;
    let f = ph.flags();
    Some(SegmentInfo {
        is_load: matches!(ty, xmas_elf::program::Type::Load),
        vaddr: ph.virtual_addr(),
        mem_size: ph.mem_size(),
        offset: ph.offset(),
        file_size: ph.file_size(),
        readable: f.is_read(),
        writable: f.is_write(),
        executable: f.is_execute(),
    })
}

/// First page of a segment.
pub open spec fn seg_start(s: SegmentInfo) -> int {
    (s.vaddr as int) / (PAGE_SIZE as int)
}

/// Pages of segment `s`.
pub open spec fn seg_pages(s: SegmentInfo) -> int {
    seg_end(s) - seg_start(s)
}

/// What the pages of segment `s` of `data` hold once loaded: its file
/// bytes from the start of its first page, zeros after them.
pub open spec fn seg_image(data: Seq<u8>, s: SegmentInfo) -> Seq<u8> {
    Seq::new((seg_pages(s) * PAGE_SIZE) as nat, |j: int| if j < s.file_size { data[s.offset + j] } else { 0u8 })
}

/// The pages of segment `s` hold `seg_image(data, s)`, read through page
/// table `pt` from `mem`.
pub open spec fn seg_filled(pt: PageTable, mem: PhysMem, data: Seq<u8>, s: SegmentInfo) -> bool {
    forall|j: int|
        0 <= j < seg_pages(s) * PAGE_SIZE ==> #[trigger] user_byte(pt, mem, seg_start(s) * PAGE_SIZE + j) == Some(
            seg_image(data, s)[j],
        )
}

/// `m1` is `m0` with the pages of every loadable segment of `data` in its
/// area of `ms` holding the segment's image, for each segment whose pages
/// reach frames that `m0` holds.
pub open spec fn elf_filled(data: Seq<u8>, ms: MemorySet, m0: PhysMem, m1: PhysMem) -> bool {
    &&& m1.base == m0.base
    &&& m1.bytes@.len() == m0.bytes@.len()
    &&& forall|k: int|
        0 <= k < elf_loads(data).len() && #[trigger] pages_in_mem(
            ms.page_table,
            m0,
            seg_start(elf_loads(data)[k]),
            seg_pages(elf_loads(data)[k]),
        ) ==> seg_filled(ms.page_table, m1, data, elf_loads(data)[k])
}

/// The user byte at offset `j` from page `vpn0` is the byte of `mem` that
/// `copy_data` writes for offset `j`.
proof fn lemma_user_byte_at(pt: PageTable, mem: PhysMem, vpn0: int, j: int)
    requires
        0 <= j,
        0 <= vpn0,
        vpn0 * PAGE_SIZE + j < VPN_LIMIT * PAGE_SIZE,
        pt.spec_translate((vpn0 + j / (PAGE_SIZE as int)) as usize).is_some(),
        0 <= copy_pos(pt, mem, vpn0, j) < mem.bytes@.len(),
    ensures
        user_byte(pt, mem, vpn0 * PAGE_SIZE + j) == Some(mem.bytes@[copy_pos(pt, mem, vpn0, j)]),
{
    let va = vpn0 * 4096 + j;
    assert(va / 4096 == vpn0 + j / 4096 && va % 4096 == j % 4096) by (nonlinear_arith)
        requires
            va == vpn0 * 4096 + j,
            0 <= j,
            0 <= vpn0,
    ;
}

/// Page `start + j / PAGE_SIZE` of framed area `k` of `ms`, for an offset
/// `j` inside the area, is in the area and mapped to its own frame.
proof fn lemma_area_page(ms: MemorySet, k: int, j: int)
    requires
        ms.wf(),
        0 <= k < ms.areas@.len(),
        ms.areas@[k].map_type == MapType::Framed,
        0 <= j < (ms.areas@[k].end_vpn - ms.areas@[k].start_vpn) * PAGE_SIZE,
    ensures
        ({
            let v = (ms.areas@[k].start_vpn + j / (PAGE_SIZE as int)) as usize;
            &&& in_area(ms.areas@[k], v)
            &&& ms.areas@[k].data_frames@.contains_key(v)
            &&& ms.page_table.entry(v).spec_ppn() == ms.areas@[k].data_frames@[v]
            &&& ms.page_table.spec_translate(v).is_some()
        }),
{
    let a = ms.areas@[k];
    let q = j / 4096;
    assert(0 <= q < a.end_vpn - a.start_vpn) by (nonlinear_arith)
        requires
            0 <= j < (a.end_vpn - a.start_vpn) * 4096,
            q == j / 4096,
    ;
    let v = (a.start_vpn + q) as usize;
    assert(in_area(a, v));
    assert(page_ok(ms.page_table, a, v));
    assert(a.shape_ok() && a.frames_cover(a.end_vpn as int));
    assert(a.data_frames@.contains_key(v));
}

proof fn lemma_apart(base: int, p: int, q: int, i: int)
    requires
        p != q,
        in_frame(base, p, i),
    ensures
        !in_frame(base, q, i),
{
    assert(!(q * 4096 - base <= i < q * 4096 - base + 4096)) by (nonlinear_arith)
        requires
            p != q,
            p * 4096 - base <= i < p * 4096 - base + 4096,
    {
        if q < p {
            assert(q * 4096 + 4096 <= p * 4096);
        } else {
            assert(p * 4096 + 4096 <= q * 4096);
        }
    }
}

/// One step of `fill_segments`: after copying the image `part` of segment
/// `n` from `m1` to `m2`, the segments filled before stay filled and
/// segment `n` is filled.
proof fn lemma_fill_step(
    ms: MemorySet,
    data: Seq<u8>,
    ls: Seq<SegmentInfo>,
    m0: PhysMem,
    m1: PhysMem,
    m2: PhysMem,
    n: int,
    part: Seq<u8>,
)
    requires
        ms.wf(),
        ms.frames_distinct(),
        ms.areas@.len() == ls.len(),
        0 <= n < ls.len(),
        forall|k: int| 0 <= k < ls.len() ==> seg_ok(data, #[trigger] ls[k]) && ls[k].is_load,
        forall|k: int| 0 <= k < ms.areas@.len() ==> {
            &&& (#[trigger] ms.areas@[k]).start_vpn == seg_start(ls[k])
            &&& ms.areas@[k].end_vpn == seg_end(ls[k])
            &&& ms.areas@[k].map_type == MapType::Framed
        },
        part.len() > 0,
        part == seg_image(data, ls[n]),
        pages_for(part.len() as int) == seg_pages(ls[n]),
        crate::phys_mem::copy_fits(ms.page_table, m1, seg_start(ls[n]), part.len() as int),
        pages_in_mem(ms.page_table, m1, seg_start(ls[n]), pages_for(part.len() as int)),
        m2.base == m1.base,
        m1.base == m0.base,
        m1.bytes@.len() == m0.bytes@.len(),
        m2.bytes@ == copied(m1.bytes@, ms.page_table, m1, seg_start(ls[n]), part),
        forall|k: int|
            0 <= k < n && #[trigger] pages_in_mem(ms.page_table, m0, seg_start(ls[k]), seg_pages(ls[k]))
                ==> seg_filled(ms.page_table, m1, data, ls[k]),
    ensures
        m2.bytes@.len() == m1.bytes@.len(),
        forall|k: int|
            0 <= k <= n && #[trigger] pages_in_mem(ms.page_table, m0, seg_start(ls[k]), seg_pages(ls[k]))
                ==> seg_filled(ms.page_table, m2, data, ls[k]),
{
    let pt = ms.page_table;
    let vn = seg_start(ls[n]);
    let base = m1.base as int;
    assert(ms.areas@[n].start_vpn == vn);
    assert(seg_ok(data, ls[n]));
    assert forall|j: int| 0 <= j < part.len() implies 0 <= #[trigger] copy_pos(pt, m1, vn, j) < m1.bytes@.len() by {
        assert(pt.spec_translate((vn + j / (PAGE_SIZE as int)) as usize).is_some());
    }
    crate::phys_mem::lemma_copied_len_pub(m1.bytes@, pt, m1, vn, part);
    // Every byte written lies in a frame of area `n`.
    assert forall|j2: int| 0 <= j2 < part.len() implies in_frame(
        base,
        pt.entry((vn + j2 / (PAGE_SIZE as int)) as usize).spec_ppn() as int,
        #[trigger] copy_pos(pt, m1, vn, j2),
    ) by {
        assert(0 <= j2 % 4096 < 4096);
    }
    // Segments filled before keep their bytes.
    assert forall|k: int|
        0 <= k < n && #[trigger] pages_in_mem(pt, m0, seg_start(ls[k]), seg_pages(ls[k])) implies seg_filled(
        pt,
        m2,
        data,
        ls[k],
    ) by {
        assert(seg_filled(pt, m1, data, ls[k]));
        assert(ms.areas@[k].start_vpn == seg_start(ls[k]));
        assert(seg_ok(data, ls[k]));
        assert forall|j: int| 0 <= j < seg_pages(ls[k]) * PAGE_SIZE implies #[trigger] user_byte(
            pt,
            m2,
            seg_start(ls[k]) * PAGE_SIZE + j,
        ) == Some(seg_image(data, ls[k])[j]) by {
            let va = seg_start(ls[k]) * PAGE_SIZE + j;
            assert(user_byte(pt, m1, va) == Some(seg_image(data, ls[k])[j]));
            let pa = user_pa(pt, va).unwrap();
            let idx = pa - base;
            assert(0 <= idx < m1.bytes@.len());
            lemma_area_page(ms, k, j);
            let v1 = (seg_start(ls[k]) + j / (PAGE_SIZE as int)) as usize;
            assert(va / 4096 == seg_start(ls[k]) + j / 4096 && va % 4096 == j % 4096) by (nonlinear_arith)
                requires
                    va == seg_start(ls[k]) * 4096 + j,
                    0 <= j,
                    0 <= seg_start(ls[k]),
            ;
            let f = pt.entry(v1).spec_ppn() as int;
            assert(in_frame(base, f, idx)) by {
                assert(0 <= j % 4096 < 4096);
            }
            assert forall|j2: int| 0 <= j2 < part.len() implies #[trigger] copy_pos(pt, m1, vn, j2) != idx by {
                lemma_area_page(ms, n, j2);
                let v2 = (vn + j2 / (PAGE_SIZE as int)) as usize;
                assert(ms.areas@[n].data_frames@[v2] != ms.areas@[k].data_frames@[v1]);
                lemma_apart(base, f, pt.entry(v2).spec_ppn() as int, idx);
                assert(in_frame(base, pt.entry(v2).spec_ppn() as int, copy_pos(pt, m1, vn, j2)));
            }
            lemma_copied_other(m1.bytes@, pt, m1, vn, part, idx);
        }
    }
    // Segment `n` now holds its bytes.
    assert(seg_filled(pt, m2, data, ls[n])) by {
        assert forall|j: int| 0 <= j < seg_pages(ls[n]) * PAGE_SIZE implies #[trigger] user_byte(pt, m2, vn * PAGE_SIZE + j)
            == Some(seg_image(data, ls[n])[j]) by {
            assert forall|q1: int, q2: int| 0 <= q1 < q2 <= (part.len() - 1) / (PAGE_SIZE as int) implies #[trigger] pt.entry(
                (vn + q1) as usize,
            ).spec_ppn() != #[trigger] pt.entry((vn + q2) as usize).spec_ppn() by {
                assert(q1 * 4096 < part.len() && q2 * 4096 < part.len()) by (nonlinear_arith)
                    requires
                        0 <= q1 < q2 <= (part.len() - 1) / 4096,
                        part.len() > 0,
                ;
                lemma_area_page(ms, n, q1 * 4096);
                lemma_area_page(ms, n, q2 * 4096);
                assert((q1 * 4096) / 4096 == q1 && (q2 * 4096) / 4096 == q2) by (nonlinear_arith)
                    requires
                        q1 >= 0,
                        q2 >= 0,
                ;
            }
            lemma_copy_data_readback(m1.bytes@, pt, m1, vn, part, j);
            assert(part[j] == seg_image(data, ls[n])[j]);
            let q = j / 4096;
            assert(q < pages_for(part.len() as int)) by (nonlinear_arith)
                requires
                    0 <= j < part.len(),
                    q == j / 4096,
            ;
            assert(pt.spec_translate((vn + q) as usize).is_some());
            assert(vn + pages_for(part.len() as int) <= VPN_LIMIT);
            assert(vn * 4096 + j < VPN_LIMIT * 4096) by (nonlinear_arith)
                requires
                    vn + pages_for(part.len() as int) <= VPN_LIMIT,
                    q < pages_for(part.len() as int),
                    q == j / 4096,
                    0 <= j,
            ;
            lemma_user_byte_at(pt, m2, vn, j);
        }
    }
}

/// Copies `data[from..to]` into a vector.
fn bytes_range(data: &[u8], from: usize, to: usize) -> (r: Vec<u8>)
    requires
        from <= to <= data@.len(),
    ensures
        r@ == data@.subrange(from as int, to as int),
{
    let mut r: Vec<u8> = Vec::new();
    let mut k: usize = from;
    while k < to
        invariant
            from <= k <= to,
            to <= data@.len(),
            r@ == data@.subrange(from as int, k as int),
        decreases to - k,
    {
        r.push(data[k]);
        assert(r@ =~= data@.subrange(from as int, k + 1));
        k = k + 1;
    }
    r
}

/// `data[off..off + fs]` followed by zeros, `total` bytes in all.
fn image_bytes(data: &[u8], off: usize, fs: usize, total: usize) -> (r: Vec<u8>)
    requires
        fs <= total,
        off + fs <= data@.len(),
    ensures
        r@ == Seq::new(total as nat, |j: int| if j < fs { data@[off + j] } else { 0u8 }),
{
    let dlen = data.len();
    assert(off + fs <= dlen);
    let mut r = bytes_range(data, off, off + fs);
    let mut k: usize = fs;
    while k < total
        invariant
            fs <= k <= total,
            off + fs <= data@.len(),
            r@.len() == k,
            forall|j: int| 0 <= j < k ==> r@[j] == (if j < fs { data@[off + j] } else { 0u8 }),
        decreases total - k,
    {
        r.push(0);
        k = k + 1;
    }
    assert(r@ =~= Seq::new(total as nat, |j: int| if j < fs { data@[off + j] } else { 0u8 }));
    r
}

/// Fills the pages of the area that `map_segments` built in `ms` for each
/// loadable one of the program headers `segs` of the file `data` with the
/// segment's image (its file bytes, then zeros), as `MapArea::copy_data`
/// copies, for each segment whose pages reach frames that `mem` holds;
/// nothing else in `mem` changes.
pub fn fill_loads(ms: &MemorySet, data: &[u8], segs: &Vec<SegmentInfo>, mem: &mut PhysMem)
    requires
        forall|i: int| 0 <= i < segs@.len() ==> seg_ok(data@, #[trigger] segs@[i]),
        ms.wf(),
        ms.frames_distinct(),
        ms.areas@.len() == loads(segs@).len(),
        forall|k: int| 0 <= k < ms.areas@.len() ==> {
            &&& (#[trigger] ms.areas@[k]).start_vpn == seg_start(loads(segs@)[k])
            &&& ms.areas@[k].end_vpn == seg_end(loads(segs@)[k])
            &&& ms.areas@[k].map_type == MapType::Framed
        },
        old(mem).wf(),
    ensures
        final(mem).base == old(mem).base,
        final(mem).bytes@.len() == old(mem).bytes@.len(),
        forall|k: int|
            0 <= k < loads(segs@).len() && #[trigger] pages_in_mem(
                ms.page_table,
                *old(mem),
                seg_start(loads(segs@)[k]),
                seg_pages(loads(segs@)[k]),
            ) ==> seg_filled(ms.page_table, *final(mem), data@, loads(segs@)[k]),
{
    let ghost m0 = *mem;
    let ghost pt = ms.page_table;
    let ghost ss = segs@;
    let ghost ls = loads(ss);
    proof {
        lemma_loads_members(ss);
        assert forall|k: int| 0 <= k < ls.len() implies seg_ok(data@, #[trigger] ls[k]) && ls[k].is_load by {
            let j = choose|j: int| 0 <= j < ss.len() && #[trigger] ss[j] == ls[k];
            assert(seg_ok(data@, ss[j]));
        }
        assert(ss.take(0) =~= Seq::<SegmentInfo>::empty());
    }
    let mut n: usize = 0;
    let mut i: usize = 0;
    while i < segs.len()
        invariant
            ss == segs@,
            ls == loads(ss),
            forall|k: int| 0 <= k < ls.len() ==> seg_ok(data@, #[trigger] ls[k]) && ls[k].is_load,
            i <= ss.len(),
            n == loads(ss.take(i as int)).len(),
            n <= ls.len(),
            ms.wf(),
            ms.frames_distinct(),
            pt == ms.page_table,
            ms.areas@.len() == ls.len(),
            forall|k: int| 0 <= k < ms.areas@.len() ==> {
                &&& (#[trigger] ms.areas@[k]).start_vpn == seg_start(ls[k])
                &&& ms.areas@[k].end_vpn == seg_end(ls[k])
                &&& ms.areas@[k].map_type == MapType::Framed
            },
            mem.wf(),
            mem.base == m0.base,
            mem.bytes@.len() == m0.bytes@.len(),
            forall|k: int|
                0 <= k < n && #[trigger] pages_in_mem(pt, m0, seg_start(ls[k]), seg_pages(ls[k]))
                    ==> seg_filled(pt, *mem, data@, ls[k]),
            forall|p: int| #[trigger] mem.holds_frame(p) == m0.holds_frame(p),
        decreases ss.len() - i,
    {
        proof {
            lemma_loads_take(ss, i as int);
            lemma_loads_prefix(ss, i + 1);
            assert(ss.take(ss.len() as int) =~= ss);
        }
        let seg = segs[i];
        if seg.is_load {
            proof {
                assert(ls[n as int] == seg);
                assert(seg_ok(data@, seg));
            }
            let total = ms.areas.len();
            assert(n < total);
            let area = &ms.areas[n];
            let vpn0 = area.start_vpn;
            let npages = area.end_vpn - area.start_vpn;
            let dlen = data.len();
            assert(seg.offset + seg.file_size <= dlen);
            let fs = seg.file_size as usize;
            let off = seg.offset as usize;
            assert(fs == seg.file_size && off == seg.offset);
            assert(npages == seg_pages(ls[n as int]));
            assert((npages + 1) * PAGE_SIZE <= usize::MAX) by (nonlinear_arith)
                requires
                    (seg_end(seg) + 1) * 4096 <= usize::MAX,
                    npages <= seg_end(seg),
            ;
            let size = npages * PAGE_SIZE;
            proof {
                assert(npages >= 1);
                assert(size >= 4096) by (nonlinear_arith)
                    requires
                        npages >= 1,
                        size == npages * 4096,
                ;
                assert(pages_for(size as int) == npages) by (nonlinear_arith)
                    requires
                        size == npages * 4096,
                        npages >= 1,
                ;
            }
            if check_pages_in_mem(&ms.page_table, mem, vpn0, npages) {
                let part = image_bytes(data, off, fs, size);
                let ghost m1 = *mem;
                proof {
                    assert(part@ =~= seg_image(data@, ls[n as int]));
                    assert(pages_in_mem(pt, m1, vpn0 as int, npages as int)) by {
                        assert forall|q: int| 0 <= q < npages implies #[trigger] pt.spec_translate((vpn0 + q) as usize).is_some()
                            && m1.holds_frame(pt.entry((vpn0 + q) as usize).spec_ppn() as int) by {
                            assert(pt.spec_translate((vpn0 + q) as usize).is_some());
                        }
                    }
                    crate::phys_mem::lemma_pages_fit(pt, m1, vpn0 as int, size as int);
                }
                area.copy_data(&ms.page_table, mem, part.as_slice());
                proof {
                    lemma_fill_step(*ms, data@, ls, m0, m1, *mem, n as int, part@);
                }
            } else {
                proof {
                    assert(!pages_in_mem(pt, m0, seg_start(ls[n as int]), seg_pages(ls[n as int]))) by {
                        if pages_in_mem(pt, m0, seg_start(ls[n as int]), seg_pages(ls[n as int])) {
                            assert forall|q: int| 0 <= q < npages implies #[trigger] pt.spec_translate((vpn0 + q) as usize).is_some()
                                && mem.holds_frame(pt.entry((vpn0 + q) as usize).spec_ppn() as int) by {
                                assert(pt.spec_translate((seg_start(ls[n as int]) + q) as usize).is_some());
                                assert(mem.holds_frame(pt.entry((vpn0 + q) as usize).spec_ppn() as int)
                                    == m0.holds_frame(pt.entry((vpn0 + q) as usize).spec_ppn() as int));
                            }
                        }
                    }
                }
            }
            n = n + 1;
        }
        i = i + 1;
    }
    assert(ss.take(i as int) =~= ss);
}

/// Fills the pages of the area that `from_elf` built in `ms` for each
/// loadable segment of `data` with the segment's image, as `fill_loads`
/// does with the program headers read with `xmas_elf`.
pub fn fill_segments(ms: &MemorySet, data: &[u8], mem: &mut PhysMem)
    requires
        elf_loadable(data@),
        ms.wf(),
        ms.frames_distinct(),
        ms.areas@.len() == elf_loads(data@).len(),
        forall|k: int| 0 <= k < ms.areas@.len() ==> {
            &&& (#[trigger] ms.areas@[k]).start_vpn == seg_start(elf_loads(data@)[k])
            &&& ms.areas@[k].end_vpn == seg_end(elf_loads(data@)[k])
            &&& ms.areas@[k].map_type == MapType::Framed
        },
        old(mem).wf(),
    ensures
        final(mem).base == old(mem).base,
        final(mem).bytes@.len() == old(mem).bytes@.len(),
        forall|k: int|
            0 <= k < elf_loads(data@).len() && #[trigger] pages_in_mem(
                ms.page_table,
                *old(mem),
                seg_start(elf_loads(data@)[k]),
                seg_pages(elf_loads(data@)[k]),
            ) ==> seg_filled(ms.page_table, *final(mem), data@, elf_loads(data@)[k]),
{
    let segs = read_segments(data);
    fill_loads(ms, data, &segs, mem);
}

/// The program headers of the loadable program in `data`, read with
/// `xmas_elf`.
fn read_segments(data: &[u8]) -> (segs: Vec<SegmentInfo>)
    requires
        elf_loadable(data@),
    ensures
        segs@ == segments(data@, elf_header_of(data@).unwrap().ph_count as int),
        forall|i: int| 0 <= i < segs@.len() ==> seg_ok(data@, #[trigger] segs@[i]),
        loads(segs@) == elf_loads(data@),
{
    let h = read_elf_header(data).unwrap();
    let mut segs: Vec<SegmentInfo> = Vec::new();
    let mut i: u16 = 0;
    while i < h.ph_count
        invariant
            h == elf_header_of(data@).unwrap(),
            elf_loadable(data@),
            i <= h.ph_count,
            segs@ == segments(data@, i as int),
        decreases h.ph_count - i,
    {
        proof {
            assert(elf_segment_of(data@, i as u16).is_some());
        }
        let seg = read_elf_segment(data, i);
        segs.push(seg.unwrap());
        proof {
            assert(segs@ =~= segments(data@, i + 1));
        }
        i = i + 1;
    }
    proof {
        let ss = segs@;
        assert forall|k: int| 0 <= k < ss.len() implies seg_ok(data@, #[trigger] ss[k]) by {
            assert(elf_segment_of(data@, k as u16).is_some());
        }
    }
    segs
}

/// Page just past a segment.
pub open spec fn seg_end(s: SegmentInfo) -> int {
    (s.vaddr + s.mem_size + PAGE_SIZE - 1) / (PAGE_SIZE as int)
}

/// Rights of the area of a loadable segment: user access plus its flags.
pub open spec fn seg_perm(s: SegmentInfo) -> u8 {
    FLAG_U | (if s.readable { FLAG_R } else { 0 }) | (if s.writable { FLAG_W } else { 0 }) | (if s.executable {
        FLAG_X
    } else {
        0
    })
}

/// A loadable segment that can be mapped and filled: its pages are below
/// the trampoline, not empty, and its file bytes lie in the file and fit
/// its pages.
pub open spec fn seg_ok(data: Seq<u8>, s: SegmentInfo) -> bool {
    &&& seg_shape_ok(s)
    &&& !s.is_load || {
        &&& s.offset + s.file_size <= data.len()
        &&& s.file_size <= (seg_end(s) - seg_start(s)) * PAGE_SIZE
    }
}

/// A loadable segment whose pages can be mapped: below the trampoline, not
/// empty, with addresses that fit a machine word.
pub open spec fn seg_shape_ok(s: SegmentInfo) -> bool {
    !s.is_load || {
        &&& s.vaddr + s.mem_size + PAGE_SIZE - 1 <= usize::MAX
        &&& seg_start(s) < seg_end(s) <= TRAMPOLINE_VPN
        &&& (seg_end(s) + 1) * PAGE_SIZE <= usize::MAX
    }
}

/// The program headers `ss` can be mapped: every loadable one can, and no
/// two loadable ones share a page.
pub open spec fn segs_mappable(ss: Seq<SegmentInfo>) -> bool {
    &&& forall|i: int| 0 <= i < ss.len() ==> seg_shape_ok(#[trigger] ss[i])
    &&& forall|j: int, k: int|
        0 <= j < k < loads(ss).len() ==> seg_end(#[trigger] loads(ss)[j]) <= seg_start(#[trigger] loads(ss)[k])
            || seg_end(loads(ss)[k]) <= seg_start(loads(ss)[j])
}

/// The first `n` program headers of `data`.
pub open spec fn segments(data: Seq<u8>, n: int) -> Seq<SegmentInfo> {
    Seq::new(n as nat, |i: int| elf_segment_of(data, i as u16).unwrap())
}

/// The loadable segments of `ss`, in order.
pub open spec fn loads(ss: Seq<SegmentInfo>) -> Seq<SegmentInfo>
    decreases ss.len(),
{
    if ss.len() == 0 {
        Seq::empty()
    } else {
        let r = loads(ss.drop_last());
        if ss.last().is_load { r.push(ss.last()) } else { r }
    }
}

/// Pages of the segments `ls`.
pub open spec fn load_pages(ls: Seq<SegmentInfo>) -> int
    decreases ls.len(),
{
    if ls.len() == 0 { 0 } else { load_pages(ls.drop_last()) + (seg_end(ls.last()) - seg_start(ls.last())) }
}

/// The loadable segments of the program in `data`.
pub open spec fn elf_loads(data: Seq<u8>) -> Seq<SegmentInfo> {
    loads(segments(data, elf_header_of(data).unwrap().ph_count as int))
}

/// The program in `data` can be loaded: its headers are readable, every
/// loadable segment can be mapped, and no two of them share a page.
pub open spec fn elf_loadable(data: Seq<u8>) -> bool {
    &&& data.len() >= 64
    &&& elf_header_of(data).is_some()
    &&& forall|i: int|
        0 <= i < elf_header_of(data).unwrap().ph_count ==> {
            &&& ph_in_bounds(data, elf_header_of(data).unwrap(), i)
            &&& (#[trigger] elf_segment_of(data, i as u16)).is_some()
            &&& seg_ok(data, elf_segment_of(data, i as u16).unwrap())
        }
    &&& forall|j: int, k: int|
        0 <= j < k < elf_loads(data).len() ==> seg_end(#[trigger] elf_loads(data)[j]) <= seg_start(
            #[trigger] elf_loads(data)[k],
        ) || seg_end(elf_loads(data)[k]) <= seg_start(elf_loads(data)[j])
}

/// The address space `ms`, user stack base `stack_base` and entry point
/// `entry` loaded from the program in `data` with allocator `a0` before and
/// `a1` after.
pub open spec fn elf_loaded(
    data: Seq<u8>,
    trampoline_ppn: usize,
    a0: StackFrameAllocator,
    a1: StackFrameAllocator,
    ms: MemorySet,
    stack_base: usize,
    entry: usize,
) -> bool {
    let h = elf_header_of(data).unwrap();
    segs_loaded(segments(data, h.ph_count as int), h.entry, trampoline_ppn, a0, a1, ms, stack_base, entry)
}

/// The address space `ms`, user stack base `stack_base` and entry point
/// `entry` built from the program headers `ss` and the header's entry
/// address `h_entry`, with allocator `a0` before and `a1` after: the
/// trampoline, then one framed area per loadable segment, in order, over
/// its pages and with its rights; the stack a page above the last segment;
/// the counts of frames allocated before unchanged.
pub open spec fn segs_loaded(
    ss: Seq<SegmentInfo>,
    h_entry: u64,
    trampoline_ppn: usize,
    a0: StackFrameAllocator,
    a1: StackFrameAllocator,
    ms: MemorySet,
    stack_base: usize,
    entry: usize,
) -> bool {
    let ls = loads(ss);
    &&& ms.wf()
    &&& ms.frames_held(&a1)
    &&& alloc_fits(&a1)
    &&& ms.areas@.len() == ls.len()
    &&& forall|k: int| 0 <= k < ls.len() ==> {
        &&& (#[trigger] ms.areas@[k]).start_vpn == seg_start(ls[k])
        &&& ms.areas@[k].end_vpn == seg_end(ls[k])
        &&& ms.areas@[k].map_type == MapType::Framed
        &&& ms.areas@[k].map_perm.bits == seg_perm(ls[k])
    }
    &&& ms.page_table.spec_translate(TRAMPOLINE_VPN) == Some(
        PageTableEntry { bits: spec_entry_bits(trampoline_ppn, FLAG_R | FLAG_X | FLAG_V) },
    )
    &&& stack_base == (if ls.len() > 0 { seg_end(ls.last()) } else { 0 }) * PAGE_SIZE + PAGE_SIZE
    &&& entry == h_entry as usize
    &&& forall|p: usize| #[trigger] a0.refs().contains_key(p) ==> a1.refs().contains_key(p) && a1.refs()[p] == a0.refs()[p]
}

proof fn lemma_load_pages_mono(ls: Seq<SegmentInfo>, m: int, n: int)
    requires
        0 <= m <= n <= ls.len(),
        forall|k: int| 0 <= k < ls.len() ==> seg_start(#[trigger] ls[k]) < seg_end(ls[k]),
    ensures
        0 <= load_pages(ls.take(m)) <= load_pages(ls.take(n)),
    decreases n,
{
    if n > m {
        lemma_load_pages_mono(ls, m, n - 1);
        assert(ls.take(n).drop_last() =~= ls.take(n - 1));
        assert(ls.take(n).last() == ls[n - 1]);
    } else if m > 0 {
        lemma_load_pages_mono(ls, m - 1, m - 1);
        assert(ls.take(m).drop_last() =~= ls.take(m - 1));
        assert(ls.take(m).last() == ls[m - 1]);
    } else {
        assert(ls.take(0) =~= Seq::<SegmentInfo>::empty());
    }
}

proof fn lemma_loads_take(ss: Seq<SegmentInfo>, i: int)
    requires
        0 <= i < ss.len(),
    ensures
        loads(ss.take(i + 1)) == (if ss[i].is_load { loads(ss.take(i)).push(ss[i]) } else { loads(ss.take(i)) }),
{
    assert(ss.take(i + 1).drop_last() =~= ss.take(i));
    assert(ss.take(i + 1).last() == ss[i]);
}

proof fn lemma_loads_prefix(ss: Seq<SegmentInfo>, i: int)
    requires
        0 <= i <= ss.len(),
    ensures
        loads(ss.take(i)).len() <= loads(ss).len(),
        forall|k: int| 0 <= k < loads(ss.take(i)).len() ==> loads(ss.take(i))[k] == loads(ss)[k],
        forall|k: int| 0 <= k < loads(ss).len() ==> (#[trigger] loads(ss)[k]).is_load,
        forall|k: int| #![trigger loads(ss)[k]] 0 <= k < loads(ss).len() ==> exists|j: int| 0 <= j < ss.len() && #[trigger] ss[j] == loads(ss)[k],
    decreases ss.len() - i,
{
    if i < ss.len() {
        lemma_loads_prefix(ss, i + 1);
        lemma_loads_take(ss, i);
    } else {
        assert(ss.take(i) =~= ss);
        lemma_loads_members(ss);
    }
}

proof fn lemma_loads_members(ss: Seq<SegmentInfo>)
    ensures
        forall|k: int| 0 <= k < loads(ss).len() ==> (#[trigger] loads(ss)[k]).is_load,
        forall|k: int| #![trigger loads(ss)[k]] 0 <= k < loads(ss).len() ==> exists|j: int| 0 <= j < ss.len() && #[trigger] ss[j] == loads(ss)[k],
    decreases ss.len(),
{
    if ss.len() > 0 {
        let p = ss.drop_last();
        lemma_loads_members(p);
        assert forall|k: int| #![trigger loads(ss)[k]] 0 <= k < loads(ss).len() implies exists|j: int| 0 <= j < ss.len() && #[trigger] ss[j] == loads(ss)[k] by {
            if k < loads(p).len() {
                let j = choose|j: int| 0 <= j < p.len() && p[j] == loads(p)[k];
                assert(ss[j] == loads(ss)[k]);
            } else {
                assert(ss[ss.len() - 1] == loads(ss)[k]);
            }
        }
    }
}

impl MemorySet {
    /// The address space built from the program headers `segs` of a
    /// program whose ELF header is `h`: the trampoline, then one framed
    /// user area per loadable segment, in order, with the segment's rights
    /// and its frames not yet filled; also the base of the user stack (a
    /// page above the last segment) and the entry point.
    #[verifier::rlimit(40)]
    pub fn map_segments(
        h: ElfHeaderInfo,
        segs: &Vec<SegmentInfo>,
        trampoline_ppn: usize,
        alloc: &mut StackFrameAllocator,
    ) -> (r: (MemorySet, usize, usize))
        requires
            segs_mappable(segs@),
            alloc_fits(&*old(alloc)),
            old(alloc).free_frames() >= 3 + 3 * load_pages(loads(segs@)),
        ensures
            segs_loaded(segs@, h.entry, trampoline_ppn, *old(alloc), *final(alloc), r.0, r.1, r.2),
    {
        let ghost a0 = *alloc;
        let ghost ss = segs@;
        let ghost ls = loads(ss);
        proof {
            lemma_loads_members(ss);
            assert forall|k: int| 0 <= k < ls.len() implies seg_shape_ok(#[trigger] ls[k]) && ls[k].is_load
                && seg_start(ls[k]) < seg_end(ls[k]) by {
                let j = choose|j: int| 0 <= j < ss.len() && #[trigger] ss[j] == ls[k];
                assert(seg_shape_ok(ss[j]));
            }
            lemma_load_pages_mono(ls, 0, ls.len() as int);
            assert(ls.take(ls.len() as int) =~= ls);
        }
        let mut memory_set = MemorySet::new_bare(alloc);
        let ghost a1 = *alloc;
        proof {
            assert(memory_set.page_table.spec_translate(TRAMPOLINE_VPN).is_none());
            assert(!memory_set.page_table.leaves@.contains_key(TRAMPOLINE_VPN));
            assert(memory_set.page_table.entry(TRAMPOLINE_VPN).bits == 0);
            assert((0u64 as u8) & 1u8 == 0) by (bit_vector);
        }
        memory_set.map_trampoline(trampoline_ppn, alloc);
        let ghost tr = memory_set.page_table.spec_translate(TRAMPOLINE_VPN);
        proof {
            assert forall|p: usize| #[trigger] a0.refs().contains_key(p) implies alloc.refs().contains_key(p)
                && alloc.refs()[p] == a0.refs()[p] by {
                assert(a1.refs().contains_key(p));
            }
        }
        let mut max_end_vpn: usize = 0;
        let mut i: usize = 0;
        while i < segs.len()
            invariant
                ss == segs@,
                segs_mappable(ss),
                ls == loads(ss),
                forall|k: int| 0 <= k < ls.len() ==> seg_start(#[trigger] ls[k]) < seg_end(ls[k]),
                forall|k: int| 0 <= k < ls.len() ==> seg_shape_ok(#[trigger] ls[k]) && ls[k].is_load,
                i <= ss.len(),
                a0 == *old(alloc),
                memory_set.wf(),
                memory_set.frames_held(&*alloc),
                alloc_fits(&*alloc),
                memory_set.areas@.len() == loads(ss.take(i as int)).len(),
                forall|k: int| 0 <= k < memory_set.areas@.len() ==> {
                    &&& (#[trigger] memory_set.areas@[k]).start_vpn == seg_start(ls[k])
                    &&& memory_set.areas@[k].end_vpn == seg_end(ls[k])
                    &&& memory_set.areas@[k].map_type == MapType::Framed
                    &&& memory_set.areas@[k].map_perm.bits == seg_perm(ls[k])
                },
                max_end_vpn == (if memory_set.areas@.len() > 0 { seg_end(ls[memory_set.areas@.len() - 1]) } else { 0 }),
                memory_set.page_table.spec_translate(TRAMPOLINE_VPN) == tr,
                tr == Some(PageTableEntry { bits: spec_entry_bits(trampoline_ppn, FLAG_R | FLAG_X | FLAG_V) }),
                forall|p: usize| #[trigger] a0.refs().contains_key(p) ==> alloc.refs().contains_key(p)
                    && alloc.refs()[p] == a0.refs()[p],
                alloc.free_frames() >= 3 * (load_pages(ls) - load_pages(ls.take(memory_set.areas@.len() as int))),
            decreases ss.len() - i,
        {
            proof {
                lemma_loads_take(ss, i as int);
                lemma_loads_prefix(ss, i + 1);
                assert(ss.take(ss.len() as int) =~= ss);
            }
            let seg = segs[i];
            if seg.is_load {
                let n = memory_set.areas.len();
                proof {
                    assert(seg_shape_ok(seg));
                    assert(ls[n as int] == seg);
                }
                let start_va = seg.vaddr as usize;
                let end_va = (seg.vaddr + seg.mem_size) as usize;
                let bits: u8 = FLAG_U | (if seg.readable { FLAG_R } else { 0 }) | (if seg.writable { FLAG_W } else { 0 }) | (
                if seg.executable {
                    FLAG_X
                } else {
                    0
                });
                let area = MapArea::new(start_va, end_va, MapType::Framed, MapPermission { bits });
                proof {
                    assert(area.start_vpn == seg_start(seg));
                    assert(area.end_vpn == seg_end(seg));
                    let r = seg.readable;
                    let w = seg.writable;
                    let x = seg.executable;
                    assert((0x10u8 | (if r { 2u8 } else { 0u8 }) | (if w { 4u8 } else { 0u8 }) | (if x { 8u8 } else { 0u8 }))
                        & !0x1eu8 == 0) by (bit_vector);
                    assert(area.shape_ok());
                    assert forall|k: int| 0 <= k < memory_set.areas@.len() implies areas_disjoint(
                        #[trigger] memory_set.areas@[k],
                        area,
                    ) by {
                        assert(seg_end(ls[k]) <= seg_start(ls[n as int]) || seg_end(ls[n as int]) <= seg_start(ls[k]));
                    }
                    lemma_load_pages_mono(ls, n + 1, ls.len() as int);
                    assert(ls.take(ls.len() as int) =~= ls);
                    assert(ls.take(n + 1).drop_last() =~= ls.take(n as int));
                    assert(ls.take(n + 1).last() == ls[n as int]);
                }
                let ghost a2 = *alloc;
                let ghost before = memory_set.areas@;
                let ghost mid = memory_set;
                memory_set.push(area, alloc);
                max_end_vpn = seg_end_vpn(&seg);
                proof {
                    assert forall|p: usize| #[trigger] a0.refs().contains_key(p) implies alloc.refs().contains_key(p)
                        && alloc.refs()[p] == a0.refs()[p] by {
                        assert(a2.refs().contains_key(p));
                    }
                    assert forall|k: int| 0 <= k < memory_set.areas@.len() implies {
                        &&& (#[trigger] memory_set.areas@[k]).start_vpn == seg_start(ls[k])
                        &&& memory_set.areas@[k].end_vpn == seg_end(ls[k])
                        &&& memory_set.areas@[k].map_type == MapType::Framed
                        &&& memory_set.areas@[k].map_perm.bits == seg_perm(ls[k])
                    } by {
                        if k < n {
                            assert(memory_set.areas@[k] == before[k]);
                        }
                    }
                    assert(memory_set.page_table.entry(TRAMPOLINE_VPN) == mid.page_table.entry(TRAMPOLINE_VPN));
                    assert(mid.page_table.has_leaf_table(TRAMPOLINE_VPN));
                    assert(mid.page_table.entry(TRAMPOLINE_VPN).has_flag(FLAG_V)) by {
                        let pp = trampoline_ppn as u64;
                        assert(((pp << 10u64) | ((((2u8 | 8u8) | 1u8) as u8) as u64)) as u8 & 1u8 != 0) by (bit_vector);
                    }
                    if !memory_set.page_table.leaves@.contains_key(TRAMPOLINE_VPN) {
                        assert(memory_set.page_table.entry(TRAMPOLINE_VPN).bits == 0);
                        assert((0u64 as u8) & 1u8 == 0) by (bit_vector);
                    }
                    assert(memory_set.page_table.has_leaf_table(TRAMPOLINE_VPN));
                }
            }
            i = i + 1;
        }
        proof {
            assert(ss.take(i as int) =~= ss);
            if memory_set.areas@.len() > 0 {
                assert(seg_shape_ok(ls[memory_set.areas@.len() - 1]));
            }
        }
        let stack_base = max_end_vpn * PAGE_SIZE + PAGE_SIZE;
        (memory_set, stack_base, h.entry as usize)
    }

    /// The address space of the program in `data` (see `from_elf`), with
    /// its frames not yet filled: its program headers, read with `xmas_elf`,
    /// mapped by `map_segments`.
    fn map_elf(data: &[u8], trampoline_ppn: usize, alloc: &mut StackFrameAllocator) -> (r: (MemorySet, usize, usize))
        requires
            elf_loadable(data@),
            alloc_fits(&*old(alloc)),
            old(alloc).free_frames() >= 3 + 3 * load_pages(elf_loads(data@)),
        ensures
            elf_loaded(data@, trampoline_ppn, *old(alloc), *final(alloc), r.0, r.1, r.2),
    {
        let h = read_elf_header(data).unwrap();
        let segs = read_segments(data);
        proof {
            let ss = segs@;
            assert forall|k: int| 0 <= k < ss.len() implies seg_shape_ok(#[trigger] ss[k]) by {
                assert(seg_ok(data@, ss[k]));
            }
        }
        MemorySet::map_segments(h, &segs, trampoline_ppn, alloc)
    }

    /// The address space of the program in `data`: the trampoline and one
    /// framed user area per loadable segment, with the segment's rights,
    /// the segment's file bytes copied to the start of its area (see
    /// `fill_segments`); also the base of the user stack (a page above the
    /// last segment) and the entry point.
    pub fn from_elf(
        data: &[u8],
        trampoline_ppn: usize,
        alloc: &mut StackFrameAllocator,
        mem: &mut PhysMem,
    ) -> (r: (MemorySet, usize, usize))
        requires
            elf_loadable(data@),
            alloc_fits(&*old(alloc)),
            old(alloc).free_frames() >= 3 + 3 * load_pages(elf_loads(data@)),
            old(mem).wf(),
        ensures
            elf_loaded(data@, trampoline_ppn, *old(alloc), *final(alloc), r.0, r.1, r.2),
            elf_filled(data@, r.0, *old(mem), *final(mem)),
    {
        let r = MemorySet::map_elf(data, trampoline_ppn, alloc);
        fill_segments(&r.0, data, mem);
        r
    }
}

/// Page just past a segment.
fn seg_end_vpn(s: &SegmentInfo) -> (e: usize)
    requires
        s.vaddr + s.mem_size + PAGE_SIZE - 1 <= usize::MAX,
    ensures
        e == seg_end(*s),
{
    ((s.vaddr + s.mem_size + (PAGE_SIZE as u64 - 1)) / (PAGE_SIZE as u64)) as usize
}

/// The page ranges of `ls`.
pub open spec fn ranges_of(ls: Seq<SegmentInfo>) -> Seq<(u64, u64)> {
    ls.map_values(|s: SegmentInfo| (seg_start(s) as u64, seg_end(s) as u64))
}

/// No two of the segments `ls` share a page.
pub open spec fn loads_disjoint(ls: Seq<SegmentInfo>) -> bool {
    forall|j: int, k: int|
        0 <= j < k < ls.len() ==> seg_end(#[trigger] ls[j]) <= seg_start(#[trigger] ls[k]) || seg_end(ls[k])
            <= seg_start(ls[j])
}

/// Checks the program in `data` and, when it can be loaded with the frames
/// that `alloc` has left, builds its address space as `from_elf` does.
/// `None` when the file is not a loadable program or memory is short.
pub fn load_elf(
    data: &[u8],
    trampoline_ppn: usize,
    alloc: &mut StackFrameAllocator,
    mem: &mut PhysMem,
) -> (r: Option<(MemorySet, usize, usize)>)
    requires
        alloc_fits(&*old(alloc)),
        old(mem).wf(),
    ensures
        r.is_some() == (elf_loadable(data@) && old(alloc).free_frames() >= 3 + 3 * load_pages(elf_loads(data@))),
        match r {
            Some(t) => elf_loaded(data@, trampoline_ppn, *old(alloc), *final(alloc), t.0, t.1, t.2) && elf_filled(
                data@,
                t.0,
                *old(mem),
                *final(mem),
            ),
            None => *final(alloc) == *old(alloc) && *final(mem) == *old(mem),
        },
{
    let dlen = data.len();
    if dlen < 64 {
        return None;
    }
    let h = match read_elf_header(data) {
        Some(h) => h,
        None => return None,
    };
    let ghost ss = segments(data@, h.ph_count as int);
    let mut ranges: Vec<(u64, u64)> = Vec::new();
    let mut pages: u64 = 0;
    let mut i: u16 = 0;
    assert(ss.take(0) =~= Seq::<SegmentInfo>::empty());
    assert(ranges@ =~= ranges_of(loads(ss.take(0))));
    while i < h.ph_count
        invariant
            h == elf_header_of(data@).unwrap(),
            elf_header_of(data@).is_some(),
            data@.len() >= 64,
            dlen == data@.len(),
            ss == segments(data@, h.ph_count as int),
            i <= h.ph_count,
            forall|j: int| 0 <= j < i ==> {
                &&& ph_in_bounds(data@, h, j)
                &&& (#[trigger] elf_segment_of(data@, j as u16)).is_some()
                &&& seg_ok(data@, elf_segment_of(data@, j as u16).unwrap())
            },
            ranges@ == ranges_of(loads(ss.take(i as int))),
            loads_disjoint(loads(ss.take(i as int))),
            pages == load_pages(loads(ss.take(i as int))),
            pages <= i * 0x800_0000,
            forall|k: int| 0 <= k < loads(ss.take(i as int)).len() ==> seg_ok(data@, #[trigger] loads(ss.take(i as int))[k])
                && loads(ss.take(i as int))[k].is_load,
        decreases h.ph_count - i,
    {
        let ghost pre = loads(ss.take(i as int));
        let min_size: u64 = if h.is_64 { 56 } else { 32 };
        let entsize = h.ph_entry_size as u64;
        assert((i as u64 + 1) * entsize <= 65536 * 65535) by (nonlinear_arith)
            requires
                i < 65536,
                entsize <= 65535,
        ;
        let span = (i as u64 + 1) * entsize;
        let ph_end = match h.ph_offset.checked_add(span) {
            Some(e) => e,
            None => {
                proof {
                    assert(data@.len() <= usize::MAX);
                    assert(usize::MAX <= u64::MAX);
                    assert(span as int == (i + 1) * h.ph_entry_size);
                    assert(!ph_in_bounds(data@, h, i as int));
                }
                return None;
            },
        };
        if entsize < min_size || ph_end > data.len() as u64 {
            assert(!ph_in_bounds(data@, h, i as int));
            return None;
        }
        let align: u64 = if h.is_64 { 8 } else { 4 };
        assert(span >= entsize) by (nonlinear_arith)
            requires
                span == (i as u64 + 1) * entsize,
        ;
        if (ph_end - entsize) % align != 0 {
            proof {
                assert(span as int == (i + 1) * h.ph_entry_size);
                assert((ph_end - entsize) as int == h.ph_offset + i * h.ph_entry_size) by (nonlinear_arith)
                    requires
                        ph_end == h.ph_offset + span,
                        span == (i + 1) * h.ph_entry_size,
                        entsize == h.ph_entry_size,
                ;
                assert(!ph_in_bounds(data@, h, i as int));
            }
            return None;
        }
        proof {
            assert((ph_end - entsize) as int == h.ph_offset + i * h.ph_entry_size) by (nonlinear_arith)
                requires
                    ph_end == h.ph_offset + span,
                    span == (i + 1) * h.ph_entry_size,
                    entsize == h.ph_entry_size,
            ;
            assert(ph_in_bounds(data@, h, i as int));
        }
        let seg = match read_elf_segment(data, i) {
            Some(s) => s,
            None => {
                assert(elf_segment_of(data@, i as u16).is_none());
                return None;
            },
        };
        proof {
            assert(ss[i as int] == seg);
            lemma_loads_take(ss, i as int);
        }
        if seg.is_load {
            let va_end = match seg.vaddr.checked_add(seg.mem_size) {
                Some(v) => match v.checked_add(PAGE_SIZE as u64 - 1) {
                    Some(w) => w,
                    None => {
                        assert(!seg_ok(data@, seg));
                        return None;
                    },
                },
                None => {
                    assert(!seg_ok(data@, seg));
                    return None;
                },
            };
            if va_end > usize::MAX as u64 {
                assert(!seg_ok(data@, seg));
                return None;
            }
            let s_pg = seg.vaddr / (PAGE_SIZE as u64);
            let e_pg = va_end / (PAGE_SIZE as u64);
            assert(s_pg == seg_start(seg) && e_pg == seg_end(seg));
            if !(s_pg < e_pg && e_pg <= TRAMPOLINE_VPN as u64) {
                return None;
            }
            let file_end = match seg.offset.checked_add(seg.file_size) {
                Some(f) => f,
                None => {
                    assert(!seg_ok(data@, seg));
                    return None;
                },
            };
            if file_end > data.len() as u64 || seg.file_size > (e_pg - s_pg) * (PAGE_SIZE as u64) || (e_pg + 1)
                * (PAGE_SIZE as u64) > usize::MAX as u64 {
                assert(!seg_ok(data@, seg));
                return None;
            }
            assert(seg_ok(data@, seg));
            proof {
                lemma_loads_prefix(ss, i + 1);
                assert(loads(ss.take(i + 1)) == pre.push(seg));
            }
            let ghost all = loads(ss);
            let mut k: usize = 0;
            while k < ranges.len()
                invariant
                    all == loads(ss),
                    all == elf_loads(data@),
                    loads(ss.take(i + 1)) == pre.push(seg),
                    loads(ss.take(i + 1)).len() <= all.len(),
                    forall|m: int| 0 <= m < loads(ss.take(i + 1)).len() ==> loads(ss.take(i + 1))[m] == all[m],
                    ranges@ == ranges_of(pre),
                    k <= ranges@.len(),
                    s_pg == seg_start(seg),
                    e_pg == seg_end(seg),
                    forall|m: int| 0 <= m < k ==> seg_end(#[trigger] pre[m]) <= s_pg || e_pg <= seg_start(pre[m]),
                    forall|m: int| 0 <= m < pre.len() ==> seg_ok(data@, #[trigger] pre[m]) && pre[m].is_load,
                decreases ranges@.len() - k,
            {
                let (a, b) = ranges[k];
                proof {
                    assert(seg_ok(data@, pre[k as int]));
                    assert(a == seg_start(pre[k as int]) && b == seg_end(pre[k as int]));
                }
                if !(b <= s_pg || e_pg <= a) {
                    proof {
                        let n = pre.len() as int;
                        assert(pre.push(seg)[k as int] == pre[k as int]);
                        assert(all[k as int] == pre[k as int]);
                        assert(all[n] == seg);
                        assert(!loads_disjoint(all));
                    }
                    return None;
                }
                k = k + 1;
            }
            ranges.push((s_pg, e_pg));
            pages = pages + (e_pg - s_pg);
            proof {
                let post = pre.push(seg);
                assert(loads(ss.take(i + 1)) == post);
                assert(ranges@ =~= ranges_of(post));
                assert(post.drop_last() =~= pre);
                assert forall|j: int, m: int| 0 <= j < m < post.len() implies seg_end(#[trigger] post[j]) <= seg_start(
                    #[trigger] post[m]) || seg_end(post[m]) <= seg_start(post[j]) by {
                    if m < pre.len() {
                        assert(post[j] == pre[j] && post[m] == pre[m]);
                    } else {
                        assert(post[j] == pre[j]);
                    }
                }
            }
        } else {
            proof {
                assert(loads(ss.take(i + 1)) == pre);
            }
        }
        i = i + 1;
    }
    proof {
        assert(ss.take(h.ph_count as int) =~= ss);
    }
    let free = alloc.free_count();
    if (free as u64) < 3 + 3 * pages {
        return None;
    }
    Some(MemorySet::from_elf(data, trampoline_ppn, alloc, mem))
}

/// A file that starts with the ELF magic number.
pub fn is_elf(data: &[u8]) -> (b: bool)
    ensures
        b == has_elf_magic(data@),
{
    data.len() >= 4 && data[0] == 0x7f && data[1] == 0x45 && data[2] == 0x4c && data[3] == 0x46
}

/// The first of the paths `cands` that names an inode, each looked up
/// from the root or from the working directory `cwd`.
pub open spec fn first_found(fs: EasyFileSystem, cwd: u32, cands: Seq<Seq<u8>>) -> Option<u32>
    decreases cands.len(),
{
    if cands.len() == 0 {
        None
    } else {
        match resolve_path(fs, cwd, cands[0]) {
            Some(n) => Some(n),
            None => first_found(fs, cwd, cands.drop_first()),
        }
    }
}

/// The program file `exec` runs for `path`: the path itself when it has a
/// slash, else the first `PATH` directory that holds it.
pub open spec fn exec_file(fs: EasyFileSystem, p: Process, path: Seq<u8>) -> Option<u32> {
    first_found(fs, p.cwd_inode, exec_candidates_spec(path, p.path_var@))
}

/// What `exec` of `path` with `argc` arguments by process `p` left behind
/// (`alloc0`, `ms0`, `mem0` before; `alloc1`, `ms1`, `mem1` after) and
/// returned: when the program found for `path` is an ELF file that can be
/// loaded with the free frames, the address space is the one built from it
/// and `r` is `argc`; otherwise `r` is -1 and nothing changed.
pub open spec fn exec_outcome(
    fs: EasyFileSystem,
    p: Process,
    path: Seq<u8>,
    argc: int,
    trampoline_ppn: usize,
    alloc0: StackFrameAllocator,
    alloc1: StackFrameAllocator,
    ms0: MemorySet,
    ms1: MemorySet,
    mem0: PhysMem,
    mem1: PhysMem,
    r: isize,
) -> bool {
    match exec_file(fs, p, path) {
        Some(id) => {
            let data = fs.data_of(id);
            if has_elf_magic(data) && elf_loadable(data) && alloc0.free_frames() >= 3 + 3 * load_pages(elf_loads(data)) {
                &&& r == argc
                &&& exists|sp: usize, entry: usize| elf_loaded(data, trampoline_ppn, alloc0, alloc1, ms1, sp, entry)
                &&& elf_filled(data, ms1, mem0, mem1)
            } else {
                r == -1 && ms1 == ms0 && alloc1 == alloc0 && mem1 == mem0
            }
        },
        None => r == -1 && ms1 == ms0 && alloc1 == alloc0 && mem1 == mem0,
    }
}

/// `exec` of `path` with `argc` arguments: looks the program up (see
/// `exec_file`), reads it, and when it is an ELF file that can be loaded
/// replaces the address space `ms` by the one built from it, its segments
/// copied into physical memory `mem`, as `load_elf` does, and returns
/// `argc` (the new program receives it in its first register). -1, with
/// nothing changed, when no file is found, it is not an ELF file, or it
/// cannot be loaded. The process record, its descriptor table among it,
/// is kept as it is.
pub fn sys_exec(
    proc: &Process,
    ms: &mut MemorySet,
    fs: &EasyFileSystem,
    path: &[u8],
    argc: usize,
    trampoline_ppn: usize,
    alloc: &mut StackFrameAllocator,
    mem: &mut PhysMem,
) -> (r: isize)
    requires
        alloc_fits(&*old(alloc)),
        old(mem).wf(),
        argc <= isize::MAX,
    ensures
        exec_outcome(*fs, *proc, path@, argc as int, trampoline_ppn, *old(alloc), *final(alloc), *old(ms), *final(ms),
            *old(mem), *final(mem), r),
{
    let cands = exec_candidates(path, proc.path_var.as_slice());
    let ghost full = bytes_view(cands@);
    let cwd = proc.cwd_inode;
    let mut found: Option<Inode> = None;
    let mut i: usize = 0;
    assert(full.skip(0) =~= full);
    while i < cands.len() && found.is_none()
        invariant
            full == bytes_view(cands@),
            full.len() == cands@.len(),
            i <= cands@.len(),
            found.is_none() ==> first_found(*fs, cwd, full) == first_found(*fs, cwd, full.skip(i as int)),
            found.is_some() ==> first_found(*fs, cwd, full) == Some(found.unwrap().inode_id),
        decreases cands@.len() - i,
    {
        let ghost rest = full.skip(i as int);
        assert(rest[0] == cands@[i as int]@);
        assert(rest.drop_first() =~= full.skip(i + 1));
        found = lookup_from(fs, cwd, cands[i].as_slice());
        i = i + 1;
    }
    let inode = match found {
        Some(n) => n,
        None => {
            assert(full.skip(i as int) =~= Seq::<Seq<u8>>::empty());
            return -1;
        },
    };
    let mut file = OSInode::new(true, false, inode);
    let data = file.read_all(fs);
    assert(data@ =~= fs.data_of(inode.inode_id));
    if !is_elf(data.as_slice()) {
        return -1;
    }
    match load_elf(data.as_slice(), trampoline_ppn, alloc, mem) {
        Some(t) => {
            let (new_ms, _, _) = t;
            *ms = new_ms;
            argc as isize
        },
        None => -1,
    }
}

/// The string at user address `va` (without its NUL).
pub open spec fn user_string(pt: PageTable, mem: PhysMem, va: int) -> Seq<u8> {
    let n = choose|n: int| c_string(pt, mem, va, n);
    Seq::new(n as nat, |i: int| user_byte(pt, mem, va + i).unwrap())
}

/// The number of arguments in the argument array at user address `args`.
pub open spec fn arg_count(pt: PageTable, mem: PhysMem, args: int) -> int {
    choose|n: int| arg_array(pt, mem, args, n)
}

/// The `exec` system call as a user program makes it: the path is the
/// string at user address `path_ptr` and the arguments are the strings of
/// the argument array at `args_ptr`, both read through the current address
/// space; then `sys_exec` runs with their count.
pub fn sys_exec_user(
    proc: &Process,
    ms: &mut MemorySet,
    fs: &EasyFileSystem,
    path_ptr: usize,
    args_ptr: usize,
    trampoline_ppn: usize,
    alloc: &mut StackFrameAllocator,
    mem: &mut PhysMem,
) -> (r: isize)
    requires
        alloc_fits(&*old(alloc)),
        old(mem).wf(),
        exists|n: int| c_string(old(ms).page_table, *old(mem), path_ptr as int, n) && path_ptr + n <= usize::MAX,
        exists|n: int| arg_array(old(ms).page_table, *old(mem), args_ptr as int, n),
    ensures
        exec_outcome(
            *fs,
            *proc,
            user_string(old(ms).page_table, *old(mem), path_ptr as int),
            arg_count(old(ms).page_table, *old(mem), args_ptr as int),
            trampoline_ppn,
            *old(alloc),
            *final(alloc),
            *old(ms),
            *final(ms),
            *old(mem),
            *final(mem),
            r,
        ),
{
    let path = translated_str(&ms.page_table, mem, path_ptr);
    let args = translated_args(&ms.page_table, mem, args_ptr);
    proof {
        let pt = old(ms).page_table;
        let n = choose|n: int| c_string(pt, *old(mem), path_ptr as int, n);
        lemma_c_string_unique(pt, *old(mem), path_ptr as int, n, path@.len() as int);
        assert(path@ =~= user_string(pt, *old(mem), path_ptr as int));
        let m = choose|m: int| arg_array(pt, *old(mem), args_ptr as int, m);
        lemma_arg_array_unique(pt, *old(mem), args_ptr as int, m, args@.len() as int);
    }
    sys_exec(proc, ms, fs, path.as_slice(), args.len(), trampoline_ppn, alloc, mem)
}

pub const COLON: u8 = 0x3a;

/// The pieces of `s` between colons (empty ones included).
pub open spec fn split_colon(s: Seq<u8>) -> Seq<Seq<u8>>
    decreases s.len(),
{
    if s.len() == 0 {
        seq![Seq::empty()]
    } else {
        let r = split_colon(s.drop_last());
        if s.last() == COLON {
            r.push(Seq::empty())
        } else {
            r.update(r.len() - 1, r.last().push(s.last()))
        }
    }
}

proof fn lemma_split_colon_nonempty(s: Seq<u8>)
    ensures
        split_colon(s).len() >= 1,
    decreases s.len(),
{
    if s.len() > 0 {
        lemma_split_colon_nonempty(s.drop_last());
    }
}

/// `dir/name` for each non-empty directory of `dirs`, in order.
pub open spec fn in_dirs(dirs: Seq<Seq<u8>>, name: Seq<u8>) -> Seq<Seq<u8>>
    decreases dirs.len(),
{
    if dirs.len() == 0 {
        Seq::empty()
    } else {
        let r = in_dirs(dirs.drop_last(), name);
        if dirs.last().len() == 0 { r } else { r.push(dirs.last() + seq![SLASH] + name) }
    }
}

/// Where `exec` looks for a program: a path with a slash is used as it is,
/// a bare name is tried in each directory of the `PATH` variable in turn.
pub open spec fn exec_candidates_spec(path: Seq<u8>, path_var: Seq<u8>) -> Seq<Seq<u8>> {
    if path.contains(SLASH) { seq![path] } else { in_dirs(split_colon(path_var), path) }
}

pub open spec fn bytes_view(v: Seq<Vec<u8>>) -> Seq<Seq<u8>> {
    v.map_values(|b: Vec<u8>| b@)
}

fn candidate(dir: &Vec<u8>, name: &[u8]) -> (r: Vec<u8>)
    ensures
        r@ == dir@ + seq![SLASH] + name@,
{
    let mut r = crate::editor::clone_bytes(dir.as_slice());
    r.push(SLASH);
    let mut n = crate::editor::clone_bytes(name);
    r.append(&mut n);
    assert(r@ =~= dir@ + seq![SLASH] + name@);
    r
}

/// The paths `exec` tries for `path`, in order.
pub fn exec_candidates(path: &[u8], path_var: &[u8]) -> (r: Vec<Vec<u8>>)
    ensures
        bytes_view(r@) == exec_candidates_spec(path@, path_var@),
{
    let mut has_slash = false;
    let mut k: usize = 0;
    while k < path.len()
        invariant
            k <= path@.len(),
            has_slash == exists|j: int| 0 <= j < k && path@[j] == SLASH,
        decreases path@.len() - k,
    {
        if path[k] == SLASH {
            has_slash = true;
        }
        k = k + 1;
    }
    if has_slash {
        let mut r: Vec<Vec<u8>> = Vec::new();
        r.push(crate::editor::clone_bytes(path));
        assert(bytes_view(r@) =~= seq![path@]);
        return r;
    }
    proof {
        if path@.contains(SLASH) {
            let j = choose|j: int| 0 <= j < path@.len() && path@[j] == SLASH;
        }
    }
    let mut out: Vec<Vec<u8>> = Vec::new();
    let mut done: Vec<Vec<u8>> = Vec::new();
    let mut dir: Vec<u8> = Vec::new();
    let mut i: usize = 0;
    assert(path_var@.take(0) =~= Seq::<u8>::empty());
    assert(split_colon(Seq::<u8>::empty()) =~= bytes_view(done@).push(dir@));
    assert(bytes_view(out@) =~= in_dirs(bytes_view(done@), path@));
    while i < path_var.len()
        invariant
            i <= path_var@.len(),
            split_colon(path_var@.take(i as int)) == bytes_view(done@).push(dir@),
            bytes_view(out@) == in_dirs(bytes_view(done@), path@),
        decreases path_var@.len() - i,
    {
        let b = path_var[i];
        let ghost prev = path_var@.take(i as int);
        assert(path_var@.take(i + 1).drop_last() =~= prev);
        assert(path_var@.take(i + 1).last() == b);
        if b == COLON {
            let ghost d0 = bytes_view(done@);
            if dir.len() > 0 {
                let c = candidate(&dir, path);
                let ghost o0 = bytes_view(out@);
                out.push(c);
                assert(bytes_view(out@) =~= o0.push(dir@ + seq![SLASH] + path@));
            }
            let mut finished: Vec<u8> = Vec::new();
            std::mem::swap(&mut finished, &mut dir);
            done.push(finished);
            proof {
                assert(bytes_view(done@) =~= d0.push(finished@));
                assert(bytes_view(done@).drop_last() =~= d0);
                assert(split_colon(path_var@.take(i + 1)) =~= bytes_view(done@).push(dir@));
            }
        } else {
            dir.push(b);
            proof {
                lemma_split_colon_nonempty(prev);
                assert(split_colon(path_var@.take(i + 1)) =~= bytes_view(done@).push(dir@));
            }
        }
        i = i + 1;
    }
    proof {
        assert(path_var@.take(i as int) =~= path_var@);
        assert(bytes_view(done@).push(dir@).drop_last() =~= bytes_view(done@));
    }
    if dir.len() > 0 {
        let c = candidate(&dir, path);
        let ghost o0 = bytes_view(out@);
        out.push(c);
        assert(bytes_view(out@) =~= o0.push(dir@ + seq![SLASH] + path@));
    }
    out
}

} // verus!
