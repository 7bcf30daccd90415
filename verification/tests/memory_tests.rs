use rcore_os::phys_mem::{frame_alloc, frame_alloc_more, translated_str, PhysMem};
use rcore_os::user_buffer::{translated_byte_buffer, UserBuffer};
use rcore_os::frame_allocator::{init, StackFrameAllocator, PAGE_SIZE};
use rcore_os::memory_set::{KernelLayout, MapArea, MapPermission, MapType, MemorySet, TRAMPOLINE_VPN};
use rcore_os::page_table::{PageTable, PageTableEntry, PTEFlags, FLAG_R, FLAG_U, FLAG_V, FLAG_W, FLAG_X};

fn allocator(l: usize, r: usize) -> StackFrameAllocator {
    let mut a = StackFrameAllocator::new();
    a.init(l, r);
    a
}

#[test]
fn frames_come_fresh_then_recycled_last_first() {
    let mut a = allocator(10, 13);
    assert_eq!(a.alloc_one(), Some(10));
    assert_eq!(a.alloc_one(), Some(11));
    a.dealloc(10);
    a.dealloc(11);
    assert_eq!(a.alloc_one(), Some(11));
    assert_eq!(a.alloc_one(), Some(10));
    assert_eq!(a.alloc_one(), Some(12));
    assert_eq!(a.alloc_one(), None);
}

#[test]
fn shared_frame_is_recycled_with_its_last_owner() {
    let mut a = allocator(0, 4);
    let f = a.alloc_one().unwrap();
    a.add_ref(f);
    assert_eq!(a.ref_count(f), 2);
    a.dealloc(f);
    assert_eq!(a.ref_count(f), 1);
    assert_eq!(a.allocated_count(), 1);
    a.dealloc(f);
    assert_eq!(a.ref_count(f), 0);
    assert_eq!(a.allocated_count(), 0);
    assert_eq!(a.alloc_one(), Some(f));
}

#[test]
fn alloc_more_hands_out_high_to_low() {
    let mut a = allocator(100, 110);
    assert_eq!(a.alloc_more(3), Some(vec![102, 101, 100]));
    assert_eq!(a.alloc_more(7), None);
    assert_eq!(a.alloc_more(6), Some(vec![108, 107, 106, 105, 104, 103]));
}

#[test]
fn init_rounds_to_whole_pages() {
    let a = init(0x8020_0001, 0x8800_0000);
    assert_eq!(a.current, 0x80201);
    assert_eq!(a.end, 0x88000);
}

#[test]
fn entries_keep_frame_and_flags() {
    let e = PageTableEntry::new(0x1234, PTEFlags::from_bits(FLAG_R | FLAG_W | FLAG_V));
    assert_eq!(e.ppn(), 0x1234);
    assert!(e.is_valid() && e.readable() && e.writable());
    assert!(!e.executable() && !e.user_accessible() && !e.is_cow());
    let c = PageTableEntry::new_cow(0x1234, PTEFlags::from_bits(FLAG_R | FLAG_U | FLAG_V));
    assert!(c.is_cow());
    assert_eq!(c.ppn(), 0x1234);
    assert!(!PageTableEntry::empty().is_valid());
}

#[test]
fn page_table_maps_and_unmaps() {
    let mut a = allocator(0x100, 0x200);
    let mut pt = PageTable::new(&mut a);
    assert!(pt.translate(5).is_none());
    pt.map(5, 0x1ff, PTEFlags::from_bits(FLAG_R | FLAG_W), &mut a);
    let e = pt.translate(5).unwrap();
    assert_eq!(e.ppn(), 0x1ff);
    assert!(e.is_valid() && e.writable());
    assert_eq!(pt.translate_va(5 * PAGE_SIZE + 0x10), Some((0x1ff * PAGE_SIZE + 0x10) as u64));
    pt.unmap(5);
    assert!(!pt.translate(5).unwrap().is_valid());
    assert_eq!(pt.token(), (8u64 << 60) | pt.root_ppn as u64);
}

/// Physical memory holding frames 0x100..0x200.
fn ram() -> PhysMem {
    PhysMem { base: 0x100 * PAGE_SIZE, bytes: vec![0; 0x100 * PAGE_SIZE] }
}

fn user_space(a: &mut StackFrameAllocator) -> MemorySet {
    let mut ms = MemorySet::new_bare(a);
    ms.map_trampoline(0x3ff, a);
    let rw_user = MapPermission { bits: FLAG_R | FLAG_W | FLAG_U };
    let ro_user = MapPermission { bits: FLAG_R | FLAG_X | FLAG_U };
    ms.insert_framed_area(0x1000, 0x3000, ro_user, a);
    ms.insert_framed_area(0x10000, 0x12000, rw_user, a);
    ms
}

#[test]
fn framed_areas_get_frames_of_their_own() {
    let mut a = allocator(0x100, 0x200);
    let ms = user_space(&mut a);
    assert_eq!(ms.areas.len(), 2);
    let p1 = ms.translate(1).unwrap();
    let p2 = ms.translate(2).unwrap();
    assert!(p1.is_valid() && p1.user_accessible() && !p1.writable());
    assert_ne!(p1.ppn(), p2.ppn());
    assert_eq!(ms.find_area(0x10), Some(1));
    assert_eq!(ms.find_area(0x20), None);
    assert_eq!(ms.translate(TRAMPOLINE_VPN).unwrap().ppn(), 0x3ff);
}

#[test]
fn cow_fork_shares_then_fault_privatizes() {
    let mut a = allocator(0x100, 0x200);
    let mut mem = ram();
    let mut parent = user_space(&mut a);
    let data_frame = parent.translate(0x10).unwrap().ppn();
    mem.bytes[(data_frame - 0x100) * PAGE_SIZE + 8] = 42;
    let (mut child, stats) = parent.from_existed_user_cow(0x3ff, &mut a, &mut mem);
    assert_eq!(stats.shared_pages, 4);
    assert_eq!(stats.copied_pages, 0);
    let pe = parent.translate(0x10).unwrap();
    let ce = child.translate(0x10).unwrap();
    assert_eq!(pe.ppn(), data_frame);
    assert_eq!(ce.ppn(), data_frame);
    assert!(pe.is_cow() && ce.is_cow());
    assert!(!pe.writable() && !ce.writable());
    // read-only pages are shared but never copy-on-write
    assert!(!child.translate(1).unwrap().is_cow());
    assert_eq!(a.ref_count(data_frame), 2);
    // the child writes: it gets a page of its own
    assert!(child.handle_cow_fault(0x10 * PAGE_SIZE + 8, &mut a, &mut mem));
    let ce = child.translate(0x10).unwrap();
    assert_ne!(ce.ppn(), data_frame);
    // the private page starts as a copy of the shared one
    assert_eq!(mem.bytes[(ce.ppn() - 0x100) * PAGE_SIZE + 8], 42);
    assert!(ce.writable() && !ce.is_cow());
    assert_eq!(a.ref_count(data_frame), 1);
    // the parent's write then takes the frame back without a copy
    assert!(parent.handle_cow_fault(0x10 * PAGE_SIZE, &mut a, &mut mem));
    let pe = parent.translate(0x10).unwrap();
    assert_eq!(pe.ppn(), data_frame);
    assert!(pe.writable() && !pe.is_cow());
    // a fault on a page that is not copy-on-write is not handled
    assert!(!parent.handle_cow_fault(0x1000, &mut a, &mut mem));
    assert!(!parent.handle_cow_fault(0x50 * PAGE_SIZE, &mut a, &mut mem));
}

#[test]
fn private_range_breaks_sharing_before_the_kernel_writes() {
    let mut a = allocator(0x100, 0x200);
    let mut mem = ram();
    let mut parent = user_space(&mut a);
    let (_child, _) = parent.from_existed_user_cow(0x3ff, &mut a, &mut mem);
    assert!(parent.ensure_private_range(0x10 * PAGE_SIZE + 4, 8, &mut a, &mut mem));
    let pe = parent.translate(0x10).unwrap();
    assert!(pe.writable() && !pe.is_cow());
    assert!(parent.translate(0x11).unwrap().is_cow());
    assert!(!parent.ensure_private_range(0x1000, 4, &mut a, &mut mem));
    assert!(parent.ensure_private_range(0x1000, 0, &mut a, &mut mem));
}

#[test]
fn eager_fork_copies_every_page() {
    let mut a = allocator(0x100, 0x200);
    let mut mem = ram();
    let parent = user_space(&mut a);
    for vpn in [1usize, 2, 0x10, 0x11] {
        let p = (parent.translate(vpn).unwrap().ppn() - 0x100) * PAGE_SIZE;
        mem.bytes[p + 7] = vpn as u8;
    }
    let child = parent.from_existed_user(0x3ff, &mut a, &mut mem);
    assert_eq!(child.areas.len(), 2);
    for vpn in [1usize, 2, 0x10, 0x11] {
        let p = parent.translate(vpn).unwrap();
        let c = child.translate(vpn).unwrap();
        assert_ne!(p.ppn(), c.ppn());
        assert!(!c.is_cow());
        let (pi, ci) = ((p.ppn() - 0x100) * PAGE_SIZE, (c.ppn() - 0x100) * PAGE_SIZE);
        assert_eq!(mem.bytes[ci + 7], vpn as u8);
        assert_eq!(mem.bytes[ci..ci + PAGE_SIZE], mem.bytes[pi..pi + PAGE_SIZE].to_vec()[..]);
    }
}

#[test]
fn removing_an_area_by_its_start() {
    let mut a = allocator(0x100, 0x200);
    let mut ms = user_space(&mut a);
    let before = a.allocated_count();
    ms.remove_area_with_start_vpn(0x10, &mut a);
    assert_eq!(ms.areas.len(), 1);
    assert!(!ms.translate(0x10).unwrap().is_valid());
    assert_eq!(a.allocated_count(), before - 2);
    ms.remove_area_with_start_vpn(0x30, &mut a);
    assert_eq!(ms.areas.len(), 1);
}

#[test]
fn map_area_rounds_to_pages() {
    let area = MapArea::new(0x1234, 0x3001, MapType::Framed, MapPermission { bits: FLAG_R });
    assert_eq!(area.start_vpn, 1);
    assert_eq!(area.end_vpn, 4);
}

#[test]
fn kernel_space_maps_sections_identically() {
    let mut a = allocator(0x8800, 0x8c00);
    let layout = KernelLayout {
        stext: 0x8020_0000,
        etext: 0x8020_2000,
        srodata: 0x8020_2000,
        erodata: 0x8020_3000,
        sdata: 0x8020_3000,
        edata: 0x8020_4000,
        sbss_with_stack: 0x8020_4000,
        ebss: 0x8020_6000,
        ekernel: 0x8020_6000,
        memory_end: 0x8021_0000,
    };
    let mmio = vec![(0x1000_0000usize, 0x1000usize)];
    let ks = MemorySet::new_kernel(&layout, &mmio, 0x3ff, &mut a);
    assert_eq!(ks.areas.len(), 6);
    let text = ks.translate(0x80200).unwrap();
    assert_eq!(text.ppn(), 0x80200);
    assert!(text.executable() && !text.writable());
    let data = ks.translate(0x80203).unwrap();
    assert!(data.writable() && !data.executable());
    assert_eq!(ks.translate(0x10000).unwrap().ppn(), 0x10000);
    assert_eq!(ks.translate(TRAMPOLINE_VPN).unwrap().ppn(), 0x3ff);
}

#[test]
fn user_buffer_splits_at_page_boundaries() {
    let mut a = allocator(0x100, 0x200);
    let ms = user_space(&mut a);
    let p10 = ms.translate(0x10).unwrap().ppn();
    let p11 = ms.translate(0x11).unwrap().ppn();
    let chunks = translated_byte_buffer(&ms.page_table, 0x10 * PAGE_SIZE + 0xff0, 0x20);
    assert_eq!(chunks.len(), 2);
    assert_eq!((chunks[0].ppn, chunks[0].start, chunks[0].end), (p10, 0xff0, 0x1000));
    assert_eq!((chunks[1].ppn, chunks[1].start, chunks[1].end), (p11, 0, 0x10));
    let buf = UserBuffer::new(chunks);
    assert_eq!(buf.len(), 0x20);
    let mut it = buf.into_iter();
    let mut seen = Vec::new();
    while let Some(pos) = it.next() {
        seen.push(pos);
    }
    assert_eq!(seen.len(), 0x20);
    assert_eq!(seen[0], (p10, 0xff0));
    assert_eq!(seen[15], (p10, 0xfff));
    assert_eq!(seen[16], (p11, 0));
    // a whole page is one piece; an empty range has none
    let whole = translated_byte_buffer(&ms.page_table, 0x10 * PAGE_SIZE, PAGE_SIZE);
    assert_eq!(whole.len(), 1);
    assert_eq!((whole[0].start, whole[0].end), (0, PAGE_SIZE));
    assert!(translated_byte_buffer(&ms.page_table, 0x10 * PAGE_SIZE, 0).is_empty());
}

#[test]
fn frame_allocator_test() {
    let mut a = allocator(0x80, 0x100);
    let mut frames = Vec::new();
    for _ in 0..5 {
        frames.push(a.alloc_one().unwrap());
    }
    assert_eq!(frames, vec![0x80, 0x81, 0x82, 0x83, 0x84]);
    for &f in frames.iter() {
        a.dealloc(f);
    }
    frames.clear();
    for _ in 0..5 {
        frames.push(a.alloc_one().unwrap());
    }
    // recycled frames come back, the last freed first
    assert_eq!(frames, vec![0x84, 0x83, 0x82, 0x81, 0x80]);
    assert_eq!(a.allocated_count(), 5);
}

#[test]
fn frame_allocator_reference_test() {
    let mut a = allocator(0x80, 0x100);
    let before = a.allocated_count();
    let f = a.alloc_one().unwrap();
    assert_eq!(a.ref_count(f), 1);
    assert_eq!(a.allocated_count(), before + 1);
    a.add_ref(f);
    assert_eq!(a.ref_count(f), 2);
    assert_eq!(a.allocated_count(), before + 1);
    a.dealloc(f);
    assert_eq!(a.ref_count(f), 1);
    assert_eq!(a.allocated_count(), before + 1);
    a.dealloc(f);
    assert_eq!(a.ref_count(f), 0);
    assert_eq!(a.allocated_count(), before);
}

#[test]
fn frame_allocator_alloc_more_test() {
    let mut a = allocator(0x80, 0x100);
    let first = a.alloc_more(5).unwrap();
    assert_eq!(first, vec![0x84, 0x83, 0x82, 0x81, 0x80]);
    for &f in first.iter() {
        a.dealloc(f);
    }
    // a block comes from fresh frames, never from recycled ones
    let second = a.alloc_more(5).unwrap();
    assert_eq!(second, vec![0x89, 0x88, 0x87, 0x86, 0x85]);
}

#[test]
fn remap_test() {
    let mut a = allocator(0x8800, 0x8c00);
    let layout = KernelLayout {
        stext: 0x8020_0000,
        etext: 0x8020_2000,
        srodata: 0x8020_2000,
        erodata: 0x8020_3000,
        sdata: 0x8020_3000,
        edata: 0x8020_4000,
        sbss_with_stack: 0x8020_4000,
        ebss: 0x8020_6000,
        ekernel: 0x8020_6000,
        memory_end: 0x8021_0000,
    };
    let ks = MemorySet::new_kernel(&layout, &Vec::new(), 0x3ff, &mut a);
    let mid_text = (layout.stext + layout.etext) / 2 / PAGE_SIZE;
    let mid_rodata = (layout.srodata + layout.erodata) / 2 / PAGE_SIZE;
    let mid_data = (layout.sdata + layout.edata) / 2 / PAGE_SIZE;
    assert!(!ks.page_table.translate(mid_text).unwrap().writable());
    assert!(!ks.page_table.translate(mid_rodata).unwrap().writable());
    assert!(!ks.page_table.translate(mid_data).unwrap().executable());
}

#[test]
fn copy_data_then_read_strings_back() {
    let mut a = allocator(0x100, 0x200);
    let ms = user_space(&mut a);
    let mut mem = PhysMem { base: 0x100 * PAGE_SIZE, bytes: vec![0xee; 0x100 * PAGE_SIZE] };
    let mut data = b"hello\0".to_vec();
    data.resize(PAGE_SIZE - 2, b'a');
    data.extend_from_slice(b"xyz\0");
    ms.areas[1].copy_data(&ms.page_table, &mut mem, &data);
    assert_eq!(translated_str(&ms.page_table, &mem, 0x10 * PAGE_SIZE), b"hello".to_vec());
    // a string across the page boundary is read from both frames
    assert_eq!(translated_str(&ms.page_table, &mem, 0x10 * PAGE_SIZE + PAGE_SIZE - 3), b"axyz".to_vec());
    let p11 = ms.translate(0x11).unwrap().ppn();
    assert_eq!(mem.bytes[(p11 - 0x100) * PAGE_SIZE], b'z');
    assert_eq!(mem.bytes[(p11 - 0x100) * PAGE_SIZE + 1], 0);
    // bytes past the data keep what they held
    assert_eq!(mem.bytes[(p11 - 0x100) * PAGE_SIZE + 2], 0xee);
}

#[test]
fn copy_frame_copies_one_page() {
    let mut mem = PhysMem { base: 0x100 * PAGE_SIZE, bytes: vec![0; 4 * PAGE_SIZE] };
    for i in 0..PAGE_SIZE {
        mem.bytes[PAGE_SIZE + i] = (i % 251) as u8;
    }
    mem.copy_frame(0x101, 0x103);
    assert_eq!(mem.bytes[3 * PAGE_SIZE..], mem.bytes[PAGE_SIZE..2 * PAGE_SIZE].to_vec()[..]);
    assert!(mem.bytes[2 * PAGE_SIZE..3 * PAGE_SIZE].iter().all(|&b| b == 0));
}

#[test]
fn allocated_frames_are_cleared() {
    let mut a = allocator(0x100, 0x110);
    let mut mem = PhysMem { base: 0x100 * PAGE_SIZE, bytes: vec![0xee; 0x10 * PAGE_SIZE] };
    assert_eq!(frame_alloc(&mut a, &mut mem), Some(0x100));
    assert!(mem.bytes[..PAGE_SIZE].iter().all(|&b| b == 0));
    assert_eq!(mem.bytes[PAGE_SIZE], 0xee);
    assert_eq!(frame_alloc_more(&mut a, &mut mem, 3), Some(vec![0x103, 0x102, 0x101]));
    assert!(mem.bytes[PAGE_SIZE..4 * PAGE_SIZE].iter().all(|&b| b == 0));
    assert!(mem.bytes[4 * PAGE_SIZE..].iter().all(|&b| b == 0xee));
    assert_eq!(a.ref_count(0x102), 1);
    assert_eq!(frame_alloc_more(&mut a, &mut mem, 20), None);
    assert!(mem.bytes[4 * PAGE_SIZE..].iter().all(|&b| b == 0xee));
}

#[test]
fn cow_fork_copies_pages_without_user_access() {
    let mut a = allocator(0x100, 0x200);
    let mut mem = ram();
    let mut parent = user_space(&mut a);
    parent.insert_framed_area(0x20000, 0x21000, MapPermission { bits: FLAG_R | FLAG_W }, &mut a);
    let kframe = parent.translate(0x20).unwrap().ppn();
    mem.bytes[(kframe - 0x100) * PAGE_SIZE + 5] = 77;
    let (child, stats) = parent.from_existed_user_cow(0x3ff, &mut a, &mut mem);
    assert_eq!(stats.shared_pages, 4);
    assert_eq!(stats.copied_pages, 1);
    let cframe = child.translate(0x20).unwrap().ppn();
    assert_ne!(cframe, kframe);
    let (k0, c0) = ((kframe - 0x100) * PAGE_SIZE, (cframe - 0x100) * PAGE_SIZE);
    assert_eq!(mem.bytes[c0 + 5], 77);
    assert_eq!(mem.bytes[c0..c0 + PAGE_SIZE], mem.bytes[k0..k0 + PAGE_SIZE].to_vec()[..]);
}

#[test]
fn frame_is_recycled_only_when_its_last_owner_lets_go() {
    let mut a = allocator(0x100, 0x200);
    let before = a.allocated_count();
    let ppn = a.alloc_one().unwrap();
    a.add_ref(ppn);
    a.dealloc(ppn);
    assert_eq!(a.ref_count(ppn), 1);
    assert_eq!(a.allocated_count(), before + 1);
    a.dealloc(ppn);
    assert_eq!(a.ref_count(ppn), 0);
    assert_eq!(a.allocated_count(), before);
    assert_eq!(a.alloc_one(), Some(ppn));
}
