use rcore_os::frame_allocator::{StackFrameAllocator, PAGE_SIZE};
use rcore_os::memory_set::MemorySet;
use rcore_os::phys_mem::PhysMem;
use rcore_os::mmap::{sys_mmap, sys_munmap, MMAP_BASE, PROT_EXEC, PROT_READ, PROT_WRITE};
use rcore_os::page_table::{FLAG_R, FLAG_U, FLAG_W, FLAG_X};

fn space() -> (MemorySet, StackFrameAllocator) {
    let mut a = StackFrameAllocator::new();
    a.init(0x100, 0x200);
    let mut ms = MemorySet::new_bare(&mut a);
    ms.map_trampoline(0x3ff, &mut a);
    (ms, a)
}

#[test]
fn mmap_test() {
    let (mut ms, mut a) = space();
    let rw = PROT_READ | PROT_WRITE;
    assert_eq!(sys_mmap(&mut ms, 0, 2 * PAGE_SIZE, rw, &mut a), 0x2000_0000);
    let e = ms.translate(0x2_0001).unwrap();
    assert!(e.is_valid() && e.writable() && e.user_accessible());
    // overlap with the first mapping is refused
    assert_eq!(sys_mmap(&mut ms, MMAP_BASE + PAGE_SIZE, PAGE_SIZE, rw, &mut a), -1);
    // only an exact match is unmapped
    assert_eq!(sys_munmap(&mut ms, MMAP_BASE, PAGE_SIZE, &mut a), -1);
    assert_eq!(ms.areas.len(), 1);
    assert_eq!(sys_munmap(&mut ms, MMAP_BASE, 2 * PAGE_SIZE, &mut a), 0);
    assert_eq!(ms.areas.len(), 0);
    assert!(!ms.translate(0x2_0000).unwrap().is_valid());
    // the address is free again
    assert_eq!(sys_mmap(&mut ms, 0, PAGE_SIZE, rw, &mut a), 0x2000_0000);
}

#[test]
fn mmap_picks_the_lowest_free_place() {
    let (mut ms, mut a) = space();
    assert_eq!(sys_mmap(&mut ms, MMAP_BASE + PAGE_SIZE, PAGE_SIZE, PROT_READ, &mut a), 0x2000_1000);
    // one page fits below it, two pages do not
    assert_eq!(sys_mmap(&mut ms, 0, 2 * PAGE_SIZE, PROT_READ, &mut a), 0x2000_2000);
    assert_eq!(sys_mmap(&mut ms, 0, 1, PROT_READ, &mut a), 0x2000_0000);
}

#[test]
fn mmap_rights_and_rounding() {
    let (mut ms, mut a) = space();
    assert_eq!(sys_mmap(&mut ms, 0, PAGE_SIZE + 1, PROT_WRITE | PROT_EXEC, &mut a), 0x2000_0000);
    let last = ms.areas.len() - 1;
    assert_eq!((ms.areas[last].start_vpn, ms.areas[last].end_vpn), (0x2_0000, 0x2_0002));
    // write implies read
    assert_eq!(ms.areas[last].map_perm.bits, FLAG_U | FLAG_R | FLAG_W | FLAG_X);
}

#[test]
fn mmap_refuses_bad_requests() {
    let (mut ms, mut a) = space();
    assert_eq!(sys_mmap(&mut ms, 0, 0, PROT_READ, &mut a), -1);
    assert_eq!(sys_mmap(&mut ms, 0, PAGE_SIZE, 0, &mut a), -1);
    assert_eq!(sys_mmap(&mut ms, MMAP_BASE + 8, PAGE_SIZE, PROT_READ, &mut a), -1);
    assert_eq!(sys_mmap(&mut ms, 0x1000, PAGE_SIZE, PROT_READ, &mut a), -1);
    assert_eq!(sys_mmap(&mut ms, 0x3000_0000, PAGE_SIZE, PROT_READ, &mut a), -1);
    assert!(ms.areas.is_empty());
    assert_eq!(sys_munmap(&mut ms, MMAP_BASE, PAGE_SIZE, &mut a), -1);
}

#[test]
fn mmap_refuses_when_frames_are_short() {
    let mut a = StackFrameAllocator::new();
    a.init(0x100, 0x108);
    let mut ms = MemorySet::new_bare(&mut a);
    ms.map_trampoline(0x3ff, &mut a);
    let free = a.free_count();
    assert!(free < 3 * 4);
    assert_eq!(sys_mmap(&mut ms, 0, 4 * PAGE_SIZE, PROT_READ, &mut a), -1);
    assert_eq!(a.free_count(), free);
}

#[test]
fn mmap_cow_test() {
    let (mut parent, mut a) = space();
    let rw = PROT_READ | PROT_WRITE;
    assert_eq!(sys_mmap(&mut parent, 0, 2 * PAGE_SIZE, rw, &mut a), 0x2000_0000);
    let frame = parent.translate(0x2_0000).unwrap().ppn();
    let mut mem = PhysMem { base: 0x100 * PAGE_SIZE, bytes: vec![0; 0x100 * PAGE_SIZE] };
    let (mut child, stats) = parent.from_existed_user_cow(0x3ff, &mut a, &mut mem);
    assert_eq!(stats.shared_pages, 2);
    // both sides share the mapped pages copy-on-write
    assert_eq!(child.translate(0x2_0000).unwrap().ppn(), frame);
    assert!(child.translate(0x2_0000).unwrap().is_cow());
    assert!(parent.translate(0x2_0000).unwrap().is_cow());
    // the child's write gives it a private page; the parent keeps the frame
    assert!(child.handle_cow_fault(MMAP_BASE + 16, &mut a, &mut mem));
    assert_ne!(child.translate(0x2_0000).unwrap().ppn(), frame);
    assert_eq!(parent.translate(0x2_0000).unwrap().ppn(), frame);
    // each side unmaps its own mapping
    assert_eq!(sys_munmap(&mut child, MMAP_BASE, 2 * PAGE_SIZE, &mut a), 0);
    assert_eq!(sys_munmap(&mut parent, MMAP_BASE, 2 * PAGE_SIZE, &mut a), 0);
    assert_eq!(a.ref_count(frame), 0);
}

#[test]
fn munmap_then_mmap_at_the_same_address() {
    let (mut ms, mut a) = space();
    let rw = PROT_READ | PROT_WRITE;
    let before = ms.areas.len();
    let addr = sys_mmap(&mut ms, 0, 2 * PAGE_SIZE, rw, &mut a);
    assert!(addr > 0);
    let addr = addr as usize;
    assert_eq!(sys_munmap(&mut ms, addr, PAGE_SIZE, &mut a), -1);
    assert!(ms.translate(addr / PAGE_SIZE + 1).unwrap().is_valid());
    assert_eq!(sys_munmap(&mut ms, addr, 2 * PAGE_SIZE, &mut a), 0);
    assert_eq!(ms.areas.len(), before);
    assert!(!ms.translate(addr / PAGE_SIZE).unwrap().is_valid());
    assert_eq!(sys_mmap(&mut ms, addr, 2 * PAGE_SIZE, rw, &mut a), addr as isize);
}
