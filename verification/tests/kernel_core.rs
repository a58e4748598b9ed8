use os4::address::{PhysPageNum, SimpleRange, VPNRange, VirtAddr, VirtPageNum};
use os4::frame_allocator::StackFrameAllocator;
use os4::memory_set::{MapArea, MapPermission, MapType, MemorySet, MAP_PERM_R, MAP_PERM_W};
use os4::page_table::{translated_byte_buffer, PTEFlags, PageTable, PTE_R, PTE_V, PTE_W};
use os4::phys_mem::PhysMem;
use os4::syscall::{
    exit_current_and_run_next, suspend_current_and_run_next, sys_get_time, sys_mmap, sys_munmap,
    sys_set_priority, sys_yield,
};
use os4::task::{TaskContext, TaskControlBlock, TaskManager, TaskStatus, TrapContext};
use os4::trap::{trap_dispatch, TrapAction, TrapCause};

fn fresh_mem() -> PhysMem {
    PhysMem::new(PhysPageNum(0x80200), PhysPageNum(0x80600))
}

fn fresh_task(mem: &mut PhysMem) -> TaskControlBlock {
    let ms = MemorySet::new_bare(mem);
    TaskControlBlock {
        task_status: TaskStatus::Running,
        task_cx: TaskContext::zero_init(),
        time: 0,
        syscall_times: vec![0; 500],
        memory_set: ms,
        trap_cx: TrapContext::app_init_context(0, 0, 0, 0, 0, 0),
        trap_cx_ppn: PhysPageNum(0),
        base_size: 0,
    }
}

fn manager_with_tasks(mem: &mut PhysMem, n: usize) -> TaskManager {
    let mut tasks = Vec::new();
    for _ in 0..n {
        tasks.push(fresh_task(mem));
    }
    TaskManager { num_app: n, tasks, current_task: 0 }
}

#[test]
fn address_floor_ceil_offset() {
    assert_eq!(VirtAddr(0).floor().0, 0);
    assert_eq!(VirtAddr(0).ceil().0, 0);
    assert_eq!(VirtAddr(1).ceil().0, 1);
    assert_eq!(VirtAddr(4096).floor().0, 1);
    assert_eq!(VirtAddr(4096).ceil().0, 1);
    assert_eq!(VirtAddr(4097).ceil().0, 2);
    assert_eq!(VirtAddr(0x12345).page_offset(), 0x345);
    assert!(VirtAddr(0x10000000).aligned());
    assert!(!VirtAddr(0x10000001).aligned());
}

#[test]
fn indexes_recompose() {
    // the three 9-bit groups of an aligned address's page number put it
    // back together
    for &v in &[0u64, 0x10000000, 0x7fff_f000, 0x12_3456_7000] {
        let idx = VirtAddr(v).floor().indexes();
        let back = (idx[0] << 18) | (idx[1] << 9) | idx[2];
        assert_eq!(back, v >> 12);
    }
}

#[test]
fn range_overlap() {
    let a = VPNRange::new(VirtPageNum(10), VirtPageNum(20));
    let b = VPNRange::new(VirtPageNum(19), VirtPageNum(25));
    let c = VPNRange::new(VirtPageNum(20), VirtPageNum(30));
    assert!(a.overlaps(b));
    assert!(b.overlaps(a));
    assert!(!a.overlaps(c));
    assert!(!c.overlaps(a));
    // an empty range shares no page, wherever it starts
    let e = VPNRange::new(VirtPageNum(15), VirtPageNum(15));
    assert!(!a.overlaps(e));
    assert!(!e.overlaps(a));
    assert!(!e.overlaps(e));
}

#[test]
fn zero_length_mmap_succeeds() {
    // a zero-length request shares no page with anything, even when its
    // start lies inside an existing area
    let mut mem = fresh_mem();
    let mut tm = manager_with_tasks(&mut mem, 1);
    assert_eq!(sys_mmap(&mut tm, &mut mem, 0x10000000, 8192, 0b011), 0);
    assert_eq!(sys_mmap(&mut tm, &mut mem, 0x10001000, 0, 0b011), 0);
    // the empty area is recorded and can be unmapped by its exact range
    assert_eq!(sys_munmap(&mut tm, &mut mem, 0x10001000, 0), 0);
    // the two-page area is still intact
    assert_eq!(sys_munmap(&mut tm, &mut mem, 0x10000000, 8192), 0);
}

#[test]
fn allocator_unique_and_recycle() {
    let mut fa = StackFrameAllocator::new();
    fa.init(PhysPageNum(100), PhysPageNum(104));
    let p0 = fa.alloc_frame().unwrap();
    let p1 = fa.alloc_frame().unwrap();
    let p2 = fa.alloc_frame().unwrap();
    assert_ne!(p0.0, p1.0);
    assert_ne!(p1.0, p2.0);
    assert_ne!(p0.0, p2.0);
    fa.dealloc(p1);
    let p3 = fa.alloc_frame().unwrap();
    assert_eq!(p3.0, p1.0);
    let p4 = fa.alloc_frame().unwrap();
    assert_ne!(p4.0, p3.0);
    // the window of four pages is exhausted now
    assert!(fa.alloc_frame().is_none());
}

#[test]
fn page_table_round_trip() {
    let mut mem = fresh_mem();
    let mut pt = PageTable::new(&mut mem);
    let vpn = VirtPageNum(0x10000);
    let ppn = PhysPageNum(0x80300);
    assert!(pt.translate(&mem, vpn).is_none());
    pt.map(&mut mem, vpn, ppn, PTEFlags::from_bits(PTE_R | PTE_W));
    let e = pt.translate(&mem, vpn).unwrap();
    assert!(e.is_valid());
    assert_eq!(e.ppn().0, ppn.0);
    assert!(e.readable());
    assert!(e.writable());
    assert_eq!(e.flags().bits & PTE_V, PTE_V);
    // another slot is untouched
    assert!(pt.translate(&mem, VirtPageNum(0x10001)).is_none() || {
        let o = pt.translate(&mem, VirtPageNum(0x10001)).unwrap();
        !o.is_valid()
    });
    pt.unmap(&mut mem, vpn);
    // the walk still reaches the slot, but no valid mapping remains
    let after = pt.translate(&mem, vpn);
    assert!(after.is_none() || !after.unwrap().is_valid());
}

#[test]
fn token_round_trip() {
    let mut mem = fresh_mem();
    let pt = PageTable::new(&mut mem);
    let tok = pt.token();
    assert_eq!(tok >> 60, 8);
    let view = PageTable::from_token(tok);
    let probe = VirtPageNum(0x4242);
    assert_eq!(
        view.translate(&mem, probe).map(|e| e.bits),
        pt.translate(&mem, probe).map(|e| e.bits)
    );
}

#[test]
fn mmap_overlap_rejected() {
    let mut mem = fresh_mem();
    let mut ms = MemorySet::new_bare(&mut mem);
    let r = ms.map_create(&mut mem, VirtAddr(0x10000000), 8192, MapPermission::from_bits(22));
    assert_eq!(r, 0);
    // the second call's range shares a page with the first: refused
    let r2 = ms.map_create(&mut mem, VirtAddr(0x10001000), 4096, MapPermission::from_bits(6));
    assert_eq!(r2, -1);
    // a disjoint range is fine
    let r3 = ms.map_create(&mut mem, VirtAddr(0x10002000), 4096, MapPermission::from_bits(6));
    assert_eq!(r3, 0);
}

#[test]
fn munmap_exact_range_only() {
    let mut mem = fresh_mem();
    let mut ms = MemorySet::new_bare(&mut mem);
    assert_eq!(ms.map_create(&mut mem, VirtAddr(0x10000000), 8192, MapPermission::from_bits(6)), 0);
    // a prefix of the area does not match
    assert_eq!(ms.munmap(&mut mem, VirtAddr(0x10000000), 4096), -1);
    // an unrelated range does not match
    assert_eq!(ms.munmap(&mut mem, VirtAddr(0x20000000), 8192), -1);
    // the exact range does
    assert_eq!(ms.munmap(&mut mem, VirtAddr(0x10000000), 8192), 0);
    // and afterwards the mapping is gone
    assert!(ms.translate(&mem, VirtPageNum(0x10000)).map_or(true, |e| !e.is_valid()));
    // so the same range can be mapped again
    assert_eq!(ms.map_create(&mut mem, VirtAddr(0x10000000), 8192, MapPermission::from_bits(6)), 0);
}

#[test]
fn copy_data_round_trip() {
    let mut mem = fresh_mem();
    let mut ms = MemorySet::new_bare(&mut mem);
    // an area built by push with data holds exactly those bytes
    let mut data = Vec::new();
    for i in 0..5000usize {
        data.push((i % 251) as u8);
    }
    let area = MapArea::new(
        VirtAddr(0x20000000),
        VirtAddr(0x20000000 + 8192),
        MapType::Framed,
        MapPermission::from_bits(6),
    );
    ms.push(&mut mem, area, Some(&data));
    let tok = ms.token(&mem);
    let pieces = translated_byte_buffer(&mem, tok, 0x20000000, 5000);
    let flat: Vec<u8> = pieces.into_iter().flatten().collect();
    assert_eq!(flat.len(), 5000);
    assert_eq!(flat, data);
    // the zero tail past the copied bytes
    let tail = translated_byte_buffer(&mem, tok, 0x20000000 + 5000, 100);
    let flat_tail: Vec<u8> = tail.into_iter().flatten().collect();
    assert!(flat_tail.iter().all(|&b| b == 0));
}

#[test]
fn scheduler_round_robin() {
    let mut mem = fresh_mem();
    let mut tm = manager_with_tasks(&mut mem, 3);
    tm.tasks[0].task_status = TaskStatus::Running;
    tm.tasks[1].task_status = TaskStatus::Ready;
    tm.tasks[2].task_status = TaskStatus::Ready;
    // three consecutive yields visit every task and come back
    let s1 = suspend_current_and_run_next(&mut tm, 10).unwrap();
    assert_eq!(s1, (0, 1));
    assert_eq!(tm.tasks[1].time, 10);
    let s2 = suspend_current_and_run_next(&mut tm, 20).unwrap();
    assert_eq!(s2, (1, 2));
    assert_eq!(tm.tasks[2].time, 20);
    let s3 = suspend_current_and_run_next(&mut tm, 30).unwrap();
    assert_eq!(s3, (2, 0));
    // the first-run stamp is kept on later schedules
    assert_eq!(tm.tasks[1].time, 10);
}

#[test]
fn scheduler_skips_exited() {
    let mut mem = fresh_mem();
    let mut tm = manager_with_tasks(&mut mem, 3);
    tm.tasks[0].task_status = TaskStatus::Running;
    tm.tasks[1].task_status = TaskStatus::Exited;
    tm.tasks[2].task_status = TaskStatus::Ready;
    let s = suspend_current_and_run_next(&mut tm, 5).unwrap();
    assert_eq!(s, (0, 2));
}

#[test]
fn all_tasks_completed() {
    let mut mem = fresh_mem();
    let mut tm = manager_with_tasks(&mut mem, 2);
    tm.tasks[1].task_status = TaskStatus::Exited;
    // the last live task exits: nothing is left to run
    let s = exit_current_and_run_next(&mut tm, 5);
    assert!(s.is_none());
    assert_eq!(tm.tasks[0].task_status, TaskStatus::Exited);
}

#[test]
fn illegal_instruction_exits_task() {
    // E5 path: the handler decision for a fault is to exit and schedule
    assert_eq!(trap_dispatch(TrapCause::IllegalInstruction), TrapAction::ExitAndSchedule);
    assert_eq!(trap_dispatch(TrapCause::StorePageFault), TrapAction::ExitAndSchedule);
    assert_eq!(trap_dispatch(TrapCause::UserEnvCall), TrapAction::Syscall);
    assert_eq!(trap_dispatch(TrapCause::SupervisorTimer), TrapAction::TickAndSchedule);
    assert_eq!(trap_dispatch(TrapCause::Unknown), TrapAction::Panic);
    let mut mem = fresh_mem();
    let mut tm = manager_with_tasks(&mut mem, 2);
    tm.tasks[1].task_status = TaskStatus::Ready;
    let s = exit_current_and_run_next(&mut tm, 7).unwrap();
    assert_eq!(s, (0, 1));
    assert_eq!(tm.tasks[0].task_status, TaskStatus::Exited);
    assert_eq!(tm.tasks[1].task_status, TaskStatus::Running);
}

#[test]
fn sys_mmap_checks() {
    let mut mem = fresh_mem();
    let mut tm = manager_with_tasks(&mut mem, 1);
    // E1: a read-write page maps fine and is visible afterwards
    assert_eq!(sys_mmap(&mut tm, &mut mem, 0x10000000, 4096, 0b011), 0);
    let pte = tm.tasks[0]
        .memory_set
        .translate(&mem, VirtPageNum(0x10000))
        .unwrap();
    assert!(pte.is_valid() && pte.readable() && pte.writable() && !pte.executable());
    // E2: a zero port, an unaligned start and a high bit are refused
    assert_eq!(sys_mmap(&mut tm, &mut mem, 0x20000000, 4096, 0), -1);
    assert_eq!(sys_mmap(&mut tm, &mut mem, 0x20000001, 4096, 0b011), -1);
    assert_eq!(sys_mmap(&mut tm, &mut mem, 0x20000000, 4096, 0b1000), -1);
    // E1 continued: unmapping the page removes the mapping
    assert_eq!(sys_munmap(&mut tm, &mut mem, 0x10000000, 4096), 0);
    let gone = tm.tasks[0].memory_set.translate(&mem, VirtPageNum(0x10000));
    assert!(gone.map_or(true, |e| !e.is_valid()));
    // unaligned munmap is refused
    assert_eq!(sys_munmap(&mut tm, &mut mem, 0x10000001, 4096), -1);
}

#[test]
fn sys_mmap_adjacent_overlap() {
    // E6: an 8 KiB area followed by a map of its second page collides
    let mut mem = fresh_mem();
    let mut tm = manager_with_tasks(&mut mem, 1);
    assert_eq!(sys_mmap(&mut tm, &mut mem, 0x10000000, 8192, 0b010), 0);
    assert_eq!(sys_mmap(&mut tm, &mut mem, 0x10001000, 4096, 0b010), -1);
}

#[test]
fn sys_get_time_monotonic() {
    // E3: repeated reads of the clock never go backwards
    let mut mem = fresh_mem();
    let mut tm = manager_with_tasks(&mut mem, 1);
    assert_eq!(sys_mmap(&mut tm, &mut mem, 0x10000000, 4096, 0b011), 0);
    let mut last = 0u64;
    for &now in &[5u64, 1_000_001, 2_500_000, 2_500_000, 9_999_999] {
        let (r, out) = sys_get_time(&tm, &mem, VirtAddr(0x10000010), now);
        assert_eq!(r, 0);
        let (_pa, tv) = out.unwrap();
        let total = tv.sec * 1_000_000 + tv.usec;
        assert_eq!(total, now);
        assert!(total >= last);
        last = total;
    }
    // an unmapped pointer is refused
    let (r, out) = sys_get_time(&tm, &mem, VirtAddr(0x30000000), 1);
    assert_eq!(r, -1);
    assert!(out.is_none());
}

#[test]
fn sys_yield_returns_zero() {
    let mut mem = fresh_mem();
    let mut tm = manager_with_tasks(&mut mem, 2);
    tm.tasks[1].task_status = TaskStatus::Ready;
    let (r, sw) = sys_yield(&mut tm, 42);
    assert_eq!(r, 0);
    assert_eq!(sw.unwrap(), (0, 1));
    assert_eq!(tm.tasks[1].time, 42);
    assert_eq!(sys_set_priority(5), -1);
}

#[test]
fn bad_elf_rejected() {
    let mut mem = fresh_mem();
    let junk = vec![0u8; 64];
    assert!(MemorySet::from_elf(&mut mem, &junk, PhysPageNum(0x80580)).is_none());
    assert!(os4::elf::parse_elf(&junk).is_none());
}

#[test]
fn kernel_space_remap() {
    let mut mem = fresh_mem();
    // identity sections, page-ordered: text RX, rodata R, data RW
    let sections = vec![
        (0x80200000u64, 0x80204000u64, 10u8),
        (0x80204000u64, 0x80206000u64, 2u8),
        (0x80206000u64, 0x80208000u64, 6u8),
    ];
    let ks = MemorySet::new_kernel(&mut mem, &sections, PhysPageNum(0x80200)).unwrap();
    assert!(ks.remap_test(
        &mem,
        VirtAddr(0x80202000),
        VirtAddr(0x80205000),
        VirtAddr(0x80207000)
    ));
}

fn push_u16(v: &mut Vec<u8>, x: u16) {
    v.extend_from_slice(&x.to_le_bytes());
}

fn push_u32(v: &mut Vec<u8>, x: u32) {
    v.extend_from_slice(&x.to_le_bytes());
}

fn push_u64(v: &mut Vec<u8>, x: u64) {
    v.extend_from_slice(&x.to_le_bytes());
}

/// A minimal 64-bit little-endian ELF with one LOAD segment of 8 file
/// bytes at virtual address 0x10000, entry point 0x10000.
fn tiny_elf(payload: &[u8]) -> Vec<u8> {
    let mut v = Vec::new();
    v.extend_from_slice(&[0x7f, b'E', b'L', b'F', 2, 1, 1, 0, 0, 0, 0, 0, 0, 0, 0, 0]);
    push_u16(&mut v, 2); // executable
    push_u16(&mut v, 0xf3); // RISC-V
    push_u32(&mut v, 1);
    push_u64(&mut v, 0x10000); // entry
    push_u64(&mut v, 64); // program header table offset
    push_u64(&mut v, 0); // no section headers
    push_u32(&mut v, 0);
    push_u16(&mut v, 64); // header size
    push_u16(&mut v, 56); // ph entry size
    push_u16(&mut v, 1); // ph count
    push_u16(&mut v, 0);
    push_u16(&mut v, 0);
    push_u16(&mut v, 0);
    // one LOAD header
    push_u32(&mut v, 1); // PT_LOAD
    push_u32(&mut v, 6); // R W
    push_u64(&mut v, 120); // file offset of the payload
    push_u64(&mut v, 0x10000); // vaddr
    push_u64(&mut v, 0x10000); // paddr
    push_u64(&mut v, payload.len() as u64); // file size
    push_u64(&mut v, 16); // mem size
    push_u64(&mut v, 0x1000); // align
    v.extend_from_slice(payload);
    v
}

#[test]
fn elf_load_and_read_back() {
    let payload = [11u8, 22, 33, 44, 55, 66, 77, 88];
    let bytes = tiny_elf(&payload);
    let img = os4::elf::parse_elf(&bytes).expect("parse");
    assert_eq!(img.entry, 0x10000);
    assert_eq!(img.segments.len(), 1);
    assert_eq!(img.segments[0].start_va, 0x10000);
    assert_eq!(img.segments[0].mem_size, 16);
    assert!(img.segments[0].readable && img.segments[0].writable);
    assert!(!img.segments[0].executable);
    assert_eq!(img.segments[0].data, payload);

    let mut mem = fresh_mem();
    let (ms, user_sp, entry) =
        MemorySet::from_elf(&mut mem, &bytes, PhysPageNum(0x80580)).expect("load");
    assert_eq!(entry, 0x10000);
    assert!(user_sp > 0x11000);
    // the segment's bytes are visible through the address space
    let tok = ms.token(&mem);
    let pieces = translated_byte_buffer(&mem, tok, 0x10000, 8);
    let flat: Vec<u8> = pieces.into_iter().flatten().collect();
    assert_eq!(flat, payload);
    // the rest of the page is zero-filled
    let tail = translated_byte_buffer(&mem, tok, 0x10008, 24);
    assert!(tail.into_iter().flatten().all(|b| b == 0));
}

#[test]
fn task_from_elf() {
    let payload = [1u8, 2, 3, 4];
    let bytes = tiny_elf(&payload);
    let mut mem = fresh_mem();
    let t = TaskControlBlock::new(&mut mem, &bytes, 0xffff_ffff_f000, 0x8000_0000_0008_0200, 0, 0, 0, PhysPageNum(0x80580))
        .expect("task");
    assert_eq!(t.task_status, TaskStatus::Ready);
    assert_eq!(t.time, 0);
    assert_eq!(t.trap_cx.sepc, 0x10000);
    assert_eq!(t.trap_cx.x[2], t.base_size);
    assert_eq!(t.syscall_times.len(), 500);
}

#[test]
fn range_iterator_walks_all() {
    let r = SimpleRange::new(VirtPageNum(5), VirtPageNum(8));
    let mut it = r.iter();
    assert_eq!(it.next(), Some(VirtPageNum(5)));
    assert_eq!(it.next(), Some(VirtPageNum(6)));
    assert_eq!(it.next(), Some(VirtPageNum(7)));
    assert_eq!(it.next(), None);
    assert_eq!(r.get_start().0, 5);
    assert_eq!(r.get_end().0, 8);
}

#[test]
fn stale_pointer_rejected_after_munmap() {
    // the paging nodes persist after an unmap, but a pointer into the
    // unmapped page must no longer translate
    let mut mem = fresh_mem();
    let mut tm = manager_with_tasks(&mut mem, 1);
    assert_eq!(sys_mmap(&mut tm, &mut mem, 0x10000000, 4096, 0b011), 0);
    let (r, out) = sys_get_time(&tm, &mem, VirtAddr(0x10000008), 77);
    assert_eq!(r, 0);
    assert!(out.is_some());
    assert_eq!(sys_munmap(&mut tm, &mut mem, 0x10000000, 4096), 0);
    let (r, out) = sys_get_time(&tm, &mem, VirtAddr(0x10000008), 99);
    assert_eq!(r, -1);
    assert!(out.is_none());
}

#[test]
fn mmap_over_fixed_page_rejected() {
    // a range that reaches a page mapped outside the areas (here the
    // trampoline) is refused rather than mapped twice
    let mut mem = fresh_mem();
    let mut ms = MemorySet::new_bare(&mut mem);
    ms.map_trampoline(&mut mem, PhysPageNum(0x80240));
    let r = ms.map_create(
        &mut mem,
        VirtAddr(0x7FF_FFFF * 4096),
        4096,
        MapPermission::from_bits(6),
    );
    assert_eq!(r, -1);
    // out-of-range arguments are refused, not a panic
    let mut tm = manager_with_tasks(&mut mem, 1);
    assert_eq!(sys_mmap(&mut tm, &mut mem, 0xFFFF_FFFF_FFFF_F000, 8192, 0b011), -1);
    assert_eq!(sys_munmap(&mut tm, &mut mem, 0xFFFF_FFFF_FFFF_F000, 8192), -1);
}
