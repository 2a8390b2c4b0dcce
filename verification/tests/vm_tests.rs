use vmcore::frame_allocator::FrameAllocator;
use vmcore::memory_set::{KernelLayout, MemorySet};
use vmcore::task::{TaskControlBlock, TaskManager};

const PAGE_SIZE: usize = 4096;

fn fresh_space() -> (MemorySet, FrameAllocator) {
    let mut fa = FrameAllocator::new();
    let ms = MemorySet::new_bare(&mut fa);
    (ms, fa)
}

#[test]
fn mmap_maps_with_requested_permissions() {
    let (mut ms, mut fa) = fresh_space();
    let r = ms.mmap(0x20000, 0x3000, 0b011, &mut fa);
    assert_eq!(r, Ok(0x3000));
    let pte = ms.translate(0x20000 >> 12).unwrap();
    assert!(pte.is_valid());
    assert!(pte.readable());
    assert!(pte.writable());
    assert!(!pte.executable());
    assert!(pte.user_accessible());
    // one page past the mapping is unmapped
    assert!(ms.translate(0x23000 >> 12).is_none());
}

#[test]
fn mmap_rejects_overlap_and_leaves_space_alone() {
    let (mut ms, mut fa) = fresh_space();
    assert_eq!(ms.mmap(0x20000, 0x3000, 0b011, &mut fa), Ok(0x3000));
    let count_before = fa.allocated_count();
    assert_eq!(ms.mmap(0x21000, 0x1000, 0b001, &mut fa), Err(-1));
    assert_eq!(fa.allocated_count(), count_before);
    assert!(ms.translate(0x21000 >> 12).unwrap().is_valid());
}

#[test]
fn mmap_rejects_bad_port_len_alignment() {
    let (mut ms, mut fa) = fresh_space();
    assert_eq!(ms.mmap(0x20000, 0x1000, 0b1000, &mut fa), Err(-1));
    assert_eq!(ms.mmap(0x20000, 0x1000, 0, &mut fa), Err(-1));
    assert_eq!(ms.mmap(0x20000, (1 << 30) + 1, 0b011, &mut fa), Err(-1));
    assert_eq!(ms.mmap(0x20001, 0x1000, 0b011, &mut fa), Err(-1));
    assert!(ms.translate(0x20000 >> 12).is_none());
}

#[test]
fn zero_length_requests_succeed_vacuously() {
    let (mut ms, mut fa) = fresh_space();
    // an aligned zero-length map succeeds without recording an area
    assert_eq!(ms.mmap(0x20000, 0, 0b011, &mut fa), Ok(0));
    assert!(ms.translate(0x20).is_none());
    assert_eq!(fa.allocated_count(), 1); // only the page-table root
    // zero-length requests succeed and touch nothing, even inside an area
    assert_eq!(ms.mmap(0x20000, 0x2000, 0b011, &mut fa), Ok(0x2000));
    assert_eq!(ms.mmap(0x21000, 0, 0b011, &mut fa), Ok(0));
    assert_eq!(ms.munmap(0x21000, 0, &mut fa), Ok(0));
    assert!(ms.translate(0x21).unwrap().is_valid());
    // the empty MMIO window likewise
    assert_eq!(ms.mmio_map(0x30000, 0x30000, 0b011, &mut fa), Ok(0));
    assert!(ms.translate(0x30).is_none());
    assert_eq!(ms.mmio_unmap(0x30000, 0x30000, &mut fa), Ok(0));
    // unaligned zero-length requests are still refused
    assert_eq!(ms.mmap(0x20001, 0, 0b011, &mut fa), Err(-1));
    assert_eq!(ms.munmap(0x20001, 0, &mut fa), Err(-1));
}

#[test]
fn munmap_rejects_partial_coverage() {
    let (mut ms, mut fa) = fresh_space();
    assert_eq!(ms.mmap(0x20000, 0x3000, 0b011, &mut fa), Ok(0x3000));
    assert_eq!(ms.munmap(0x20000, 0x2000, &mut fa), Err(-1));
    assert!(ms.translate(0x20000 >> 12).unwrap().is_valid());
    assert_eq!(ms.munmap(0x20000, 0x3000, &mut fa), Ok(0x3000));
    assert!(ms.translate(0x20000 >> 12).is_none());
}

#[test]
fn mmap_munmap_round_trip_restores_space_and_pool() {
    let (mut ms, mut fa) = fresh_space();
    assert_eq!(ms.mmap(0x40000, 0x2000, 0b111, &mut fa), Ok(0x2000));
    let baseline = fa.allocated_count();
    let t0 = ms.translate(0x40);
    assert_eq!(ms.mmap(0x50000, 0x1800, 0b011, &mut fa), Ok(0x2000));
    assert_eq!(ms.munmap(0x50000, 0x2000, &mut fa), Ok(0x2000));
    assert_eq!(fa.allocated_count(), baseline);
    assert_eq!(ms.translate(0x40).unwrap().ppn(), t0.unwrap().ppn());
    assert!(ms.translate(0x50).is_none());
    assert!(ms.translate(0x51).is_none());
}

#[test]
fn touching_mmaps_unmapped_by_one_call() {
    let (mut ms, mut fa) = fresh_space();
    let baseline = fa.allocated_count();
    assert_eq!(ms.mmap(0x20000, 0x2000, 0b011, &mut fa), Ok(0x2000));
    assert_eq!(ms.mmap(0x22000, 0x1000, 0b001, &mut fa), Ok(0x1000));
    assert_eq!(ms.munmap(0x20000, 0x3000, &mut fa), Ok(0x3000));
    assert_eq!(fa.allocated_count(), baseline);
    assert!(ms.translate(0x20).is_none());
    assert!(ms.translate(0x22).is_none());
}

#[test]
fn recycle_returns_frames_to_baseline() {
    let (mut ms, mut fa) = fresh_space();
    let baseline = fa.allocated_count();
    assert_eq!(ms.mmap(0x20000, 0x4000, 0b011, &mut fa), Ok(0x4000));
    assert!(fa.allocated_count() > baseline);
    ms.recycle_data_pages(&mut fa);
    assert_eq!(fa.allocated_count(), baseline);
    // the page table is retained: the stale entry still translates
    assert!(ms.translate(0x20).is_some());
}

fn test_layout() -> KernelLayout {
    KernelLayout {
        stext: 0x8020_0000,
        etext: 0x8020_4000,
        srodata: 0x8020_4000,
        erodata: 0x8020_6000,
        sdata: 0x8020_6000,
        edata: 0x8020_8000,
        sbss_with_stack: 0x8020_8000,
        ebss: 0x8020_a000,
        ekernel: 0x8020_a000,
        strampoline: 0x8020_0000,
        uart_start: 0x1000_0000,
        uart_end: 0x1000_0300,
    }
}

#[test]
fn kernel_sections_have_expected_permissions() {
    let mut fa = FrameAllocator::new();
    let layout = test_layout();
    let ms = MemorySet::new_kernel(&layout, &mut fa);
    let mid_text = (layout.stext + layout.etext) / 2;
    let mid_rodata = (layout.srodata + layout.erodata) / 2;
    let mid_data = (layout.sdata + layout.edata) / 2;
    let t = ms.translate(mid_text / PAGE_SIZE).unwrap();
    assert!(t.is_valid() && t.executable() && !t.writable());
    let r = ms.translate(mid_rodata / PAGE_SIZE).unwrap();
    assert!(r.is_valid() && r.readable() && !r.writable());
    let d = ms.translate(mid_data / PAGE_SIZE).unwrap();
    assert!(d.is_valid() && d.writable() && !d.executable());
    // identity policy: the midpoint of .text maps onto its own page
    assert_eq!(t.ppn(), mid_text / PAGE_SIZE);
    // the UART window end is unaligned and rounded up to a whole page
    let u = ms.translate(0x1000_0000 / PAGE_SIZE).unwrap();
    assert!(u.is_valid() && u.readable() && u.writable());
    assert_eq!(u.ppn(), 0x1000_0000 / PAGE_SIZE);
}

#[test]
fn mmio_map_rejects_plic_overlap_and_accepts_free_window() {
    let mut fa = FrameAllocator::new();
    let layout = test_layout();
    let mut ms = MemorySet::new_kernel(&layout, &mut fa);
    assert_eq!(ms.mmio_map(0x0c00_0000, 0x0c00_1000, 0b011, &mut fa), Err(-1));
    assert_eq!(ms.mmio_map(0x2000_0000, 0x2000_1000, 0b011, &mut fa), Ok(0x1000));
    let pte = ms.translate(0x2000_0000 / PAGE_SIZE).unwrap();
    assert_eq!(pte.ppn(), 0x2000_0000 / PAGE_SIZE);
    assert_eq!(ms.mmio_unmap(0x2000_0000, 0x2000_1000, &mut fa), Ok(0x1000));
    assert!(ms.translate(0x2000_0000 / PAGE_SIZE).is_none());
}

#[test]
fn clone_duplicates_frames_and_bytes() {
    let (mut ms, mut fa) = fresh_space();
    assert_eq!(ms.mmap(0x30000, 0x1000, 0b011, &mut fa), Ok(0x1000));
    let src_ppn = ms.translate(0x30).unwrap().ppn();
    // put 0xAB at offset 7 of the page
    let bytes = [0u8, 0, 0, 0, 0, 0, 0, 0xab];
    fa.fill_page(src_ppn, &bytes, 0, 8);
    assert_eq!(fa.read_byte(src_ppn, 7), 0xab);
    let clone = MemorySet::from_existed_user(&ms, &mut fa);
    let dst_ppn = clone.translate(0x30).unwrap().ppn();
    assert_ne!(dst_ppn, src_ppn);
    assert_eq!(fa.read_byte(dst_ppn, 7), 0xab);
    // mutating the clone leaves the original alone
    let newbytes = [1u8, 1, 1, 1, 1, 1, 1, 0x5c];
    fa.fill_page(dst_ppn, &newbytes, 0, 8);
    assert_eq!(fa.read_byte(dst_ppn, 7), 0x5c);
    assert_eq!(fa.read_byte(src_ppn, 7), 0xab);
}

fn minimal_elf() -> Vec<u8> {
    let file_base = 120usize;
    let file_size = 0x1500usize;
    let mut image = vec![0u8; file_base + file_size];
    image[0] = 0x7f;
    image[1] = 0x45;
    image[2] = 0x4c;
    image[3] = 0x46;
    // entry point 0x10000
    image[24] = 0;
    image[25] = 0;
    image[26] = 1;
    // program header table right after the 64-byte header
    image[32] = 64;
    // e_phentsize = 56, e_phnum = 1
    image[54] = 56;
    image[56] = 1;
    // one LOAD segment: type 1, flags RX (R=4 | X=1)
    image[64] = 1;
    image[68] = 5;
    image[72] = file_base as u8; // file offset 120
    image[80] = 0;
    image[81] = 0;
    image[82] = 1; // vaddr 0x10000
    image[96] = 0;
    image[97] = 0x15; // filesz 0x1500
    image[104] = 0;
    image[105] = 0x20; // memsz 0x2000
    image[file_base] = 0x73; // first code byte
    image
}

#[test]
fn from_elf_builds_code_stack_and_trap_areas() {
    let mut fa = FrameAllocator::new();
    let image = minimal_elf();
    let tramp_ppn = 0x80200;
    let (ms, user_sp, entry) = MemorySet::from_elf(&image, tramp_ppn, &mut fa);
    assert_eq!(entry, 0x10000);
    // max end page is ceil(0x12000), then a guard page, then the stack
    let user_stack_size = 8192;
    assert_eq!(user_sp, 0x12000 + PAGE_SIZE + user_stack_size);
    // code area mapped with X but not W, user-accessible
    let code = ms.translate(0x10).unwrap();
    assert!(code.is_valid() && code.executable() && !code.writable() && code.user_accessible());
    // code page holds the file's first byte
    assert_eq!(fa.read_byte(code.ppn(), 0), 0x73);
    // a byte past file size but inside mem size reads zero
    let tail = ms.translate(0x11).unwrap();
    assert_eq!(fa.read_byte(tail.ppn(), 0x600), 0);
    // stack page mapped writable
    let stack = ms.translate((user_sp - 8) / PAGE_SIZE).unwrap();
    assert!(stack.is_valid() && stack.writable() && stack.user_accessible());
    // guard page between code and stack is unmapped
    assert!(ms.translate(0x12).is_none());
    // trampoline installed at the top page
    assert_eq!(ms.translate(usize::MAX / PAGE_SIZE).unwrap().ppn(), tramp_ppn);
}

fn elf_with_empty_load() -> Vec<u8> {
    let file_base = 176usize;
    let file_size = 0x1500usize;
    let mut image = vec![0u8; file_base + file_size];
    image[0] = 0x7f;
    image[1] = 0x45;
    image[2] = 0x4c;
    image[3] = 0x46;
    image[26] = 1; // entry 0x10000
    image[32] = 64; // table after the header
    image[54] = 56;
    image[56] = 2; // two headers
    // first: a LOAD of memory size zero, to be skipped
    image[64] = 1;
    image[68] = 5;
    image[82] = 5; // vaddr 0x50000, no constraints apply
    // second: the real RX segment at 0x10000
    image[120] = 1;
    image[124] = 5;
    image[128] = file_base as u8;
    image[138] = 1; // vaddr 0x10000
    image[153] = 0x15; // filesz 0x1500
    image[161] = 0x20; // memsz 0x2000
    image[file_base] = 0x9a;
    image
}

#[test]
fn from_elf_skips_zero_size_load_segments() {
    let mut fa = FrameAllocator::new();
    let image = elf_with_empty_load();
    let (ms, user_sp, entry) = MemorySet::from_elf(&image, 0x80200, &mut fa);
    assert_eq!(entry, 0x10000);
    assert_eq!(user_sp, 0x12000 + PAGE_SIZE + 8192);
    // the empty segment left no mapping behind
    assert!(ms.translate(0x50).is_none());
    let code = ms.translate(0x10).unwrap();
    assert!(code.is_valid() && code.executable());
    assert_eq!(fa.read_byte(code.ppn(), 0), 0x9a);
}

#[test]
fn insert_and_remove_area_by_start() {
    let (mut ms, mut fa) = fresh_space();
    assert_eq!(ms.mmap(0x60000, 0x1000, 0b011, &mut fa), Ok(0x1000));
    ms.remove_area_with_start_vpn(0x60, &mut fa);
    assert!(ms.translate(0x60).is_none());
    // a miss changes nothing
    ms.remove_area_with_start_vpn(0x999, &mut fa);
}

#[test]
fn task_manager_is_fifo_and_removes_first_match() {
    let mut tm = TaskManager::new();
    assert_eq!(tm.fetch(), None);
    tm.add(TaskControlBlock { pid: 1 });
    tm.add(TaskControlBlock { pid: 2 });
    tm.add(TaskControlBlock { pid: 3 });
    tm.remove(&TaskControlBlock { pid: 2 });
    assert_eq!(tm.fetch(), Some(TaskControlBlock { pid: 1 }));
    assert_eq!(tm.fetch(), Some(TaskControlBlock { pid: 3 }));
    assert_eq!(tm.fetch(), None);
}

#[test]
fn frame_pool_allocates_zeroed_distinct_frames() {
    let mut fa = FrameAllocator::new();
    let a = fa.frame_alloc();
    let b = fa.frame_alloc();
    assert_ne!(a, b);
    assert_eq!(fa.read_byte(a, 0), 0);
    assert_eq!(fa.read_byte(a, 4095), 0);
    assert_eq!(fa.allocated_count(), 2);
    fa.frame_dealloc(a);
    assert_eq!(fa.allocated_count(), 1);
}
