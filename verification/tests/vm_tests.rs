use kernel_vm::addr_space::AddressSpace;
use kernel_vm::frame::FrameAllocator;
use kernel_vm::page_table::PageTable;
use kernel_vm::phys::PhysMem;
use kernel_vm::syscall::{sys_get_time, sys_mmap, sys_munmap, sys_sbrk, sys_task_info, sys_yield};
use kernel_vm::syscall::{TaskStatus, TimeVal};
use kernel_vm::translator::translated_byte_buffer;
use kernel_vm::MemError;
use kernel_vm::{MAX_SYSCALL_NUM, PAGE_SIZE};

fn setup(frames: usize) -> (AddressSpace, FrameAllocator, PhysMem) {
    let space = AddressSpace::new(0x10_0000);
    let fa = FrameAllocator::new(0, frames);
    let phys = PhysMem::new(frames);
    (space, fa, phys)
}

fn read_user_byte(space: &AddressSpace, phys: &PhysMem, va: usize) -> u8 {
    let pte = space.pt.translate(va / PAGE_SIZE).expect("page must be mapped");
    phys.read_byte(pte.ppn * PAGE_SIZE + va % PAGE_SIZE)
}

#[test]
fn yield_returns_zero() {
    assert_eq!(sys_yield(), 0);
}

#[test]
fn mmap_munmap_round_trip() {
    let (mut space, mut fa, _phys) = setup(16);
    assert_eq!(sys_mmap(&mut space, &mut fa, 0x1000, 4096, 0b011), 0);
    assert!(space.pt.translate(1).is_some());
    assert_eq!(sys_munmap(&mut space, &mut fa, 0x1000, 4096), 0);
    assert!(space.pt.translate(1).is_none());
    assert_eq!(sys_munmap(&mut space, &mut fa, 0x1000, 4096), -1);
}

#[test]
fn mmap_misaligned_consumes_no_frame() {
    let (mut space, mut fa, _phys) = setup(8);
    assert_eq!(sys_mmap(&mut space, &mut fa, 0x1001, 4096, 0b001), -1);
    assert!(fa.has_at_least(8));
    assert_eq!(space.mmap(&mut fa, 0x1001, 4096, 1), Err(MemError::Unaligned));
}

#[test]
fn mmap_bad_port_always_fails() {
    let (mut space, mut fa, _phys) = setup(8);
    assert_eq!(space.mmap(&mut fa, 0x1000, 4096, 0), Err(MemError::EmptyPermission));
    assert_eq!(space.mmap(&mut fa, 0x1000, 4096, 8), Err(MemError::InvalidPermission));
    assert_eq!(space.mmap(&mut fa, 0x1000, 4096, 0xff), Err(MemError::InvalidPermission));
    assert!(space.pt.translate(1).is_none());
    assert!(fa.has_at_least(8));
}

#[test]
fn mmap_overlap_leaves_existing_mapping() {
    let (mut space, mut fa, _phys) = setup(8);
    assert_eq!(sys_mmap(&mut space, &mut fa, 0x1000, 2 * 4096, 0b011), 0);
    let before = space.pt.translate(2).expect("mapped");
    assert_eq!(space.mmap(&mut fa, 0x2000, 4096, 1), Err(MemError::OverlapExisting));
    let after = space.pt.translate(2).expect("still mapped");
    assert_eq!(before, after);
}

#[test]
fn mmap_out_of_memory_is_reported() {
    let (mut space, mut fa, _phys) = setup(1);
    assert_eq!(space.mmap(&mut fa, 0x1000, 2 * 4096, 0b011), Err(MemError::OutOfMemory));
}

#[test]
fn mmap_len_zero_is_a_no_op_success() {
    let (mut space, mut fa, _phys) = setup(8);
    assert_eq!(space.mmap(&mut fa, 0x3000, 0, 1), Ok(()));
    assert!(space.pt.translate(3).is_none());
    assert!(fa.has_at_least(8));
    assert_eq!(space.munmap(&mut fa, 0x3000, 0), Ok(()));
}

#[test]
fn munmap_partial_range_mutates_nothing() {
    let (mut space, mut fa, _phys) = setup(8);
    assert_eq!(sys_mmap(&mut space, &mut fa, 0x1000, 4096, 0b011), 0);
    let before = space.pt.translate(1).expect("mapped");
    assert_eq!(sys_munmap(&mut space, &mut fa, 0x1000, 2 * 4096), -1);
    assert_eq!(space.pt.translate(1).expect("still mapped"), before);
    assert_eq!(space.munmap(&mut fa, 0x9000, 4096), Err(MemError::NotMapped));
    assert_eq!(sys_munmap(&mut space, &mut fa, 0x1000, 4096), 0);
}

#[test]
fn munmap_splits_an_area() {
    let (mut space, mut fa, _phys) = setup(8);
    assert_eq!(sys_mmap(&mut space, &mut fa, 0x1000, 3 * 4096, 0b011), 0);
    assert_eq!(sys_munmap(&mut space, &mut fa, 0x2000, 4096), 0);
    assert!(space.pt.translate(1).is_some());
    assert!(space.pt.translate(2).is_none());
    assert!(space.pt.translate(3).is_some());
    assert_eq!(space.vmas.len(), 2);
    assert_eq!(sys_munmap(&mut space, &mut fa, 0x1000, 4096), 0);
    assert_eq!(sys_munmap(&mut space, &mut fa, 0x3000, 4096), 0);
    assert!(space.vmas.is_empty());
}

#[test]
fn page_table_rejects_double_map_and_missing_unmap() {
    let mut pt = PageTable::new();
    assert_eq!(pt.map_page(7, 3, 0b1011), Ok(()));
    assert_eq!(pt.map_page(7, 4, 0b1011), Err(MemError::AlreadyMapped));
    assert_eq!(pt.unmap_page(9), Err(MemError::NotMapped));
    let pte = pt.unmap_page(7).expect("was mapped");
    assert_eq!(pte.ppn, 3);
    assert_eq!(pte.flags, 0b1011);
}

#[test]
fn translator_rejects_unmapped_range() {
    let pt = PageTable::new();
    assert_eq!(translated_byte_buffer(&pt, 0x1000, 8), Err(MemError::UnmappedAccess));
}

#[test]
fn translator_splits_at_page_boundary() {
    let (mut space, mut fa, _phys) = setup(8);
    assert_eq!(sys_mmap(&mut space, &mut fa, 0x1000, 2 * 4096, 0b011), 0);
    let segs = translated_byte_buffer(&space.pt, 0x1f00, 0x200).expect("mapped");
    assert_eq!(segs.len(), 2);
    assert_eq!(segs[0].off, 0xf00);
    assert_eq!(segs[0].len, 0x100);
    assert_eq!(segs[1].off, 0);
    assert_eq!(segs[1].len, 0x100);
    let one = translated_byte_buffer(&space.pt, 0x1100, 0x20).expect("mapped");
    assert_eq!(one.len(), 1);
    assert_eq!(one[0].off, 0x100);
    assert_eq!(one[0].len, 0x20);
}

#[test]
fn get_time_writes_across_two_pages() {
    let (mut space, mut fa, mut phys) = setup(8);
    assert_eq!(sys_mmap(&mut space, &mut fa, 0x1000, 4096, 0b011), 0);
    assert_eq!(sys_mmap(&mut space, &mut fa, 0x2000, 4096, 0b011), 0);
    let us: usize = 1_234_567;
    let ts: usize = 0x1ff8;  // the record straddles the 0x2000 page boundary
    assert_eq!(sys_get_time(&space.pt, &mut phys, ts, 0, us), 0);
    let tv = TimeVal { sec: us / 1_000_000, usec: us % 1_000_000 };
    let mut expected = [0u8; 16];
    expected[..8].copy_from_slice(&(tv.sec as u64).to_le_bytes());
    expected[8..].copy_from_slice(&(tv.usec as u64).to_le_bytes());
    for (k, want) in expected.iter().enumerate() {
        assert_eq!(read_user_byte(&space, &phys, ts + k), *want, "byte {}", k);
    }
    assert_eq!(sys_munmap(&mut space, &mut fa, 0x1000, 4096), 0);
    assert_eq!(sys_munmap(&mut space, &mut fa, 0x1000, 4096), -1);
}

#[test]
fn get_time_fails_on_unmapped_buffer() {
    let (space, _fa, mut phys) = setup(8);
    assert_eq!(sys_get_time(&space.pt, &mut phys, 0x5000, 0, 42), -1);
}

#[test]
fn task_info_serialises_field_by_field() {
    let (mut space, mut fa, mut phys) = setup(8);
    assert_eq!(sys_mmap(&mut space, &mut fa, 0x1000, 4096, 0b011), 0);
    let mut times = [0u32; MAX_SYSCALL_NUM];
    times[0] = 0x0102_0304;
    times[MAX_SYSCALL_NUM - 1] = 7;
    let ti_addr: usize = 0x1000;
    // elapsed time is computed inside: 0x2a = 100 - 58
    assert_eq!(sys_task_info(&space.pt, &mut phys, ti_addr, TaskStatus::Running, &times, 100, 58), 0);
    assert_eq!(read_user_byte(&space, &phys, ti_addr), 2);
    assert_eq!(read_user_byte(&space, &phys, ti_addr + 1), 0x04);
    assert_eq!(read_user_byte(&space, &phys, ti_addr + 2), 0x03);
    assert_eq!(read_user_byte(&space, &phys, ti_addr + 3), 0x02);
    assert_eq!(read_user_byte(&space, &phys, ti_addr + 4), 0x01);
    assert_eq!(read_user_byte(&space, &phys, ti_addr + 1 + 4 * (MAX_SYSCALL_NUM - 1)), 7);
    assert_eq!(read_user_byte(&space, &phys, ti_addr + 1 + 4 * MAX_SYSCALL_NUM), 0x2a);
    assert_eq!(read_user_byte(&space, &phys, ti_addr + 1 + 4 * MAX_SYSCALL_NUM + 1), 0);
}

#[test]
fn task_info_fails_on_unmapped_buffer() {
    let (space, _fa, mut phys) = setup(8);
    let times = [0u32; MAX_SYSCALL_NUM];
    assert_eq!(sys_task_info(&space.pt, &mut phys, 0x1000, TaskStatus::Ready, &times, 5, 5), -1);
}

#[test]
fn sbrk_zero_returns_current_break() {
    let (mut space, mut fa, _phys) = setup(8);
    assert_eq!(sys_sbrk(&mut space, &mut fa, 0), 0x10_0000);
    assert_eq!(sys_sbrk(&mut space, &mut fa, 0), 0x10_0000);
}

#[test]
fn sbrk_grow_then_shrink_round_trips() {
    let (mut space, mut fa, _phys) = setup(8);
    assert_eq!(sys_sbrk(&mut space, &mut fa, 2 * 4096), 0x10_0000);
    assert_eq!(sys_sbrk(&mut space, &mut fa, 0), 0x10_2000);
    assert!(space.pt.translate(0x100).is_some());
    assert!(space.pt.translate(0x101).is_some());
    assert_eq!(sys_sbrk(&mut space, &mut fa, -(2 * 4096)), 0x10_2000);
    assert_eq!(sys_sbrk(&mut space, &mut fa, 0), 0x10_0000);
    assert!(space.pt.translate(0x100).is_none());
}

#[test]
fn sbrk_below_origin_fails() {
    let (mut space, mut fa, _phys) = setup(8);
    assert_eq!(sys_sbrk(&mut space, &mut fa, -1), -1);
    assert_eq!(sys_sbrk(&mut space, &mut fa, 0), 0x10_0000);
}

#[test]
fn sbrk_without_frames_fails_cleanly() {
    let (mut space, mut fa, _phys) = setup(1);
    assert_eq!(sys_sbrk(&mut space, &mut fa, 2 * 4096), -1);
    assert_eq!(sys_sbrk(&mut space, &mut fa, 0), 0x10_0000);
    assert!(space.pt.translate(0x100).is_none());
}

#[test]
fn sbrk_partial_page_growth_maps_one_page() {
    let (mut space, mut fa, _phys) = setup(8);
    assert_eq!(sys_sbrk(&mut space, &mut fa, 100), 0x10_0000);
    assert!(space.pt.translate(0x100).is_some());
    assert!(space.pt.translate(0x101).is_none());
    assert_eq!(sys_sbrk(&mut space, &mut fa, -100), 0x10_0064);
    assert!(space.pt.translate(0x100).is_none());
}

#[test]
fn frame_allocator_recycles() {
    let mut fa = FrameAllocator::new(4, 6);
    let a = fa.alloc_frame().expect("frame");
    let b = fa.alloc_frame().expect("frame");
    assert_ne!(a, b);
    assert!(fa.alloc_frame().is_none());
    fa.dealloc_frame(a);
    assert_eq!(fa.alloc_frame(), Some(a));
    assert!(!fa.has_at_least(1));
}

#[test]
fn le_encoding_is_little_endian() {
    let v = kernel_vm::encode::usize_to_le(0x0102_0304_0506_0708usize);
    assert_eq!(v, vec![8, 7, 6, 5, 4, 3, 2, 1]);
    let w = kernel_vm::encode::u32_to_le(0xdead_beef);
    assert_eq!(w, vec![0xef, 0xbe, 0xad, 0xde]);
}

#[test]
fn mmap_at_top_of_managed_range() {
    let (mut space, mut fa, _phys) = setup(8);
    let top = kernel_vm::MAX_VA - PAGE_SIZE;
    assert_eq!(sys_mmap(&mut space, &mut fa, top, PAGE_SIZE, 0b111), 0);
    assert!(space.pt.translate(top / PAGE_SIZE).is_some());
    assert_eq!(sys_munmap(&mut space, &mut fa, top, PAGE_SIZE), 0);
    assert!(space.pt.translate(top / PAGE_SIZE).is_none());
}

#[test]
fn munmap_reclaims_heap_pages_too() {
    let (mut space, mut fa, _phys) = setup(8);
    assert_eq!(sys_sbrk(&mut space, &mut fa, 4096), 0x10_0000);
    assert!(space.pt.translate(0x100).is_some());
    // a fully mapped, aligned range is eligible even when the heap owns it
    assert_eq!(sys_munmap(&mut space, &mut fa, 0x10_0000, 4096), 0);
    assert!(space.pt.translate(0x100).is_none());
    assert!(fa.has_at_least(8));
    // the break is bookkeeping, untouched by munmap; shrinking skips the hole
    assert_eq!(sys_sbrk(&mut space, &mut fa, 0), 0x10_1000);
    assert_eq!(sys_sbrk(&mut space, &mut fa, -4096), 0x10_1000);
    assert_eq!(sys_sbrk(&mut space, &mut fa, 0), 0x10_0000);
    assert!(fa.has_at_least(8));
}

#[test]
fn out_of_range_requests_fail_cleanly() {
    let (mut space, mut fa, mut phys) = setup(8);
    let top = kernel_vm::MAX_VA;
    assert_eq!(sys_mmap(&mut space, &mut fa, top, 4096, 0b011), -1);
    assert_eq!(sys_mmap(&mut space, &mut fa, 0x1000, usize::MAX, 0b011), -1);
    assert!(fa.has_at_least(8));
    assert_eq!(sys_munmap(&mut space, &mut fa, top, 4096), -1);
    assert_eq!(sys_get_time(&space.pt, &mut phys, top - 8, 0, 42), -1);
    let times = [0u32; MAX_SYSCALL_NUM];
    assert_eq!(sys_task_info(&space.pt, &mut phys, top - 8, TaskStatus::Ready, &times, 5, 5), -1);
}

#[test]
fn sbrk_round_trip_returns_all_frames() {
    let (mut space, mut fa, _phys) = setup(4);
    assert_eq!(sys_sbrk(&mut space, &mut fa, 3 * 4096), 0x10_0000);
    assert!(!fa.has_at_least(2));
    assert_eq!(sys_sbrk(&mut space, &mut fa, -(3 * 4096)), 0x10_3000);
    assert!(fa.has_at_least(4));
}

#[test]
fn get_time_pairs_are_lexicographically_ordered() {
    let (mut space, mut fa, mut phys) = setup(8);
    assert_eq!(sys_mmap(&mut space, &mut fa, 0x1000, 4096, 0b011), 0);
    let mut pairs = Vec::new();
    for us in [999_999usize, 1_000_000, 1_000_001, 5_432_100] {
        assert_eq!(sys_get_time(&space.pt, &mut phys, 0x1000, 0, us), 0);
        let mut sec = [0u8; 8];
        let mut usec = [0u8; 8];
        for k in 0..8 {
            sec[k] = read_user_byte(&space, &phys, 0x1000 + k);
            usec[k] = read_user_byte(&space, &phys, 0x1008 + k);
        }
        pairs.push((u64::from_le_bytes(sec), u64::from_le_bytes(usec)));
    }
    for w in pairs.windows(2) {
        assert!(w[1].0 > w[0].0 || (w[1].0 == w[0].0 && w[1].1 >= w[0].1));
    }
}
