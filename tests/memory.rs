use tg_kernel::frame::{FrameAllocator, FrameError};
use tg_kernel::memory::{AddressSpace, PAGE_SIZE};

#[test]
fn frames_recycled_first() {
    let mut fa = FrameAllocator::new(100, 103);
    assert_eq!(fa.available(), 3);
    assert_eq!(fa.alloc_frame(), Some(100));
    assert_eq!(fa.alloc_frame(), Some(101));
    assert_eq!(fa.dealloc_frame(100), Ok(()));
    assert_eq!(fa.alloc_frame(), Some(100));
    assert_eq!(fa.alloc_frame(), Some(102));
    assert_eq!(fa.alloc_frame(), None);
    assert_eq!(fa.available(), 0);
}

#[test]
fn double_free_is_refused() {
    let mut fa = FrameAllocator::new(0, 4);
    let f = fa.alloc_frame().unwrap();
    assert_eq!(fa.dealloc_frame(f), Ok(()));
    assert_eq!(fa.dealloc_frame(f), Err(FrameError::NotAllocated));
    assert_eq!(fa.dealloc_frame(3), Err(FrameError::NotAllocated));
    assert_eq!(fa.dealloc_frame(99), Err(FrameError::NotAllocated));
    assert_eq!(fa.available(), 4);
}

#[test]
fn mmap_write_read_munmap() {
    let mut fa = FrameAllocator::new(0, 64);
    let mut space = AddressSpace::new();
    let base = 0x1000_0000usize;
    assert_eq!(space.mmap(&mut fa, base, 4096, 3), 0);
    assert_eq!(fa.available(), 63);
    for i in 0..4096 {
        assert!(space.write_byte(base + i, (i % 251) as u8));
    }
    for i in 0..4096 {
        assert_eq!(space.read_byte(base + i), Some((i % 251) as u8));
    }
    assert_eq!(space.munmap(&mut fa, base, 4096), 0);
    assert_eq!(space.read_byte(base), None);
    assert!(!space.write_byte(base, 1));
    assert_eq!(fa.available(), 64);
}

#[test]
fn remap_reads_zeros() {
    let mut fa = FrameAllocator::new(0, 8);
    let mut space = AddressSpace::new();
    let base = 0x2000_0000usize;
    assert_eq!(space.mmap(&mut fa, base, 2 * PAGE_SIZE, 3), 0);
    for i in 0..2 * PAGE_SIZE {
        space.write_byte(base + i, 0xAB);
    }
    assert_eq!(space.munmap(&mut fa, base, 2 * PAGE_SIZE), 0);
    assert_eq!(space.mmap(&mut fa, base, 2 * PAGE_SIZE, 3), 0);
    for i in 0..2 * PAGE_SIZE {
        assert_eq!(space.read_byte(base + i), Some(0));
    }
}

#[test]
fn mmap_rejections() {
    let mut fa = FrameAllocator::new(0, 4);
    let mut space = AddressSpace::new();
    assert_eq!(space.mmap(&mut fa, 0x1000_0001, 4096, 3), -1);
    assert_eq!(space.mmap(&mut fa, 0x1000_0000, 4096, 0), -1);
    assert_eq!(space.mmap(&mut fa, 0x1000_0000, 4096, 8), -1);
    assert_eq!(space.mmap(&mut fa, 0x1000_0000, 5 * 4096, 3), -1);
    assert_eq!(space.mmap(&mut fa, usize::MAX - 4095, 8192, 3), -1);
    assert_eq!(space.mmap(&mut fa, 0x1000_0000, 4096, 1), 0);
    assert_eq!(space.mmap(&mut fa, 0x1000_0000, 100, 3), -1);
    assert_eq!(space.mmap(&mut fa, 0x1000_1000, 4097, 3), 0);
    assert_eq!(space.mmap(&mut fa, 0x2000_0000, 0, 3), 0);
    assert_eq!(fa.available(), 1);
}

#[test]
fn access_follows_protection() {
    let mut fa = FrameAllocator::new(0, 4);
    let mut space = AddressSpace::new();
    assert_eq!(space.mmap(&mut fa, 0x1000, 4096, 1), 0);
    assert_eq!(space.read_byte(0x1000), Some(0));
    assert!(!space.write_byte(0x1000, 5));
    assert_eq!(space.mmap(&mut fa, 0x3000, 4096, 2), 0);
    assert!(space.write_byte(0x3000, 5));
    assert_eq!(space.read_byte(0x3000), None);
}

#[test]
fn munmap_needs_every_page_mapped() {
    let mut fa = FrameAllocator::new(0, 8);
    let mut space = AddressSpace::new();
    assert_eq!(space.mmap(&mut fa, 0x10000, 4096, 3), 0);
    assert_eq!(space.munmap(&mut fa, 0x10000, 8192), -1);
    assert_eq!(space.munmap(&mut fa, 0x10001, 10), -1);
    assert_eq!(space.read_byte(0x10000), Some(0));
    assert_eq!(space.munmap(&mut fa, 0x10000, 1), 0);
    assert_eq!(fa.available(), 8);
}

#[test]
fn fork_copies_then_diverges() {
    let mut fa = FrameAllocator::new(0, 16);
    let mut parent = AddressSpace::new();
    assert_eq!(parent.mmap(&mut fa, 0x4000, 2 * PAGE_SIZE, 3), 0);
    for i in 0..2 * PAGE_SIZE {
        parent.write_byte(0x4000 + i, (i % 7) as u8);
    }
    let mut child = parent.fork(&mut fa).unwrap();
    assert_eq!(fa.available(), 12);
    for i in 0..2 * PAGE_SIZE {
        assert_eq!(child.read_byte(0x4000 + i), parent.read_byte(0x4000 + i));
    }
    assert!(child.write_byte(0x4000, 99));
    assert!(parent.write_byte(0x4001, 77));
    assert_eq!(parent.read_byte(0x4000), Some(0));
    assert_eq!(child.read_byte(0x4000), Some(99));
    assert_eq!(child.read_byte(0x4001), Some(1));
}

#[test]
fn fork_fails_without_frames() {
    let mut fa = FrameAllocator::new(0, 3);
    let mut parent = AddressSpace::new();
    assert_eq!(parent.mmap(&mut fa, 0, 2 * PAGE_SIZE, 3), 0);
    assert!(parent.fork(&mut fa).is_none());
    assert_eq!(fa.available(), 1);
}

#[test]
fn clear_returns_every_frame() {
    let mut fa = FrameAllocator::new(0, 8);
    let mut space = AddressSpace::new();
    assert_eq!(space.mmap(&mut fa, 0, 3 * PAGE_SIZE, 3), 0);
    space.clear(&mut fa);
    assert_eq!(fa.available(), 8);
    assert_eq!(space.read_byte(0), None);
}

#[test]
fn copy_out_then_in_across_pages() {
    let mut fa = FrameAllocator::new(0, 8);
    let mut space = AddressSpace::new();
    assert_eq!(space.mmap(&mut fa, 0x8000, 2 * PAGE_SIZE, 3), 0);
    let data: Vec<u8> = (0..100u8).collect();
    let va = 0x8000 + PAGE_SIZE - 50;
    assert_eq!(space.copy_out(va, &data), 0);
    assert_eq!(space.copy_in(va, 100), Some(data.clone()));
    assert_eq!(space.read_byte(va - 1), Some(0));
    assert_eq!(space.copy_in(0x8000 + 2 * PAGE_SIZE - 10, 20), None);
}

#[test]
fn copy_out_refuses_unwritable_pages() {
    let mut fa = FrameAllocator::new(0, 8);
    let mut space = AddressSpace::new();
    assert_eq!(space.mmap(&mut fa, 0x8000, PAGE_SIZE, 3), 0);
    assert_eq!(space.mmap(&mut fa, 0x9000, PAGE_SIZE, 1), 0);
    assert_eq!(space.copy_out(0x9000 - 2, &vec![1, 2, 3, 4]), -1);
    assert_eq!(space.read_byte(0x9000 - 2), Some(0));
    assert_eq!(space.copy_out(0x20000, &vec![1]), -1);
    assert_eq!(space.copy_out(0x8000, &vec![]), 0);
}
