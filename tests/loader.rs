use tg_kernel::elf::{PF_R, PF_W, PF_X, PT_LOAD};
use tg_kernel::frame::FrameAllocator;
use tg_kernel::loader::{from_elf, load_segment, prot_of, USER_STACK_SIZE};
use tg_kernel::memory::AddressSpace;
use tg_kernel::task::{TaskTable, INITPROC_PID};
use tg_kernel::elf::Segment;

fn put(b: &mut Vec<u8>, off: usize, v: u64, n: usize) {
    for i in 0..n {
        b[off + i] = (v >> (8 * i)) as u8;
    }
}

/// An executable with a text segment (file bytes 0x100..0x140) at 0x10000
/// and a data segment whose 16 file bytes are followed by zeros.
fn program() -> Vec<u8> {
    let mut b = vec![0u8; 0x200];
    b[..6].copy_from_slice(&[0x7f, b'E', b'L', b'F', 2, 1]);
    put(&mut b, 24, 0x10000, 8);
    put(&mut b, 32, 64, 8);
    put(&mut b, 54, 56, 2);
    put(&mut b, 56, 2, 2);
    let segs = [(PF_R | PF_X, 0x100u64, 0x10000u64, 0x40u64, 0x40u64), (PF_R | PF_W, 0x140, 0x11008, 0x10, 0x100)];
    for (k, &(flags, offset, vaddr, filesz, memsz)) in segs.iter().enumerate() {
        let off = 64 + 56 * k;
        put(&mut b, off, PT_LOAD as u64, 4);
        put(&mut b, off + 4, flags as u64, 4);
        put(&mut b, off + 8, offset, 8);
        put(&mut b, off + 16, vaddr, 8);
        put(&mut b, off + 32, filesz, 8);
        put(&mut b, off + 40, memsz, 8);
    }
    for i in 0x100..0x150 {
        b[i] = (i & 0xff) as u8 | 1;
    }
    b
}

#[test]
fn protection_from_flags() {
    assert_eq!(prot_of(PF_R), 1);
    assert_eq!(prot_of(PF_R | PF_W), 3);
    assert_eq!(prot_of(PF_R | PF_X), 5);
    assert_eq!(prot_of(0), 0);
}

#[test]
fn segment_bytes_then_zeros() {
    let image = program();
    let mut fa = FrameAllocator::new(0, 16);
    let mut space = AddressSpace::new();
    let seg = Segment { vaddr: 0x11008, memsz: 0x100, offset: 0x140, filesz: 0x10, flags: PF_R | PF_W };
    assert_eq!(load_segment(&mut space, &mut fa, &image, seg), 0);
    assert_eq!(space.copy_in(0x11008, 0x10), Some(image[0x140..0x150].to_vec()));
    assert_eq!(space.read_byte(0x11018), Some(0));
    assert_eq!(space.read_byte(0x11000), Some(0));
    assert_eq!(load_segment(&mut space, &mut fa, &image, seg), -1);
}

#[test]
fn image_with_stack() {
    let image = program();
    let mut fa = FrameAllocator::new(0, 16);
    let (space, entry, sp) = from_elf(&mut fa, &image).unwrap();
    assert_eq!(entry, 0x10000);
    assert_eq!(sp % 4096, 0);
    assert_eq!(space.read_byte(sp - 1), Some(0));
    assert_eq!(space.read_byte(sp - USER_STACK_SIZE), Some(0));
    assert_eq!(space.read_byte(sp - USER_STACK_SIZE - 1), None);
    assert_eq!(space.read_byte(0x10000), Some(image[0x100]));
    assert_eq!(space.copy_in(0x10000, 0x40), Some(image[0x100..0x140].to_vec()));
    assert_eq!(fa.available(), 16 - 2 - 2);
}

#[test]
fn bad_image_gives_frames_back() {
    let mut image = program();
    image[0] = 0;
    let mut fa = FrameAllocator::new(0, 16);
    assert!(from_elf(&mut fa, &image).is_none());
    let mut fa = FrameAllocator::new(0, 3);
    assert!(from_elf(&mut fa, &program()).is_none());
    assert_eq!(fa.available(), 3);
}

#[test]
fn spawn_and_exec() {
    let image = program();
    let mut fa = FrameAllocator::new(0, 64);
    let mut table = TaskTable::new();
    let child = table.spawn(&mut fa, INITPROC_PID, &image);
    assert_eq!(child, 1);
    assert_eq!(fa.available(), 60);
    assert_eq!(table.spawn(&mut fa, 9, &image), -1);
    assert_eq!(table.exec(&mut fa, child as usize, &image), Some((0x10000, 0x15000)));
    assert_eq!(fa.available(), 60);
    assert_eq!(table.exec(&mut fa, child as usize, &vec![0u8; 10]), None);
    assert!(table.exit(&mut fa, child as usize, 0));
    assert_eq!(fa.available(), 64);
    assert_eq!(table.exec(&mut fa, child as usize, &image), None);
}
