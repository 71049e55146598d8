use tg_kernel::elf::{parse_elf, Segment, PF_R, PF_W, PF_X, PT_LOAD};

fn put(b: &mut Vec<u8>, off: usize, v: u64, n: usize) {
    for i in 0..n {
        b[off + i] = (v >> (8 * i)) as u8;
    }
}

fn image(headers: &[(u32, u32, u64, u64, u64, u64)], len: usize) -> Vec<u8> {
    let mut b = vec![0u8; len];
    b[..6].copy_from_slice(&[0x7f, b'E', b'L', b'F', 2, 1]);
    put(&mut b, 24, 0x1_0000, 8);
    put(&mut b, 32, 64, 8);
    put(&mut b, 54, 56, 2);
    put(&mut b, 56, headers.len() as u64, 2);
    for (k, &(ty, flags, offset, vaddr, filesz, memsz)) in headers.iter().enumerate() {
        let off = 64 + 56 * k;
        put(&mut b, off, ty as u64, 4);
        put(&mut b, off + 4, flags as u64, 4);
        put(&mut b, off + 8, offset, 8);
        put(&mut b, off + 16, vaddr, 8);
        put(&mut b, off + 32, filesz, 8);
        put(&mut b, off + 40, memsz, 8);
    }
    b
}

#[test]
fn loadable_segments_in_order() {
    let b = image(
        &[
            (PT_LOAD, PF_R | PF_X, 0x100, 0x1_0000, 0x40, 0x40),
            (6, PF_R, 0, 0, 0, 0),
            (PT_LOAD, PF_R | PF_W, 0x140, 0x1_1000, 0x10, 0x2000),
        ],
        0x200,
    );
    let img = parse_elf(&b).unwrap();
    assert_eq!(img.entry, 0x1_0000);
    assert_eq!(
        img.segments,
        vec![
            Segment { vaddr: 0x1_0000, memsz: 0x40, offset: 0x100, filesz: 0x40, flags: PF_R | PF_X },
            Segment { vaddr: 0x1_1000, memsz: 0x2000, offset: 0x140, filesz: 0x10, flags: PF_R | PF_W },
        ]
    );
}

#[test]
fn rejects_bad_headers() {
    let good = image(&[(PT_LOAD, PF_R, 0x100, 0x1000, 0x10, 0x10)], 0x200);
    assert!(parse_elf(&good).is_some());
    let mut bad_magic = good.clone();
    bad_magic[1] = b'X';
    assert!(parse_elf(&bad_magic).is_none());
    let mut class32 = good.clone();
    class32[4] = 1;
    assert!(parse_elf(&class32).is_none());
    assert!(parse_elf(&good[..40].to_vec()).is_none());
    assert!(parse_elf(&good[..100].to_vec()).is_none());
    let past_end = image(&[(PT_LOAD, PF_R, 0x1f8, 0x1000, 0x10, 0x10)], 0x200);
    assert!(parse_elf(&past_end).is_none());
    let too_big = image(&[(PT_LOAD, PF_R, 0x100, 0x1000, 0x20, 0x10)], 0x200);
    assert!(parse_elf(&too_big).is_none());
    let other_kind_past_end = image(&[(4, PF_R, 0x1f8, 0x1000, 0x10, 0x10)], 0x200);
    assert_eq!(parse_elf(&other_kind_past_end).unwrap().segments, vec![]);
}
