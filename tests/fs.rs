use tg_kernel::file::{FileHandle, OpenFlags, UserBuffer, CREATE, RDONLY, RDWR, TRUNC, WRONLY};
use tg_kernel::fs::FileSystem;

fn name(s: &str) -> Vec<u8> {
    s.as_bytes().to_vec()
}

fn read_all(fs: &FileSystem, path: &str, chunk: usize) -> Vec<u8> {
    let ino = fs.find(&name(path)).expect("file exists");
    let mut f = FileHandle::new(true, false, ino);
    let mut out = Vec::new();
    loop {
        let mut buf = UserBuffer::new(vec![vec![0u8; chunk]]);
        let n = f.read_file(fs, &mut buf);
        assert!(n >= 0);
        if n == 0 {
            break;
        }
        out.extend_from_slice(&buf.as_bytes()[..n as usize]);
    }
    out
}

#[test]
fn open_flags_access() {
    assert_eq!(OpenFlags::from_bits_truncate(RDONLY).read_write(), (true, false));
    assert_eq!(OpenFlags::from_bits_truncate(WRONLY).read_write(), (false, true));
    assert_eq!(OpenFlags::from_bits_truncate(RDWR).read_write(), (true, true));
    assert_eq!(OpenFlags::from_bits_truncate(CREATE | WRONLY).read_write(), (false, true));
    assert_eq!(OpenFlags::from_bits_truncate(CREATE).read_write(), (true, true));
    assert_eq!(OpenFlags::from_bits_truncate(1 << 20).bits(), 0);
    assert!(OpenFlags::from_bits_truncate(CREATE | TRUNC).contains(TRUNC));
}

#[test]
fn write_close_reopen_read_round_trip() {
    let mut fs = FileSystem::new();
    let mut w = fs.open(&name("notes"), OpenFlags::from_bits_truncate(CREATE | WRONLY)).unwrap();
    assert!(w.writable() && !w.readable());
    let data = UserBuffer::new(vec![b"hello ".to_vec(), b"world".to_vec()]);
    assert_eq!(w.write_file(&mut fs, &data), 11);
    let mut r = fs.open(&name("notes"), OpenFlags::from_bits_truncate(RDONLY)).unwrap();
    let mut buf = UserBuffer::new(vec![vec![0u8; 64]]);
    assert_eq!(r.read_file(&fs, &mut buf), 11);
    assert_eq!(&buf.as_bytes()[..11], b"hello world");
    assert_eq!(r.read_file(&fs, &mut buf), 0);
}

#[test]
fn large_file_chunked_write_and_read() {
    let mut fs = FileSystem::new();
    let content: Vec<u8> = (0..10 * 1024).map(|i| (i * 7 % 251) as u8).collect();
    let mut w = fs.open(&name("big"), OpenFlags::from_bits_truncate(CREATE | WRONLY)).unwrap();
    for chunk in content.chunks(137) {
        let n = w.write_file(&mut fs, &UserBuffer::new(vec![chunk.to_vec()]));
        assert_eq!(n as usize, chunk.len());
    }
    assert_eq!(read_all(&fs, "big", 1024), content);
}

#[test]
fn link_then_unlink_keeps_content() {
    let mut fs = FileSystem::new();
    let ino = fs.create(&name("a"));
    fs.write_at(ino, 0, &b"shared bytes".to_vec());
    assert_eq!(fs.link(&name("a"), &name("b")), 0);
    assert_eq!(fs.link_count(ino), 2);
    assert_eq!(fs.unlink(&name("a")), 0);
    assert_eq!(fs.find(&name("a")), None);
    assert_eq!(fs.find(&name("b")), Some(ino));
    assert_eq!(fs.link_count(ino), 1);
    assert_eq!(read_all(&fs, "b", 5), b"shared bytes".to_vec());
}

#[test]
fn link_and_unlink_errors() {
    let mut fs = FileSystem::new();
    fs.create(&name("a"));
    fs.create(&name("c"));
    assert_eq!(fs.link(&name("missing"), &name("b")), -1);
    assert_eq!(fs.link(&name("a"), &name("c")), -1);
    assert_eq!(fs.link(&name("a"), &name("a")), -1);
    assert_eq!(fs.unlink(&name("missing")), -1);
}

#[test]
fn open_missing_without_create_fails() {
    let mut fs = FileSystem::new();
    assert!(fs.open(&name("nope"), OpenFlags::from_bits_truncate(RDONLY)).is_none());
    assert!(fs.find(&name("nope")).is_none());
}

#[test]
fn truncate_and_create_empty_existing_file() {
    let mut fs = FileSystem::new();
    let ino = fs.create(&name("f"));
    fs.write_at(ino, 0, &vec![1, 2, 3]);
    let h = fs.open(&name("f"), OpenFlags::from_bits_truncate(RDONLY)).unwrap();
    assert_eq!(h.inode, Some(ino));
    assert_eq!(fs.size(ino), 3);
    fs.open(&name("f"), OpenFlags::from_bits_truncate(TRUNC | RDWR)).unwrap();
    assert_eq!(fs.size(ino), 0);
    fs.write_at(ino, 0, &vec![4, 5]);
    fs.open(&name("f"), OpenFlags::from_bits_truncate(CREATE | WRONLY)).unwrap();
    assert_eq!(fs.size(ino), 0);
}

#[test]
fn write_past_end_fills_gap_with_zeros() {
    let mut fs = FileSystem::new();
    let ino = fs.create(&name("g"));
    assert_eq!(fs.write_at(ino, 4, &vec![9, 9]), 2);
    assert_eq!(fs.read_at(ino, 0, 100), vec![0, 0, 0, 0, 9, 9]);
    assert_eq!(fs.read_at(ino, 6, 10), Vec::<u8>::new());
    assert_eq!(fs.read_at(ino, 3, 2), vec![0, 9]);
}

#[test]
fn file_read_stops_at_empty_segment() {
    let mut fs = FileSystem::new();
    let ino = fs.create(&name("s"));
    fs.write_at(ino, 0, &(1..=10).collect::<Vec<u8>>());
    let mut h = FileHandle::new(true, false, ino);
    let mut buf = UserBuffer::new(vec![vec![0; 3], vec![], vec![0; 4]]);
    assert_eq!(h.read_file(&fs, &mut buf), 3);
    assert_eq!(buf.as_bytes(), &vec![1, 2, 3, 0, 0, 0, 0]);
    assert_eq!(h.offset, 3);
}

#[test]
fn handle_without_inode_fails() {
    let mut fs = FileSystem::new();
    let mut h = FileHandle::empty(true, true);
    let mut buf = UserBuffer::new(vec![vec![0; 2]]);
    assert_eq!(h.read_file(&fs, &mut buf), -1);
    assert_eq!(h.write_file(&mut fs, &buf), -1);
}

#[test]
fn user_buffer_lengths() {
    let buf = UserBuffer::new(vec![vec![1, 2], vec![], vec![3]]);
    assert_eq!(buf.len(), 3);
    assert!(!buf.is_empty());
    assert_eq!(buf.segment_lens(), &vec![2, 0, 1]);
    assert!(UserBuffer::new(vec![]).is_empty());
}
