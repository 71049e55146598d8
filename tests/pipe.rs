use tg_kernel::file::{FileHandle, OpenFlags, UserBuffer, CREATE, RDWR};
use tg_kernel::fs::FileSystem;
use tg_kernel::pipe::{make_pipe, PipeRingBuffer, RING_BUFFER_SIZE};

fn buffer_of(segments: &[&[u8]]) -> UserBuffer {
    UserBuffer::new(segments.iter().map(|s| s.to_vec()).collect())
}

#[test]
fn ring_keeps_bytes_in_order() {
    let mut ring = PipeRingBuffer::new();
    for b in 1u8..=5 {
        ring.write_byte(b);
    }
    assert_eq!(ring.available_read(), 5);
    assert_eq!(ring.available_write(), RING_BUFFER_SIZE - 5);
    let got: Vec<u8> = (0..5).map(|_| ring.read_byte()).collect();
    assert_eq!(got, vec![1, 2, 3, 4, 5]);
    assert_eq!(ring.available_read(), 0);
}

#[test]
fn ring_available_counts_sum_to_capacity() {
    let mut ring = PipeRingBuffer::new();
    assert_eq!(ring.available_read() + ring.available_write(), 32);
    assert_eq!((ring.available_read(), ring.available_write()), (0, 32));
    for i in 0..32u8 {
        ring.write_byte(i);
        assert_eq!(ring.available_read() + ring.available_write(), 32);
    }
    assert_eq!((ring.available_read(), ring.available_write()), (32, 0));
    for _ in 0..32 {
        ring.read_byte();
        assert_eq!(ring.available_read() + ring.available_write(), 32);
    }
}

#[test]
fn ring_wraps_around() {
    let mut ring = PipeRingBuffer::new();
    for i in 0..20u8 {
        ring.write_byte(i);
    }
    for i in 0..20u8 {
        assert_eq!(ring.read_byte(), i);
    }
    for i in 100..130u8 {
        ring.write_byte(i);
    }
    assert_eq!(ring.available_read(), 30);
    for i in 100..130u8 {
        assert_eq!(ring.read_byte(), i);
    }
}

#[test]
fn write_end_tracking() {
    let (mut ring, read_end, write_end) = make_pipe(3);
    assert!(read_end.readable() && !read_end.writable());
    assert!(write_end.writable() && !write_end.readable());
    assert_eq!(read_end.buffer, Some(3));
    assert!(!ring.all_write_ends_closed());
    ring.set_write_end();
    ring.release_write_end();
    assert!(!ring.all_write_ends_closed());
    ring.release_write_end();
    assert!(ring.all_write_ends_closed());
}

#[test]
fn empty_pipe_read_blocks_then_reports_eof() {
    let (mut ring, _r, _w) = make_pipe(0);
    let mut buf = buffer_of(&[&[0u8; 8]]);
    assert_eq!(FileHandle::read_pipe(&mut ring, &mut buf), -2);
    ring.release_write_end();
    assert_eq!(FileHandle::read_pipe(&mut ring, &mut buf), 0);
}

#[test]
fn full_pipe_write_blocks() {
    let (mut ring, _r, _w) = make_pipe(0);
    let data = buffer_of(&[&[7u8; 40]]);
    assert_eq!(FileHandle::write_pipe(&mut ring, &data), 32);
    assert_eq!(FileHandle::write_pipe(&mut ring, &data), -2);
}

#[test]
fn pipe_read_fills_segments_in_order() {
    let (mut ring, _r, _w) = make_pipe(0);
    let data = buffer_of(&[&[1, 2, 3], &[4, 5]]);
    assert_eq!(FileHandle::write_pipe(&mut ring, &data), 5);
    let mut buf = buffer_of(&[&[0, 0], &[0, 0], &[9, 9]]);
    assert_eq!(FileHandle::read_pipe(&mut ring, &mut buf), 5);
    assert_eq!(buf.as_bytes(), &vec![1, 2, 3, 4, 5, 9]);
    assert_eq!(buf.segment_lens(), &vec![2, 2, 2]);
}

#[test]
fn pipe_transfers_all_bytes_in_chunks() {
    let (mut ring, _r, _w) = make_pipe(0);
    let all: Vec<u8> = (0..=255u8).collect();
    let mut sent = 0usize;
    let mut received: Vec<u8> = Vec::new();
    let mut writer_open = true;
    loop {
        if writer_open {
            let chunk = UserBuffer::new(vec![all[sent..].to_vec()]);
            let n = FileHandle::write_pipe(&mut ring, &chunk);
            if n > 0 {
                sent += n as usize;
            }
            if sent == all.len() {
                ring.release_write_end();
                writer_open = false;
            }
        }
        let mut buf = UserBuffer::new(vec![vec![0u8; 256]]);
        let n = FileHandle::read_pipe(&mut ring, &mut buf);
        if n == 0 {
            break;
        }
        if n > 0 {
            received.extend_from_slice(&buf.as_bytes()[..n as usize]);
        }
    }
    assert_eq!(received, all);
}

#[test]
fn pipe_order_with_uneven_chunks() {
    let (mut ring, _r, _w) = make_pipe(0);
    let mut written: Vec<u8> = Vec::new();
    let mut read: Vec<u8> = Vec::new();
    let sizes = [5usize, 13, 1, 31, 7];
    let mut next = 0u8;
    for (k, &s) in sizes.iter().enumerate() {
        let chunk: Vec<u8> = (0..s).map(|_| { next = next.wrapping_add(1); next }).collect();
        let n = FileHandle::write_pipe(&mut ring, &UserBuffer::new(vec![chunk.clone()]));
        if n > 0 {
            written.extend_from_slice(&chunk[..n as usize]);
        }
        let mut buf = UserBuffer::new(vec![vec![0u8; 3 + k]]);
        let m = FileHandle::read_pipe(&mut ring, &mut buf);
        if m > 0 {
            read.extend_from_slice(&buf.as_bytes()[..m as usize]);
        }
    }
    loop {
        let mut buf = UserBuffer::new(vec![vec![0u8; 4]]);
        let m = FileHandle::read_pipe(&mut ring, &mut buf);
        if m <= 0 {
            break;
        }
        read.extend_from_slice(&buf.as_bytes()[..m as usize]);
    }
    assert_eq!(read, written);
}

#[test]
fn handle_read_write_dispatch_on_kind() {
    let mut fs = FileSystem::new();
    let (ring0, mut r0, mut w0) = make_pipe(0);
    let (ring1, _r1, _w1) = make_pipe(1);
    let mut pipes = vec![ring0, ring1];
    let data = buffer_of(&[b"pipe"]);
    assert_eq!(w0.write(&mut fs, &mut pipes, &data), 4);
    assert_eq!(pipes[1].available_read(), 0);
    let mut buf = buffer_of(&[&[0u8; 8]]);
    assert_eq!(r0.read(&fs, &mut pipes, &mut buf), 4);
    assert_eq!(&buf.as_bytes()[..4], b"pipe");
    let mut f = fs.open(&b"f".to_vec(), OpenFlags::from_bits_truncate(CREATE | RDWR)).unwrap();
    assert_eq!(f.write(&mut fs, &mut pipes, &buffer_of(&[b"file"])), 4);
    f.offset = 0;
    let mut buf = buffer_of(&[&[0u8; 8]]);
    assert_eq!(f.read(&fs, &mut pipes, &mut buf), 4);
    assert_eq!(&buf.as_bytes()[..4], b"file");
}
