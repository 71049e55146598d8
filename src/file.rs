use vstd::prelude::*;

use crate::fs::{read_spec, write_spec, FileSystem, MAX_FILE_SIZE};
use crate::pipe::{PipeRingBuffer, RING_BUFFER_SIZE};

verus! {

/// Open for reading only (no bit set).
pub const RDONLY: u32 = 0;

/// Open for writing only.
pub const WRONLY: u32 = 1;

/// Open for reading and writing.
pub const RDWR: u32 = 2;

/// Create the file if it does not exist.
pub const CREATE: u32 = 512;

/// Empty the file when it is opened.
pub const TRUNC: u32 = 1024;

/// Flags given to `open`; bits outside the five known flags are dropped.
#[derive(Clone, Copy, PartialEq, Eq, Structural, Debug)]
pub struct OpenFlags {
    bits: u32,
}

impl OpenFlags {
    pub closed spec fn bits_spec(&self) -> u32 {
        self.bits
    }

    /// Keeps the known flags of `bits`.
    pub fn from_bits_truncate(bits: u32) -> (r: Self)
        ensures
            r.bits_spec() == bits & (WRONLY | RDWR | CREATE | TRUNC),
    {
        OpenFlags { bits: bits & (WRONLY | RDWR | CREATE | TRUNC) }
    }

    pub fn bits(&self) -> (r: u32)
        ensures
            r == self.bits_spec(),
    {
        self.bits
    }

    /// Whether no flag is set (read only).
    pub fn is_empty(&self) -> (r: bool)
        ensures
            r == (self.bits_spec() == 0),
    {
        self.bits == 0
    }

    /// Whether every flag of `other` is set.
    pub fn contains(&self, other: u32) -> (r: bool)
        ensures
            r == (self.bits_spec() & other == other),
    {
        self.bits & other == other
    }

    /// Access granted by the flags, as (readable, writable): read only when
    /// none is set, write only when `WRONLY` is set, both otherwise.
    pub fn read_write(&self) -> (r: (bool, bool))
        ensures
            r == access(self.bits_spec()),
    {
        if self.is_empty() {
            (true, false)
        } else if self.contains(WRONLY) {
            (false, true)
        } else {
            (true, true)
        }
    }
}

/// (readable, writable) granted by open flags `bits`.
pub open spec fn access(bits: u32) -> (bool, bool) {
    if bits == 0 {
        (true, false)
    } else if bits & WRONLY == WRONLY {
        (false, true)
    } else {
        (true, true)
    }
}

/// Sum of segment lengths.
pub open spec fn total_len(lens: Seq<usize>) -> nat
    decreases lens.len(),
{
    if lens.len() == 0 {
        0
    } else {
        total_len(lens.drop_last()) + lens.last() as nat
    }
}

/// Segments laid end to end.
pub open spec fn flatten(bufs: Seq<Seq<u8>>) -> Seq<u8>
    decreases bufs.len(),
{
    if bufs.len() == 0 {
        Seq::empty()
    } else {
        flatten(bufs.drop_last()) + bufs.last()
    }
}

/// Bytes a file read can fill: the segments before the first empty one.
pub open spec fn fill_limit(lens: Seq<usize>) -> nat
    decreases lens.len(),
{
    if lens.len() == 0 || lens[0] == 0 {
        0
    } else {
        lens[0] as nat + fill_limit(lens.skip(1))
    }
}

pub open spec fn min(a: int, b: int) -> int {
    if a <= b {
        a
    } else {
        b
    }
}

/// A user's buffer, made of segments (one per user page it spans), held as
/// their bytes laid end to end together with the length of each segment.
pub struct UserBuffer {
    bytes: Vec<u8>,
    lens: Vec<usize>,
}

impl UserBuffer {
    pub closed spec fn wf(&self) -> bool {
        total_len(self.lens@) == self.bytes@.len()
    }

    /// All bytes of the buffer, segment after segment.
    pub closed spec fn data(&self) -> Seq<u8> {
        self.bytes@
    }

    /// The length of each segment.
    pub closed spec fn lens(&self) -> Seq<usize> {
        self.lens@
    }

    /// Gathers the segments.
    pub fn new(buffers: Vec<Vec<u8>>) -> (r: Self)
        requires
            flatten(buffers@.map_values(|b: Vec<u8>| b@)).len() <= usize::MAX,
        ensures
            r.wf(),
            r.data() == flatten(buffers@.map_values(|b: Vec<u8>| b@)),
            r.lens() == buffers@.map_values(|b: Vec<u8>| b@.len() as usize),
    {
        let ghost segs = buffers@.map_values(|b: Vec<u8>| b@);
        let mut bytes: Vec<u8> = Vec::new();
        let mut lens: Vec<usize> = Vec::new();
        let mut i: usize = 0;
        while i < buffers.len()
            invariant
                i <= buffers@.len(),
                segs == buffers@.map_values(|b: Vec<u8>| b@),
                flatten(segs).len() <= usize::MAX,
                bytes@ == flatten(segs.take(i as int)),
                lens@ == buffers@.take(i as int).map_values(|b: Vec<u8>| b@.len() as usize),
                total_len(lens@) == bytes@.len(),
            decreases buffers@.len() - i,
        {
            proof {
                assert(segs.take(i + 1).drop_last() =~= segs.take(i as int));
                assert(buffers@.take(i + 1).map_values(|b: Vec<u8>| b@.len() as usize).drop_last()
                    =~= buffers@.take(i as int).map_values(|b: Vec<u8>| b@.len() as usize));
                lemma_flatten_prefix_len(segs, i as int + 1);
            }
            let b = &buffers[i];
            let mut j: usize = 0;
            let ghost start = bytes@;
            while j < b.len()
                invariant
                    j <= b@.len(),
                    bytes@ == start + b@.take(j as int),
                    start.len() + b@.len() <= usize::MAX,
                decreases b@.len() - j,
            {
                bytes.push(b[j]);
                j = j + 1;
                assert(bytes@ =~= start + b@.take(j as int));
            }
            assert(b@.take(j as int) =~= b@);
            lens.push(b.len());
            i = i + 1;
            assert(lens@ =~= buffers@.take(i as int).map_values(|b: Vec<u8>| b@.len() as usize));
        }
        assert(segs.take(i as int) =~= segs);
        assert(buffers@.take(i as int) =~= buffers@);
        UserBuffer { bytes, lens }
    }

    /// Total length in bytes.
    pub fn len(&self) -> (r: usize)
        requires
            self.wf(),
        ensures
            r == total_len(self.lens()),
            r == self.data().len(),
    {
        self.bytes.len()
    }

    /// Whether the buffer has no segment.
    pub fn is_empty(&self) -> (r: bool)
        ensures
            r == (self.lens().len() == 0),
    {
        self.lens.len() == 0
    }

    /// All bytes, segment after segment.
    pub fn as_bytes(&self) -> (r: &Vec<u8>)
        ensures
            r@ == self.data(),
    {
        &self.bytes
    }

    /// The length of each segment.
    pub fn segment_lens(&self) -> (r: &Vec<usize>)
        ensures
            r@ == self.lens(),
    {
        &self.lens
    }
}

proof fn lemma_flatten_prefix_len(segs: Seq<Seq<u8>>, i: int)
    requires
        0 <= i <= segs.len(),
    ensures
        flatten(segs.take(i)).len() <= flatten(segs).len(),
    decreases segs.len() - i,
{
    if i < segs.len() {
        lemma_flatten_prefix_len(segs, i + 1);
        assert(segs.take(i + 1).drop_last() =~= segs.take(i));
        assert(segs.take(i + 1).last() == segs[i]);
    } else {
        assert(segs.take(i) =~= segs);
    }
}

/// An open file: either a view of an inode with a current offset, or one end
/// of a pipe. A pipe end names its ring buffer by index into the owner's
/// table of pipes.
#[derive(Clone, Copy, PartialEq, Eq, Structural, Debug)]
pub struct FileHandle {
    /// Inode of the file, for a file.
    pub inode: Option<usize>,
    /// Opened for reading.
    pub read: bool,
    /// Opened for writing.
    pub write: bool,
    /// Current offset in the file.
    pub offset: usize,
    /// Whether this is a pipe end.
    pub pipe: bool,
    /// Index of the pipe's ring buffer, for a pipe end.
    pub buffer: Option<usize>,
}

/// How many bytes a pipe transfer moves: what is asked for, capped by what
/// the ring offers.
pub open spec fn transfer_len(want: int, avail: int) -> int {
    min(want, avail)
}

/// A pipe read on ring contents `ring` into a buffer holding `data`, with
/// or without a write end left: the result, the ring after, the buffer
/// after.
pub open spec fn pipe_read_spec(ring: Seq<u8>, writers_gone: bool, data: Seq<u8>) -> (int, Seq<u8>, Seq<u8>) {
    if ring.len() == 0 {
        (if writers_gone { 0 } else { -2 }, ring, data)
    } else {
        let k = transfer_len(data.len() as int, ring.len() as int);
        (k, ring.skip(k), ring.take(k) + data.skip(k))
    }
}

/// A pipe write of `data` on ring contents `ring`: the result and the ring
/// after.
pub open spec fn pipe_write_spec(ring: Seq<u8>, data: Seq<u8>) -> (int, Seq<u8>) {
    if ring.len() >= RING_BUFFER_SIZE {
        (-2, ring)
    } else {
        let k = transfer_len(data.len() as int, RING_BUFFER_SIZE - ring.len());
        (k, ring + data.take(k))
    }
}

impl FileHandle {
    /// A handle on inode `inode`, at offset 0.
    pub fn new(read: bool, write: bool, inode: usize) -> (r: Self)
        ensures
            r == (FileHandle { inode: Some(inode), read, write, offset: 0, pipe: false, buffer: None }),
    {
        FileHandle { inode: Some(inode), read, write, offset: 0, pipe: false, buffer: None }
    }

    /// A handle on no file.
    pub fn empty(read: bool, write: bool) -> (r: Self)
        ensures
            r == (FileHandle { inode: None, read, write, offset: 0, pipe: false, buffer: None }),
    {
        FileHandle { inode: None, read, write, offset: 0, pipe: false, buffer: None }
    }

    pub open spec fn read_end_spec(buffer: usize) -> Self {
        FileHandle { inode: None, read: true, write: false, offset: 0, pipe: true, buffer: Some(buffer) }
    }

    pub open spec fn write_end_spec(buffer: usize) -> Self {
        FileHandle { inode: None, read: false, write: true, offset: 0, pipe: true, buffer: Some(buffer) }
    }

    /// The read end of the pipe whose ring buffer is `buffer`.
    pub fn read_end(buffer: usize) -> (r: Self)
        ensures
            r == Self::read_end_spec(buffer),
    {
        FileHandle { inode: None, read: true, write: false, offset: 0, pipe: true, buffer: Some(buffer) }
    }

    /// The write end of the pipe whose ring buffer is `buffer`.
    pub fn write_end(buffer: usize) -> (r: Self)
        ensures
            r == Self::write_end_spec(buffer),
    {
        FileHandle { inode: None, read: false, write: true, offset: 0, pipe: true, buffer: Some(buffer) }
    }

    pub fn readable(&self) -> (r: bool)
        ensures
            r == self.read,
    {
        self.read
    }

    pub fn writable(&self) -> (r: bool)
        ensures
            r == self.write,
    {
        self.write
    }

    /// Reads from a pipe's ring into `buf`: as many bytes as both hold,
    /// oldest first. With the ring empty: 0 (end of file) once every write
    /// end is closed, else -2 (try again).
    pub fn read_pipe(ring: &mut PipeRingBuffer, buf: &mut UserBuffer) -> (r: isize)
        requires
            old(ring).wf(),
            old(buf).wf(),
        ensures
            final(ring).wf(),
            final(buf).wf(),
            final(buf).lens() == old(buf).lens(),
            final(ring).open_write_ends() == old(ring).open_write_ends(),
            old(ring)@.len() == 0 ==> {
                &&& r == (if old(ring).open_write_ends() == 0 { 0isize } else { -2isize })
                &&& final(ring)@ == old(ring)@
                &&& final(buf).data() == old(buf).data()
            },
            old(ring)@.len() > 0 ==> {
                let k = transfer_len(old(buf).data().len() as int, old(ring)@.len() as int);
                &&& r == k
                &&& final(ring)@ == old(ring)@.skip(k)
                &&& final(buf).data() == old(ring)@.take(k) + old(buf).data().skip(k)
            },
            (r as int, final(ring)@, final(buf).data())
                == pipe_read_spec(old(ring)@, old(ring).open_write_ends() == 0, old(buf).data()),
    {
        let want = buf.bytes.len();
        let avail = ring.available_read();
        if avail == 0 {
            if ring.all_write_ends_closed() {
                return 0;
            }
            return -2;
        }
        let k = if want < avail { want } else { avail };
        let ghost ring0 = ring@;
        let ghost data0 = buf.bytes@;
        let mut j: usize = 0;
        while j < k
            invariant
                j <= k <= ring0.len(),
                k <= data0.len(),
                k <= RING_BUFFER_SIZE,
                ring.wf(),
                ring@ == ring0.skip(j as int),
                ring.open_write_ends() == old(ring).open_write_ends(),
                buf.bytes@ == ring0.take(j as int) + data0.skip(j as int),
                buf.lens@ == old(buf).lens@,
            decreases k - j,
        {
            let c = ring.read_byte();
            buf.bytes.set(j, c);
            j = j + 1;
            assert(ring@ =~= ring0.skip(j as int));
            assert(buf.bytes@ =~= ring0.take(j as int) + data0.skip(j as int));
        }
        k as isize
    }

    /// Writes from `buf` into a pipe's ring: as many bytes as the ring has
    /// room for, in order; -2 (try again) when it is full.
    pub fn write_pipe(ring: &mut PipeRingBuffer, buf: &UserBuffer) -> (r: isize)
        requires
            old(ring).wf(),
            buf.wf(),
        ensures
            final(ring).wf(),
            final(ring).open_write_ends() == old(ring).open_write_ends(),
            old(ring)@.len() == RING_BUFFER_SIZE ==> r == -2 && final(ring)@ == old(ring)@,
            old(ring)@.len() < RING_BUFFER_SIZE ==> {
                let k = transfer_len(buf.data().len() as int, RING_BUFFER_SIZE - old(ring)@.len());
                &&& r == k
                &&& final(ring)@ == old(ring)@ + buf.data().take(k)
            },
            (r as int, final(ring)@) == pipe_write_spec(old(ring)@, buf.data()),
    {
        let want = buf.bytes.len();
        let space = ring.available_write();
        if space == 0 {
            return -2;
        }
        let k = if want < space { want } else { space };
        let ghost ring0 = ring@;
        let mut j: usize = 0;
        while j < k
            invariant
                j <= k <= buf.bytes@.len(),
                k <= RING_BUFFER_SIZE,
                ring0.len() + k <= RING_BUFFER_SIZE,
                ring.wf(),
                ring@ == ring0 + buf.bytes@.take(j as int),
                ring.open_write_ends() == old(ring).open_write_ends(),
            decreases k - j,
        {
            ring.write_byte(buf.bytes[j]);
            j = j + 1;
            assert(ring@ =~= ring0 + buf.bytes@.take(j as int));
        }
        k as isize
    }

    /// Reads the file from the handle's offset into `buf`, filling segments
    /// in order until an empty segment or the end of the file, and moves the
    /// offset past what was read. -1 for a handle on no file.
    pub fn read_file(&mut self, fs: &FileSystem, buf: &mut UserBuffer) -> (r: isize)
        requires
            fs.wf(),
            old(buf).wf(),
            old(self).inode is Some ==> fs@.data.contains_key(old(self).inode->Some_0 as nat),
        ensures
            final(buf).wf(),
            final(buf).lens() == old(buf).lens(),
            old(self).inode is None ==> r == -1 && *final(self) == *old(self) && final(buf).data() == old(buf).data(),
            old(self).inode is Some ==> {
                let d = fs@.data[old(self).inode->Some_0 as nat];
                let got = read_spec(d, old(self).offset as int, fill_limit(old(buf).lens()) as int);
                &&& r == got.len()
                &&& final(self).offset == old(self).offset + got.len()
                &&& *final(self) == (FileHandle { offset: final(self).offset, ..*old(self) })
                &&& final(buf).data() == got + old(buf).data().skip(got.len() as int)
            },
    {
        match self.inode {
            None => -1,
            Some(ino) => {
                let _total = buf.bytes.len();
                proof { fs.lemma_size_bound(ino as nat); }
                let limit = fill_limit_of(&buf.lens);
                proof { lemma_fill_limit_le(buf.lens@); }
                let got = fs.read_at(ino, self.offset, limit);
                let ghost data0 = buf.bytes@;
                let mut j: usize = 0;
                while j < got.len()
                    invariant
                        j <= got@.len(),
                        got@.len() <= data0.len(),
                        buf.bytes@ == got@.take(j as int) + data0.skip(j as int),
                        buf.lens@ == old(buf).lens@,
                    decreases got@.len() - j,
                {
                    buf.bytes.set(j, got[j]);
                    j = j + 1;
                    assert(buf.bytes@ =~= got@.take(j as int) + data0.skip(j as int));
                }
                assert(got@.take(j as int) =~= got@);
                self.offset = self.offset + got.len();
                got.len() as isize
            },
        }
    }

    /// Writes all of `buf` into the file at the handle's offset and moves the
    /// offset past it. -1 for a handle on no file.
    pub fn write_file(&mut self, fs: &mut FileSystem, buf: &UserBuffer) -> (r: isize)
        requires
            old(fs).wf(),
            buf.wf(),
            old(self).inode is Some ==> {
                &&& old(fs)@.data.contains_key(old(self).inode->Some_0 as nat)
                &&& old(self).offset + buf.data().len() <= MAX_FILE_SIZE
            },
        ensures
            final(fs).wf(),
            old(self).inode is None ==> r == -1 && *final(self) == *old(self) && final(fs)@ == old(fs)@,
            old(self).inode is Some ==> {
                let ino = old(self).inode->Some_0 as nat;
                &&& r == buf.data().len()
                &&& *final(self) == (FileHandle { offset: (old(self).offset + buf.data().len()) as usize, ..*old(self) })
                &&& final(fs)@.dir == old(fs)@.dir
                &&& final(fs)@.data == old(fs)@.data.insert(
                    ino,
                    write_spec(old(fs)@.data[ino], old(self).offset as int, buf.data()),
                )
            },
    {
        match self.inode {
            None => -1,
            Some(ino) => {
                let n = fs.write_at(ino, self.offset, &buf.bytes);
                self.offset = self.offset + n;
                n as isize
            },
        }
    }
}

impl FileHandle {
    /// Reads into `buf`: from the pipe's ring in `pipes` for a pipe end (as
    /// `read_pipe`), else from the file (as `read_file`).
    pub fn read(&mut self, fs: &FileSystem, pipes: &mut Vec<PipeRingBuffer>, buf: &mut UserBuffer) -> (r: isize)
        requires
            fs.wf(),
            old(buf).wf(),
            old(self).pipe ==> {
                &&& old(self).read
                &&& old(self).buffer is Some
                &&& old(self).buffer->Some_0 < old(pipes)@.len()
                &&& old(pipes)@[old(self).buffer->Some_0 as int].wf()
            },
            !old(self).pipe && old(self).inode is Some ==> fs@.data.contains_key(old(self).inode->Some_0 as nat),
        ensures
            final(buf).wf(),
            final(buf).lens() == old(buf).lens(),
            old(self).pipe ==> {
                let b = old(self).buffer->Some_0 as int;
                let ring0 = old(pipes)@[b];
                let ring1 = final(pipes)@[b];
                &&& *final(self) == *old(self)
                &&& final(pipes)@.len() == old(pipes)@.len()
                &&& forall|j: int| 0 <= j < old(pipes)@.len() && j != b ==> #[trigger] final(pipes)@[j] == old(pipes)@[j]
                &&& ring1.wf()
                &&& ring1.open_write_ends() == ring0.open_write_ends()
                &&& (r as int, ring1@, final(buf).data()) == pipe_read_spec(ring0@, ring0.open_write_ends() == 0, old(buf).data())
            },
            !old(self).pipe ==> final(pipes)@ == old(pipes)@,
            !old(self).pipe && old(self).inode is None ==> r == -1 && *final(self) == *old(self)
                && final(buf).data() == old(buf).data(),
            !old(self).pipe && old(self).inode is Some ==> {
                let d = fs@.data[old(self).inode->Some_0 as nat];
                let got = read_spec(d, old(self).offset as int, fill_limit(old(buf).lens()) as int);
                &&& r == got.len()
                &&& *final(self) == (FileHandle { offset: (old(self).offset + got.len()) as usize, ..*old(self) })
                &&& final(buf).data() == got + old(buf).data().skip(got.len() as int)
            },
    {
        if self.pipe {
            let b = match self.buffer {
                Some(b) => b,
                None => { return -1; },
            };
            let ghost p0 = pipes@;
            let mut ring = pipes.remove(b);
            let r = FileHandle::read_pipe(&mut ring, buf);
            pipes.insert(b, ring);
            proof {
                assert forall|j: int| 0 <= j < p0.len() && j != b implies #[trigger] pipes@[j] == p0[j] by {}
            }
            r
        } else {
            self.read_file(fs, buf)
        }
    }

    /// Writes `buf`: into the pipe's ring in `pipes` for a pipe end (as
    /// `write_pipe`), else into the file (as `write_file`).
    pub fn write(&mut self, fs: &mut FileSystem, pipes: &mut Vec<PipeRingBuffer>, buf: &UserBuffer) -> (r: isize)
        requires
            old(fs).wf(),
            buf.wf(),
            old(self).pipe ==> {
                &&& old(self).write
                &&& old(self).buffer is Some
                &&& old(self).buffer->Some_0 < old(pipes)@.len()
                &&& old(pipes)@[old(self).buffer->Some_0 as int].wf()
            },
            !old(self).pipe && old(self).inode is Some ==> {
                &&& old(fs)@.data.contains_key(old(self).inode->Some_0 as nat)
                &&& old(self).offset + buf.data().len() <= MAX_FILE_SIZE
            },
        ensures
            final(fs).wf(),
            old(self).pipe ==> {
                let b = old(self).buffer->Some_0 as int;
                let ring0 = old(pipes)@[b];
                let ring1 = final(pipes)@[b];
                &&& *final(self) == *old(self)
                &&& final(fs)@ == old(fs)@
                &&& final(pipes)@.len() == old(pipes)@.len()
                &&& forall|j: int| 0 <= j < old(pipes)@.len() && j != b ==> #[trigger] final(pipes)@[j] == old(pipes)@[j]
                &&& ring1.wf()
                &&& ring1.open_write_ends() == ring0.open_write_ends()
                &&& (r as int, ring1@) == pipe_write_spec(ring0@, buf.data())
            },
            !old(self).pipe ==> final(pipes)@ == old(pipes)@,
            !old(self).pipe && old(self).inode is None ==> r == -1 && *final(self) == *old(self) && final(fs)@ == old(fs)@,
            !old(self).pipe && old(self).inode is Some ==> {
                let ino = old(self).inode->Some_0 as nat;
                &&& r == buf.data().len()
                &&& *final(self) == (FileHandle { offset: (old(self).offset + buf.data().len()) as usize, ..*old(self) })
                &&& final(fs)@.dir == old(fs)@.dir
                &&& final(fs)@.data == old(fs)@.data.insert(
                    ino,
                    write_spec(old(fs)@.data[ino], old(self).offset as int, buf.data()),
                )
            },
    {
        if self.pipe {
            let b = match self.buffer {
                Some(b) => b,
                None => { return -1; },
            };
            let ghost p0 = pipes@;
            let mut ring = pipes.remove(b);
            let r = FileHandle::write_pipe(&mut ring, buf);
            pipes.insert(b, ring);
            proof {
                assert forall|j: int| 0 <= j < p0.len() && j != b implies #[trigger] pipes@[j] == p0[j] by {}
            }
            r
        } else {
            self.write_file(fs, buf)
        }
    }
}

/// Bytes leave a pipe in the order they went in, none lost or repeated, for
/// any chunking: if what was read so far followed by what the ring holds is
/// what was written so far, a write of `data` and a read into a buffer
/// holding `data` each keep it so, counting what they moved.
pub proof fn lemma_pipe_order(read: Seq<u8>, ring: Seq<u8>, written: Seq<u8>, data: Seq<u8>, writers_gone: bool)
    requires
        read + ring == written,
        ring.len() <= RING_BUFFER_SIZE,
    ensures
        ({
            let (n, after) = pipe_write_spec(ring, data);
            n >= 0 ==> read + after == written + data.take(n)
        }),
        ({
            let (n, after, got) = pipe_read_spec(ring, writers_gone, data);
            n >= 0 ==> (read + got.take(n)) + after == written
        }),
{
    let (n, after) = pipe_write_spec(ring, data);
    if n >= 0 {
        assert(read + after =~= written + data.take(n));
    }
    let (m, rest, got) = pipe_read_spec(ring, writers_gone, data);
    if ring.len() > 0 {
        assert(got.take(m) =~= ring.take(m));
        assert((read + got.take(m)) + rest =~= written);
    } else if m >= 0 {
        assert(got.take(m) =~= Seq::<u8>::empty());
        assert((read + got.take(m)) + rest =~= written);
    }
}

/// With no empty segment, a file read may fill the whole buffer.
pub proof fn lemma_fill_limit_full(lens: Seq<usize>)
    requires
        forall|i: int| 0 <= i < lens.len() ==> #[trigger] lens[i] > 0,
    ensures
        fill_limit(lens) == total_len(lens),
    decreases lens.len(),
{
    if lens.len() > 0 {
        assert forall|i: int| 0 <= i < lens.skip(1).len() implies #[trigger] lens.skip(1)[i] > 0 by {
            assert(lens.skip(1)[i] == lens[i + 1]);
        }
        lemma_fill_limit_full(lens.skip(1));
        lemma_total_len_front(lens);
    }
}

/// A file created (or truncated) and written whole from its start is read
/// back whole from its start into a buffer with no empty segment that is
/// at least as long.
pub proof fn lemma_file_round_trip(b: Seq<u8>, lens: Seq<usize>)
    requires
        forall|i: int| 0 <= i < lens.len() ==> #[trigger] lens[i] > 0,
        total_len(lens) >= b.len(),
    ensures
        read_spec(write_spec(Seq::<u8>::empty(), 0, b), 0, fill_limit(lens) as int) == b,
{
    lemma_fill_limit_full(lens);
    let w = write_spec(Seq::<u8>::empty(), 0, b);
    assert(w =~= b);
    if b.len() > 0 {
        assert(read_spec(w, 0, fill_limit(lens) as int) =~= b);
    } else {
        assert(read_spec(w, 0, fill_limit(lens) as int) =~= b);
    }
}

proof fn lemma_fill_limit_le(lens: Seq<usize>)
    ensures
        fill_limit(lens) <= total_len(lens),
    decreases lens.len(),
{
    if lens.len() > 0 && lens[0] != 0 {
        lemma_fill_limit_le(lens.skip(1));
        lemma_total_len_front(lens);
    }
}

proof fn lemma_total_len_front(lens: Seq<usize>)
    requires
        lens.len() > 0,
    ensures
        total_len(lens) == lens[0] + total_len(lens.skip(1)),
    decreases lens.len(),
{
    if lens.len() > 1 {
        lemma_total_len_front(lens.drop_last());
        assert(lens.drop_last().skip(1) =~= lens.skip(1).drop_last());
    } else {
        assert(lens.drop_last() =~= Seq::<usize>::empty());
        assert(lens.skip(1) =~= Seq::<usize>::empty());
    }
}

fn fill_limit_of(lens: &Vec<usize>) -> (r: usize)
    requires
        total_len(lens@) <= usize::MAX,
    ensures
        r == fill_limit(lens@),
{
    let mut n: usize = 0;
    let mut i: usize = 0;
    proof {
        lemma_fill_limit_le(lens@);
        assert(lens@.skip(0) =~= lens@);
    }
    while i < lens.len() && lens[i] != 0
        invariant
            i <= lens@.len(),
            n + fill_limit(lens@.skip(i as int)) == fill_limit(lens@),
            fill_limit(lens@) <= usize::MAX,
        decreases lens@.len() - i,
    {
        assert(lens@.skip(i as int).skip(1) =~= lens@.skip(i + 1));
        n = n + lens[i];
        i = i + 1;
    }
    n
}

impl FileSystem {
    /// Opens the file `name`. With `CREATE` the file is made if missing and
    /// emptied if present; without it a missing file gives `None`, and
    /// `TRUNC` empties a present one. The handle starts at offset 0 with the
    /// access that the flags grant.
    pub fn open(&mut self, name: &Vec<u8>, flags: OpenFlags) -> (r: Option<FileHandle>)
        requires
            old(self).wf(),
        ensures
            final(self).wf(),
            ({
                let (rd, wr) = access(flags.bits_spec());
                let create = flags.bits_spec() & CREATE == CREATE;
                let trunc = flags.bits_spec() & TRUNC == TRUNC;
                let present = old(self)@.dir.contains_key(name@);
                &&& (r is None <==> !create && !present)
                &&& r is None ==> final(self)@ == old(self)@
                &&& r is Some ==> {
                    let ino = r->Some_0.inode->Some_0;
                    &&& r->Some_0 == FileHandle { inode: Some(ino), read: rd, write: wr, offset: 0, pipe: false, buffer: None }
                    &&& final(self)@.dir.contains_key(name@)
                    &&& final(self)@.dir[name@] == ino as nat
                    &&& present ==> {
                        &&& ino as nat == old(self)@.dir[name@]
                        &&& final(self)@.dir == old(self)@.dir
                        &&& final(self)@.data == if create || trunc {
                            old(self)@.data.insert(ino as nat, Seq::<u8>::empty())
                        } else {
                            old(self)@.data
                        }
                    }
                    &&& !present ==> {
                        &&& !old(self)@.data.contains_key(ino as nat)
                        &&& final(self)@.dir == old(self)@.dir.insert(name@, ino as nat)
                        &&& final(self)@.data == old(self)@.data.insert(ino as nat, Seq::<u8>::empty())
                    }
                }
            }),
    {
        let (rd, wr) = flags.read_write();
        if flags.contains(CREATE) {
            match self.find(name) {
                Some(ino) => {
                    self.clear(ino);
                    Some(FileHandle::new(rd, wr, ino))
                },
                None => {
                    let ino = self.create(name);
                    Some(FileHandle::new(rd, wr, ino))
                },
            }
        } else {
            match self.find(name) {
                Some(ino) => {
                    if flags.contains(TRUNC) {
                        self.clear(ino);
                    }
                    Some(FileHandle::new(rd, wr, ino))
                },
                None => None,
            }
        }
    }
}

} // verus!
