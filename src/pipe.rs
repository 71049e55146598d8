use vstd::prelude::*;

use crate::file::FileHandle;

verus! {

/// Capacity of a pipe's ring buffer, in bytes.
pub const RING_BUFFER_SIZE: usize = 32;

/// Fill state of a ring buffer: with `head == tail` it tells empty from full.
#[derive(Clone, Copy, PartialEq, Eq, Structural, Debug)]
pub enum RingBufferStatus {
    Full,
    Empty,
    Normal,
}

/// The shared buffer of one pipe: a circular array of bytes, plus the number
/// of write-end handles that are still open (readers see end of file once it
/// drops to zero and the buffer is drained).
pub struct PipeRingBuffer {
    arr: Vec<u8>,
    head: usize,
    tail: usize,
    status: RingBufferStatus,
    write_ends: usize,
}

impl View for PipeRingBuffer {
    type V = Seq<u8>;

    /// The bytes waiting to be read, oldest first.
    closed spec fn view(&self) -> Seq<u8> {
        Seq::new(self.count(), |i: int| self.arr@[(self.head + i) % (RING_BUFFER_SIZE as int)])
    }
}

impl PipeRingBuffer {
    /// Well-formedness: `head == tail` exactly when the buffer is empty or full,
    /// and the status says which.
    pub closed spec fn wf(&self) -> bool {
        &&& self.arr@.len() == RING_BUFFER_SIZE
        &&& self.head < RING_BUFFER_SIZE
        &&& self.tail < RING_BUFFER_SIZE
        &&& (self.status == RingBufferStatus::Normal <==> self.head != self.tail)
    }

    /// Number of bytes held.
    pub closed spec fn count(&self) -> nat {
        if self.status == RingBufferStatus::Empty {
            0
        } else if self.tail > self.head {
            (self.tail - self.head) as nat
        } else {
            (self.tail + RING_BUFFER_SIZE - self.head) as nat
        }
    }

    /// The fill state.
    pub closed spec fn status_spec(&self) -> RingBufferStatus {
        self.status
    }

    /// Number of write-end handles still open.
    pub closed spec fn open_write_ends(&self) -> nat {
        self.write_ends as nat
    }

    proof fn lemma_view_len(&self)
        requires
            self.wf(),
        ensures
            self@.len() == self.count(),
            self.count() <= RING_BUFFER_SIZE,
            self.status == RingBufferStatus::Empty <==> self.count() == 0,
            self.status == RingBufferStatus::Full <==> self.count() == RING_BUFFER_SIZE,
    {
    }

    /// An empty buffer with no write end attached yet.
    pub fn new() -> (r: Self)
        ensures
            r.wf(),
            r@ == Seq::<u8>::empty(),
            r.status_spec() == RingBufferStatus::Empty,
            r.open_write_ends() == 0,
    {
        let mut arr: Vec<u8> = Vec::new();
        let mut i: usize = 0;
        while i < RING_BUFFER_SIZE
            invariant
                i <= RING_BUFFER_SIZE,
                arr@.len() == i,
            decreases RING_BUFFER_SIZE - i,
        {
            arr.push(0);
            i = i + 1;
        }
        let r = PipeRingBuffer { arr, head: 0, tail: 0, status: RingBufferStatus::Empty, write_ends: 0 };
        assert(r@ =~= Seq::<u8>::empty());
        r
    }

    /// Records that a write-end handle of this pipe was opened (created,
    /// duplicated or inherited by a child).
    pub fn set_write_end(&mut self)
        requires
            old(self).wf(),
            old(self).open_write_ends() < usize::MAX,
        ensures
            final(self).wf(),
            final(self)@ == old(self)@,
            final(self).status_spec() == old(self).status_spec(),
            final(self).open_write_ends() == old(self).open_write_ends() + 1,
    {
        self.write_ends = self.write_ends + 1;
    }

    /// Records that a write-end handle of this pipe was closed.
    pub fn release_write_end(&mut self)
        requires
            old(self).wf(),
            old(self).open_write_ends() > 0,
        ensures
            final(self).wf(),
            final(self)@ == old(self)@,
            final(self).status_spec() == old(self).status_spec(),
            final(self).open_write_ends() == old(self).open_write_ends() - 1,
    {
        self.write_ends = self.write_ends - 1;
    }

    /// Appends one byte; the buffer must not be full.
    pub fn write_byte(&mut self, byte: u8)
        requires
            old(self).wf(),
            old(self)@.len() < RING_BUFFER_SIZE,
        ensures
            final(self).wf(),
            final(self)@ == old(self)@.push(byte),
            final(self).open_write_ends() == old(self).open_write_ends(),
    {
        proof { self.lemma_view_len(); }
        let ghost before = self@;
        self.status = RingBufferStatus::Normal;
        let t = self.tail;
        self.arr.set(t, byte);
        self.tail = (self.tail + 1) % RING_BUFFER_SIZE;
        if self.tail == self.head {
            self.status = RingBufferStatus::Full;
        }
        assert(self.count() == before.len() + 1);
        assert forall|i: int| 0 <= i < before.len() implies #[trigger] self@[i] == before[i] by {
            assert((self.head + i) % (RING_BUFFER_SIZE as int) != t as int);
        }
        assert(self@ =~= before.push(byte));
    }

    /// Removes and returns the oldest byte; the buffer must not be empty.
    pub fn read_byte(&mut self) -> (c: u8)
        requires
            old(self).wf(),
            old(self)@.len() > 0,
        ensures
            final(self).wf(),
            c == old(self)@[0],
            final(self)@ == old(self)@.drop_first(),
            final(self).open_write_ends() == old(self).open_write_ends(),
    {
        proof { self.lemma_view_len(); }
        let ghost before = self@;
        self.status = RingBufferStatus::Normal;
        let c = self.arr[self.head];
        self.head = (self.head + 1) % RING_BUFFER_SIZE;
        if self.head == self.tail {
            self.status = RingBufferStatus::Empty;
        }
        assert(self.count() == before.len() - 1);
        assert forall|i: int| 0 <= i < before.len() - 1 implies #[trigger] self@[i] == before[i + 1] by {
            assert((self.head + i) % (RING_BUFFER_SIZE as int)
                == (old(self).head + (i + 1)) % (RING_BUFFER_SIZE as int));
        }
        assert(self@ =~= before.drop_first());
        c
    }

    /// Number of bytes that can be read now.
    pub fn available_read(&self) -> (r: usize)
        requires
            self.wf(),
        ensures
            r == self@.len(),
            r <= RING_BUFFER_SIZE,
    {
        proof { self.lemma_view_len(); }
        if self.status == RingBufferStatus::Empty {
            0
        } else if self.tail > self.head {
            self.tail - self.head
        } else {
            self.tail + RING_BUFFER_SIZE - self.head
        }
    }

    /// Number of bytes that can be written now.
    pub fn available_write(&self) -> (r: usize)
        requires
            self.wf(),
        ensures
            r == RING_BUFFER_SIZE - self@.len(),
    {
        proof { self.lemma_view_len(); }
        if self.status == RingBufferStatus::Full {
            0
        } else {
            RING_BUFFER_SIZE - self.available_read()
        }
    }

    /// Whether every write-end handle of this pipe has been closed.
    pub fn all_write_ends_closed(&self) -> (r: bool)
        ensures
            r == (self.open_write_ends() == 0),
    {
        self.write_ends == 0
    }
}

/// What can be read (`available_read`, the held bytes) plus what can be
/// written (`available_write`, the rest of the ring) always makes up the
/// whole ring: both are non-zero while the ring is in normal state, and one
/// is `RING_BUFFER_SIZE` and the other zero when it is empty or full.
pub proof fn lemma_available_sum(rb: &PipeRingBuffer)
    requires
        rb.wf(),
    ensures
        rb@.len() <= RING_BUFFER_SIZE,
        rb.status_spec() == RingBufferStatus::Empty ==> rb@.len() == 0,
        rb.status_spec() == RingBufferStatus::Full ==> rb@.len() == RING_BUFFER_SIZE,
        rb.status_spec() == RingBufferStatus::Normal ==> 0 < rb@.len() < RING_BUFFER_SIZE,
{
    rb.lemma_view_len();
}

/// Makes a pipe whose ring buffer will sit at index `buffer` of its owner's
/// table: an empty ring with its one write end open, and the read and write
/// ends that name it.
pub fn make_pipe(buffer: usize) -> (r: (PipeRingBuffer, FileHandle, FileHandle))
    ensures
        r.0.wf(),
        r.0@ == Seq::<u8>::empty(),
        r.0.open_write_ends() == 1,
        r.1 == FileHandle::read_end_spec(buffer),
        r.2 == FileHandle::write_end_spec(buffer),
{
    let mut ring = PipeRingBuffer::new();
    let read_end = FileHandle::read_end(buffer);
    let write_end = FileHandle::write_end(buffer);
    ring.set_write_end();
    (ring, read_end, write_end)
}

} // verus!
