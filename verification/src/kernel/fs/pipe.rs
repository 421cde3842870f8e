//! Pipes: a bounded byte queue shared by a read end and a write end.
use vstd::prelude::*;

verus! {

/// Capacity of a pipe, in bytes.
pub const RING_BUFFER_SIZE: usize = 32;

/// Whether the ring buffer is full, empty, or neither.
#[derive(PartialEq, Eq, Structural, Clone, Copy)]
pub enum RingBufferStatus {
    FULL,
    EMPTY,
    NORMAL,
}

/// The bytes of a pipe, in a circular array: they run from `head` up to
/// `tail` (exclusive), wrapping around; `head == tail` means empty or full,
/// as `status` says.
pub struct PipeRingBuffer {
    arr: [u8; 32],
    head: usize,
    tail: usize,
    status: RingBufferStatus,
    write_end: Option<bool>,
}

impl View for PipeRingBuffer {
    type V = Seq<u8>;

    /// The bytes waiting to be read, oldest first.
    closed spec fn view(&self) -> Seq<u8> {
        let n = self.count();
        Seq::new(n, |i: int| self.arr@[(self.head + i) % (RING_BUFFER_SIZE as int)])
    }
}

impl PipeRingBuffer {
    /// Number of bytes held.
    closed spec fn count(&self) -> nat {
        if self.status == RingBufferStatus::EMPTY {
            0
        } else if self.status == RingBufferStatus::FULL {
            RING_BUFFER_SIZE as nat
        } else if self.tail > self.head {
            (self.tail - self.head) as nat
        } else {
            (self.tail + RING_BUFFER_SIZE - self.head) as nat
        }
    }

    /// Positions are inside the array, and the status agrees with them.
    pub closed spec fn wf(&self) -> bool {
        &&& self.head < RING_BUFFER_SIZE
        &&& self.tail < RING_BUFFER_SIZE
        &&& self.status == RingBufferStatus::NORMAL ==> self.head != self.tail
        &&& self.status != RingBufferStatus::NORMAL ==> self.head == self.tail
    }

    /// Whether a write end was registered, and if so whether it is still open.
    pub closed spec fn write_end_state(&self) -> Option<bool> {
        self.write_end
    }

    /// The buffer never holds more than its capacity.
    pub proof fn lemma_bounded(&self)
        requires
            self.wf(),
        ensures
            self@.len() <= RING_BUFFER_SIZE,
    {
    }

    /// An empty buffer with no write end registered.
    pub fn new() -> (r: Self)
        ensures
            r.wf(),
            r@ == Seq::<u8>::empty(),
            r.write_end_state() is None,
    {
        let r = Self { arr: [0u8; 32], head: 0, tail: 0, status: RingBufferStatus::EMPTY, write_end: None };
        assert(r@ =~= Seq::<u8>::empty());
        r
    }

    /// Registers the write end of the pipe, which is open.
    pub fn set_write_end(&mut self)
        ensures
            final(self)@ == old(self)@,
            final(self).wf() == old(self).wf(),
            final(self).write_end_state() == Some(true),
    {
        self.write_end = Some(true);
    }

    /// Records that the write end of the pipe has gone away.
    pub fn close_write_end(&mut self)
        requires
            old(self).write_end_state() is Some,
        ensures
            final(self)@ == old(self)@,
            final(self).wf() == old(self).wf(),
            final(self).write_end_state() == Some(false),
    {
        self.write_end = Some(false);
    }

    /// Takes the oldest byte out of the buffer, which must not be empty.
    pub fn read_byte(&mut self) -> (c: u8)
        requires
            old(self).wf(),
            old(self)@.len() > 0,
        ensures
            final(self).wf(),
            c == old(self)@[0],
            final(self)@ == old(self)@.drop_first(),
            final(self).write_end_state() == old(self).write_end_state(),
    {
        let ghost q = self@;
        self.status = RingBufferStatus::NORMAL;
        let c = self.arr[self.head];
        self.head = (self.head + 1) % RING_BUFFER_SIZE;
        if self.head == self.tail {
            self.status = RingBufferStatus::EMPTY;
        }
        proof {
            assert(self.count() + 1 == q.len());
            assert forall|i: int| 0 <= i < self@.len() implies self@[i] == q.drop_first()[i] by {
                assert((old(self).head + (i + 1)) % 32 == (self.head + i) % 32);
            }
            assert(self@ =~= q.drop_first());
        }
        c
    }

    /// Appends `byte` to the buffer, which must not be full.
    pub fn write_byte(&mut self, byte: u8)
        requires
            old(self).wf(),
            old(self)@.len() < RING_BUFFER_SIZE,
        ensures
            final(self).wf(),
            final(self)@ == old(self)@.push(byte),
            final(self).write_end_state() == old(self).write_end_state(),
    {
        let ghost q = self@;
        self.status = RingBufferStatus::NORMAL;
        self.arr[self.tail] = byte;
        self.tail = (self.tail + 1) % RING_BUFFER_SIZE;
        if self.tail == self.head {
            self.status = RingBufferStatus::FULL;
        }
        proof {
            assert(self.count() == q.len() + 1);
            assert forall|i: int| 0 <= i < self@.len() implies self@[i] == q.push(byte)[i] by {
                if i < q.len() {
                    assert((self.head + i) % 32 != old(self).tail);
                }
            }
            assert(self@ =~= q.push(byte));
        }
    }

    /// Number of bytes that can be read now.
    pub fn available_read(&self) -> (r: usize)
        requires
            self.wf(),
        ensures
            r == self@.len(),
    {
        if self.status == RingBufferStatus::EMPTY {
            0
        } else {
            if self.tail > self.head {
                self.tail - self.head
            } else {
                self.tail + RING_BUFFER_SIZE - self.head
            }
        }
    }

    /// Number of bytes that can be written now.
    pub fn available_write(&self) -> (r: usize)
        requires
            self.wf(),
        ensures
            r == RING_BUFFER_SIZE - self@.len(),
    {
        if self.status == RingBufferStatus::FULL {
            0
        } else {
            RING_BUFFER_SIZE - self.available_read()
        }
    }

    /// Whether the write end of the pipe is gone; one must have been registered.
    pub fn all_write_ends_closed(&self) -> (r: bool)
        requires
            self.write_end_state() is Some,
        ensures
            r == !self.write_end_state().unwrap(),
    {
        match self.write_end {
            Some(open) => !open,
            None => true,
        }
    }
}

/// One end of a pipe over the shared buffer handle `B`: the read end may only
/// be read, the write end only written.
pub struct Pipe<B> {
    readable: bool,
    writable: bool,
    buffer: B,
}

/// What a pipe end does next when a read or write cannot go on.
#[derive(PartialEq, Eq, Structural, Clone, Copy)]
pub enum PipeStep {
    /// The transfer is over, with this many bytes moved in all.
    Done(usize),
    /// The transfer goes on with this many bytes moved so far, once other
    /// tasks have run: the ring had no bytes (to read) or no room (to write).
    Wait(usize),
}

impl<B> Pipe<B> {
    /// Whether this end can be read.
    pub closed spec fn spec_readable(&self) -> bool {
        self.readable
    }

    /// Whether this end can be written.
    pub closed spec fn spec_writable(&self) -> bool {
        self.writable
    }

    /// The shared buffer handle.
    pub closed spec fn spec_buffer(&self) -> B {
        self.buffer
    }

    /// The read end of a pipe over `buffer`.
    pub fn read_end_with_buffer(buffer: B) -> (r: Self)
        ensures
            r.spec_readable(),
            !r.spec_writable(),
            r.spec_buffer() == buffer,
    {
        Self { readable: true, writable: false, buffer }
    }

    /// The write end of a pipe over `buffer`.
    pub fn write_end_with_buffer(buffer: B) -> (r: Self)
        ensures
            !r.spec_readable(),
            r.spec_writable(),
            r.spec_buffer() == buffer,
    {
        Self { readable: false, writable: true, buffer }
    }

    /// Whether this end can be read.
    pub fn readable(&self) -> (r: bool)
        ensures
            r == self.spec_readable(),
    {
        self.readable
    }

    /// Whether this end can be written.
    pub fn writable(&self) -> (r: bool)
        ensures
            r == self.spec_writable(),
    {
        self.writable
    }

    /// The shared buffer handle.
    pub fn buffer(&self) -> (r: &B)
        ensures
            *r == self.spec_buffer(),
    {
        &self.buffer
    }

    /// One round of a read into `buf`, of which `already_read` bytes are filled:
    /// moves the bytes available in `ring`, oldest first, into `buf` from
    /// `already_read` on, as long as there is room.
    ///
    /// The read is done when the round filled `buf`, or when the ring is left
    /// empty and the write end is gone; otherwise (the ring is left empty and
    /// the write end is still open) the reader must wait for more bytes and
    /// then go on.
    pub fn read_step(&self, ring: &mut PipeRingBuffer, buf: &mut [u8], already_read: usize) -> (r: PipeStep)
        requires
            self.spec_readable(),
            old(ring).wf(),
            old(ring).write_end_state() is Some,
            already_read <= old(buf)@.len(),
        ensures
            final(ring).wf(),
            final(ring).write_end_state() == old(ring).write_end_state(),
            final(buf)@.len() == old(buf)@.len(),
            ({
                let n = if old(ring)@.len() < old(buf)@.len() - already_read {
                    old(ring)@.len()
                } else {
                    (old(buf)@.len() - already_read) as nat
                };
                &&& final(ring)@ == old(ring)@.subrange(n as int, old(ring)@.len() as int)
                &&& final(buf)@ == old(buf)@.subrange(0, already_read as int) + old(ring)@.subrange(0, n as int)
                    + old(buf)@.subrange(already_read + n, old(buf)@.len() as int)
                &&& r == if old(ring)@.len() > 0 && already_read + n == old(buf)@.len() {
                    PipeStep::Done((already_read + n) as usize)
                } else if old(ring).write_end_state() == Some(true) {
                    PipeStep::Wait((already_read + n) as usize)
                } else {
                    PipeStep::Done((already_read + n) as usize)
                }
            }),
    {
        let want_to_read = buf.len();
        let loop_read = ring.available_read();
        if loop_read == 0 {
            proof {
                assert(buf@ =~= old(buf)@.subrange(0, already_read as int) + old(ring)@.subrange(0, 0)
                    + old(buf)@.subrange(already_read as int, old(buf)@.len() as int));
                assert(ring@ =~= old(ring)@.subrange(0, 0));
            }
            if ring.all_write_ends_closed() {
                return PipeStep::Done(already_read);
            }
            return PipeStep::Wait(already_read);
        }
        let mut done = already_read;
        let ghost q = ring@;
        let ghost b0 = buf@;
        while done < want_to_read && ring.available_read() > 0
            invariant
                ring.wf(),
                ring.write_end_state() == old(ring).write_end_state(),
                q == old(ring)@,
                b0 == old(buf)@,
                want_to_read == b0.len(),
                buf@.len() == b0.len(),
                already_read <= done <= want_to_read,
                done - already_read <= q.len(),
                ring@ == q.subrange(done - already_read, q.len() as int),
                buf@ == b0.subrange(0, already_read as int) + q.subrange(0, done - already_read)
                    + b0.subrange(done as int, b0.len() as int),
            decreases want_to_read - done,
        {
            let ghost k = done - already_read;
            let c = ring.read_byte();
            buf[done] = c;
            done += 1;
            proof {
                assert(c == q[k]);
                assert(ring@ =~= q.subrange(done - already_read, q.len() as int));
                assert(buf@ =~= b0.subrange(0, already_read as int) + q.subrange(0, done - already_read)
                    + b0.subrange(done as int, b0.len() as int));
            }
        }
        proof {
            let n = done - already_read;
            if ring@.len() == 0 {
                assert(n == q.len());
            }
        }
        if done == want_to_read {
            return PipeStep::Done(done);
        }
        // The round emptied the ring before filling `buf`.
        if ring.all_write_ends_closed() {
            PipeStep::Done(done)
        } else {
            PipeStep::Wait(done)
        }
    }

    /// One round of a write of `buf`, of which `already_written` bytes are
    /// written: appends bytes of `buf` from `already_written` on to `ring`, as
    /// long as it has room.
    ///
    /// The write is done when all of `buf` is written; otherwise (the ring is
    /// full, or was full to begin with) the writer must wait for room and then
    /// go on.
    pub fn write_step(&self, ring: &mut PipeRingBuffer, buf: &[u8], already_written: usize) -> (r: PipeStep)
        requires
            self.spec_writable(),
            old(ring).wf(),
            already_written <= buf@.len(),
        ensures
            final(ring).wf(),
            final(ring).write_end_state() == old(ring).write_end_state(),
            ({
                let room = RING_BUFFER_SIZE - old(ring)@.len();
                let n = if room < buf@.len() - already_written {
                    room
                } else {
                    buf@.len() - already_written
                };
                &&& final(ring)@ == old(ring)@ + buf@.subrange(already_written as int, already_written + n)
                &&& r == if room > 0 && already_written + n == buf@.len() {
                    PipeStep::Done((already_written + n) as usize)
                } else {
                    PipeStep::Wait((already_written + n) as usize)
                }
            }),
    {
        proof {
            ring.lemma_bounded();
        }
        let want_to_write = buf.len();
        let loop_write = ring.available_write();
        if loop_write == 0 {
            assert(ring@ =~= old(ring)@ + buf@.subrange(already_written as int, already_written as int));
            return PipeStep::Wait(already_written);
        }
        let mut done = already_written;
        let ghost q = ring@;
        while done < want_to_write && ring.available_write() > 0
            invariant
                ring.wf(),
                ring.write_end_state() == old(ring).write_end_state(),
                q == old(ring)@,
                q.len() <= RING_BUFFER_SIZE,
                want_to_write == buf@.len(),
                already_written <= done <= want_to_write,
                done - already_written <= RING_BUFFER_SIZE - q.len(),
                ring@ == q + buf@.subrange(already_written as int, done as int),
            decreases want_to_write - done,
        {
            ring.write_byte(buf[done]);
            done += 1;
            assert(ring@ =~= q + buf@.subrange(already_written as int, done as int));
        }
        if done == want_to_write {
            PipeStep::Done(done)
        } else {
            // The round filled the ring before all of `buf` was written.
            PipeStep::Wait(done)
        }
    }
}

/// A new pipe over the buffer handle `buffer`: its empty ring buffer, with
/// the write end registered and open, and its read and write ends.
pub fn make_pipe<B: Copy>(buffer: B) -> (r: (PipeRingBuffer, Pipe<B>, Pipe<B>))
    ensures
        r.0.wf(),
        r.0@ == Seq::<u8>::empty(),
        r.0.write_end_state() == Some(true),
        r.1.spec_readable() && !r.1.spec_writable() && r.1.spec_buffer() == buffer,
        !r.2.spec_readable() && r.2.spec_writable() && r.2.spec_buffer() == buffer,
{
    let mut ring = PipeRingBuffer::new();
    let read_end = Pipe::read_end_with_buffer(buffer);
    let write_end = Pipe::write_end_with_buffer(buffer);
    ring.set_write_end();
    (ring, read_end, write_end)
}

/// The bytes `k` reads take out of a buffer holding `q`, in order.
pub open spec fn drained(q: Seq<u8>, k: nat) -> Seq<u8>
    decreases k,
{
    if k == 0 || q.len() == 0 {
        Seq::empty()
    } else {
        seq![q[0]] + drained(q.drop_first(), (k - 1) as nat)
    }
}

/// The buffer is first in, first out: after bytes `w` are written behind the
/// bytes `q` it holds, reading as many bytes as it then holds gives `q` and
/// then `w`.
pub proof fn law_pipe_fifo(q: Seq<u8>, w: Seq<u8>)
    ensures
        drained(q + w, (q.len() + w.len()) as nat) == q + w,
    decreases q.len() + w.len(),
{
    let s = q + w;
    if s.len() > 0 {
        law_pipe_fifo(s.drop_first(), Seq::empty());
        assert(s.drop_first() + Seq::<u8>::empty() =~= s.drop_first());
        assert(seq![s[0]] + s.drop_first() =~= s);
    }
}

} // verus!
