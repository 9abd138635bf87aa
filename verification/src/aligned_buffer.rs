//! The chunked input buffer. It owns the backing bytes and a consume
//! cursor, and always presents the scanner with exactly 64 contiguous
//! bytes starting at the cursor, zero-padded past the valid region so the
//! classifier sees no false structural hits. Reading the bytes out of an
//! input source happens before construction; the buffer itself only
//! tracks the valid region and the cursor.

use vstd::prelude::*;

verus! {

/// Number of bytes in one chunk handed to the classifier.
pub const CHUNK_SIZE: usize = 64;

pub struct AlignedBuffer {
    buffer: Vec<u8>,
    start: usize,
    valid_bytes: usize,
}

impl AlignedBuffer {
    /// The backing bytes.
    pub closed spec fn data(&self) -> Seq<u8> {
        self.buffer@
    }

    /// The consume cursor: index of the next byte to classify.
    pub closed spec fn pos(&self) -> int {
        self.start as int
    }

    /// The cursor never passes the valid region, which spans the whole
    /// backing.
    pub closed spec fn wf(&self) -> bool {
        self.start <= self.valid_bytes && self.valid_bytes == self.buffer@.len()
    }

    pub fn new(data: Vec<u8>) -> (b: AlignedBuffer)
        ensures
            b.wf(),
            b.data() == data@,
            b.pos() == 0,
    {
        let mut b = AlignedBuffer { buffer: data, start: 0, valid_bytes: 0 };
        b.fill_buf_initial();
        b
    }

    /// Marks the whole backing as valid: the one-time fill performed at
    /// construction, once the input source has been drained into the
    /// backing.
    pub fn fill_buf_initial(&mut self)
        requires
            old(self).pos() == 0,
        ensures
            final(self).wf(),
            final(self).data() == old(self).data(),
            final(self).pos() == 0,
    {
        self.valid_bytes = self.buffer.len();
    }

    /// The 64 bytes starting at the cursor, zero-padded past the valid
    /// region, together with the count of valid bytes among them.
    pub fn get_chunk(&self) -> (r: (Vec<u8>, usize))
        requires
            self.wf(),
        ensures
            r.0@.len() == 64,
            r.1 <= 64,
            r.1 as int == if self.data().len() - self.pos() < 64 {
                self.data().len() - self.pos()
            } else {
                64
            },
            forall|i: int| 0 <= i < r.1 ==> r.0@[i] == self.data()[self.pos() + i],
            forall|i: int| r.1 <= i < 64 ==> r.0@[i] == 0u8,
    {
        let remaining = self.valid_bytes - self.start;
        let n = if remaining < CHUNK_SIZE {
            remaining
        } else {
            CHUNK_SIZE
        };
        let mut chunk: Vec<u8> = Vec::new();
        let mut i: usize = 0;
        while i < n
            invariant
                self.wf(),
                i <= n,
                n <= 64,
                n as int <= self.data().len() - self.pos(),
                chunk@.len() == i as int,
                forall|j: int| 0 <= j < i ==> chunk@[j] == self.data()[self.pos() + j],
            decreases n - i,
        {
            chunk.push(self.buffer[self.start + i]);
            i = i + 1;
        }
        while i < CHUNK_SIZE
            invariant
                n <= i <= 64,
                chunk@.len() == i as int,
                forall|j: int| 0 <= j < n ==> chunk@[j] == self.data()[self.pos() + j],
                forall|j: int| n <= j < i ==> chunk@[j] == 0u8,
            decreases CHUNK_SIZE - i,
        {
            chunk.push(0u8);
            i = i + 1;
        }
        (chunk, n)
    }

    /// Advances the cursor by `amt` classified bytes; the caller
    /// guarantees the advance stays within the valid region.
    pub fn consume(&mut self, amt: usize)
        requires
            old(self).wf(),
            old(self).pos() + amt <= old(self).data().len(),
        ensures
            final(self).wf(),
            final(self).data() == old(self).data(),
            final(self).pos() == old(self).pos() + amt,
    {
        self.start = self.start + amt;
    }

    /// Bounds that well-formedness places on the cursor and the
    /// backing length.
    pub proof fn lemma_len_bound(&self)
        requires
            self.wf(),
        ensures
            self.data().len() <= usize::MAX,
            0 <= self.pos() <= self.data().len(),
    {
    }

    /// The current cursor position.
    pub fn position(&self) -> (r: usize)
        ensures
            r as int == self.pos(),
    {
        self.start
    }

    /// A copy of the bytes in `[from, to)` of the backing: the
    /// materialized slice of an in-progress or finished record.
    pub fn line_slice(&self, from: usize, to: usize) -> (r: Vec<u8>)
        requires
            self.wf(),
            from <= to,
            to as int <= self.data().len(),
        ensures
            r@ == self.data().subrange(from as int, to as int),
    {
        let mut out: Vec<u8> = Vec::new();
        let mut i: usize = from;
        while i < to
            invariant
                self.wf(),
                from <= i <= to,
                to as int <= self.data().len(),
                out@.len() == i - from,
                forall|j: int| 0 <= j < i - from ==> out@[j] == self.data()[from + j],
            decreases to - i,
        {
            out.push(self.buffer[i]);
            i = i + 1;
        }
        proof {
            assert(out@ =~= self.data().subrange(from as int, to as int));
        }
        out
    }
}

} // verus!
