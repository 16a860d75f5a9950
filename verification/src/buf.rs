use crate::ber::{encode_len, length_bytes};
use crate::error::SnmpError;
use vstd::prelude::*;
use vstd::slice::slice_subrange;

verus! {

/// Capacity of an encoding buffer, in bytes.
pub const BUFFER_SIZE: usize = 65536;

/// Encoding buffer which is filled from its end towards its start:
/// every push prepends bytes, so that a BER structure is written
/// from its last element to its first one and the length of an
/// enclosing structure is known when its header is pushed.
pub struct Buffer {
    data: Vec<u8>,
    pos: usize,
    bookmark: usize,
}

impl View for Buffer {
    type V = Seq<u8>;

    /// The bytes written so far, in order.
    closed spec fn view(&self) -> Seq<u8> {
        self.data@.subrange(self.pos as int, BUFFER_SIZE as int)
    }
}

impl Buffer {
    /// Internal consistency of the buffer.
    pub closed spec fn wf(self) -> bool {
        &&& self.data@.len() == BUFFER_SIZE
        &&& self.pos <= BUFFER_SIZE
    }

    /// Absolute position of the bookmark; prepending bytes leaves it in
    /// place, so it keeps pointing at the same written byte.
    pub closed spec fn mark(self) -> int {
        self.bookmark as int
    }

    /// Offset of the bookmark inside the written bytes.
    pub open spec fn spec_bookmark(self) -> int {
        self.mark() - (BUFFER_SIZE - self@.len())
    }

    /// The written bytes never exceed the capacity.
    pub proof fn lemma_bounded(self)
        requires
            self.wf(),
        ensures
            self@.len() <= BUFFER_SIZE,
    {
    }

    /// An empty buffer.
    pub fn new() -> (r: Buffer)
        ensures
            r.wf(),
            r@ == Seq::<u8>::empty(),
            r.spec_bookmark() == 0,
    {
        let r = Buffer { data: vec![0u8; BUFFER_SIZE], pos: BUFFER_SIZE, bookmark: BUFFER_SIZE };
        assert(r@ =~= Seq::<u8>::empty());
        r
    }

    /// Number of bytes written.
    pub fn len(&self) -> (r: usize)
        requires
            self.wf(),
        ensures
            r == self@.len(),
            r <= BUFFER_SIZE,
    {
        BUFFER_SIZE - self.pos
    }

    /// The bytes written.
    pub fn data(&self) -> (r: &[u8])
        requires
            self.wf(),
        ensures
            r@ == self@,
    {
        slice_subrange(self.data.as_slice(), self.pos, BUFFER_SIZE)
    }

    /// Drop all written bytes.
    pub fn reset(&mut self)
        requires
            old(self).wf(),
        ensures
            final(self).wf(),
            final(self)@ == Seq::<u8>::empty(),
            final(self).spec_bookmark() == 0,
    {
        self.pos = BUFFER_SIZE;
        self.bookmark = BUFFER_SIZE;
        assert(self@ =~= Seq::<u8>::empty());
    }

    /// Prepend a single byte.
    pub fn push_u8(&mut self, v: u8) -> (r: Result<(), SnmpError>)
        requires
            old(self).wf(),
        ensures
            final(self).wf(),
            final(self).mark() == old(self).mark(),
            r is Ok <==> old(self)@.len() + 1 <= BUFFER_SIZE,
            r is Ok ==> final(self)@ == seq![v] + old(self)@,
            r is Err ==> r == Err::<(), SnmpError>(SnmpError::OutOfBuffer) && final(self)@ == old(self)@,
    {
        if self.pos == 0 {
            return Err(SnmpError::OutOfBuffer);
        }
        let ghost before = self@;
        self.pos = self.pos - 1;
        self.data.set(self.pos, v);
        assert(self@ =~= seq![v] + before);
        Ok(())
    }

    /// Prepend a chunk of bytes.
    pub fn push(&mut self, chunk: &[u8]) -> (r: Result<(), SnmpError>)
        requires
            old(self).wf(),
        ensures
            final(self).wf(),
            final(self).mark() == old(self).mark(),
            r is Ok <==> old(self)@.len() + chunk@.len() <= BUFFER_SIZE,
            r is Ok ==> final(self)@ == chunk@ + old(self)@,
            r is Err ==> r == Err::<(), SnmpError>(SnmpError::OutOfBuffer) && final(self)@ == old(self)@,
    {
        let n = chunk.len();
        if n > self.pos {
            return Err(SnmpError::OutOfBuffer);
        }
        let ghost before = self@;
        let start = self.pos - n;
        let mut i: usize = 0;
        while i < n
            invariant
                n == chunk@.len(),
                start + n <= BUFFER_SIZE,
                self.data@.len() == BUFFER_SIZE,
                self.pos == start + n,
                self.bookmark == old(self).bookmark,
                before == self.data@.subrange(start + n, BUFFER_SIZE as int),
                i <= n,
                forall|k: int| 0 <= k < i ==> self.data@[start + k] == chunk@[k],
            decreases n - i,
        {
            self.data.set(start + i, chunk[i]);
            i = i + 1;
        }
        self.pos = start;
        assert(self@ =~= chunk@ + before);
        Ok(())
    }

    /// Prepend a BER length field.
    pub fn push_ber_len(&mut self, len: usize) -> (r: Result<(), SnmpError>)
        requires
            old(self).wf(),
        ensures
            final(self).wf(),
            final(self).mark() == old(self).mark(),
            r is Ok <==> old(self)@.len() + encode_len(len as nat).len() <= BUFFER_SIZE,
            r is Ok ==> final(self)@ == encode_len(len as nat) + old(self)@,
            r is Err ==> r == Err::<(), SnmpError>(SnmpError::OutOfBuffer) && final(self)@ == old(self)@,
    {
        let bytes = length_bytes(len);
        self.push(bytes.as_slice())
    }

    /// Prepend a BER header: a one-byte tag and a length field.
    pub fn push_tag_len(&mut self, tag: u8, len: usize) -> (r: Result<(), SnmpError>)
        requires
            old(self).wf(),
        ensures
            final(self).wf(),
            final(self).mark() == old(self).mark(),
            r is Ok <==> old(self)@.len() + 1 + encode_len(len as nat).len() <= BUFFER_SIZE,
            r is Ok ==> final(self)@ == seq![tag] + encode_len(len as nat) + old(self)@,
            r is Err ==> r == Err::<(), SnmpError>(SnmpError::OutOfBuffer) && final(self)@ == old(self)@,
    {
        let mut bytes = length_bytes(len);
        bytes.insert(0, tag);
        assert(bytes@ =~= seq![tag] + encode_len(len as nat));
        self.push(bytes.as_slice())
    }

    /// Prepend a complete primitive TLV: tag, length and value.
    pub fn push_tagged(&mut self, tag: u8, value: &[u8]) -> (r: Result<(), SnmpError>)
        requires
            old(self).wf(),
        ensures
            final(self).wf(),
            final(self).mark() == old(self).mark(),
            r is Ok <==> old(self)@.len() + 1 + encode_len(value@.len()).len() + value@.len()
                <= BUFFER_SIZE,
            r is Ok ==> final(self)@ == seq![tag] + encode_len(value@.len()) + value@ + old(self)@
               ,
            r is Err ==> r == Err::<(), SnmpError>(SnmpError::OutOfBuffer) && final(self)@ == old(self)@,
    {
        let mut bytes = length_bytes(value.len());
        bytes.insert(0, tag);
        let mut i: usize = 0;
        let ghost head = bytes@;
        while i < value.len()
            invariant
                bytes@ == head + value@.subrange(0, i as int),
                i <= value@.len(),
            decreases value@.len() - i,
        {
            bytes.push(value[i]);
            i = i + 1;
            assert(bytes@ =~= head + value@.subrange(0, i as int));
        }
        assert(bytes@ =~= seq![tag] + encode_len(value@.len()) + value@);
        self.push(bytes.as_slice())
    }

    /// Mark the position `offset` bytes after the current start of the
    /// written data; the mark keeps pointing to the same byte while
    /// more bytes are prepended.
    pub fn set_bookmark(&mut self, offset: usize)
        requires
            old(self).wf(),
            offset <= old(self)@.len(),
        ensures
            final(self).wf(),
            final(self)@ == old(self)@,
            final(self).spec_bookmark() == offset,
    {
        self.bookmark = self.pos + offset;
    }

    /// Offset of the bookmark inside the written data.
    pub fn get_bookmark(&self) -> (r: usize)
        requires
            self.wf(),
            0 <= self.spec_bookmark() <= self@.len(),
        ensures
            r == self.spec_bookmark(),
    {
        self.bookmark - self.pos
    }
}

impl Default for Buffer {
    fn default() -> (r: Buffer)
        ensures
            r.wf(),
            r@ == Seq::<u8>::empty(),
            r.spec_bookmark() == 0,
    {
        Buffer::new()
    }
}

} // verus!
