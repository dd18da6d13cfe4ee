use vstd::prelude::*;
use vstd::slice::slice_subrange;

verus! {

/// A byte source with a read position, the decoders' input.
pub struct ByteReader {
    data: Vec<u8>,
    pos: usize,
}

impl ByteReader {
    /// All bytes the reader was made from.
    pub closed spec fn data(&self) -> Seq<u8> {
        self.data@
    }

    /// How many bytes have been consumed.
    pub closed spec fn pos(&self) -> nat {
        self.pos as nat
    }

    pub open spec fn wf(&self) -> bool {
        self.pos() <= self.data().len()
    }

    /// The bytes not consumed yet.
    pub open spec fn rest(&self) -> Seq<u8> {
        self.data().subrange(self.pos() as int, self.data().len() as int)
    }

    /// `after` is `before` with `n` more bytes consumed.
    pub open spec fn advanced(before: ByteReader, after: ByteReader, n: nat) -> bool {
        &&& after.data() == before.data()
        &&& after.pos() == before.pos() + n
        &&& after.wf()
    }

    /// What is left after reading from `start` up to `now`.
    pub proof fn lemma_rest_since(start: ByteReader, now: ByteReader)
        requires
            now.wf(),
            now.data() == start.data(),
            start.pos() <= now.pos(),
        ensures
            now.rest() == start.rest().subrange(
                now.pos() - start.pos(),
                start.rest().len() as int,
            ),
    {
        assert(now.rest() =~= start.rest().subrange(
            now.pos() - start.pos(),
            start.rest().len() as int,
        ));
    }

    pub fn new(data: Vec<u8>) -> (r: ByteReader)
        ensures
            r.wf(),
            r.data() == data@,
            r.pos() == 0,
            r.rest() == data@,
    {
        let r = ByteReader { data, pos: 0 };
        assert(r.rest() =~= data@);
        r
    }

    pub fn position(&self) -> (r: usize)
        ensures
            r == self.pos(),
    {
        self.pos
    }

    pub fn remaining(&self) -> (r: usize)
        requires
            self.wf(),
        ensures
            r == self.rest().len(),
    {
        self.data.len() - self.pos
    }

    /// The bytes not consumed yet, without consuming them.
    pub fn rest_slice(&self) -> (r: &[u8])
        requires
            self.wf(),
        ensures
            r@ == self.rest(),
    {
        slice_subrange(self.data.as_slice(), self.pos, self.data.len())
    }

    /// Consumes one byte.
    pub fn read_u8(&mut self) -> (r: Result<u8, crate::error::CodecError>)
        requires
            old(self).wf(),
        ensures
            old(self).rest().len() >= 1 ==> r == Ok::<u8, crate::error::CodecError>(
                old(self).rest()[0],
            ) && ByteReader::advanced(*old(self), *final(self), 1),
            old(self).rest().len() == 0 ==> r == Err::<u8, crate::error::CodecError>(
                crate::error::CodecError::UnexpectedEnd,
            ) && *final(self) == *old(self),
    {
        if self.pos < self.data.len() {
            let b = self.data[self.pos];
            self.pos = self.pos + 1;
            Ok(b)
        } else {
            Err(crate::error::CodecError::UnexpectedEnd)
        }
    }

    /// Consumes exactly `n` bytes, or none when fewer are left.
    pub fn read_bytes(&mut self, n: usize) -> (r: Result<Vec<u8>, crate::error::CodecError>)
        requires
            old(self).wf(),
        ensures
            n <= old(self).rest().len() ==> r is Ok && r->Ok_0@ == old(self).rest().subrange(
                0,
                n as int,
            ) && ByteReader::advanced(*old(self), *final(self), n as nat),
            n > old(self).rest().len() ==> r == Err::<Vec<u8>, crate::error::CodecError>(
                crate::error::CodecError::UnexpectedEnd,
            ) && *final(self) == *old(self),
    {
        if n <= self.data.len() - self.pos {
            let start = self.pos;
            let mut out: Vec<u8> = Vec::new();
            let mut i: usize = 0;
            while i < n
                invariant
                    self.wf(),
                    i <= n,
                    n <= self.rest().len(),
                    start == self.pos,
                    start + n <= self.data.len(),
                    out@ == self.rest().subrange(0, i as int),
                decreases n - i,
            {
                out.push(self.data[start + i]);
                i = i + 1;
                assert(out@ =~= self.rest().subrange(0, i as int));
            }
            self.pos = self.pos + n;
            Ok(out)
        } else {
            Err(crate::error::CodecError::UnexpectedEnd)
        }
    }
}

} // verus!
