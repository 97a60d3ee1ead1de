use vstd::prelude::*;
use crate::encode::error::Error;

verus! {

/// Reads a byte slice from front to back.
pub struct BytesReader<'a> {
    cursor: usize,
    bytes: &'a [u8],
}

impl<'a> BytesReader<'a> {
    /// The bytes that have not been read yet.
    pub closed spec fn rest(&self) -> Seq<u8> {
        self.bytes@.subrange(self.cursor as int, self.bytes@.len() as int)
    }

    pub closed spec fn wf(&self) -> bool {
        self.cursor <= self.bytes@.len()
    }

    /// A reader positioned at the first byte of `bytes`.
    pub fn new(bytes: &'a [u8]) -> (r: BytesReader<'a>)
        ensures
            r.wf(),
            r.rest() == bytes@,
    {
        let r = BytesReader { cursor: 0, bytes: bytes };
        assert(r.rest() =~= bytes@);
        r
    }

    /// How many bytes are left.
    pub fn remaining(&self) -> (r: usize)
        requires
            self.wf(),
        ensures
            r == self.rest().len(),
    {
        self.bytes.len() - self.cursor
    }

    /// Reads the next `n` bytes, or fails with `NotEnoughBytes` (and reads
    /// nothing) when fewer than `n` are left.
    pub fn read(&mut self, n: usize) -> (r: Result<&'a [u8], Error>)
        requires
            old(self).wf(),
        ensures
            final(self).wf(),
            n <= old(self).rest().len() ==> {
                &&& r is Ok
                &&& r->Ok_0@ == old(self).rest().take(n as int)
                &&& final(self).rest() == old(self).rest().skip(n as int)
            },
            n > old(self).rest().len() ==> {
                &&& r == Err::<&'a [u8], Error>(Error::NotEnoughBytes)
                &&& final(self).rest() == old(self).rest()
            },
    {
        if n > self.bytes.len() - self.cursor {
            return Err(Error::NotEnoughBytes);
        }
        let b = &self.bytes[self.cursor..self.cursor + n];
        self.cursor += n;
        assert(b@ =~= old(self).rest().take(n as int));
        assert(self.rest() =~= old(self).rest().skip(n as int));
        Ok(b)
    }
}

} // verus!
