use vstd::prelude::*;

verus! {

/// Appends bytes to a buffer that it owns.
pub struct BytesWriter {
    buf: Vec<u8>,
}

impl View for BytesWriter {
    type V = Seq<u8>;

    closed spec fn view(&self) -> Seq<u8> {
        self.buf@
    }
}

impl BytesWriter {
    /// A writer that appends to `buf`.
    pub fn new(buf: Vec<u8>) -> (r: BytesWriter)
        ensures
            r@ == buf@,
    {
        BytesWriter { buf }
    }

    /// Appends `bytes` at the end of the buffer.
    pub fn write(&mut self, bytes: &[u8])
        ensures
            final(self)@ == old(self)@ + bytes@,
    {
        let mut i: usize = 0;
        while i < bytes.len()
            invariant
                0 <= i <= bytes@.len(),
                self.buf@ == old(self).buf@ + bytes@.subrange(0, i as int),
            decreases bytes@.len() - i,
        {
            self.buf.push(bytes[i]);
            i += 1;
        }
        assert(bytes@.subrange(0, bytes@.len() as int) == bytes@);
    }

    /// Everything written so far, the initial contents included.
    pub fn bytes(&self) -> (r: &[u8])
        ensures
            r@ == self@,
    {
        self.buf.as_slice()
    }

    /// Gives the buffer back.
    pub fn into_bytes(self) -> (r: Vec<u8>)
        ensures
            r@ == self@,
    {
        self.buf
    }
}

} // verus!
