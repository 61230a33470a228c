//! Reading from a byte slice.

use vstd::prelude::*;

verus! {

/// The input ended before a value was complete.
#[derive(Debug, Clone, Copy, PartialEq, Eq, Structural)]
pub struct UnexpectedEof;

/// A position in a byte slice.
pub struct ByteReader<'a> {
    data: &'a [u8],
    pos: usize,
}

impl<'a> View for ByteReader<'a> {
    type V = Seq<u8>;

    /// The bytes that have not been read.
    closed spec fn view(&self) -> Seq<u8> {
        self.data@.skip(self.pos as int)
    }
}

impl<'a> ByteReader<'a> {
    #[verifier::type_invariant]
    spec fn inv(self) -> bool {
        self.pos <= self.data.len()
    }

    /// Starts at the first byte of `data`.
    pub fn new(data: &'a [u8]) -> (r: Self)
        ensures
            r@ == data@,
    {
        assert(data@.skip(0) =~= data@);
        ByteReader { data, pos: 0 }
    }

    /// Counts the bytes that have not been read.
    pub fn left(&self) -> (r: usize)
        ensures
            r == self@.len(),
    {
        proof {
            use_type_invariant(self);
        }
        self.data.len() - self.pos
    }

    /// Reads one byte.
    pub fn read_byte(&mut self) -> (r: Result<u8, UnexpectedEof>)
        ensures
            match r {
                Ok(byte) => {
                    &&& old(self)@.len() > 0
                    &&& byte == old(self)@[0]
                    &&& final(self)@ == old(self)@.skip(1)
                },
                Err(_) => old(self)@.len() == 0 && final(self)@ == old(self)@,
            },
    {
        proof {
            use_type_invariant(&*self);
        }
        if self.pos >= self.data.len() {
            return Err(UnexpectedEof);
        }
        let byte: u8 = self.data[self.pos];
        self.pos = self.pos + 1;
        assert(self@ =~= old(self)@.skip(1));
        Ok(byte)
    }
}

} // verus!
