//! A cursor over bytes that are to be decoded.
use vstd::prelude::*;
use vstd::slice::slice_subrange;

verus! {

/// The bytes of an encoded message, and how far they have been read.
pub struct Input<'a> {
    bytes: &'a [u8],
    pos: usize,
}

impl<'a> View for Input<'a> {
    type V = Seq<u8>;

    /// The bytes that are still to be read.
    closed spec fn view(&self) -> Seq<u8> {
        self.bytes@.skip(self.pos as int)
    }
}

impl<'a> Input<'a> {
    #[verifier::type_invariant]
    spec fn inv(self) -> bool {
        self.pos <= self.bytes@.len()
    }

    /// A cursor at the start of `bytes`.
    pub fn new(bytes: &'a [u8]) -> (input: Self)
        ensures
            input@ == bytes@,
    {
        Input { bytes, pos: 0 }
    }

    /// Whether every byte has been read.
    pub fn eof(&self) -> (end: bool)
        ensures
            end == (self@.len() == 0),
    {
        proof {
            use_type_invariant(self);
        }
        self.pos == self.bytes.len()
    }

    /// The number of bytes that are still to be read.
    pub fn len(&self) -> (n: usize)
        ensures
            n == self@.len(),
    {
        proof {
            use_type_invariant(self);
        }
        self.bytes.len() - self.pos
    }

    /// The bytes that are still to be read.
    pub fn remaining(&self) -> (rest: &'a [u8])
        ensures
            rest@ == self@,
    {
        proof {
            use_type_invariant(self);
        }
        let rest = slice_subrange(self.bytes, self.pos, self.bytes.len());
        assert(rest@ =~= self@);
        rest
    }

    /// Passes over the next `n` bytes.
    pub(crate) fn advance(&mut self, n: usize)
        requires
            n <= old(self)@.len(),
        ensures
            final(self)@ == old(self)@.skip(n as int),
    {
        proof {
            use_type_invariant(&*self);
            assert(self@.len() == self.bytes@.len() - self.pos);
        }
        let end = self.bytes.len();
        assert(self.pos + n <= end);
        self.pos = self.pos + n;
        assert(self.bytes@.skip(self.pos as int) =~= old(self).bytes@.skip(
            old(self).pos as int,
        ).skip(n as int));
    }
}

} // verus!
