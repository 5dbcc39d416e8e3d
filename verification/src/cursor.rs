use vstd::prelude::*;

verus! {

/// A read position over a borrowed byte slice.
///
/// The position never passes the end of the slice.
pub struct Cursor<'a> {
    inner: &'a [u8],
    pos: usize,
}

impl<'a> View for Cursor<'a> {
    /// The whole slice and the current position.
    type V = (Seq<u8>, int);

    closed spec fn view(&self) -> (Seq<u8>, int) {
        (self.inner@, self.pos as int)
    }
}

impl<'a> Cursor<'a> {
    #[verifier::type_invariant]
    spec fn within_bounds(&self) -> bool {
        self.pos <= self.inner@.len()
    }

    /// The position lies within the slice.
    pub(crate) fn check_bounds(&self)
        ensures
            0 <= self@.1 <= self@.0.len(),
    {
        proof {
            use_type_invariant(self);
        }
    }

    /// A cursor at the start of `inner`.
    pub fn new(inner: &'a [u8]) -> (c: Cursor<'a>)
        ensures
            c@ == (inner@, 0int),
    {
        Cursor { inner, pos: 0 }
    }

    /// The current position.
    pub fn position(&self) -> (p: u64)
        ensures
            p == self@.1,
    {
        proof {
            use_type_invariant(self);
        }
        self.pos as u64
    }

    /// The whole underlying slice.
    pub fn get_ref(&self) -> (s: &'a [u8])
        ensures
            s@ == self@.0,
    {
        self.inner
    }

    /// Number of bytes after the position.
    pub fn remaining(&self) -> (n: usize)
        ensures
            n == self@.0.len() - self@.1,
    {
        proof {
            use_type_invariant(self);
        }
        self.inner.len() - self.pos
    }

    /// Whether any byte follows the position.
    pub fn has_remaining(&self) -> (b: bool)
        ensures
            b == (self@.1 < self@.0.len()),
    {
        proof {
            use_type_invariant(self);
        }
        self.pos < self.inner.len()
    }

    /// The bytes after the position.
    pub fn chunk(&self) -> (s: &'a [u8])
        ensures
            s@ == self@.0.subrange(self@.1, self@.0.len() as int),
    {
        proof {
            use_type_invariant(self);
        }
        let s = &self.inner[self.pos..self.inner.len()];
        s
    }

    /// Reads the byte at the position and steps past it.
    pub fn get_u8(&mut self) -> (b: u8)
        requires
            old(self)@.1 < old(self)@.0.len(),
        ensures
            b == old(self)@.0[old(self)@.1],
            final(self)@ == (old(self)@.0, old(self)@.1 + 1),
    {
        proof {
            use_type_invariant(&*self);
        }
        let b = self.inner[self.pos];
        self.pos = self.pos + 1;
        b
    }

    /// Steps `cnt` bytes forward.
    pub fn advance(&mut self, cnt: usize)
        requires
            old(self)@.1 + cnt <= old(self)@.0.len(),
        ensures
            final(self)@ == (old(self)@.0, old(self)@.1 + cnt),
    {
        proof {
            use_type_invariant(&*self);
        }
        let len = self.inner.len();
        assert(self.pos + cnt <= len);
        self.pos = self.pos + cnt;
    }
}

} // verus!
