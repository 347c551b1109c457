//! A read position over a borrowed byte window.

use vstd::prelude::*;

verus! {

/// A window of bytes together with a position in it. The position never
/// passes the end of the window.
pub struct Cursor<'a> {
    buf: &'a [u8],
    pos: usize,
}

impl<'a> Cursor<'a> {
    #[verifier::type_invariant]
    spec fn in_bounds(self) -> bool {
        self.pos <= self.buf@.len()
    }

    /// The whole window, read or not.
    pub closed spec fn bytes(&self) -> Seq<u8> {
        self.buf@
    }

    /// The position, counted from the start of the window.
    pub closed spec fn pos(&self) -> int {
        if self.pos <= self.buf@.len() {
            self.pos as int
        } else {
            self.buf@.len() as int
        }
    }

    /// The bytes from the position to the end of the window.
    pub open spec fn rest(&self) -> Seq<u8> {
        self.bytes().subrange(self.pos(), self.bytes().len() as int)
    }

    /// The position lies inside the window or at its end.
    pub broadcast proof fn lemma_pos_in_bounds(&self)
        ensures
            0 <= #[trigger] self.pos() <= self.bytes().len(),
    {
    }

    /// A cursor at the start of `buf`.
    pub fn new(buf: &'a [u8]) -> (r: Cursor<'a>)
        ensures
            r.bytes() == buf@,
            r.pos() == 0,
    {
        Cursor { buf, pos: 0 }
    }

    /// The position, counted from the start of the window.
    pub fn position(&self) -> (r: usize)
        ensures
            r == self.pos(),
    {
        proof {
            use_type_invariant(self);
        }
        self.pos
    }

    /// Moves to `pos`, or to the end of the window where `pos` lies past it.
    pub fn set_position(&mut self, pos: usize)
        ensures
            final(self).bytes() == old(self).bytes(),
            final(self).pos() == (if pos <= old(self).bytes().len() {
                pos as int
            } else {
                old(self).bytes().len() as int
            }),
    {
        if pos <= self.buf.len() {
            self.pos = pos;
        } else {
            self.pos = self.buf.len();
        }
    }

    /// The whole window.
    pub fn get_ref(&self) -> (r: &'a [u8])
        ensures
            r@ == self.bytes(),
    {
        self.buf
    }

    /// The number of bytes from the position to the end of the window.
    pub fn remaining(&self) -> (r: usize)
        ensures
            r == self.bytes().len() - self.pos(),
    {
        proof {
            use_type_invariant(self);
        }
        self.buf.len() - self.pos
    }

    /// Whether any byte is left to read.
    pub fn has_remaining(&self) -> (r: bool)
        ensures
            r == (self.pos() < self.bytes().len()),
    {
        proof {
            use_type_invariant(self);
        }
        self.pos < self.buf.len()
    }

    /// The bytes from the position to the end of the window.
    pub fn chunk(&self) -> (r: &'a [u8])
        ensures
            r@ == self.rest(),
    {
        proof {
            use_type_invariant(self);
        }
        let r = &self.buf[self.pos..self.buf.len()];
        r
    }

    /// Moves the position `count` bytes on.
    pub fn advance(&mut self, count: usize)
        requires
            count <= old(self).bytes().len() - old(self).pos(),
        ensures
            final(self).bytes() == old(self).bytes(),
            final(self).pos() == old(self).pos() + count,
    {
        proof {
            use_type_invariant(&*self);
        }
        let end: usize = self.buf.len();
        assert(self.pos + count <= end);
        self.pos = self.pos + count;
    }
}

} // verus!
