//! A read position over a borrowed byte slice.
use vstd::prelude::*;

verus! {

/// A byte slice together with the index of the next byte to read. The index
/// may lie past the end of the slice; nothing remains to be read then.
pub struct Cursor<'a> {
    data: &'a [u8],
    pos: usize,
}

impl<'a> Cursor<'a> {
    /// All the bytes under the cursor, read or not.
    pub closed spec fn bytes(&self) -> Seq<u8> {
        self.data@
    }

    /// The index of the next byte to read.
    pub closed spec fn pos(&self) -> nat {
        self.pos as nat
    }

    /// The bytes from the read position to the end.
    pub open spec fn rest(&self) -> Seq<u8> {
        if self.pos() <= self.bytes().len() {
            self.bytes().skip(self.pos() as int)
        } else {
            Seq::empty()
        }
    }

    /// A cursor at the start of `data`.
    pub fn new(data: &'a [u8]) -> (c: Self)
        ensures
            c.bytes() == data@,
            c.pos() == 0,
    {
        Cursor { data, pos: 0 }
    }

    /// The whole slice under the cursor.
    pub fn get_ref(&self) -> (data: &'a [u8])
        ensures
            data@ == self.bytes(),
    {
        self.data
    }

    /// The index of the next byte to read.
    pub fn position(&self) -> (pos: usize)
        ensures
            pos == self.pos(),
    {
        self.pos
    }

    /// Moves the read position to `pos`, which may lie anywhere.
    pub fn set_position(&mut self, pos: usize)
        ensures
            final(self).bytes() == old(self).bytes(),
            final(self).pos() == pos,
    {
        self.pos = pos;
    }

    /// How many bytes are left to read.
    pub fn remaining(&self) -> (n: usize)
        ensures
            n == self.rest().len(),
    {
        if self.pos <= self.data.len() {
            self.data.len() - self.pos
        } else {
            0
        }
    }

    /// Whether at least one byte is left to read.
    pub fn has_remaining(&self) -> (b: bool)
        ensures
            b == (self.rest().len() > 0),
    {
        self.remaining() > 0
    }

    /// The unread bytes as a slice.
    pub fn chunk(&self) -> (s: &'a [u8])
        ensures
            s@ == self.rest(),
    {
        if self.pos <= self.data.len() {
            &self.data[self.pos..self.data.len()]
        } else {
            &self.data[0..0]
        }
    }

    /// Moves the read position forward over `cnt` unread bytes.
    pub fn advance(&mut self, cnt: usize)
        requires
            cnt <= old(self).rest().len(),
        ensures
            final(self).bytes() == old(self).bytes(),
            final(self).pos() == old(self).pos() + cnt,
            final(self).rest() == old(self).rest().skip(cnt as int),
    {
        proof {
            vstd::slice::axiom_spec_len(self.data);
        }
        if cnt > 0 {
            self.pos = self.pos + cnt;
        }
        assert(self.rest() =~= old(self).rest().skip(cnt as int));
    }
}

} // verus!
