use vstd::prelude::*;

verus! {

/// A forward-only, peekable position over a borrowed byte slice.
///
/// Once advanced, the position never moves back.
pub struct ByteCursor<'a> {
    data: &'a [u8],
    pos: usize,
}

impl<'a> ByteCursor<'a> {
    /// The whole underlying sequence.
    pub closed spec fn data(&self) -> Seq<u8> {
        self.data@
    }

    /// How many bytes have been consumed so far.
    pub closed spec fn pos(&self) -> nat {
        self.pos as nat
    }

    pub open spec fn wf(&self) -> bool {
        self.pos() <= self.data().len()
    }

    /// The bytes not consumed yet.
    pub open spec fn rest(&self) -> Seq<u8> {
        self.data().skip(self.pos() as int)
    }

    pub fn new(data: &'a [u8]) -> (r: Self)
        ensures
            r.wf(),
            r.data() == data@,
            r.pos() == 0,
            r.rest() == data@,
    {
        let r = ByteCursor { data, pos: 0 };
        assert(r.rest() =~= data@);
        r
    }

    /// The number of bytes consumed so far.
    pub fn position(&self) -> (r: usize)
        ensures
            r == self.pos(),
    {
        self.pos
    }

    /// The number of bytes left.
    pub fn remaining(&self) -> (r: usize)
        requires
            self.wf(),
        ensures
            r == self.rest().len(),
    {
        self.data.len() - self.pos
    }

    pub fn is_done(&self) -> (r: bool)
        requires
            self.wf(),
        ensures
            r == (self.rest().len() == 0),
    {
        self.pos >= self.data.len()
    }

    /// The next byte, without consuming it.
    pub fn peek(&self) -> (r: Option<u8>)
        requires
            self.wf(),
        ensures
            self.rest().len() == 0 ==> r is None,
            self.rest().len() > 0 ==> r == Some(self.rest()[0]),
    {
        if self.pos < self.data.len() {
            Some(self.data[self.pos])
        } else {
            None
        }
    }

    /// The byte `offset` places past the next one, without consuming anything.
    pub fn peek_at(&self, offset: usize) -> (r: Option<u8>)
        requires
            self.wf(),
        ensures
            offset >= self.rest().len() ==> r is None,
            offset < self.rest().len() ==> r == Some(self.rest()[offset as int]),
    {
        if offset < self.data.len() - self.pos {
            Some(self.data[self.pos + offset])
        } else {
            None
        }
    }

    /// Consumes and returns the next byte.
    pub fn next(&mut self) -> (r: Option<u8>)
        requires
            old(self).wf(),
        ensures
            final(self).wf(),
            final(self).data() == old(self).data(),
            old(self).rest().len() == 0 ==> r is None && final(self).pos() == old(self).pos(),
            old(self).rest().len() > 0 ==> r == Some(old(self).rest()[0]) && final(self).pos()
                == old(self).pos() + 1,
            final(self).rest() == if old(self).rest().len() == 0 {
                old(self).rest()
            } else {
                old(self).rest().skip(1)
            },
    {
        if self.pos < self.data.len() {
            let b = self.data[self.pos];
            self.pos = self.pos + 1;
            assert(self.rest() =~= old(self).rest().skip(1));
            Some(b)
        } else {
            None
        }
    }

    /// Consumes `n` bytes.
    pub fn advance(&mut self, n: usize)
        requires
            old(self).wf(),
            n <= old(self).rest().len(),
        ensures
            final(self).wf(),
            final(self).data() == old(self).data(),
            final(self).pos() == old(self).pos() + n,
            final(self).rest() == old(self).rest().skip(n as int),
    {
        let len = self.data.len();
        assert(self.pos + n <= len);
        self.pos = self.pos + n;
        assert(self.rest() =~= old(self).rest().skip(n as int));
    }
}

} // verus!
