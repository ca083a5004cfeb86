//! The byte source a decoder pulls from: a cursor over a borrowed byte
//! slice. It can either copy the next `n` bytes out, or — because the
//! backing storage outlives the reader — hand back a live reference into
//! it, which is what borrowing decode builds on.

use vstd::prelude::*;
use vstd::slice::*;

use crate::error::DecodeError;

verus! {

/// A byte source over a borrowed slice, advancing monotonically.
pub struct SliceReader<'a> {
    bytes: &'a [u8],
    pos: usize,
}

impl<'a> SliceReader<'a> {
    /// The whole backing store.
    pub closed spec fn data(self) -> Seq<u8> {
        self.bytes@
    }

    /// How many bytes have been consumed so far.
    pub closed spec fn consumed(self) -> int {
        self.pos as int
    }

    /// The cursor never passes the end of the backing store.
    pub open spec fn wf(self) -> bool {
        0 <= self.consumed() <= self.data().len()
    }

    /// The bytes not yet consumed.
    pub open spec fn remaining(self) -> Seq<u8> {
        self.data().subrange(self.consumed(), self.data().len() as int)
    }

    /// A reader positioned at the start of `bytes`.
    pub fn new(bytes: &'a [u8]) -> (r: SliceReader<'a>)
        ensures
            r.data() == bytes@,
            r.consumed() == 0,
            r.wf(),
    {
        SliceReader { bytes, pos: 0 }
    }

    /// How many bytes have been consumed, as a runtime value.
    pub fn consumed_bytes(&self) -> (n: usize)
        ensures
            n as int == self.consumed(),
    {
        self.pos
    }

    /// Copies the next `n` bytes out, or fails without moving when fewer
    /// than `n` remain.
    pub fn read_vec(&mut self, n: usize) -> (r: Result<Vec<u8>, DecodeError>)
        requires
            old(self).wf(),
        ensures
            final(self).wf(),
            final(self).data() == old(self).data(),
            match r {
                Ok(v) => {
                    &&& old(self).consumed() + n <= old(self).data().len()
                    &&& v@ == old(self).data().subrange(
                        old(self).consumed(),
                        old(self).consumed() + n,
                    )
                    &&& final(self).consumed() == old(self).consumed() + n
                },
                Err(e) => {
                    &&& e == DecodeError::UnexpectedEnd
                    &&& old(self).consumed() + n > old(self).data().len()
                    &&& final(self).consumed() == old(self).consumed()
                },
            },
    {
        let s = self.borrow_slice(n)?;
        Ok(slice_to_vec(s))
    }

    /// Hands back a reference to the next `n` bytes of the backing store
    /// itself, or fails without moving when fewer than `n` remain.
    pub fn borrow_slice(&mut self, n: usize) -> (r: Result<&'a [u8], DecodeError>)
        requires
            old(self).wf(),
        ensures
            final(self).wf(),
            final(self).data() == old(self).data(),
            match r {
                Ok(s) => {
                    &&& old(self).consumed() + n <= old(self).data().len()
                    &&& s@ == old(self).data().subrange(
                        old(self).consumed(),
                        old(self).consumed() + n,
                    )
                    &&& final(self).consumed() == old(self).consumed() + n
                },
                Err(e) => {
                    &&& e == DecodeError::UnexpectedEnd
                    &&& old(self).consumed() + n > old(self).data().len()
                    &&& final(self).consumed() == old(self).consumed()
                },
            },
    {
        if n > self.bytes.len() - self.pos {
            return Err(DecodeError::UnexpectedEnd);
        }
        let s = slice_subrange(self.bytes, self.pos, self.pos + n);
        self.pos = self.pos + n;
        Ok(s)
    }

    /// Copies the single next byte out, or fails without moving at the
    /// end of the input.
    pub fn read_byte(&mut self) -> (r: Result<u8, DecodeError>)
        requires
            old(self).wf(),
        ensures
            final(self).wf(),
            final(self).data() == old(self).data(),
            match r {
                Ok(b) => {
                    &&& old(self).consumed() + 1 <= old(self).data().len()
                    &&& b == old(self).data()[old(self).consumed()]
                    &&& final(self).consumed() == old(self).consumed() + 1
                },
                Err(e) => {
                    &&& e == DecodeError::UnexpectedEnd
                    &&& old(self).consumed() + 1 > old(self).data().len()
                    &&& final(self).consumed() == old(self).consumed()
                },
            },
    {
        if self.pos >= self.bytes.len() {
            return Err(DecodeError::UnexpectedEnd);
        }
        let b = *slice_index_get(self.bytes, self.pos);
        self.pos = self.pos + 1;
        Ok(b)
    }
}

} // verus!
