//! An in-memory, seekable byte stream.

use crate::error::Error;
use vstd::prelude::*;
use vstd::slice::{slice_subrange, slice_to_vec};

verus! {

/// A byte buffer together with a read position.
///
/// The position may lie past the end of the buffer; nothing can be read
/// there.
pub struct ByteStream {
    pub data: Vec<u8>,
    pub pos: u64,
}

/// Appends `bytes` to `out`.
pub fn append_bytes(out: &mut Vec<u8>, bytes: &[u8])
    ensures
        final(out)@ == old(out)@ + bytes@,
{
    out.extend_from_slice(bytes);
    assert(final(out)@ =~= old(out)@ + bytes@);
}

impl ByteStream {
    /// The bytes from the position to the end of the buffer.
    pub open spec fn remaining(&self) -> Seq<u8> {
        if self.pos <= self.data@.len() {
            self.data@.skip(self.pos as int)
        } else {
            Seq::empty()
        }
    }

    /// A stream over `data`, positioned at its first byte.
    pub fn new(data: Vec<u8>) -> (s: Self)
        ensures
            s.data == data,
            s.pos == 0,
    {
        ByteStream { data, pos: 0 }
    }

    pub fn position(&self) -> (p: u64)
        ensures
            p == self.pos,
    {
        self.pos
    }

    pub fn set_position(&mut self, pos: u64)
        ensures
            final(self).data == old(self).data,
            final(self).pos == pos,
    {
        self.pos = pos;
    }

    /// The length of the whole buffer.
    pub fn len(&self) -> (n: u64)
        ensures
            n == self.data@.len(),
            n <= usize::MAX,
    {
        self.data.len() as u64
    }

    /// The number of bytes that can still be read.
    pub fn available(&self) -> (n: u64)
        ensures
            n == self.remaining().len(),
    {
        let len: u64 = self.data.len() as u64;
        if self.pos <= len {
            len - self.pos
        } else {
            0
        }
    }

    /// The bytes that can still be read.
    pub fn remaining_slice(&self) -> (r: &[u8])
        ensures
            r@ == self.remaining(),
            r@.len() == 0 || self.pos + r@.len() <= usize::MAX,
    {
        let len: usize = self.data.len();
        if self.pos <= len as u64 {
            slice_subrange(self.data.as_slice(), self.pos as usize, len)
        } else {
            slice_subrange(self.data.as_slice(), len, len)
        }
    }

    pub fn get_ref(&self) -> (r: &Vec<u8>)
        ensures
            *r == self.data,
    {
        &self.data
    }

    pub fn into_inner(self) -> (v: Vec<u8>)
        ensures
            v == self.data,
    {
        self.data
    }

    /// Reads exactly `n` bytes and moves the position past them. If fewer
    /// than `n` bytes are left, nothing is read and the position stays.
    pub fn read_exact(&mut self, n: u64) -> (r: Result<Vec<u8>, Error>)
        ensures
            final(self).data == old(self).data,
            match r {
                Ok(v) => {
                    &&& n <= old(self).remaining().len()
                    &&& v@ == old(self).remaining().take(n as int)
                    &&& final(self).pos == old(self).pos + n
                },
                Err(e) => {
                    &&& e == Error::Io
                    &&& n > old(self).remaining().len()
                    &&& final(self).pos == old(self).pos
                },
            },
    {
        let len: u64 = self.data.len() as u64;
        if self.pos > len || n > len - self.pos {
            if n == 0 {
                let v: Vec<u8> = Vec::new();
                assert(v@ =~= self.remaining().take(0));
                return Ok(v);
            }
            return Err(Error::Io);
        }
        let start: usize = self.pos as usize;
        let end: usize = (self.pos + n) as usize;
        let v = slice_to_vec(slice_subrange(self.data.as_slice(), start, end));
        assert(v@ =~= self.remaining().take(n as int));
        self.pos = self.pos + n;
        Ok(v)
    }

    /// Reads everything that is left and moves the position to the end.
    pub fn read_to_end(&mut self) -> (v: Vec<u8>)
        ensures
            final(self).data == old(self).data,
            v@ == old(self).remaining(),
            final(self).pos == if old(self).pos <= old(self).data@.len() {
                old(self).data@.len() as u64
            } else {
                old(self).pos
            },
    {
        let n: u64 = self.available();
        match self.read_exact(n) {
            Ok(v) => {
                assert(v@ =~= old(self).remaining());
                v
            },
            Err(_) => Vec::new(),
        }
    }
}

} // verus!
