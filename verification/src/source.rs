//! The byte source a reader owns.
//!
//! A source models a read-only stream of bytes with a current
//! position. Reads are exact: the requested length comes back whole,
//! or the call fails — a short read is a failure, never a partial
//! result. Seeks move the position relatively. The stream's bytes
//! never change; after a failed read or seek the position is
//! unspecified.

use vstd::prelude::*;
use crate::error::CafError;

verus! {

/// One seekable byte source, exclusively owned by one reader.
///
/// Implementations outside this crate (a file, say) are the caller's
/// responsibility; [`SliceSource`] is the verified in-memory one.
pub trait ByteSource {
    /// The whole stream's bytes. The default stands in for
    /// implementations outside the verifier, which nothing is proved
    /// about; a verified implementation overrides it.
    open spec fn data(&self) -> Seq<u8> {
        Seq::empty()
    }

    /// The current position in the stream. The default stands in for
    /// implementations outside the verifier; a verified
    /// implementation overrides it.
    open spec fn pos(&self) -> int {
        0
    }

    /// Reads exactly `n` bytes, advancing the position by `n`.
    fn read_bytes(&mut self, n: usize) -> (r: Result<Vec<u8>, CafError>)
        ensures
            final (self).data() == old(self).data(),
            match r {
                Ok(v) => {
                    &&& 0 <= old(self).pos()
                    &&& old(self).pos() + n <= old(self).data().len()
                    &&& v@ == old(self).data().subrange(old(self).pos(), old(self).pos() + n)
                    &&& final (self).pos() == old(self).pos() + n
                },
                Err(e) => e == CafError::Io,
            },
    ;

    /// Moves the position by `delta` bytes.
    fn seek_by(&mut self, delta: i64) -> (r: Result<(), CafError>)
        ensures
            final (self).data() == old(self).data(),
            match r {
                Ok(_) => final (self).pos() == old(self).pos() + delta,
                Err(e) => e == CafError::Io,
            },
    ;

    /// Reads everything from the position to the end of the stream.
    fn read_to_end(&mut self) -> (r: Result<Vec<u8>, CafError>)
        ensures
            final (self).data() == old(self).data(),
            match r {
                Ok(v) => {
                    &&& 0 <= old(self).pos() <= old(self).data().len()
                    &&& v@ == old(self).data().subrange(
                        old(self).pos(),
                        old(self).data().len() as int,
                    )
                    &&& final (self).pos() == old(self).data().len()
                },
                Err(e) => e == CafError::Io,
            },
    ;
}

/// An in-memory byte source over an owned byte vector.
#[derive(Debug)]
pub struct SliceSource {
    data: Vec<u8>,
    pos: usize,
}

impl SliceSource {
    /// Wraps a byte vector as a source positioned at its start.
    pub fn new(data: Vec<u8>) -> (r: SliceSource)
        ensures
            r.data() == data@,
            r.pos() == 0,
    {
        SliceSource { data, pos: 0 }
    }

    /// Returns the owned bytes.
    pub fn into_inner(self) -> (r: Vec<u8>)
        ensures
            r@ == self.data(),
    {
        self.data
    }
}

impl ByteSource for SliceSource {
    closed spec fn data(&self) -> Seq<u8> {
        self.data@
    }

    closed spec fn pos(&self) -> int {
        self.pos as int
    }

    fn read_bytes(&mut self, n: usize) -> (r: Result<Vec<u8>, CafError>) {
        let len = self.data.len();
        if self.pos > len || n > len - self.pos {
            return Err(CafError::Io);
        }
        let start = self.pos;
        let mut v: Vec<u8> = Vec::new();
        let mut i: usize = 0;
        while i < n
            invariant
                start + n <= len == self.data@.len(),
                i <= n,
                v@ == self.data@.subrange(start as int, start + i),
            decreases n - i,
        {
            v.push(self.data[start + i]);
            i = i + 1;
            proof {
                assert(v@ =~= self.data@.subrange(start as int, start + i));
            }
        }
        self.pos = start + n;
        Ok(v)
    }

    fn seek_by(&mut self, delta: i64) -> (r: Result<(), CafError>) {
        let len = self.data.len();
        if self.pos > len {
            return Err(CafError::Io);
        }
        if delta >= 0 {
            let d = delta as u64;
            if d > (len - self.pos) as u64 {
                return Err(CafError::Io);
            }
            self.pos = self.pos + d as usize;
        } else {
            let d = ((-(delta + 1)) as u64) + 1;
            if d > self.pos as u64 {
                return Err(CafError::Io);
            }
            self.pos = self.pos - d as usize;
        }
        Ok(())
    }

    fn read_to_end(&mut self) -> (r: Result<Vec<u8>, CafError>) {
        let len = self.data.len();
        if self.pos > len {
            return Err(CafError::Io);
        }
        let start = self.pos;
        let mut v: Vec<u8> = Vec::new();
        let mut i: usize = start;
        while i < len
            invariant
                start <= i <= len == self.data@.len(),
                v@ == self.data@.subrange(start as int, i as int),
            decreases len - i,
        {
            v.push(self.data[i]);
            i = i + 1;
            proof {
                assert(v@ =~= self.data@.subrange(start as int, i as int));
            }
        }
        self.pos = len;
        Ok(v)
    }
}

} // verus!
