use vstd::prelude::*;

use crate::bytes::{le_to_u32, le_to_u64};
use crate::errors::CodecError;

verus! {

/// The offset-tracking reader of this crate.
///
/// A `Cursor` walks over a borrowed byte slice handed to each call; every
/// successful read advances the position by exactly the number of bytes
/// consumed, and `offset` reports the cumulative count at any time without
/// consuming anything. A read past the end of the input fails with
/// `UnexpectedEof` and leaves the position untouched, so a parse failure can
/// always be reported as "failed after consuming N bytes".
pub struct Cursor {
    pub pos: usize,
}

impl Cursor {
    /// A cursor that has consumed nothing.
    pub fn new() -> (c: Cursor)
        ensures
            c.pos == 0,
    {
        Cursor { pos: 0 }
    }

    /// The number of bytes consumed so far.
    pub fn offset(&self) -> (n: usize)
        ensures
            n == self.pos,
    {
        self.pos
    }

    /// Reads one byte.
    pub fn read_u8(&mut self, data: &Vec<u8>) -> (r: Result<u8, CodecError>)
        ensures
            match r {
                Ok(b) => {
                    &&& old(self).pos + 1 <= data@.len()
                    &&& final(self).pos == old(self).pos + 1
                    &&& b == data@[old(self).pos as int]
                },
                Err(e) => {
                    &&& e == CodecError::UnexpectedEof
                    &&& final(self).pos == old(self).pos
                    &&& old(self).pos + 1 > data@.len()
                },
            },
    {
        if self.pos < data.len() {
            let b = data[self.pos];
            self.pos = self.pos + 1;
            Ok(b)
        } else {
            Err(CodecError::UnexpectedEof)
        }
    }

    /// Reads `n` bytes into a fresh vector.
    pub fn read_bytes(&mut self, data: &Vec<u8>, n: usize) -> (r: Result<Vec<u8>, CodecError>)
        ensures
            match r {
                Ok(v) => {
                    &&& old(self).pos + n <= data@.len()
                    &&& final(self).pos == old(self).pos + n
                    &&& v@ == data@.subrange(old(self).pos as int, old(self).pos + n)
                },
                Err(e) => {
                    &&& e == CodecError::UnexpectedEof
                    &&& final(self).pos == old(self).pos
                    &&& old(self).pos + n > data@.len()
                },
            },
    {
        if n <= data.len() && self.pos <= data.len() - n {
            let start = self.pos;
            let end = start + n;
            let mut v: Vec<u8> = Vec::new();
            let mut j: usize = start;
            while j < end
                invariant
                    start <= j <= end,
                    end == start + n,
                    end <= data@.len(),
                    v@ == data@.subrange(start as int, j as int),
                decreases end - j,
            {
                v.push(data[j]);
                j = j + 1;
                assert(v@ =~= data@.subrange(start as int, j as int));
            }
            self.pos = end;
            Ok(v)
        } else {
            Err(CodecError::UnexpectedEof)
        }
    }

    /// Reads a 32-bit little-endian value.
    pub fn read_u32(&mut self, data: &Vec<u8>) -> (r: Result<u32, CodecError>)
        ensures
            match r {
                Ok(v) => {
                    &&& old(self).pos + 4 <= data@.len()
                    &&& final(self).pos == old(self).pos + 4
                    &&& v == le_to_u32(data@.subrange(old(self).pos as int, old(self).pos + 4))
                },
                Err(e) => {
                    &&& e == CodecError::UnexpectedEof
                    &&& final(self).pos == old(self).pos
                    &&& old(self).pos + 4 > data@.len()
                },
            },
    {
        if 4 <= data.len() && self.pos <= data.len() - 4 {
            let b0 = data[self.pos] as u32;
            let b1 = data[self.pos + 1] as u32;
            let b2 = data[self.pos + 2] as u32;
            let b3 = data[self.pos + 3] as u32;
            self.pos = self.pos + 4;
            Ok(b0 | (b1 << 8) | (b2 << 16) | (b3 << 24))
        } else {
            Err(CodecError::UnexpectedEof)
        }
    }

    /// Reads a 64-bit little-endian value.
    pub fn read_u64(&mut self, data: &Vec<u8>) -> (r: Result<u64, CodecError>)
        ensures
            match r {
                Ok(v) => {
                    &&& old(self).pos + 8 <= data@.len()
                    &&& final(self).pos == old(self).pos + 8
                    &&& v == le_to_u64(data@.subrange(old(self).pos as int, old(self).pos + 8))
                },
                Err(e) => {
                    &&& e == CodecError::UnexpectedEof
                    &&& final(self).pos == old(self).pos
                    &&& old(self).pos + 8 > data@.len()
                },
            },
    {
        if 8 <= data.len() && self.pos <= data.len() - 8 {
            let b0 = data[self.pos] as u64;
            let b1 = data[self.pos + 1] as u64;
            let b2 = data[self.pos + 2] as u64;
            let b3 = data[self.pos + 3] as u64;
            let b4 = data[self.pos + 4] as u64;
            let b5 = data[self.pos + 5] as u64;
            let b6 = data[self.pos + 6] as u64;
            let b7 = data[self.pos + 7] as u64;
            self.pos = self.pos + 8;
            Ok(b0 | (b1 << 8) | (b2 << 16) | (b3 << 24) | (b4 << 32) | (b5 << 40) | (b6 << 48)
                | (b7 << 56))
        } else {
            Err(CodecError::UnexpectedEof)
        }
    }
}

} // verus!
