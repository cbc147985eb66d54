//! A position in an image, and the reads and seeks that move it.

use vstd::prelude::*;

use crate::bytes::{le_nat, read_u32, read_u64};
use crate::error::ImageError;

verus! {

/// The bytes of an image and the position of the next read, which may lie beyond their end.
pub struct ByteReader<'a> {
    pub data: &'a [u8],
    pub pos: u64,
}

/// Copies `src` over `dst`, which is as long.
fn copy_bytes(dst: &mut [u8], src: &[u8])
    requires
        old(dst)@.len() == src@.len(),
    ensures
        final(dst)@ == src@,
{
    let n: usize = src.len();
    let mut i: usize = 0;
    while i < n
        invariant
            i <= n,
            n == src@.len(),
            dst@.len() == n,
            dst@.take(i as int) == src@.take(i as int),
        decreases n - i,
    {
        dst[i] = src[i];
        i += 1;
        assert(dst@.take(i as int) =~= src@.take(i as int));
    }
    assert(dst@ =~= dst@.take(n as int));
    assert(src@ =~= src@.take(n as int));
}

impl<'a> ByteReader<'a> {
    /// Starts at the first byte.
    pub fn new(data: &'a [u8]) -> (reader: ByteReader<'a>)
        ensures
            reader.data@ == data@,
            reader.pos == 0,
    {
        ByteReader { data, pos: 0 }
    }

    /// Hands out the next `n` bytes and moves past them; without so many bytes, nothing moves.
    pub fn take(&mut self, n: usize) -> (taken: Result<&'a [u8], ImageError>)
        ensures
            final(self).data@ == old(self).data@,
            match taken {
                Ok(s) => {
                    &&& old(self).pos + n <= old(self).data@.len()
                    &&& s@ == old(self).data@.subrange(old(self).pos as int, old(self).pos + n)
                    &&& final(self).pos == old(self).pos + n
                },
                Err(e) => {
                    &&& e == ImageError::UnexpectedEof
                    &&& old(self).pos + n > old(self).data@.len()
                    &&& final(self).pos == old(self).pos
                },
            },
    {
        let len: usize = self.data.len();
        if self.pos > len as u64 {
            return Err(ImageError::UnexpectedEof);
        }
        let start: usize = self.pos as usize;
        if n > len - start {
            return Err(ImageError::UnexpectedEof);
        }
        self.pos = (start + n) as u64;
        Ok(vstd::slice::slice_subrange(self.data, start, start + n))
    }

    /// Fills `buf` with the next bytes and moves past them; without so many bytes, nothing moves.
    pub fn read_exact(&mut self, buf: &mut [u8]) -> (done: Result<(), ImageError>)
        ensures
            final(self).data@ == old(self).data@,
            final(buf)@.len() == old(buf)@.len(),
            match done {
                Ok(()) => {
                    &&& old(self).pos + old(buf)@.len() <= old(self).data@.len()
                    &&& final(buf)@ == old(self).data@.subrange(
                        old(self).pos as int,
                        old(self).pos + old(buf)@.len(),
                    )
                    &&& final(self).pos == old(self).pos + old(buf)@.len()
                },
                Err(e) => {
                    &&& e == ImageError::UnexpectedEof
                    &&& old(self).pos + old(buf)@.len() > old(self).data@.len()
                    &&& final(self).pos == old(self).pos
                    &&& final(buf)@ == old(buf)@
                },
            },
    {
        match self.take(buf.len()) {
            Ok(src) => {
                copy_bytes(buf, src);
                Ok(())
            },
            Err(e) => Err(e),
        }
    }

    /// Reads four bytes as a number, least significant byte first.
    pub fn read_u32(&mut self) -> (read: Result<u32, ImageError>)
        ensures
            final(self).data@ == old(self).data@,
            match read {
                Ok(v) => {
                    &&& old(self).pos + 4 <= old(self).data@.len()
                    &&& v as nat == le_nat(
                        old(self).data@.subrange(old(self).pos as int, old(self).pos + 4),
                    )
                    &&& final(self).pos == old(self).pos + 4
                },
                Err(e) => {
                    &&& e == ImageError::UnexpectedEof
                    &&& old(self).pos + 4 > old(self).data@.len()
                    &&& final(self).pos == old(self).pos
                },
            },
    {
        match self.take(4) {
            Ok(buf) => Ok(read_u32(buf)),
            Err(e) => Err(e),
        }
    }

    /// Reads eight bytes as a number, least significant byte first.
    pub fn read_u64(&mut self) -> (read: Result<u64, ImageError>)
        ensures
            final(self).data@ == old(self).data@,
            match read {
                Ok(v) => {
                    &&& old(self).pos + 8 <= old(self).data@.len()
                    &&& v as nat == le_nat(
                        old(self).data@.subrange(old(self).pos as int, old(self).pos + 8),
                    )
                    &&& final(self).pos == old(self).pos + 8
                },
                Err(e) => {
                    &&& e == ImageError::UnexpectedEof
                    &&& old(self).pos + 8 > old(self).data@.len()
                    &&& final(self).pos == old(self).pos
                },
            },
    {
        match self.take(8) {
            Ok(buf) => Ok(read_u64(buf)),
            Err(e) => Err(e),
        }
    }

    /// Moves by `delta` bytes. A position beyond the end is one to be at; one before the start,
    /// or beyond what a signed 64-bit offset can name, is not.
    pub fn seek_current(&mut self, delta: i64) -> (done: Result<(), ImageError>)
        ensures
            final(self).data@ == old(self).data@,
            match done {
                Ok(()) => {
                    &&& 0 <= old(self).pos + delta <= i64::MAX
                    &&& final(self).pos == old(self).pos + delta
                },
                Err(e) => {
                    &&& e == ImageError::InvalidSeek
                    &&& !(0 <= old(self).pos + delta <= i64::MAX)
                    &&& final(self).pos == old(self).pos
                },
            },
    {
        let target: i128 = self.pos as i128 + delta as i128;
        if target < 0 || target > i64::MAX as i128 {
            return Err(ImageError::InvalidSeek);
        }
        self.pos = target as u64;
        Ok(())
    }
}

} // verus!
