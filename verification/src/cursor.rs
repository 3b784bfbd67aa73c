//! Reading from bytes in memory.

use vstd::prelude::*;

use crate::error;
use crate::error::{Error, IoError};

verus! {

/// The big-endian 16-bit number at `pos`.
pub open spec fn u16_at(s: Seq<u8>, pos: int) -> u16 {
    (s[pos] * 0x100 + s[pos + 1]) as u16
}

/// The big-endian 32-bit number at `pos`.
pub open spec fn u32_at(s: Seq<u8>, pos: int) -> u32 {
    (s[pos] * 0x100_0000 + s[pos + 1] * 0x1_0000 + s[pos + 2] * 0x100 + s[pos + 3]) as u32
}

/// What `b` is as a two's complement number.
pub open spec fn signed(b: u8) -> i8 {
    if b < 0x80 {
        b as i8
    } else {
        (b - 0x100) as i8
    }
}

/// What a read of `n` bytes of padding at `pos` gives. Bytes are read one at a time, so a
/// non-zero byte is found before the end of the data is.
pub open spec fn padding_at(s: Seq<u8>, pos: int, n: int) -> Result<(), Error> {
    if exists|i: int| pos <= i < pos + n && i < s.len() && #[trigger] s[i] != 0 {
        Err(Error::NonZeroPadding)
    } else if n > 0 && pos + n > s.len() {
        Err(error::eof())
    } else {
        Ok(())
    }
}

/// Where reading byte by byte from `pos` comes to a stop: at the end of the data, unless `pos` is past
/// it.
pub open spec fn stopped_at(s: Seq<u8>, pos: int) -> int {
    if pos < s.len() {
        s.len() as int
    } else {
        pos
    }
}

/// A position in a slice of bytes. The position may lie past the end; nothing can be read there.
#[derive(Debug)]
pub struct Cursor<'a> {
    data: &'a [u8],
    pos: u64,
}

impl<'a> Cursor<'a> {
    /// The bytes that are read from.
    pub closed spec fn bytes(self) -> Seq<u8> {
        self.data@
    }

    /// The position of the next read.
    pub closed spec fn at(self) -> u64 {
        self.pos
    }

    /// The length of the data is a machine number.
    pub proof fn lemma_len(self)
        ensures
            self.bytes().len() <= usize::MAX,
    {
        assert(self.data.len() == self.data@.len());
    }

    /// A cursor at the start of `data`.
    pub fn new(data: &'a [u8]) -> (r: Cursor<'a>)
        ensures
            r.bytes() == data@,
            r.at() == 0,
    {
        Cursor { data, pos: 0 }
    }

    /// The position of the next read.
    pub fn pos(&self) -> (r: u64)
        ensures
            r == self.at(),
    {
        self.pos
    }

    /// Moves to `pos`.
    pub fn seek_start(&mut self, pos: u64)
        ensures
            final(self).bytes() == old(self).bytes(),
            final(self).at() == pos,
    {
        self.pos = pos;
    }

    /// Moves to the end of the data, and returns where that is.
    pub fn seek_end(&mut self) -> (r: u64)
        ensures
            final(self).bytes() == old(self).bytes(),
            final(self).at() == r,
            r == old(self).bytes().len(),
    {
        self.pos = self.data.len() as u64;
        self.pos
    }

    /// Fills `buffer`. A failed read leaves the cursor and the buffer as they were. There is nothing to
    /// fail at where the buffer is empty.
    pub fn read_exact<const N: usize>(&mut self, buffer: &mut [u8; N]) -> (r: Result<(), Error>)
        ensures
            final(self).bytes() == old(self).bytes(),
            match r {
                Ok(()) => {
                    &&& N > 0 ==> old(self).at() + N <= old(self).bytes().len()
                    &&& final(self).at() == old(self).at() + N
                    &&& N > 0 ==> final(buffer)@ == old(self).bytes().subrange(
                        old(self).at() as int,
                        old(self).at() + N,
                    )
                },
                Err(e) => {
                    &&& N > 0
                    &&& old(self).at() + N > old(self).bytes().len()
                    &&& e == error::eof()
                    &&& final(self).at() == old(self).at()
                    &&& final(buffer)@ == old(buffer)@
                },
            },
    {
        if N == 0 {
            return Ok(());
        }
        let len = self.data.len() as u64;
        if self.pos > len || len - self.pos < N as u64 {
            return Err(Error::Io(IoError::UnexpectedEof));
        }
        let start = self.pos as usize;
        let mut i: usize = 0;
        while i < N
            invariant
                i <= N,
                start + N <= self.data.len(),
                start == self.pos,
                buffer@.len() == N,
                self.bytes() == old(self).bytes(),
                self.pos == old(self).pos,
                forall|j: int| 0 <= j < i ==> buffer@[j] == self.data@[start + j],
            decreases N - i,
        {
            buffer[i] = self.data[start + i];
            i += 1;
        }
        self.pos = self.pos + N as u64;
        assert(buffer@ =~= old(self).data@.subrange(start as int, start + N));
        Ok(())
    }

    /// Reads a byte.
    pub fn read_u8(&mut self) -> (r: Result<u8, Error>)
        ensures
            final(self).bytes() == old(self).bytes(),
            match r {
                Ok(b) => {
                    &&& old(self).at() < old(self).bytes().len()
                    &&& b == old(self).bytes()[old(self).at() as int]
                    &&& final(self).at() == old(self).at() + 1
                },
                Err(e) => {
                    &&& old(self).at() >= old(self).bytes().len()
                    &&& e == error::eof()
                    &&& final(self).at() == old(self).at()
                },
            },
    {
        let mut buffer: [u8; 1] = [0];
        self.read_exact(&mut buffer)?;
        Ok(buffer[0])
    }

    /// Reads a signed byte.
    pub fn read_i8(&mut self) -> (r: Result<i8, Error>)
        ensures
            final(self).bytes() == old(self).bytes(),
            match r {
                Ok(b) => {
                    &&& old(self).at() < old(self).bytes().len()
                    &&& b == signed(old(self).bytes()[old(self).at() as int])
                    &&& final(self).at() == old(self).at() + 1
                },
                Err(e) => {
                    &&& old(self).at() >= old(self).bytes().len()
                    &&& e == error::eof()
                    &&& final(self).at() == old(self).at()
                },
            },
    {
        let b = self.read_u8()?;
        assert(b < 0x80 ==> #[verifier::truncate] (b as i8) == b) by (bit_vector);
        assert(b >= 0x80 ==> #[verifier::truncate] (b as i8) == b - 0x100) by (bit_vector);
        Ok(#[verifier::truncate] (b as i8))
    }

    /// Reads a big-endian 16-bit number.
    pub fn read_u16_be(&mut self) -> (r: Result<u16, Error>)
        ensures
            final(self).bytes() == old(self).bytes(),
            match r {
                Ok(n) => {
                    &&& old(self).at() + 2 <= old(self).bytes().len()
                    &&& n == u16_at(old(self).bytes(), old(self).at() as int)
                    &&& final(self).at() == old(self).at() + 2
                },
                Err(e) => {
                    &&& old(self).at() + 2 > old(self).bytes().len()
                    &&& e == error::eof()
                    &&& final(self).at() == old(self).at()
                },
            },
    {
        let mut buffer: [u8; 2] = [0, 0];
        self.read_exact(&mut buffer)?;
        Ok(buffer[0] as u16 * 0x100 + buffer[1] as u16)
    }

    /// Reads a big-endian 32-bit number.
    pub fn read_u32_be(&mut self) -> (r: Result<u32, Error>)
        ensures
            final(self).bytes() == old(self).bytes(),
            match r {
                Ok(n) => {
                    &&& old(self).at() + 4 <= old(self).bytes().len()
                    &&& n == u32_at(old(self).bytes(), old(self).at() as int)
                    &&& final(self).at() == old(self).at() + 4
                },
                Err(e) => {
                    &&& old(self).at() + 4 > old(self).bytes().len()
                    &&& e == error::eof()
                    &&& final(self).at() == old(self).at()
                },
            },
    {
        let mut buffer: [u8; 4] = [0, 0, 0, 0];
        self.read_exact(&mut buffer)?;
        Ok(
            buffer[0] as u32 * 0x100_0000 + buffer[1] as u32 * 0x1_0000 + buffer[2] as u32 * 0x100
                + buffer[3] as u32,
        )
    }

    /// Reads `num_bytes` bytes, all of which have to be zero. Stops after the first that is not, or
    /// at the end of the data.
    pub fn read_padding(&mut self, num_bytes: u32) -> (r: Result<(), Error>)
        ensures
            final(self).bytes() == old(self).bytes(),
            r == padding_at(old(self).bytes(), old(self).at() as int, num_bytes as int),
            match r {
                Ok(()) => final(self).at() == old(self).at() + num_bytes,
                Err(Error::NonZeroPadding) => {
                    let k = final(self).at() - 1;
                    &&& old(self).at() <= k < old(self).at() + num_bytes
                    &&& k < old(self).bytes().len()
                    &&& old(self).bytes()[k] != 0
                    &&& forall|i: int|
                        old(self).at() <= i < k ==> #[trigger] old(self).bytes()[i] == 0
                },
                Err(_) => final(self).at() == stopped_at(old(self).bytes(), old(self).at() as int),
            },
    {
        let ghost s = self.bytes();
        let ghost start = self.at() as int;
        let mut i: u32 = 0;
        while i < num_bytes
            invariant
                i <= num_bytes,
                self.bytes() == s,
                s == old(self).bytes(),
                start == old(self).at(),
                self.at() == start + i,
                i > 0 ==> start + i <= s.len(),
                forall|j: int| start <= j < start + i ==> #[trigger] s[j] == 0,
            decreases num_bytes - i,
        {
            if self.read_u8()? != 0 {
                assert(s[start + i] != 0);
                return Err(Error::NonZeroPadding);
            }
            i += 1;
        }
        Ok(())
    }
}

} // verus!
