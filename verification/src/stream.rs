//! A byte-addressable input stream over an in-memory byte source, with an
//! explicit byte order and typed integer readers.

use crate::error::TiffError;
use vstd::prelude::*;

verus! {

/// The value of a 2-byte group read little-endian.
pub open spec fn u16_le(s: Seq<u8>) -> int {
    s[0] + s[1] * 0x100
}

/// The value of a 2-byte group read big-endian.
pub open spec fn u16_be(s: Seq<u8>) -> int {
    s[1] + s[0] * 0x100
}

/// The value of a 4-byte group read little-endian.
pub open spec fn u32_le(s: Seq<u8>) -> int {
    s[0] + s[1] * 0x100 + s[2] * 0x1_0000 + s[3] * 0x100_0000
}

/// The value of a 4-byte group read big-endian.
pub open spec fn u32_be(s: Seq<u8>) -> int {
    s[3] + s[2] * 0x100 + s[1] * 0x1_0000 + s[0] * 0x100_0000
}

/// The value of an 8-byte group read little-endian.
pub open spec fn u64_le(s: Seq<u8>) -> int {
    s[0] + s[1] * 0x100 + s[2] * 0x1_0000 + s[3] * 0x100_0000 + s[4] * 0x1_0000_0000
        + s[5] * 0x100_0000_0000 + s[6] * 0x1_0000_0000_0000 + s[7] * 0x100_0000_0000_0000
}

/// The value of an 8-byte group read big-endian.
pub open spec fn u64_be(s: Seq<u8>) -> int {
    s[7] + s[6] * 0x100 + s[5] * 0x1_0000 + s[4] * 0x100_0000 + s[3] * 0x1_0000_0000
        + s[2] * 0x100_0000_0000 + s[1] * 0x1_0000_0000_0000 + s[0] * 0x100_0000_0000_0000
}

/// A 2-byte group under the given order.
pub open spec fn word16(s: Seq<u8>, le: bool) -> int {
    if le {
        u16_le(s)
    } else {
        u16_be(s)
    }
}

/// A 4-byte group under the given order.
pub open spec fn word32(s: Seq<u8>, le: bool) -> int {
    if le {
        u32_le(s)
    } else {
        u32_be(s)
    }
}

/// An 8-byte group under the given order.
pub open spec fn word64(s: Seq<u8>, le: bool) -> int {
    if le {
        u64_le(s)
    } else {
        u64_be(s)
    }
}

/// Reading a 4-byte field little-endian gives the same value as reading the
/// byte-reversed field big-endian: the two orders differ exactly by a byte
/// reverse.
pub proof fn lemma_endian_byte_reverse(s: Seq<u8>)
    requires
        s.len() == 4,
    ensures
        word32(s, true) == word32(s.reverse(), false),
{
    assert(s.reverse().len() == 4);
    assert(s.reverse()[3] == s[0]);
    assert(s.reverse()[2] == s[1]);
    assert(s.reverse()[1] == s[2]);
    assert(s.reverse()[0] == s[3]);
}

/// A random-access view of a byte source: a position, a byte order flag, and
/// typed reads that consume exactly 1, 2, 4 or 8 bytes.  Seeking past the end
/// is allowed; reading past the end fails with `UnexpectedEof`.
pub struct ByteStream {
    data: Vec<u8>,
    pos: u64,
    little_endian: bool,
}

impl ByteStream {
    /// The underlying bytes.
    pub closed spec fn bytes(&self) -> Seq<u8> {
        self.data@
    }

    /// The current read position.
    pub closed spec fn position(&self) -> u64 {
        self.pos
    }

    /// Whether multi-byte reads are little-endian.
    pub closed spec fn le(&self) -> bool {
        self.little_endian
    }

    pub fn new(data: Vec<u8>) -> (s: Self)
        ensures
            s.bytes() == data@,
            s.position() == 0,
            s.le(),
    {
        ByteStream { data, pos: 0, little_endian: true }
    }

    pub fn seek(&mut self, offset: u64)
        ensures
            final(self).bytes() == old(self).bytes(),
            final(self).position() == offset,
            final(self).le() == old(self).le(),
    {
        self.pos = offset;
    }

    pub fn tell(&self) -> (r: u64)
        ensures
            r == self.position(),
    {
        self.pos
    }

    pub fn skip(&mut self, n: u64)
        requires
            old(self).position() + n <= u64::MAX,
        ensures
            final(self).bytes() == old(self).bytes(),
            final(self).position() == old(self).position() + n,
            final(self).le() == old(self).le(),
    {
        self.pos = self.pos + n;
    }

    /// The total size of the underlying byte source.
    pub fn size(&self) -> (r: usize)
        ensures
            r == self.bytes().len(),
    {
        self.data.len()
    }

    /// How many bytes remain between the position and the end.
    pub fn available(&self) -> (r: u64)
        ensures
            r == if self.position() <= self.bytes().len() {
                self.bytes().len() - self.position()
            } else {
                0int
            },
    {
        let len = self.data.len() as u64;
        if self.pos <= len {
            len - self.pos
        } else {
            0
        }
    }

    pub fn set_order(&mut self, little_endian: bool)
        ensures
            final(self).bytes() == old(self).bytes(),
            final(self).position() == old(self).position(),
            final(self).le() == little_endian,
    {
        self.little_endian = little_endian;
    }

    pub fn is_little_endian(&self) -> (r: bool)
        ensures
            r == self.le(),
    {
        self.little_endian
    }

    pub fn read_byte(&mut self) -> (r: Result<u8, TiffError>)
        ensures
            final(self).bytes() == old(self).bytes(),
            final(self).le() == old(self).le(),
            if old(self).position() < old(self).bytes().len() {
                r == Ok::<u8, TiffError>(old(self).bytes()[old(self).position() as int])
                    && final(self).position() == old(self).position() + 1
            } else {
                r == Err::<u8, TiffError>(TiffError::UnexpectedEof) && final(self).position()
                    == old(self).position()
            },
    {
        let len = self.data.len() as u64;
        if self.pos < len {
            let b = self.data[self.pos as usize];
            self.pos = self.pos + 1;
            Ok(b)
        } else {
            Err(TiffError::UnexpectedEof)
        }
    }

    /// Reads one byte as an ASCII character.
    pub fn read_char(&mut self) -> (r: Result<char, TiffError>)
        ensures
            final(self).bytes() == old(self).bytes(),
            final(self).le() == old(self).le(),
            if old(self).position() < old(self).bytes().len() {
                r == Ok::<char, TiffError>(
                    old(self).bytes()[old(self).position() as int] as char,
                ) && final(self).position() == old(self).position() + 1
            } else {
                r == Err::<char, TiffError>(TiffError::UnexpectedEof) && final(self).position()
                    == old(self).position()
            },
    {
        match self.read_byte() {
            Ok(b) => Ok(b as char),
            Err(e) => Err(e),
        }
    }

    pub fn read_u16(&mut self) -> (r: Result<u16, TiffError>)
        ensures
            final(self).bytes() == old(self).bytes(),
            final(self).le() == old(self).le(),
            if old(self).position() + 2 <= old(self).bytes().len() {
                final(self).position() == old(self).position() + 2 && r == Ok::<u16, TiffError>(
                    word16(
                        old(self).bytes().subrange(
                            old(self).position() as int,
                            old(self).position() + 2,
                        ),
                        old(self).le(),
                    ) as u16,
                )
            } else {
                r == Err::<u16, TiffError>(TiffError::UnexpectedEof) && final(self).position()
                    == old(self).position()
            },
    {
        let len = self.data.len() as u64;
        if len >= 2 && self.pos <= len - 2 {
            let p = self.pos as usize;
            let b0 = self.data[p] as u16;
            let b1 = self.data[p + 1] as u16;
            self.pos = self.pos + 2;
            if self.little_endian {
                Ok(b0 + b1 * 0x100)
            } else {
                Ok(b1 + b0 * 0x100)
            }
        } else {
            Err(TiffError::UnexpectedEof)
        }
    }

    pub fn read_u32(&mut self) -> (r: Result<u32, TiffError>)
        ensures
            final(self).bytes() == old(self).bytes(),
            final(self).le() == old(self).le(),
            if old(self).position() + 4 <= old(self).bytes().len() {
                final(self).position() == old(self).position() + 4 && r == Ok::<u32, TiffError>(
                    word32(
                        old(self).bytes().subrange(
                            old(self).position() as int,
                            old(self).position() + 4,
                        ),
                        old(self).le(),
                    ) as u32,
                )
            } else {
                r == Err::<u32, TiffError>(TiffError::UnexpectedEof) && final(self).position()
                    == old(self).position()
            },
    {
        let len = self.data.len() as u64;
        if len >= 4 && self.pos <= len - 4 {
            let p = self.pos as usize;
            let b0 = self.data[p] as u32;
            let b1 = self.data[p + 1] as u32;
            let b2 = self.data[p + 2] as u32;
            let b3 = self.data[p + 3] as u32;
            self.pos = self.pos + 4;
            if self.little_endian {
                Ok(b0 + b1 * 0x100 + b2 * 0x1_0000 + b3 * 0x100_0000)
            } else {
                Ok(b3 + b2 * 0x100 + b1 * 0x1_0000 + b0 * 0x100_0000)
            }
        } else {
            Err(TiffError::UnexpectedEof)
        }
    }

    pub fn read_u64(&mut self) -> (r: Result<u64, TiffError>)
        ensures
            final(self).bytes() == old(self).bytes(),
            final(self).le() == old(self).le(),
            if old(self).position() + 8 <= old(self).bytes().len() {
                final(self).position() == old(self).position() + 8 && r == Ok::<u64, TiffError>(
                    word64(
                        old(self).bytes().subrange(
                            old(self).position() as int,
                            old(self).position() + 8,
                        ),
                        old(self).le(),
                    ) as u64,
                )
            } else {
                r == Err::<u64, TiffError>(TiffError::UnexpectedEof) && final(self).position()
                    == old(self).position()
            },
    {
        let len = self.data.len() as u64;
        if len >= 8 && self.pos <= len - 8 {
            let p = self.pos as usize;
            let b0 = self.data[p] as u64;
            let b1 = self.data[p + 1] as u64;
            let b2 = self.data[p + 2] as u64;
            let b3 = self.data[p + 3] as u64;
            let b4 = self.data[p + 4] as u64;
            let b5 = self.data[p + 5] as u64;
            let b6 = self.data[p + 6] as u64;
            let b7 = self.data[p + 7] as u64;
            self.pos = self.pos + 8;
            if self.little_endian {
                Ok(
                    b0 + b1 * 0x100 + b2 * 0x1_0000 + b3 * 0x100_0000 + b4 * 0x1_0000_0000 + b5
                        * 0x100_0000_0000 + b6 * 0x1_0000_0000_0000 + b7 * 0x100_0000_0000_0000,
                )
            } else {
                Ok(
                    b7 + b6 * 0x100 + b5 * 0x1_0000 + b4 * 0x100_0000 + b3 * 0x1_0000_0000 + b2
                        * 0x100_0000_0000 + b1 * 0x1_0000_0000_0000 + b0 * 0x100_0000_0000_0000,
                )
            }
        } else {
            Err(TiffError::UnexpectedEof)
        }
    }

    /// Bulk read: fills `buf` from the absolute offset and leaves the
    /// position just past the read region.
    pub fn read(&mut self, buf: &mut Vec<u8>, offset: u64) -> (r: Result<(), TiffError>)
        ensures
            final(self).bytes() == old(self).bytes(),
            final(self).le() == old(self).le(),
            final(buf)@.len() == old(buf)@.len(),
            if offset + old(buf)@.len() <= old(self).bytes().len() {
                r == Ok::<(), TiffError>(()) && final(buf)@ == old(self).bytes().subrange(
                    offset as int,
                    offset + old(buf)@.len(),
                ) && final(self).position() == offset + old(buf)@.len()
            } else {
                r == Err::<(), TiffError>(TiffError::UnexpectedEof) && final(buf)@ == old(buf)@
                    && final(self).position() == old(self).position()
            },
    {
        let n = buf.len();
        let len = self.data.len();
        if offset <= len as u64 && n <= len - (offset as usize) {
            let start = offset as usize;
            let mut i: usize = 0;
            while i < n
                invariant
                    i <= n,
                    n == buf@.len(),
                    n == old(buf)@.len(),
                    start == offset,
                    start + n <= self.data@.len(),
                    start + n <= usize::MAX,
                    self == old(self),
                    forall|j: int| 0 <= j < i ==> buf@[j] == self.data@[start + j],
                decreases n - i,
            {
                let b = self.data[start + i];
                buf.set(i, b);
                i = i + 1;
            }
            self.pos = offset + n as u64;
            assert(buf@ =~= old(self).bytes().subrange(offset as int, offset + n));
            Ok(())
        } else {
            Err(TiffError::UnexpectedEof)
        }
    }
}

} // verus!
