//! The backing store: a growable run of bytes with a position.
//!
//! It behaves as a seekable in-memory file does.  A read takes what is there
//! from the position on; a write past the end first fills the gap with
//! zeroes; both move the position by the bytes they handled.

use crate::endian::{
    read_u16_le, read_u32_le, read_u64_le, u16_at, u16_from_le, u16_to_le, u32_at, u32_from_le,
    u32_to_le, u64_at, u64_from_le, u64_to_le, write_u16_le, write_u32_le, write_u64_le,
};
use crate::error::Error;
use vstd::prelude::*;

verus! {

/// The bytes of a store after `data` was written at `pos`.
pub open spec fn written_at(bytes: Seq<u8>, pos: int, data: Seq<u8>) -> Seq<u8>
    recommends
        0 <= pos,
{
    let end = pos + data.len();
    let len = if end > bytes.len() && data.len() > 0 {
        end
    } else {
        bytes.len() as int
    };
    Seq::new(
        len as nat,
        |i: int|
            if pos <= i < end {
                data[i - pos]
            } else if i < bytes.len() {
                bytes[i]
            } else {
                0u8
            },
    )
}

/// The `len` bytes of a store from `pos` on.
pub open spec fn bytes_at(bytes: Seq<u8>, pos: int, len: int) -> Seq<u8> {
    Seq::new(len as nat, |i: int| bytes[pos + i])
}

/// A buffer after `data` was put into it from index `at` on.
pub open spec fn spliced(buf: Seq<u8>, at: int, data: Seq<u8>) -> Seq<u8> {
    Seq::new(
        buf.len(),
        |i: int|
            if at <= i < at + data.len() {
                data[i - at]
            } else {
                buf[i]
            },
    )
}

/// A run of `n` zero bytes.
pub open spec fn zeros(n: nat) -> Seq<u8> {
    Seq::new(n, |i: int| 0u8)
}

/// A run of `n` bytes with every bit set: free table entries.
pub open spec fn ones(n: nat) -> Seq<u8> {
    Seq::new(n, |i: int| 0xffu8)
}

/// What was written can be read back, and nothing else has changed.
pub proof fn lemma_written_at(bytes: Seq<u8>, pos: int, data: Seq<u8>)
    requires
        0 <= pos,
    ensures
        written_at(bytes, pos, data).len() >= bytes.len(),
        written_at(bytes, pos, data).len() >= (if data.len() > 0 {
            pos + data.len()
        } else {
            0
        }),
        data.len() > 0 ==> bytes_at(written_at(bytes, pos, data), pos, data.len() as int) == data,
        forall|i: int|
            0 <= i < bytes.len() && !(pos <= i < pos + data.len()) ==> #[trigger] written_at(
                bytes,
                pos,
                data,
            )[i] == bytes[i],
        pos == bytes.len() ==> written_at(bytes, pos, data) == bytes + data,
        data.len() == 0 ==> written_at(bytes, pos, data) == bytes,
{
    let w = written_at(bytes, pos, data);
    if data.len() > 0 {
        assert(bytes_at(w, pos, data.len() as int) =~= data);
    }
    if pos == bytes.len() {
        assert(w =~= bytes + data);
    }
    if data.len() == 0 {
        assert(w =~= bytes);
    }
}

/// An in-memory backing store.
pub struct Store {
    pub data: Vec<u8>,
    pub pos: u64,
}

impl Store {
    /// A store that holds `data`, positioned at its start.
    pub fn new(data: Vec<u8>) -> (r: Store)
        ensures
            r.data@ == data@,
            r.pos == 0,
    {
        Store { data, pos: 0 }
    }

    /// The bytes of the store.
    pub fn into_inner(self) -> (r: Vec<u8>)
        ensures
            r@ == self.data@,
    {
        self.data
    }

    /// The bytes of the store.
    pub fn get_ref(&self) -> (r: &Vec<u8>)
        ensures
            r@ == self.data@,
    {
        &self.data
    }

    /// The position of the next read or write.
    pub fn position(&self) -> (r: u64)
        ensures
            r == self.pos,
    {
        self.pos
    }

    /// Moves the position to `pos` bytes from the start.
    pub fn seek_to(&mut self, pos: u64)
        ensures
            final(self).pos == pos,
            final(self).data@ == old(self).data@,
    {
        self.pos = pos;
    }

    /// Number of bytes between the position and the end of the store.
    pub open spec fn remaining(&self) -> int {
        if self.pos <= self.data@.len() {
            self.data@.len() - self.pos
        } else {
            0
        }
    }

    /// Reads up to `max` bytes into `buf` from index `at` on and returns how
    /// many were read: all that were asked for, or all that are left.
    pub fn read(&mut self, buf: &mut [u8], at: usize, max: usize) -> (n: usize)
        requires
            at + max <= old(buf)@.len(),
        ensures
            n == (if max <= old(self).remaining() {
                max as int
            } else {
                old(self).remaining()
            }),
            final(self).data@ == old(self).data@,
            final(self).pos == old(self).pos + n,
            final(buf)@ == spliced(
                old(buf)@,
                at as int,
                bytes_at(old(self).data@, old(self).pos as int, n as int),
            ),
    {
        let len: usize = self.data.len();
        let _cap: usize = buf.len();
        if self.pos >= len as u64 {
            assert(buf@ =~= spliced(buf@, at as int, bytes_at(self.data@, self.pos as int, 0)));
            return 0;
        }
        let start: usize = self.pos as usize;
        let avail: usize = len - start;
        let n: usize = if max <= avail {
            max
        } else {
            avail
        };
        let mut i: usize = 0;
        while i < n
            invariant
                i <= n,
                start + n <= len,
                len == self.data@.len(),
                at + n <= buf@.len(),
                buf@.len() == old(buf)@.len(),
                buf@.len() <= usize::MAX,
                self.data@ == old(self).data@,
                self.pos == old(self).pos,
                start == self.pos,
                forall|j: int| at <= j < at + i ==> buf@[j] == self.data@[start + j - at],
                forall|j: int| 0 <= j < buf@.len() && !(at <= j < at + i) ==> buf@[j] == old(buf)@[j],
            decreases n - i,
        {
            buf[at + i] = self.data[start + i];
            i = i + 1;
        }
        self.pos = self.pos + n as u64;
        assert(buf@ =~= spliced(
            old(buf)@,
            at as int,
            bytes_at(old(self).data@, old(self).pos as int, n as int),
        ));
        n
    }

    /// Reads exactly `len` bytes, or fails and leaves the store as it was
    /// when fewer are left.
    pub fn read_exact(&mut self, len: usize) -> (r: Result<Vec<u8>, Error>)
        ensures
            final(self).data@ == old(self).data@,
            match r {
                Ok(v) => {
                    &&& len <= old(self).remaining()
                    &&& final(self).pos == old(self).pos + len
                    &&& v@ == bytes_at(old(self).data@, old(self).pos as int, len as int)
                    &&& old(self).pos <= old(self).data@.len() ==> v@ == old(self).data@.subrange(
                        old(self).pos as int,
                        old(self).pos + len,
                    )
                },
                Err(e) => {
                    &&& len > old(self).remaining()
                    &&& e == Error::UnexpectedEof
                    &&& final(self).pos == old(self).pos
                },
            },
    {
        let total: usize = self.data.len();
        let mut out: Vec<u8> = Vec::new();
        if len == 0 {
            assert(out@ =~= bytes_at(old(self).data@, old(self).pos as int, 0));
            proof {
                if self.pos as int <= self.data@.len() {
                    assert(out@ =~= old(self).data@.subrange(
                        old(self).pos as int,
                        old(self).pos + 0,
                    ));
                }
            }
            return Ok(out);
        }
        if self.pos > total as u64 || len > total - self.pos as usize {
            return Err(Error::UnexpectedEof);
        }
        let start: usize = self.pos as usize;
        let mut i: usize = 0;
        while i < len
            invariant
                i <= len,
                start + len <= total,
                total == self.data@.len(),
                self.data@ == old(self).data@,
                out@.len() == i,
                forall|j: int| 0 <= j < i ==> out@[j] == self.data@[start + j],
            decreases len - i,
        {
            out.push(self.data[start + i]);
            i = i + 1;
        }
        self.pos = self.pos + len as u64;
        assert(out@ =~= bytes_at(old(self).data@, old(self).pos as int, len as int));
        assert(out@ =~= old(self).data@.subrange(old(self).pos as int, old(self).pos + len));
        Ok(out)
    }

    /// Writes all of `buf` at the position, after filling any gap between
    /// the end of the store and the position with zeroes.  Fails, and leaves
    /// the store as it was, when the end of the write cannot be addressed.
    pub fn write_all(&mut self, buf: &[u8]) -> (r: Result<(), Error>)
        ensures
            match r {
                Ok(()) => {
                    &&& old(self).pos + buf@.len() <= usize::MAX
                    &&& final(self).data@ == written_at(
                        old(self).data@,
                        old(self).pos as int,
                        buf@,
                    )
                    &&& final(self).pos == old(self).pos + buf@.len()
                },
                Err(e) => {
                    &&& old(self).pos + buf@.len() > usize::MAX
                    &&& e == Error::TooLarge
                    &&& *final(self) == *old(self)
                },
            },
    {
        let n: usize = buf.len();
        if self.pos > usize::MAX as u64 || n > usize::MAX - self.pos as usize {
            return Err(Error::TooLarge);
        }
        if n == 0 {
            assert(self.data@ =~= written_at(old(self).data@, old(self).pos as int, buf@));
            return Ok(());
        }
        let start: usize = self.pos as usize;
        while self.data.len() < start
            invariant
                self.pos == old(self).pos,
                self.data@.len() >= old(self).data@.len(),
                self.data@.len() <= start || self.data@.len() == old(self).data@.len(),
                forall|j: int| 0 <= j < old(self).data@.len() ==> self.data@[j] == old(self).data@[j],
                forall|j: int| old(self).data@.len() <= j < self.data@.len() ==> self.data@[j] == 0,
            decreases start - self.data@.len(),
        {
            self.data.push(0u8);
        }
        let mut i: usize = 0;
        while i < n
            invariant
                i <= n,
                n == buf@.len(),
                start + n <= usize::MAX,
                start == old(self).pos,
                self.pos == old(self).pos,
                self.data@.len() >= start + i,
                self.data@.len() >= old(self).data@.len(),
                self.data@.len() == old(self).data@.len() || self.data@.len() == start + i
                    || (i == 0 && self.data@.len() == start),
                self.data@.len() > old(self).data@.len() ==> self.data@.len() <= start + i,
                forall|j: int|
                    0 <= j < self.data@.len() ==> self.data@[j] == (if start <= j < start + i {
                        buf@[j - start]
                    } else if j < old(self).data@.len() {
                        old(self).data@[j]
                    } else {
                        0u8
                    }),
            decreases n - i,
        {
            if start + i < self.data.len() {
                self.data[start + i] = buf[i];
            } else {
                self.data.push(buf[i]);
            }
            i = i + 1;
        }
        self.pos = self.pos + n as u64;
        assert(self.data@ =~= written_at(old(self).data@, old(self).pos as int, buf@));
        Ok(())
    }

    /// Reads a 16-bit number, least significant byte first.
    pub fn read_u16(&mut self) -> (r: Result<u16, Error>)
        ensures
            final(self).data@ == old(self).data@,
            match r {
                Ok(x) => {
                    &&& 2 <= old(self).remaining()
                    &&& final(self).pos == old(self).pos + 2
                    &&& x == u16_from_le(bytes_at(old(self).data@, old(self).pos as int, 2))
                    &&& x == u16_at(old(self).data@, old(self).pos as int)
                },
                Err(e) => {
                    &&& 2 > old(self).remaining()
                    &&& e == Error::UnexpectedEof
                    &&& final(self).pos == old(self).pos
                },
            },
    {
        let v: Vec<u8> = self.read_exact(2)?;
        assert(v@ =~= old(self).data@.subrange(old(self).pos as int, old(self).pos + 2));
        Ok(read_u16_le(v.as_slice()))
    }

    /// Reads a 32-bit number, least significant byte first.
    pub fn read_u32(&mut self) -> (r: Result<u32, Error>)
        ensures
            final(self).data@ == old(self).data@,
            match r {
                Ok(x) => {
                    &&& 4 <= old(self).remaining()
                    &&& final(self).pos == old(self).pos + 4
                    &&& x == u32_from_le(bytes_at(old(self).data@, old(self).pos as int, 4))
                    &&& x == u32_at(old(self).data@, old(self).pos as int)
                },
                Err(e) => {
                    &&& 4 > old(self).remaining()
                    &&& e == Error::UnexpectedEof
                    &&& final(self).pos == old(self).pos
                },
            },
    {
        let v: Vec<u8> = self.read_exact(4)?;
        assert(v@ =~= old(self).data@.subrange(old(self).pos as int, old(self).pos + 4));
        Ok(read_u32_le(v.as_slice()))
    }

    /// Reads a 64-bit number, least significant byte first.
    pub fn read_u64(&mut self) -> (r: Result<u64, Error>)
        ensures
            final(self).data@ == old(self).data@,
            match r {
                Ok(x) => {
                    &&& 8 <= old(self).remaining()
                    &&& final(self).pos == old(self).pos + 8
                    &&& x == u64_from_le(bytes_at(old(self).data@, old(self).pos as int, 8))
                    &&& x == u64_at(old(self).data@, old(self).pos as int)
                },
                Err(e) => {
                    &&& 8 > old(self).remaining()
                    &&& e == Error::UnexpectedEof
                    &&& final(self).pos == old(self).pos
                },
            },
    {
        let v: Vec<u8> = self.read_exact(8)?;
        assert(v@ =~= old(self).data@.subrange(old(self).pos as int, old(self).pos + 8));
        Ok(read_u64_le(v.as_slice()))
    }

    /// Writes a 16-bit number, least significant byte first.
    pub fn write_u16(&mut self, n: u16) -> (r: Result<(), Error>)
        ensures
            match r {
                Ok(()) => {
                    &&& old(self).pos + 2 <= usize::MAX
                    &&& final(self).data@ == written_at(
                        old(self).data@,
                        old(self).pos as int,
                        u16_to_le(n),
                    )
                    &&& final(self).pos == old(self).pos + 2
                },
                Err(e) => {
                    &&& old(self).pos + 2 > usize::MAX
                    &&& e == Error::TooLarge
                    &&& *final(self) == *old(self)
                },
            },
    {
        let b: Vec<u8> = write_u16_le(n);
        self.write_all(b.as_slice())
    }

    /// Writes a 32-bit number, least significant byte first.
    pub fn write_u32(&mut self, n: u32) -> (r: Result<(), Error>)
        ensures
            match r {
                Ok(()) => {
                    &&& old(self).pos + 4 <= usize::MAX
                    &&& final(self).data@ == written_at(
                        old(self).data@,
                        old(self).pos as int,
                        u32_to_le(n),
                    )
                    &&& final(self).pos == old(self).pos + 4
                },
                Err(e) => {
                    &&& old(self).pos + 4 > usize::MAX
                    &&& e == Error::TooLarge
                    &&& *final(self) == *old(self)
                },
            },
    {
        let b: Vec<u8> = write_u32_le(n);
        self.write_all(b.as_slice())
    }

    /// Writes a 64-bit number, least significant byte first.
    pub fn write_u64(&mut self, n: u64) -> (r: Result<(), Error>)
        ensures
            match r {
                Ok(()) => {
                    &&& old(self).pos + 8 <= usize::MAX
                    &&& final(self).data@ == written_at(
                        old(self).data@,
                        old(self).pos as int,
                        u64_to_le(n),
                    )
                    &&& final(self).pos == old(self).pos + 8
                },
                Err(e) => {
                    &&& old(self).pos + 8 > usize::MAX
                    &&& e == Error::TooLarge
                    &&& *final(self) == *old(self)
                },
            },
    {
        proof {
            crate::endian::lemma_le_round_trip(0, 0, n);
        }
        let b: Vec<u8> = write_u64_le(n);
        self.write_all(b.as_slice())
    }

    /// Writes `n` bytes with every bit set.
    pub fn write_ones(&mut self, n: usize) -> (r: Result<(), Error>)
        ensures
            match r {
                Ok(()) => {
                    &&& old(self).pos + n <= usize::MAX
                    &&& final(self).data@ == written_at(
                        old(self).data@,
                        old(self).pos as int,
                        ones(n as nat),
                    )
                    &&& final(self).pos == old(self).pos + n
                },
                Err(e) => {
                    &&& old(self).pos + n > usize::MAX
                    &&& e == Error::TooLarge
                    &&& *final(self) == *old(self)
                },
            },
    {
        let mut buf: Vec<u8> = Vec::new();
        let mut i: usize = 0;
        while i < n
            invariant
                i <= n,
                buf@.len() == i,
                forall|j: int| 0 <= j < i ==> buf@[j] == 0xffu8,
            decreases n - i,
        {
            buf.push(0xffu8);
            i = i + 1;
        }
        assert(buf@ =~= ones(n as nat));
        self.write_all(buf.as_slice())
    }

    /// Writes `n` zero bytes.
    pub fn write_zeros(&mut self, n: usize) -> (r: Result<(), Error>)
        ensures
            match r {
                Ok(()) => {
                    &&& old(self).pos + n <= usize::MAX
                    &&& final(self).data@ == written_at(
                        old(self).data@,
                        old(self).pos as int,
                        zeros(n as nat),
                    )
                    &&& final(self).pos == old(self).pos + n
                },
                Err(e) => {
                    &&& old(self).pos + n > usize::MAX
                    &&& e == Error::TooLarge
                    &&& *final(self) == *old(self)
                },
            },
    {
        let mut buf: Vec<u8> = Vec::new();
        let mut i: usize = 0;
        while i < n
            invariant
                i <= n,
                buf@.len() == i,
                forall|j: int| 0 <= j < i ==> buf@[j] == 0,
            decreases n - i,
        {
            buf.push(0u8);
            i = i + 1;
        }
        assert(buf@ =~= zeros(n as nat));
        self.write_all(buf.as_slice())
    }
}

} // verus!
