//! An in-memory seekable byte stream, the surface a writer session works on.

use vstd::prelude::*;
use crate::error::Error;

verus! {

/// The content of a stream after `bytes` were written at `pos`: the bytes
/// replace what was there and extend the stream where they reach past its
/// end. Where `pos` lies past the end, the gap reads as zeros.
pub open spec fn write_at(data: Seq<u8>, pos: int, bytes: Seq<u8>) -> Seq<u8> {
    Seq::new(
        if data.len() >= pos + bytes.len() {
            data.len()
        } else {
            (pos + bytes.len()) as nat
        },
        |i: int|
            if pos <= i < pos + bytes.len() {
                bytes[i - pos]
            } else if i < data.len() {
                data[i]
            } else {
                0u8
            },
    )
}

/// A growable byte buffer with a cursor.
pub struct Stream {
    data: Vec<u8>,
    pos: usize,
}

impl Stream {
    /// Everything the stream holds, from its first byte on.
    pub closed spec fn bytes(&self) -> Seq<u8> {
        self.data@
    }

    /// The cursor: the offset at which the next write lands.
    pub closed spec fn cursor(&self) -> nat {
        self.pos as nat
    }

    /// An empty stream with its cursor at the start.
    pub fn new() -> (r: Self)
        ensures
            r.bytes() == Seq::<u8>::empty(),
            r.cursor() == 0,
    {
        Stream { data: Vec::new(), pos: 0 }
    }

    /// A stream over `data` with its cursor at the start.
    pub fn from_vec(data: Vec<u8>) -> (r: Self)
        ensures
            r.bytes() == data@,
            r.cursor() == 0,
    {
        Stream { data, pos: 0 }
    }

    /// The current cursor.
    pub fn position(&self) -> (r: usize)
        ensures
            r == self.cursor(),
    {
        self.pos
    }

    /// Move the cursor to `pos`, which may lie past the end.
    pub fn seek(&mut self, pos: usize)
        ensures
            final(self).bytes() == old(self).bytes(),
            final(self).cursor() == pos,
    {
        self.pos = pos;
    }

    /// Move the cursor forward by `n` bytes without writing. Fails, and
    /// leaves the stream as it was, when the new cursor cannot be represented.
    pub fn skip(&mut self, n: usize) -> (r: Result<(), Error>)
        ensures
            final(self).bytes() == old(self).bytes(),
            old(self).cursor() + n <= usize::MAX ==> {
                &&& r == Ok::<(), Error>(())
                &&& final(self).cursor() == old(self).cursor() + n
            },
            old(self).cursor() + n > usize::MAX ==> {
                &&& r == Err::<(), Error>(Error::Seek)
                &&& *final(self) == *old(self)
            },
    {
        if n > usize::MAX - self.pos {
            return Err(Error::Seek);
        }
        self.pos = self.pos + n;
        Ok(())
    }

    /// Write all of `buf` at the cursor and advance the cursor past it.
    /// Fails, and leaves the stream as it was, when the end of the written
    /// range cannot be represented.
    pub fn write_all(&mut self, buf: &[u8]) -> (r: Result<(), Error>)
        ensures
            old(self).cursor() + buf@.len() <= usize::MAX ==> {
                &&& r == Ok::<(), Error>(())
                &&& final(self).bytes() == write_at(
                    old(self).bytes(),
                    old(self).cursor() as int,
                    buf@,
                )
                &&& final(self).cursor() == old(self).cursor() + buf@.len()
            },
            old(self).cursor() + buf@.len() > usize::MAX ==> {
                &&& r == Err::<(), Error>(Error::Write)
                &&& *final(self) == *old(self)
            },
    {
        let n = buf.len();
        if n > usize::MAX - self.pos {
            return Err(Error::Write);
        }
        let pos = self.pos;
        let ghost before = self.data@;
        if pos > self.data.len() {
            self.data.resize(pos, 0u8);
        }
        let mut i: usize = 0;
        while i < n
            invariant
                n == buf@.len(),
                i <= n,
                pos + n <= usize::MAX,
                self.pos == pos,
                self.data@.len() >= pos,
                self.data@.len() >= before.len(),
                self.data@.len() == (if before.len() >= pos + i {
                    before.len()
                } else {
                    (pos + i) as nat
                }),
                forall|j: int|
                    0 <= j < self.data@.len() ==> #[trigger] self.data@[j] == (if pos <= j < pos
                        + i {
                        buf@[j - pos]
                    } else if j < before.len() {
                        before[j]
                    } else {
                        0u8
                    }),
            decreases n - i,
        {
            let at = pos + i;
            if at < self.data.len() {
                self.data[at] = buf[i];
            } else {
                self.data.push(buf[i]);
            }
            i = i + 1;
        }
        self.pos = pos + n;
        proof {
            assert(self.data@ =~= write_at(before, pos as int, buf@));
        }
        Ok(())
    }

    /// The bytes of the stream.
    pub fn as_slice(&self) -> (r: &[u8])
        ensures
            r@ == self.bytes(),
    {
        self.data.as_slice()
    }

    /// Give up the stream for its bytes.
    pub fn into_inner(self) -> (r: Vec<u8>)
        ensures
            r@ == self.bytes(),
    {
        self.data
    }
}

} // verus!

verus! {

/// What was written is read back from where it was written.
pub proof fn lemma_written(data: Seq<u8>, pos: int, bytes: Seq<u8>)
    requires
        0 <= pos,
    ensures
        write_at(data, pos, bytes).len() >= pos + bytes.len(),
        write_at(data, pos, bytes).subrange(pos, pos + bytes.len()) == bytes,
{
    assert(write_at(data, pos, bytes).subrange(pos, pos + bytes.len()) =~= bytes);
}

} // verus!
