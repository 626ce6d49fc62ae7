//! Cursors that write to and read from a page-sized byte buffer.
use vstd::bytes::{
    spec_u16_from_le_bytes, spec_u16_to_le_bytes, spec_u32_from_le_bytes, spec_u32_to_le_bytes,
    spec_u64_from_le_bytes, spec_u64_to_le_bytes, u16_from_le_bytes, u16_to_le_bytes,
    u32_from_le_bytes, u32_to_le_bytes, u64_from_le_bytes, u64_to_le_bytes,
};
use vstd::prelude::*;

use crate::disk::PAGE_SIZE;

verus! {

/// Why a read or a write through a cursor did not happen.
#[derive(Debug, Clone, PartialEq, Eq)]
pub enum BufferError {
    Overflow,
    BufferTooSmall { needed: usize, actual: usize },
}

/// The little-endian value of the two bytes of `b` that start at `off`.
pub open spec fn u16_at(b: Seq<u8>, off: int) -> u16 {
    spec_u16_from_le_bytes(b.subrange(off, off + 2))
}

/// The little-endian value of the four bytes of `b` that start at `off`.
pub open spec fn u32_at(b: Seq<u8>, off: int) -> u32 {
    spec_u32_from_le_bytes(b.subrange(off, off + 4))
}

/// The little-endian value of the eight bytes of `b` that start at `off`.
pub open spec fn u64_at(b: Seq<u8>, off: int) -> u64 {
    spec_u64_from_le_bytes(b.subrange(off, off + 8))
}

/// `b` with the bytes from `off` on replaced by `bytes`.
pub open spec fn splice(b: Seq<u8>, off: int, bytes: Seq<u8>) -> Seq<u8> {
    b.subrange(0, off) + bytes + b.subrange(off + bytes.len(), b.len() as int)
}

/// What moving a cursor by `n` bytes from `pos` in a buffer of `len` bytes gives.
pub open spec fn advance(pos: int, n: int, len: int) -> Result<int, BufferError> {
    if pos + n > usize::MAX {
        Err(BufferError::Overflow)
    } else if pos + n > len {
        Err(BufferError::BufferTooSmall { needed: (pos + n) as usize, actual: len as usize })
    } else {
        Ok(pos + n)
    }
}

/// Writes values one after the other into a buffer of at least one page.
pub struct BufWriter<'a> {
    pub buf: &'a mut [u8],
    pub pos: usize,
}

impl<'a> BufWriter<'a> {
    /// The cursor stands inside the buffer.
    pub open spec fn wf(&self) -> bool {
        self.pos <= self.buf@.len()
    }

    pub fn new(buf: &'a mut [u8]) -> (res: Result<Self, BufferError>)
        ensures
            old(buf)@.len() < PAGE_SIZE ==> res == Err::<Self, BufferError>(
                BufferError::BufferTooSmall {
                    needed: PAGE_SIZE,
                    actual: old(buf)@.len() as usize,
                },
            ) && final(buf)@ == old(buf)@,
            old(buf)@.len() >= PAGE_SIZE ==> (res matches Ok(w) && w.wf() && w.pos == 0
                && w.buf@ == old(buf)@ && final(w.buf)@ == final(buf)@),
    {
        if buf.len() < PAGE_SIZE {
            return Err(BufferError::BufferTooSmall { needed: PAGE_SIZE, actual: buf.len() });
        }
        Ok(Self { buf, pos: 0 })
    }

    pub fn write_bytes(&mut self, bytes: &[u8]) -> (res: Result<(), BufferError>)
        requires
            old(self).wf(),
        ensures
            final(self).wf(),
            final(final(self).buf)@ == final(old(self).buf)@,
            match advance(old(self).pos as int, bytes@.len() as int, old(self).buf@.len() as int) {
                Ok(end) => res == Ok::<(), BufferError>(()) && final(self).pos == end
                    && final(self).buf@ == splice(old(self).buf@, old(self).pos as int, bytes@),
                Err(e) => res == Err::<(), BufferError>(e) && final(self).pos == old(self).pos
                    && final(self).buf@ == old(self).buf@,
            },
    {
        let end: usize = match self.pos.checked_add(bytes.len()) {
            Some(end) => end,
            None => { return Err(BufferError::Overflow); },
        };
        if end > self.buf.len() {
            return Err(BufferError::BufferTooSmall { needed: end, actual: self.buf.len() });
        }
        let ghost before = self.buf@;
        let start: usize = self.pos;
        let mut i: usize = 0;
        while i < bytes.len()
            invariant
                i <= bytes@.len(),
                start == old(self).pos,
                self.pos == start,
                end == start + bytes@.len(),
                end <= before.len(),
                before == old(self).buf@,
                self.buf@.len() == before.len(),
                final(self.buf)@ == final(old(self).buf)@,
                forall|k: int| 0 <= k < before.len() ==> #[trigger] self.buf@[k] == if start <= k
                    < start + i {
                    bytes@[k - start]
                } else {
                    before[k]
                },
            decreases bytes@.len() - i,
        {
            self.buf[start + i] = bytes[i];
            i = i + 1;
        }
        self.pos = end;
        assert(self.buf@ =~= splice(before, start as int, bytes@));
        Ok(())
    }

    pub fn write_u8(&mut self, v: u8) -> (res: Result<(), BufferError>)
        requires
            old(self).wf(),
        ensures
            final(self).wf(),
            final(final(self).buf)@ == final(old(self).buf)@,
            match advance(old(self).pos as int, 1, old(self).buf@.len() as int) {
                Ok(end) => res == Ok::<(), BufferError>(()) && final(self).pos == end
                    && final(self).buf@ == splice(old(self).buf@, old(self).pos as int, seq![v]),
                Err(e) => res == Err::<(), BufferError>(e) && final(self).pos == old(self).pos
                    && final(self).buf@ == old(self).buf@,
            },
    {
        let bytes: [u8; 1] = [v];
        assert(bytes@ =~= seq![v]);
        self.write_bytes(&bytes)
    }

    pub fn write_u16_le(&mut self, v: u16) -> (res: Result<(), BufferError>)
        requires
            old(self).wf(),
        ensures
            final(self).wf(),
            final(final(self).buf)@ == final(old(self).buf)@,
            match advance(old(self).pos as int, 2, old(self).buf@.len() as int) {
                Ok(end) => res == Ok::<(), BufferError>(()) && final(self).pos == end
                    && final(self).buf@ == splice(
                    old(self).buf@,
                    old(self).pos as int,
                    spec_u16_to_le_bytes(v),
                ),
                Err(e) => res == Err::<(), BufferError>(e) && final(self).pos == old(self).pos
                    && final(self).buf@ == old(self).buf@,
            },
    {
        let bytes = u16_to_le_bytes(v);
        self.write_bytes(bytes.as_slice())
    }

    pub fn write_u32_le(&mut self, v: u32) -> (res: Result<(), BufferError>)
        requires
            old(self).wf(),
        ensures
            final(self).wf(),
            final(final(self).buf)@ == final(old(self).buf)@,
            match advance(old(self).pos as int, 4, old(self).buf@.len() as int) {
                Ok(end) => res == Ok::<(), BufferError>(()) && final(self).pos == end
                    && final(self).buf@ == splice(
                    old(self).buf@,
                    old(self).pos as int,
                    spec_u32_to_le_bytes(v),
                ),
                Err(e) => res == Err::<(), BufferError>(e) && final(self).pos == old(self).pos
                    && final(self).buf@ == old(self).buf@,
            },
    {
        let bytes = u32_to_le_bytes(v);
        self.write_bytes(bytes.as_slice())
    }

    pub fn write_u64_le(&mut self, v: u64) -> (res: Result<(), BufferError>)
        requires
            old(self).wf(),
        ensures
            final(self).wf(),
            final(final(self).buf)@ == final(old(self).buf)@,
            match advance(old(self).pos as int, 8, old(self).buf@.len() as int) {
                Ok(end) => res == Ok::<(), BufferError>(()) && final(self).pos == end
                    && final(self).buf@ == splice(
                    old(self).buf@,
                    old(self).pos as int,
                    spec_u64_to_le_bytes(v),
                ),
                Err(e) => res == Err::<(), BufferError>(e) && final(self).pos == old(self).pos
                    && final(self).buf@ == old(self).buf@,
            },
    {
        let bytes = u64_to_le_bytes(v);
        self.write_bytes(bytes.as_slice())
    }

    pub fn pos(&self) -> (pos: usize)
        ensures
            pos == self.pos,
    {
        self.pos
    }
}

/// Reads values one after the other from a buffer of at least one page.
pub struct BufReader<'a> {
    pub buf: &'a [u8],
    pub pos: usize,
}

impl<'a> BufReader<'a> {
    pub fn new(buf: &'a [u8]) -> (res: Result<Self, BufferError>)
        ensures
            buf@.len() < PAGE_SIZE ==> res == Err::<Self, BufferError>(
                BufferError::BufferTooSmall { needed: PAGE_SIZE, actual: buf@.len() as usize },
            ),
            buf@.len() >= PAGE_SIZE ==> (res matches Ok(r) && r.pos == 0 && r.buf@ == buf@),
    {
        if buf.len() < PAGE_SIZE {
            return Err(BufferError::BufferTooSmall { needed: PAGE_SIZE, actual: buf.len() });
        }
        Ok(Self { buf, pos: 0 })
    }

    pub fn read_bytes(&mut self, n: usize) -> (res: Result<&'a [u8], BufferError>)
        ensures
            final(self).buf@ == old(self).buf@,
            match advance(old(self).pos as int, n as int, old(self).buf@.len() as int) {
                Ok(end) => final(self).pos == end && (res matches Ok(out) && out@
                    == old(self).buf@.subrange(old(self).pos as int, end)),
                Err(e) => final(self).pos == old(self).pos && res == Err::<&'a [u8], BufferError>(
                    e,
                ),
            },
    {
        let end: usize = match self.pos.checked_add(n) {
            Some(end) => end,
            None => { return Err(BufferError::Overflow); },
        };
        if end > self.buf.len() {
            return Err(BufferError::BufferTooSmall { needed: end, actual: self.buf.len() });
        }
        let out = vstd::slice::slice_subrange(self.buf, self.pos, end);
        self.pos = end;
        Ok(out)
    }

    pub fn read_u8(&mut self) -> (res: Result<u8, BufferError>)
        ensures
            final(self).buf@ == old(self).buf@,
            match advance(old(self).pos as int, 1, old(self).buf@.len() as int) {
                Ok(end) => final(self).pos == end && res == Ok::<u8, BufferError>(
                    old(self).buf@[old(self).pos as int],
                ),
                Err(e) => final(self).pos == old(self).pos && res == Err::<u8, BufferError>(e),
            },
    {
        match self.read_bytes(1) {
            Ok(b) => Ok(b[0]),
            Err(e) => Err(e),
        }
    }

    pub fn read_u16_le(&mut self) -> (res: Result<u16, BufferError>)
        ensures
            final(self).buf@ == old(self).buf@,
            match advance(old(self).pos as int, 2, old(self).buf@.len() as int) {
                Ok(end) => final(self).pos == end && res == Ok::<u16, BufferError>(
                    u16_at(old(self).buf@, old(self).pos as int),
                ),
                Err(e) => final(self).pos == old(self).pos && res == Err::<u16, BufferError>(e),
            },
    {
        match self.read_bytes(2) {
            Ok(b) => Ok(u16_from_le_bytes(b)),
            Err(e) => Err(e),
        }
    }

    pub fn read_u32_le(&mut self) -> (res: Result<u32, BufferError>)
        ensures
            final(self).buf@ == old(self).buf@,
            match advance(old(self).pos as int, 4, old(self).buf@.len() as int) {
                Ok(end) => final(self).pos == end && res == Ok::<u32, BufferError>(
                    u32_at(old(self).buf@, old(self).pos as int),
                ),
                Err(e) => final(self).pos == old(self).pos && res == Err::<u32, BufferError>(e),
            },
    {
        match self.read_bytes(4) {
            Ok(b) => Ok(u32_from_le_bytes(b)),
            Err(e) => Err(e),
        }
    }

    pub fn read_u64_le(&mut self) -> (res: Result<u64, BufferError>)
        ensures
            final(self).buf@ == old(self).buf@,
            match advance(old(self).pos as int, 8, old(self).buf@.len() as int) {
                Ok(end) => final(self).pos == end && res == Ok::<u64, BufferError>(
                    u64_at(old(self).buf@, old(self).pos as int),
                ),
                Err(e) => final(self).pos == old(self).pos && res == Err::<u64, BufferError>(e),
            },
    {
        match self.read_bytes(8) {
            Ok(b) => Ok(u64_from_le_bytes(b)),
            Err(e) => Err(e),
        }
    }

    pub fn remaining(&self) -> (n: usize)
        ensures
            n == if self.pos <= self.buf@.len() {
                self.buf@.len() - self.pos
            } else {
                0
            },
    {
        self.buf.len().saturating_sub(self.pos)
    }
}

/// A write changes the bytes it covers and no others.
pub proof fn lemma_splice(b: Seq<u8>, off: int, bytes: Seq<u8>)
    requires
        0 <= off,
        off + bytes.len() <= b.len(),
    ensures
        splice(b, off, bytes).len() == b.len(),
        splice(b, off, bytes).subrange(off, off + bytes.len()) == bytes,
        forall|lo: int, hi: int|
            0 <= lo <= hi <= off ==> #[trigger] splice(b, off, bytes).subrange(lo, hi)
                == b.subrange(lo, hi),
        forall|lo: int, hi: int|
            off + bytes.len() <= lo <= hi <= b.len() ==> #[trigger] splice(
                b,
                off,
                bytes,
            ).subrange(lo, hi) == b.subrange(lo, hi),
        forall|k: int|
            0 <= k < b.len() ==> #[trigger] splice(b, off, bytes)[k] == if off <= k < off
                + bytes.len() {
                bytes[k - off]
            } else {
                b[k]
            },
{
    let s = splice(b, off, bytes);
    assert(s.subrange(off, off + bytes.len()) =~= bytes);
    assert forall|lo: int, hi: int| 0 <= lo <= hi <= off implies #[trigger] s.subrange(lo, hi)
        == b.subrange(lo, hi) by {
        assert(s.subrange(lo, hi) =~= b.subrange(lo, hi));
    }
    assert forall|lo: int, hi: int|
        off + bytes.len() <= lo <= hi <= b.len() implies #[trigger] s.subrange(lo, hi)
        == b.subrange(lo, hi) by {
        assert(s.subrange(lo, hi) =~= b.subrange(lo, hi));
    }
}

/// A value that was written is the value that is read at the same place.
pub proof fn lemma_written_is_read(b: Seq<u8>, off: int)
    requires
        0 <= off,
    ensures
        forall|v: u16|
            off + 2 <= b.len() ==> u16_at(#[trigger] splice(b, off, spec_u16_to_le_bytes(v)), off)
                == v,
        forall|v: u32|
            off + 4 <= b.len() ==> u32_at(#[trigger] splice(b, off, spec_u32_to_le_bytes(v)), off)
                == v,
        forall|v: u64|
            off + 8 <= b.len() ==> u64_at(#[trigger] splice(b, off, spec_u64_to_le_bytes(v)), off)
                == v,
{
    vstd::bytes::lemma_auto_spec_u16_to_from_le_bytes();
    vstd::bytes::lemma_auto_spec_u32_to_from_le_bytes();
    vstd::bytes::lemma_auto_spec_u64_to_from_le_bytes();
    assert forall|v: u16| off + 2 <= b.len() implies u16_at(
        #[trigger] splice(b, off, spec_u16_to_le_bytes(v)),
        off,
    ) == v by {
        lemma_splice(b, off, spec_u16_to_le_bytes(v));
    }
    assert forall|v: u32| off + 4 <= b.len() implies u32_at(
        #[trigger] splice(b, off, spec_u32_to_le_bytes(v)),
        off,
    ) == v by {
        lemma_splice(b, off, spec_u32_to_le_bytes(v));
    }
    assert forall|v: u64| off + 8 <= b.len() implies u64_at(
        #[trigger] splice(b, off, spec_u64_to_le_bytes(v)),
        off,
    ) == v by {
        lemma_splice(b, off, spec_u64_to_le_bytes(v));
    }
}

} // verus!
