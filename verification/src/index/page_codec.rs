//! The parts of the page format that all index pages share.
use vstd::bytes::spec_u16_to_le_bytes;
use vstd::prelude::*;

use crate::buf::{advance, splice, u16_at, BufReader, BufWriter, BufferError};
use crate::table_heap::RecordId;

verus! {

pub type PageId = usize;

/// Stands for "no page".
pub const INVALID_PAGE_ID: PageId = usize::MAX;

pub const VERSION: u16 = 2;

pub const KIND_HEADER: u8 = 0;

pub const KIND_INTERNAL: u8 = 1;

pub const KIND_LEAF: u8 = 2;

pub const KIND_OFFSET: usize = 6;

pub const U32_BYTES: usize = 4;

pub const U64_BYTES: usize = 8;

/// Magic (4), version (2), kind (1), reserved (1).
pub const COMMON_HEADER_BYTES: usize = 8;

#[allow(inconsistent_fields)]
#[derive(Debug, Clone, PartialEq, Eq)]
pub enum PageCodecError {
    BadMagic,
    UnsupportedVersion(u16),
    WrongPageKind { expected: u8, actual: u8 },
    InvalidPageKind(u8),
    InvalidKeyLen { expected: usize, actual: usize },
    InvalidSize,
    Malformed(&'static str),
    BufferError(BufferError),
}

impl From<BufferError> for PageCodecError {
    fn from(err: BufferError) -> (res: Self) {
        PageCodecError::BufferError(err)
    }
}

impl vstd::std_specs::convert::FromSpecImpl<BufferError> for PageCodecError {
    open spec fn obeys_from_spec() -> bool {
        true
    }

    open spec fn from_spec(err: BufferError) -> Self {
        PageCodecError::BufferError(err)
    }
}

/// The four bytes that every index page starts with.
pub open spec fn magic() -> Seq<u8> {
    seq![67u8, 77u8, 68u8, 66u8]
}

/// The page id as it stands in a page.
pub open spec fn page_id_code(page_id: PageId) -> u64 {
    if page_id == INVALID_PAGE_ID {
        u64::MAX
    } else {
        page_id as u64
    }
}

/// The page id that a stored value stands for.
pub open spec fn page_id_of(raw: u64) -> Result<PageId, PageCodecError> {
    if raw == u64::MAX {
        Ok(INVALID_PAGE_ID)
    } else if raw <= usize::MAX {
        Ok(raw as usize)
    } else {
        Err(PageCodecError::BufferError(BufferError::Overflow))
    }
}

/// The record id that two stored values stand for.
pub open spec fn record_id_of(page_id: u64, slot_id: u64) -> Result<RecordId, PageCodecError> {
    if page_id <= u32::MAX && slot_id <= u32::MAX {
        Ok(RecordId { page_id: page_id as u32, slot_id: slot_id as u32 })
    } else {
        Err(PageCodecError::BufferError(BufferError::Overflow))
    }
}

/// `b` starts with the common header of a page of kind `kind`.
pub open spec fn has_header(b: Seq<u8>, kind: u8) -> bool {
    &&& b.len() >= COMMON_HEADER_BYTES
    &&& b.subrange(0, 4) == magic()
    &&& u16_at(b, 4) == VERSION
    &&& b[6] == kind
    &&& b[7] == 0
}

/// The kind of page that the common header of `b` names.
pub open spec fn header_kind(b: Seq<u8>) -> Result<u8, PageCodecError> {
    if b.subrange(0, 4) != magic() {
        Err(PageCodecError::BadMagic)
    } else if u16_at(b, 4) != VERSION {
        Err(PageCodecError::UnsupportedVersion(u16_at(b, 4)))
    } else {
        Ok(b[6])
    }
}

pub fn encode_page_id(page_id: PageId) -> (res: Result<u64, PageCodecError>)
    ensures
        res == Ok::<u64, PageCodecError>(page_id_code(page_id)),
{
    if page_id == INVALID_PAGE_ID {
        return Ok(u64::MAX);
    }
    Ok(page_id as u64)
}

pub fn decode_page_id(raw: u64) -> (res: Result<PageId, PageCodecError>)
    ensures
        res == page_id_of(raw),
{
    if raw == u64::MAX {
        return Ok(INVALID_PAGE_ID);
    }
    if raw <= usize::MAX as u64 {
        Ok(raw as usize)
    } else {
        Err(PageCodecError::BufferError(BufferError::Overflow))
    }
}

/// A page id survives being stored.
pub proof fn law_page_id_roundtrip(page_id: PageId)
    ensures
        page_id_of(page_id_code(page_id)) == Ok::<PageId, PageCodecError>(page_id),
{
}

/// A record id survives being stored.
pub proof fn law_record_id_roundtrip(rid: RecordId)
    ensures
        record_id_of(rid.page_id as u64, rid.slot_id as u64) == Ok::<RecordId, PageCodecError>(rid),
{
}

pub fn encode_record_id(rid: &RecordId) -> (res: Result<(u64, u64), PageCodecError>)
    ensures
        res == Ok::<(u64, u64), PageCodecError>((rid.page_id as u64, rid.slot_id as u64)),
{
    Ok((rid.page_id as u64, rid.slot_id as u64))
}

pub fn decode_record_id(page_id: u64, slot_id: u64) -> (res: Result<RecordId, PageCodecError>)
    ensures
        res == record_id_of(page_id, slot_id),
{
    if page_id <= u32::MAX as u64 && slot_id <= u32::MAX as u64 {
        Ok(RecordId { page_id: page_id as u32, slot_id: slot_id as u32 })
    } else {
        Err(PageCodecError::BufferError(BufferError::Overflow))
    }
}

/// The result of writing through a cursor, as a result of the codec.
pub fn lift(res: Result<(), BufferError>) -> (out: Result<(), PageCodecError>)
    ensures
        match res {
            Ok(_) => out == Ok::<(), PageCodecError>(()),
            Err(e) => out == Err::<(), PageCodecError>(PageCodecError::BufferError(e)),
        },
{
    match res {
        Ok(_) => Ok(()),
        Err(e) => Err(PageCodecError::BufferError(e)),
    }
}

/// The common header of a page of kind `kind`.
pub open spec fn header_bytes(kind: u8) -> Seq<u8> {
    magic() + spec_u16_to_le_bytes(VERSION) + seq![kind, 0u8]
}

/// How many bytes of a common header are written from `pos` on in a buffer of `len` bytes: each
/// of its fields is written whole or not at all.
pub open spec fn header_room(pos: int, len: int) -> int {
    if pos + 4 > len {
        0
    } else if pos + 6 > len {
        4
    } else if pos + 7 > len {
        6
    } else if pos + 8 > len {
        7
    } else {
        8
    }
}

/// Why the field of a common header behind its first `n` bytes finds no room.
pub open spec fn header_error(pos: int, n: int, len: int) -> PageCodecError {
    let step: int = if n == 0 {
        4
    } else if n == 4 {
        2
    } else {
        1
    };
    PageCodecError::BufferError(advance(pos + n, step, len)->Err_0)
}

/// Two writes, one behind the other.
proof fn lemma_spliced_twice(b: Seq<u8>, pos: int, x: Seq<u8>, y: Seq<u8>)
    requires
        0 <= pos,
        pos + x.len() + y.len() <= b.len(),
    ensures
        splice(splice(b, pos, x), pos + x.len(), y) == splice(b, pos, x + y),
{
    assert(splice(splice(b, pos, x), pos + x.len(), y) =~= splice(b, pos, x + y));
}

/// What a common header holds.
proof fn lemma_header_bytes(kind: u8)
    ensures
        header_bytes(kind).len() == COMMON_HEADER_BYTES,
        has_header(header_bytes(kind), kind),
        header_bytes(kind).subrange(0, 0) == Seq::<u8>::empty(),
        header_bytes(kind).subrange(0, 4) == magic(),
        header_bytes(kind).subrange(0, 6) == magic() + spec_u16_to_le_bytes(VERSION),
        header_bytes(kind).subrange(0, 7) == magic() + spec_u16_to_le_bytes(VERSION) + seq![kind],
        header_bytes(kind) == magic() + spec_u16_to_le_bytes(VERSION) + seq![kind] + seq![0u8],
{
    vstd::bytes::lemma_auto_spec_u16_to_from_le_bytes();
    let h = header_bytes(kind);
    assert(spec_u16_to_le_bytes(VERSION).len() == 2);
    assert(h.subrange(0, 0) =~= Seq::<u8>::empty());
    assert(h.subrange(0, 4) =~= magic());
    assert(h.subrange(4, 6) =~= spec_u16_to_le_bytes(VERSION));
    assert(h.subrange(0, 6) =~= magic() + spec_u16_to_le_bytes(VERSION));
    assert(h.subrange(0, 7) =~= magic() + spec_u16_to_le_bytes(VERSION) + seq![kind]);
    assert(h =~= magic() + spec_u16_to_le_bytes(VERSION) + seq![kind] + seq![0u8]);
}

/// A header that was written is read back.
pub proof fn law_common_header(b: Seq<u8>, pos: int, kind: u8)
    requires
        0 <= pos,
        pos + COMMON_HEADER_BYTES <= b.len(),
    ensures
        ({
            let after = splice(b, pos, header_bytes(kind));
            &&& after.len() == b.len()
            &&& after.subrange(pos, pos + COMMON_HEADER_BYTES) == header_bytes(kind)
            &&& header_kind(after.subrange(pos, pos + COMMON_HEADER_BYTES)) == Ok::<
                u8,
                PageCodecError,
            >(kind)
            &&& pos == 0 ==> has_header(after, kind)
        }),
{
    lemma_header_bytes(kind);
    let h = header_bytes(kind);
    let after = splice(b, pos, h);
    assert(after.subrange(pos, pos + COMMON_HEADER_BYTES) =~= h);
    if pos == 0 {
        assert(after.subrange(0, 4) =~= h.subrange(0, 4));
        assert(after.subrange(4, 6) =~= h.subrange(4, 6));
        assert(after[6] == h[6] && after[7] == h[7]);
    }
}

/// Writes the common header of a page from the cursor on, as far as there is room for it.
pub fn write_common_header(w: &mut BufWriter<'_>, kind: u8) -> (res: Result<(), PageCodecError>)
    requires
        old(w).wf(),
    ensures
        final(w).wf(),
        final(final(w).buf)@ == final(old(w).buf)@,
        ({
            let (pos, len) = (old(w).pos as int, old(w).buf@.len() as int);
            let n = header_room(pos, len);
            &&& final(w).pos == pos + n
            &&& final(w).buf@ == splice(old(w).buf@, pos, header_bytes(kind).subrange(0, n))
            &&& res == if n == COMMON_HEADER_BYTES {
                Ok::<(), PageCodecError>(())
            } else {
                Err(header_error(pos, n, len))
            }
        }),
        final(w).buf@.len() == old(w).buf@.len(),
        res is Ok ==> header_kind(
            final(w).buf@.subrange(old(w).pos as int, old(w).pos + COMMON_HEADER_BYTES),
        ) == Ok::<u8, PageCodecError>(kind),
        res is Ok && old(w).pos == 0 ==> has_header(final(w).buf@, kind),
        forall|k: int|
            0 <= k < old(w).buf@.len() && !(old(w).pos <= k < old(w).pos + COMMON_HEADER_BYTES)
                ==> #[trigger] final(w).buf@[k] == old(w).buf@[k],
{
    let magic_bytes: [u8; 4] = [67, 77, 68, 66];
    assert(magic_bytes@ =~= magic());
    let len: usize = w.buf.len();
    let ghost b0 = w.buf@;
    assert(len == b0.len());
    let ghost pos = w.pos as int;
    let ghost h = header_bytes(kind);
    proof {
        lemma_header_bytes(kind);
        assert(splice(b0, pos, Seq::empty()) =~= b0);
        if pos + COMMON_HEADER_BYTES <= b0.len() {
            law_common_header(b0, pos, kind);
        }
        assert(h.subrange(0, 8) =~= h);
    }
    match w.write_bytes(&magic_bytes) {
        Ok(_) => {},
        Err(e) => { return Err(PageCodecError::BufferError(e)); },
    }
    match w.write_u16_le(VERSION) {
        Ok(_) => {
            proof {
                lemma_spliced_twice(b0, pos, magic(), spec_u16_to_le_bytes(VERSION));
            }
        },
        Err(e) => { return Err(PageCodecError::BufferError(e)); },
    }
    match w.write_u8(kind) {
        Ok(_) => {
            proof {
                lemma_spliced_twice(b0, pos, h.subrange(0, 6), seq![kind]);
            }
        },
        Err(e) => { return Err(PageCodecError::BufferError(e)); },
    }
    match w.write_u8(0) {
        Ok(_) => {
            proof {
                lemma_spliced_twice(b0, pos, h.subrange(0, 7), seq![0u8]);
            }
        },
        Err(e) => { return Err(PageCodecError::BufferError(e)); },
    }
    Ok(())
}

/// What reading a common header from `pos` on gives, and where the reader stands then.
pub open spec fn header_read(b: Seq<u8>, pos: int) -> (Result<u8, PageCodecError>, int) {
    let n = header_room(pos, b.len() as int);
    if n < 4 {
        (Err(header_error(pos, 0, b.len() as int)), pos)
    } else if b.subrange(pos, pos + 4) != magic() {
        (Err(PageCodecError::BadMagic), pos + 4)
    } else if n < 6 {
        (Err(header_error(pos, 4, b.len() as int)), pos + 4)
    } else if u16_at(b, pos + 4) != VERSION {
        (Err(PageCodecError::UnsupportedVersion(u16_at(b, pos + 4))), pos + 6)
    } else if n < COMMON_HEADER_BYTES {
        (Err(header_error(pos, n, b.len() as int)), pos + n)
    } else {
        (Ok(b[pos + 6]), pos + COMMON_HEADER_BYTES)
    }
}

/// Reads the common header of a page from the cursor on.
pub fn read_common_header(r: &mut BufReader<'_>) -> (res: Result<u8, PageCodecError>)
    ensures
        final(r).buf@ == old(r).buf@,
        (res, final(r).pos as int) == header_read(old(r).buf@, old(r).pos as int),
        old(r).pos + COMMON_HEADER_BYTES <= old(r).buf@.len() ==> res == header_kind(
            old(r).buf@.subrange(old(r).pos as int, old(r).pos + COMMON_HEADER_BYTES),
        ),
        old(r).pos == 0 && old(r).buf@.len() >= COMMON_HEADER_BYTES ==> res == header_kind(
            old(r).buf@,
        ),
        res is Ok ==> final(r).pos == old(r).pos + COMMON_HEADER_BYTES,
{
    let len: usize = r.buf.len();
    let ghost b = r.buf@;
    let ghost pos = r.pos as int;
    assert(len == b.len());
    proof {
        if pos + COMMON_HEADER_BYTES <= b.len() {
            let part = b.subrange(pos, pos + COMMON_HEADER_BYTES);
            assert(part.subrange(0, 4) =~= b.subrange(pos, pos + 4));
            assert(part.subrange(4, 6) =~= b.subrange(pos + 4, pos + 6));
        }
    }
    let magic_read = match r.read_bytes(4) {
        Ok(m) => m,
        Err(e) => { return Err(PageCodecError::BufferError(e)); },
    };
    if !(magic_read[0] == 67 && magic_read[1] == 77 && magic_read[2] == 68 && magic_read[3] == 66) {
        assert(magic_read@ != magic());
        return Err(PageCodecError::BadMagic);
    }
    assert(magic_read@ =~= magic());
    let version: u16 = match r.read_u16_le() {
        Ok(v) => v,
        Err(e) => { return Err(PageCodecError::BufferError(e)); },
    };
    if version != VERSION {
        return Err(PageCodecError::UnsupportedVersion(version));
    }
    let kind: u8 = match r.read_u8() {
        Ok(k) => k,
        Err(e) => { return Err(PageCodecError::BufferError(e)); },
    };
    let _reserved: u8 = match r.read_u8() {
        Ok(k) => k,
        Err(e) => { return Err(PageCodecError::BufferError(e)); },
    };
    Ok(kind)
}

} // verus!
