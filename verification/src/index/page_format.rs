//! How the pages of a B+ tree are laid out as bytes.
use std::collections::VecDeque;
use vstd::bytes::{spec_u32_to_le_bytes, spec_u64_to_le_bytes};
use vstd::prelude::*;

use crate::buf::{
    lemma_splice, lemma_written_is_read, u32_at, u64_at, BufReader, BufWriter, BufferError,
};
use crate::catalog::index_schema::{key_views, IndexKey};
use crate::disk::PAGE_SIZE;
use crate::index::b_plus_page::{
    slots_below, tombstone_room, valid_internal, valid_leaf, InternalPage, InternalView, LeafPage,
    LeafView, Page, PageId, PageKind, PageType, INTERNAL_FIXED_HEADER_BYTES,
    LEAF_FIXED_HEADER_BYTES, NUM_TOMBSTONES, RECORD_ID_ENCODED_BYTES,
    TOMBSTONE_SLOT_ENCODED_BYTES,
};
use crate::index::page_codec::{
    decode_page_id, decode_record_id, encode_page_id, encode_record_id, has_header, header_kind,
    lift, page_id_code, page_id_of, read_common_header, record_id_of, write_common_header,
    PageCodecError, KIND_HEADER, KIND_INTERNAL, KIND_LEAF, KIND_OFFSET,
};
use crate::table_heap::RecordId;

verus! {

/// The root of a tree and its leftmost leaf. This page stands beside the tree.
#[derive(Debug, Clone, Copy, PartialEq, Eq, Structural)]
pub struct HeaderPage {
    pub root_page_id: PageId,
    pub first_leaf_id: PageId,
    pub key_len: u32,
}

/// All bytes of `b` from `from` on are zero.
pub open spec fn zero_from(b: Seq<u8>, from: int) -> bool {
    forall|k: int| from <= k < b.len() ==> #[trigger] b[k] == 0
}

/// `b` is the page that stores `v`.
pub open spec fn header_image(b: Seq<u8>, v: HeaderPage) -> bool {
    &&& b.len() >= PAGE_SIZE
    &&& has_header(b, KIND_HEADER)
    &&& u32_at(b, 8) == v.key_len
    &&& u32_at(b, 12) == 0
    &&& u64_at(b, 16) == page_id_code(v.root_page_id)
    &&& u64_at(b, 24) == page_id_code(v.first_leaf_id)
    &&& zero_from(b, 32)
}

/// What the bytes `b` say as a header page.
pub open spec fn header_decoded(b: Seq<u8>) -> Result<HeaderPage, PageCodecError> {
    if b.len() < PAGE_SIZE {
        Err(too_small(b.len() as int))
    } else {
        match header_kind(b) {
            Err(e) => Err(e),
            Ok(kind) => if kind != KIND_HEADER {
                Err(PageCodecError::WrongPageKind { expected: KIND_HEADER, actual: kind })
            } else {
                match (page_id_of(u64_at(b, 16)), page_id_of(u64_at(b, 24))) {
                    (Ok(root), Ok(first)) => if u32_at(b, 8) == 0 {
                        Err(PageCodecError::Malformed("header key_len must be > 0"))
                    } else {
                        Ok(
                            HeaderPage {
                                root_page_id: root,
                                first_leaf_id: first,
                                key_len: u32_at(b, 8),
                            },
                        )
                    },
                    _ => Err(PageCodecError::BufferError(BufferError::Overflow)),
                }
            },
        }
    }
}

pub open spec fn too_small(actual: int) -> PageCodecError {
    PageCodecError::BufferError(
        BufferError::BufferTooSmall { needed: PAGE_SIZE, actual: actual as usize },
    )
}

/// The error for `needed` bytes that a page does not hold; none where it holds them.
pub open spec fn space_error(needed: int) -> Option<PageCodecError> {
    if needed > usize::MAX {
        Some(PageCodecError::BufferError(BufferError::Overflow))
    } else if needed > PAGE_SIZE {
        Some(
            PageCodecError::BufferError(
                BufferError::BufferTooSmall { needed: needed as usize, actual: PAGE_SIZE },
            ),
        )
    } else {
        None
    }
}

/// The first key from `from` on whose length is not `key_len`.
pub open spec fn misfit(keys: Seq<Seq<u8>>, key_len: int, from: int) -> Option<int>
    decreases keys.len() - from,
{
    if from < 0 || from >= keys.len() {
        None
    } else if keys[from].len() != key_len {
        Some(from)
    } else {
        misfit(keys, key_len, from + 1)
    }
}

pub proof fn lemma_misfit(keys: Seq<Seq<u8>>, key_len: int, from: int)
    requires
        0 <= from,
    ensures
        misfit(keys, key_len, from) is None <==> forall|i: int|
            from <= i < keys.len() ==> (#[trigger] keys[i]).len() == key_len,
    decreases keys.len() - from,
{
    if from < keys.len() {
        lemma_misfit(keys, key_len, from + 1);
    }
}

/// The bytes that an internal page takes.
pub open spec fn internal_bytes(v: InternalView, key_len: int) -> int {
    INTERNAL_FIXED_HEADER_BYTES + v.children.len() * 8 + v.keys.len() * key_len
}

/// Why an internal page cannot be stored with keys of length `key_len`.
pub open spec fn internal_encode_error(v: InternalView, key_len: int) -> Option<PageCodecError> {
    if key_len == 0 {
        Some(PageCodecError::Malformed("key_len must be > 0"))
    } else if misfit(v.keys, key_len, 0) is Some {
        Some(
            PageCodecError::InvalidKeyLen {
                expected: key_len as usize,
                actual: v.keys[misfit(v.keys, key_len, 0)->0].len() as usize,
            },
        )
    } else {
        space_error(internal_bytes(v, key_len))
    }
}

pub open spec fn internal_head(b: Seq<u8>, v: InternalView) -> bool {
    &&& has_header(b, KIND_INTERNAL)
    &&& u32_at(b, 8) == v.size
    &&& u32_at(b, 12) == v.max_size
    &&& u32_at(b, 16) == v.children.len()
    &&& u32_at(b, 20) == 0
}

/// The `i`-th of the keys of length `key_len` that stand in `b` from `off` on.
pub open spec fn key_at(b: Seq<u8>, off: int, key_len: int, i: int) -> Seq<u8> {
    b.subrange(off + i * key_len, off + i * key_len + key_len)
}

/// `b` is the page that stores `v`.
pub open spec fn internal_image(b: Seq<u8>, v: InternalView, key_len: int) -> bool {
    let keys_off = INTERNAL_FIXED_HEADER_BYTES + v.children.len() * 8;
    &&& b.len() >= PAGE_SIZE
    &&& internal_head(b, v)
    &&& forall|i: int|
        0 <= i < v.children.len() ==> u64_at(b, INTERNAL_FIXED_HEADER_BYTES + 8 * i)
            == page_id_code(#[trigger] v.children[i])
    &&& forall|i: int|
        0 <= i < v.keys.len() ==> key_at(b, keys_off, key_len, i) == #[trigger] v.keys[i]
    &&& zero_from(b, internal_bytes(v, key_len))
}

pub open spec fn child_at(b: Seq<u8>, i: int) -> Result<PageId, PageCodecError> {
    page_id_of(u64_at(b, INTERNAL_FIXED_HEADER_BYTES + 8 * i))
}

/// What the bytes `b` say as an internal page with keys of length `key_len`.
pub open spec fn internal_decoded(b: Seq<u8>, key_len: int) -> Result<
    InternalView,
    PageCodecError,
> {
    let size = u32_at(b, 8);
    let max_size = u32_at(b, 12);
    let count = u32_at(b, 16) as int;
    let needed = INTERNAL_FIXED_HEADER_BYTES + count * 8 + size * key_len;
    if key_len == 0 {
        Err(PageCodecError::Malformed("key_len must be > 0"))
    } else if b.len() < PAGE_SIZE {
        Err(too_small(b.len() as int))
    } else {
        match header_kind(b) {
            Err(e) => Err(e),
            Ok(kind) => if kind != KIND_INTERNAL {
                Err(PageCodecError::WrongPageKind { expected: KIND_INTERNAL, actual: kind })
            } else if count == 0 && size != 0 {
                Err(PageCodecError::Malformed("internal page has keys but zero children"))
            } else if count == 0 {
                Ok(InternalView { children: seq![], keys: seq![], size: 0, max_size })
            } else if count != size + 1 {
                Err(
                    PageCodecError::Malformed(
                        "internal invariant violated: child_count != size + 1",
                    ),
                )
            } else if space_error(needed) is Some {
                Err(space_error(needed)->0)
            } else if exists|i: int| 0 <= i < count && #[trigger] child_at(b, i) is Err {
                Err(PageCodecError::BufferError(BufferError::Overflow))
            } else {
                Ok(
                    InternalView {
                        children: Seq::new(count as nat, |i: int| child_at(b, i)->Ok_0),
                        keys: Seq::new(
                            size as nat,
                            |i: int| key_at(b, INTERNAL_FIXED_HEADER_BYTES + count * 8, key_len, i),
                        ),
                        size,
                        max_size,
                    },
                )
            },
        }
    }
}

/// An internal page that was stored is read back as it was.
pub proof fn law_internal_roundtrip(b: Seq<u8>, v: InternalView, key_len: int)
    requires
        internal_image(b, v, key_len),
        valid_internal(v),
        v.children.len() == 0 ==> v.size == 0,
        0 < key_len <= u32::MAX,
        internal_encode_error(v, key_len) is None,
    ensures
        internal_decoded(b, key_len) == Ok::<InternalView, PageCodecError>(v),
{
    let count = v.children.len() as int;
    assert(u32_at(b, 16) == count);
    assert forall|i: int| 0 <= i < count implies #[trigger] child_at(b, i) == Ok::<
        PageId,
        PageCodecError,
    >(v.children[i]) by {
        assert(u64_at(b, INTERNAL_FIXED_HEADER_BYTES + 8 * i) == page_id_code(v.children[i]));
    }
    if count == 0 {
        assert(v.children =~= seq![]);
        assert(v.keys =~= seq![]);
    } else {
        let d = internal_decoded(b, key_len)->Ok_0;
        assert(d.children =~= v.children);
        assert(d.keys =~= v.keys);
    }
}

/// The multiples of `w` are spaced by `w`.
pub proof fn lemma_entry_offsets(i: int, n: int, w: int)
    requires
        0 <= i < n,
        0 <= w,
    ensures
        (i + 1) * w == i * w + w,
        0 <= i * w,
        i * w + w <= n * w,
{
    assert((i + 1) * w == i * w + w && 0 <= i * w && i * w + w <= n * w) by (nonlinear_arith)
        requires
            0 <= i < n,
            0 <= w,
    ;
}

/// Writes zeros over all of `buf`.
pub fn fill_zero(buf: &mut [u8])
    ensures
        final(buf)@.len() == old(buf)@.len(),
        zero_from(final(buf)@, 0),
{
    let n: usize = buf.len();
    let mut i: usize = 0;
    while i < n
        invariant
            i <= n,
            n == buf@.len(),
            n == old(buf)@.len(),
            forall|k: int| 0 <= k < i ==> #[trigger] buf@[k] == 0,
        decreases n - i,
    {
        buf[i] = 0;
        i = i + 1;
    }
}

impl HeaderPage {
    pub fn encode(&self, buf: &mut [u8]) -> (res: Result<(), PageCodecError>)
        ensures
            self.key_len == 0 ==> res == Err::<(), PageCodecError>(
                PageCodecError::Malformed("key_len must be > 0"),
            ) && final(buf)@ == old(buf)@,
            self.key_len != 0 && old(buf)@.len() < PAGE_SIZE ==> res == Err::<(), PageCodecError>(
                too_small(old(buf)@.len() as int),
            ) && zero_from(final(buf)@, 0),
            self.key_len != 0 && old(buf)@.len() >= PAGE_SIZE ==> res == Ok::<(), PageCodecError>(())
                && header_image(final(buf)@, *self),
            final(buf)@.len() == old(buf)@.len(),
    {
        if self.key_len == 0 {
            return Err(PageCodecError::Malformed("key_len must be > 0"));
        }
        fill_zero(buf);
        let root: u64 = encode_page_id(self.root_page_id)?;
        let first: u64 = encode_page_id(self.first_leaf_id)?;
        let mut w = match BufWriter::new(buf) {
            Ok(w) => w,
            Err(e) => { return Err(PageCodecError::BufferError(e)); },
        };
        write_common_header(&mut w, KIND_HEADER)?;
        proof {
            vstd::bytes::lemma_auto_spec_u32_to_from_le_bytes();
            vstd::bytes::lemma_auto_spec_u64_to_from_le_bytes();
            lemma_splice(w.buf@, 8, spec_u32_to_le_bytes(self.key_len));
            lemma_written_is_read(w.buf@, 8);
        }
        lift(w.write_u32_le(self.key_len))?;
        proof {
            lemma_splice(w.buf@, 12, spec_u32_to_le_bytes(0));
            lemma_written_is_read(w.buf@, 12);
        }
        lift(w.write_u32_le(0))?;
        proof {
            lemma_splice(w.buf@, 16, spec_u64_to_le_bytes(root));
            lemma_written_is_read(w.buf@, 16);
        }
        lift(w.write_u64_le(root))?;
        proof {
            lemma_splice(w.buf@, 24, spec_u64_to_le_bytes(first));
            lemma_written_is_read(w.buf@, 24);
        }
        lift(w.write_u64_le(first))?;
        assert(header_image(w.buf@, *self));
        Ok(())
    }

    pub fn decode(buf: &[u8]) -> (res: Result<Self, PageCodecError>)
        ensures
            res == header_decoded(buf@),
    {
        let mut r = match BufReader::new(buf) {
            Ok(r) => r,
            Err(e) => { return Err(PageCodecError::BufferError(e)); },
        };
        let kind: u8 = match read_common_header(&mut r) {
            Ok(k) => k,
            Err(e) => { return Err(e); },
        };
        if kind != KIND_HEADER {
            return Err(PageCodecError::WrongPageKind { expected: KIND_HEADER, actual: kind });
        }
        let key_len: u32 = match r.read_u32_le() {
            Ok(v) => v,
            Err(e) => { return Err(PageCodecError::BufferError(e)); },
        };
        let _reserved: u32 = match r.read_u32_le() {
            Ok(v) => v,
            Err(e) => { return Err(PageCodecError::BufferError(e)); },
        };
        let root: u64 = match r.read_u64_le() {
            Ok(v) => v,
            Err(e) => { return Err(PageCodecError::BufferError(e)); },
        };
        let root_page_id: PageId = match decode_page_id(root) {
            Ok(v) => v,
            Err(e) => { return Err(e); },
        };
        let first: u64 = match r.read_u64_le() {
            Ok(v) => v,
            Err(e) => { return Err(PageCodecError::BufferError(e)); },
        };
        let first_leaf_id: PageId = match decode_page_id(first) {
            Ok(v) => v,
            Err(e) => { return Err(e); },
        };
        if key_len == 0 {
            return Err(PageCodecError::Malformed("header key_len must be > 0"));
        }
        Ok(Self { root_page_id, first_leaf_id, key_len })
    }
}

/// A header page that was stored is read back as it was.
pub proof fn law_header_roundtrip(b: Seq<u8>, v: HeaderPage)
    requires
        header_image(b, v),
        v.key_len > 0,
    ensures
        header_decoded(b) == Ok::<HeaderPage, PageCodecError>(v),
{
}

/// The first key of `keys` whose length is not `key_len`.
fn find_misfit(keys: &Vec<IndexKey>, key_len: usize) -> (res: Option<usize>)
    ensures
        match res {
            Some(i) => i < keys@.len() && misfit(key_views(keys@), key_len as int, 0) == Some(
                i as int,
            ),
            None => misfit(key_views(keys@), key_len as int, 0) is None,
        },
{
    let ghost kv = key_views(keys@);
    let mut i: usize = 0;
    while i < keys.len()
        invariant
            i <= keys@.len(),
            kv == key_views(keys@),
            misfit(kv, key_len as int, 0) == misfit(kv, key_len as int, i as int),
        decreases keys@.len() - i,
    {
        assert(kv[i as int] == keys@[i as int]@);
        if keys[i].0.len() != key_len {
            return Some(i);
        }
        i = i + 1;
    }
    None
}

impl InternalPage {
    pub fn encode(&self, buf: &mut [u8], key_len: u32) -> (res: Result<(), PageCodecError>)
        requires
            key_len != 0 ==> valid_internal(self@),
        ensures
            final(buf)@.len() == old(buf)@.len(),
            match internal_encode_error(self@, key_len as int) {
                Some(e) => res == Err::<(), PageCodecError>(e) && final(buf)@ == old(buf)@,
                None => if old(buf)@.len() < PAGE_SIZE {
                    res == Err::<(), PageCodecError>(too_small(old(buf)@.len() as int))
                        && zero_from(final(buf)@, 0)
                } else {
                    res == Ok::<(), PageCodecError>(()) && internal_image(
                        final(buf)@,
                        self@,
                        key_len as int,
                    )
                },
            },
    {
        let key_len: usize = key_len as usize;
        if key_len == 0 {
            return Err(PageCodecError::Malformed("key_len must be > 0"));
        }
        match find_misfit(&self.keys, key_len) {
            Some(i) => {
                assert(self@.keys[i as int] == self.keys@[i as int]@);
                return Err(
                    PageCodecError::InvalidKeyLen {
                        expected: key_len,
                        actual: self.keys[i].0.len(),
                    },
                );
            },
            None => {},
        }
        let ghost v = self@;
        let ghost kl = key_len as int;
        let child_count: usize = self.children.len();
        let ghost key_total = v.keys.len() * kl;
        assert(key_total >= 0) by (nonlinear_arith)
            requires
                key_total == v.keys.len() * kl,
                kl >= 0,
        ;
        let child_bytes: usize = match child_count.checked_mul(8) {
            Some(n) => n,
            None => { return Err(PageCodecError::BufferError(BufferError::Overflow)); },
        };
        let key_bytes: usize = match self.keys.len().checked_mul(key_len) {
            Some(n) => n,
            None => { return Err(PageCodecError::BufferError(BufferError::Overflow)); },
        };
        let before_keys: usize = match INTERNAL_FIXED_HEADER_BYTES.checked_add(child_bytes) {
            Some(n) => n,
            None => { return Err(PageCodecError::BufferError(BufferError::Overflow)); },
        };
        let needed: usize = match before_keys.checked_add(key_bytes) {
            Some(n) => n,
            None => { return Err(PageCodecError::BufferError(BufferError::Overflow)); },
        };
        assert(needed == internal_bytes(v, kl));
        if needed > PAGE_SIZE {
            return Err(
                PageCodecError::BufferError(
                    BufferError::BufferTooSmall { needed, actual: PAGE_SIZE },
                ),
            );
        }
        fill_zero(buf);
        let mut w = match BufWriter::new(buf) {
            Ok(w) => w,
            Err(e) => { return Err(PageCodecError::BufferError(e)); },
        };
        let ghost fin = final(w.buf)@;
        write_common_header(&mut w, KIND_INTERNAL)?;
        let count: u32 = child_count as u32;
        proof {
            vstd::bytes::lemma_auto_spec_u32_to_from_le_bytes();
            vstd::bytes::lemma_auto_spec_u64_to_from_le_bytes();
            lemma_splice(w.buf@, 8, spec_u32_to_le_bytes(self.base.size));
            lemma_written_is_read(w.buf@, 8);
        }
        lift(w.write_u32_le(self.base.size))?;
        proof {
            lemma_splice(w.buf@, 12, spec_u32_to_le_bytes(self.base.max_size));
            lemma_written_is_read(w.buf@, 12);
        }
        lift(w.write_u32_le(self.base.max_size))?;
        proof {
            lemma_splice(w.buf@, 16, spec_u32_to_le_bytes(count));
            lemma_written_is_read(w.buf@, 16);
        }
        lift(w.write_u32_le(count))?;
        proof {
            lemma_splice(w.buf@, 20, spec_u32_to_le_bytes(0));
            lemma_written_is_read(w.buf@, 20);
        }
        lift(w.write_u32_le(0))?;
        assert(internal_head(w.buf@, v));

        let mut i: usize = 0;
        while i < self.children.len()
            invariant
                i <= child_count,
                v == self@,
                child_count == v.children.len(),
                INTERNAL_FIXED_HEADER_BYTES + 8 * child_count <= PAGE_SIZE,
                w.wf(),
                w.buf@.len() >= PAGE_SIZE,
                w.buf@.len() == old(buf)@.len(),
                final(w.buf)@ == fin,
                w.pos == INTERNAL_FIXED_HEADER_BYTES + 8 * i,
                internal_head(w.buf@, v),
                zero_from(w.buf@, w.pos as int),
                forall|j: int|
                    0 <= j < i ==> u64_at(w.buf@, INTERNAL_FIXED_HEADER_BYTES + 8 * j)
                        == page_id_code(#[trigger] v.children[j]),
            decreases child_count - i,
        {
            let code: u64 = encode_page_id(self.children[i])?;
            proof {
                vstd::bytes::lemma_auto_spec_u64_to_from_le_bytes();
                lemma_splice(w.buf@, w.pos as int, spec_u64_to_le_bytes(code));
                lemma_written_is_read(w.buf@, w.pos as int);
            }
            lift(w.write_u64_le(code))?;
            i = i + 1;
        }
        let ghost keys_off = INTERNAL_FIXED_HEADER_BYTES + v.children.len() * 8;
        let mut i: usize = 0;
        assert(0 * kl == 0);
        proof {
            lemma_misfit(v.keys, kl, 0);
        }
        while i < self.keys.len()
            invariant
                i <= self.keys@.len(),
                v == self@,
                kl == key_len,
                keys_off == INTERNAL_FIXED_HEADER_BYTES + v.children.len() * 8,
                needed == internal_bytes(v, kl),
                needed <= PAGE_SIZE,
                forall|j: int| 0 <= j < v.keys.len() ==> (#[trigger] v.keys[j]).len() == kl,
                w.wf(),
                w.buf@.len() >= PAGE_SIZE,
                w.buf@.len() == old(buf)@.len(),
                final(w.buf)@ == fin,
                w.pos == keys_off + i * kl,
                internal_head(w.buf@, v),
                zero_from(w.buf@, w.pos as int),
                forall|j: int|
                    0 <= j < v.children.len() ==> u64_at(
                        w.buf@,
                        INTERNAL_FIXED_HEADER_BYTES + 8 * j,
                    ) == page_id_code(#[trigger] v.children[j]),
                forall|j: int|
                    0 <= j < i ==> key_at(w.buf@, keys_off, kl, j) == #[trigger] v.keys[j],
            decreases self.keys@.len() - i,
        {
            proof {
                assert(v.keys[i as int] == self.keys@[i as int]@);
                lemma_entry_offsets(i as int, v.keys.len() as int, kl);
                lemma_splice(w.buf@, w.pos as int, v.keys[i as int]);
                assert forall|j: int| 0 <= j < i implies 0 <= #[trigger] (j * kl) && j * kl + kl
                    <= i * kl by {
                    lemma_entry_offsets(j, i as int, kl);
                }
            }
            lift(w.write_bytes(self.keys[i].0.as_slice()))?;
            i = i + 1;
        }
        assert(internal_image(w.buf@, v, kl));
        Ok(())
    }

    #[verifier::loop_isolation(false)]
    pub fn decode(buf: &[u8], key_len: u32) -> (res: Result<Self, PageCodecError>)
        requires
            internal_decoded(buf@, key_len as int) matches Ok(v) ==> valid_internal(v),
        ensures
            match internal_decoded(buf@, key_len as int) {
                Ok(v) => res matches Ok(page) && page@ == v && page.base.page_type
                    == PageType::Internal,
                Err(e) => res == Err::<Self, PageCodecError>(e),
            },
    {
        let key_len: usize = key_len as usize;
        if key_len == 0 {
            return Err(PageCodecError::Malformed("key_len must be > 0"));
        }
        let mut r = match BufReader::new(buf) {
            Ok(r) => r,
            Err(e) => { return Err(PageCodecError::BufferError(e)); },
        };
        let kind: u8 = match read_common_header(&mut r) {
            Ok(k) => k,
            Err(e) => { return Err(e); },
        };
        if kind != KIND_INTERNAL {
            return Err(PageCodecError::WrongPageKind { expected: KIND_INTERNAL, actual: kind });
        }
        let size: u32 = match r.read_u32_le() {
            Ok(v) => v,
            Err(e) => { return Err(PageCodecError::BufferError(e)); },
        };
        let max_size: u32 = match r.read_u32_le() {
            Ok(v) => v,
            Err(e) => { return Err(PageCodecError::BufferError(e)); },
        };
        let count: u32 = match r.read_u32_le() {
            Ok(v) => v,
            Err(e) => { return Err(PageCodecError::BufferError(e)); },
        };
        let _reserved: u32 = match r.read_u32_le() {
            Ok(v) => v,
            Err(e) => { return Err(PageCodecError::BufferError(e)); },
        };
        let child_count: usize = count as usize;
        if child_count == 0 {
            if size != 0 {
                return Err(PageCodecError::Malformed("internal page has keys but zero children"));
            }
            return Ok(InternalPage::new(max_size));
        }
        if child_count - 1 != size as usize {
            return Err(
                PageCodecError::Malformed("internal invariant violated: child_count != size + 1"),
            );
        }
        let n: usize = size as usize;
        let ghost kl = key_len as int;
        let ghost key_total = n * kl;
        assert(key_total >= 0) by (nonlinear_arith)
            requires
                key_total == n * kl,
                kl >= 0,
        ;
        let child_bytes: usize = match child_count.checked_mul(8) {
            Some(n) => n,
            None => { return Err(PageCodecError::BufferError(BufferError::Overflow)); },
        };
        let key_bytes: usize = match n.checked_mul(key_len) {
            Some(n) => n,
            None => { return Err(PageCodecError::BufferError(BufferError::Overflow)); },
        };
        let before_keys: usize = match INTERNAL_FIXED_HEADER_BYTES.checked_add(child_bytes) {
            Some(n) => n,
            None => { return Err(PageCodecError::BufferError(BufferError::Overflow)); },
        };
        let needed: usize = match before_keys.checked_add(key_bytes) {
            Some(n) => n,
            None => { return Err(PageCodecError::BufferError(BufferError::Overflow)); },
        };
        if needed > PAGE_SIZE {
            return Err(
                PageCodecError::BufferError(
                    BufferError::BufferTooSmall { needed, actual: PAGE_SIZE },
                ),
            );
        }
        let ghost b = buf@;
        let mut children: Vec<PageId> = Vec::with_capacity(child_count);
        let mut i: usize = 0;
        while i < child_count
            invariant
                i <= child_count,
                INTERNAL_FIXED_HEADER_BYTES + 8 * child_count <= PAGE_SIZE <= b.len(),
                r.buf@ == b,
                r.pos == INTERNAL_FIXED_HEADER_BYTES + 8 * i,
                children@.len() == i,
                forall|j: int|
                    0 <= j < i ==> #[trigger] child_at(b, j) == Ok::<PageId, PageCodecError>(
                        children@[j],
                    ),
            decreases child_count - i,
        {
            let raw: u64 = match r.read_u64_le() {
                Ok(v) => v,
                Err(e) => { return Err(PageCodecError::BufferError(e)); },
            };
            assert(child_at(b, i as int) == page_id_of(raw));
            match decode_page_id(raw) {
                Ok(v) => { children.push(v); },
                Err(e) => {
                    assert(child_at(b, i as int) is Err);
                    return Err(e);
                },
            }
            i = i + 1;
        }
        let ghost keys_off = INTERNAL_FIXED_HEADER_BYTES + child_count * 8;
        let mut keys: Vec<IndexKey> = Vec::with_capacity(child_count);
        let mut i: usize = 0;
        assert(0 * kl == 0);
        while i < n
            invariant
                i <= n,
                kl == key_len,
                keys_off + n * kl <= PAGE_SIZE <= b.len(),
                0 <= keys_off,
                r.buf@ == b,
                r.pos == keys_off + i * kl,
                keys@.len() == i,
                forall|j: int|
                    0 <= j < i ==> (#[trigger] keys@[j])@ == key_at(b, keys_off, kl, j),
            decreases n - i,
        {
            proof {
                lemma_entry_offsets(i as int, n as int, kl);
            }
            let bytes = match r.read_bytes(key_len) {
                Ok(v) => v,
                Err(e) => { return Err(PageCodecError::BufferError(e)); },
            };
            keys.push(IndexKey(vstd::slice::slice_to_vec(bytes)));
            i = i + 1;
        }
        let mut page = InternalPage::new(max_size);
        page.base.size = size;
        page.children = children;
        page.keys = keys;
        proof {
            let d = internal_decoded(b, kl)->Ok_0;
            assert(!exists|i: int| 0 <= i < child_count && #[trigger] child_at(b, i) is Err);
            assert(page@.children =~= d.children);
            assert(page@.keys =~= d.keys);
        }
        Ok(page)
    }
}

/// The bytes of one leaf entry: the key and two words for the record id.
pub open spec fn entry_bytes(key_len: int) -> int {
    key_len + RECORD_ID_ENCODED_BYTES
}

/// Where entry `i` of a leaf starts; where entry `n` would, the tombstones start.
pub open spec fn entry_off(key_len: int, i: int) -> int {
    LEAF_FIXED_HEADER_BYTES + i * entry_bytes(key_len)
}

/// The bytes that a leaf page takes.
pub open spec fn leaf_bytes(v: LeafView, key_len: int) -> int {
    entry_off(key_len, v.keys.len() as int) + 4 + 4 * v.tombstones.len()
}

/// Why a leaf page cannot be stored with keys of length `key_len`.
pub open spec fn leaf_encode_error(v: LeafView, key_len: int) -> Option<PageCodecError> {
    let live = entry_off(key_len, v.keys.len() as int);
    if key_len == 0 {
        Some(PageCodecError::Malformed("key_len must be > 0"))
    } else if misfit(v.keys, key_len, 0) is Some {
        Some(
            PageCodecError::InvalidKeyLen {
                expected: key_len as usize,
                actual: v.keys[misfit(v.keys, key_len, 0)->0].len() as usize,
            },
        )
    } else if entry_bytes(key_len) > usize::MAX {
        Some(PageCodecError::BufferError(BufferError::Overflow))
    } else if space_error(live) is Some {
        space_error(live)
    } else {
        space_error(leaf_bytes(v, key_len))
    }
}

pub open spec fn leaf_head(b: Seq<u8>, v: LeafView) -> bool {
    &&& has_header(b, KIND_LEAF)
    &&& u32_at(b, 8) == v.size
    &&& u32_at(b, 12) == v.max_size
    &&& u64_at(b, 16) == page_id_code(v.next_leaf_id)
}

/// Entry `i` of the leaf in `b` holds `key` and `rid`.
pub open spec fn entry_is(b: Seq<u8>, key_len: int, i: int, key: Seq<u8>, rid: RecordId) -> bool {
    let off = entry_off(key_len, i);
    &&& b.subrange(off, off + key_len) == key
    &&& u64_at(b, off + key_len) == rid.page_id
    &&& u64_at(b, off + key_len + 8) == rid.slot_id
}

/// `b` is the page that stores `v`.
pub open spec fn leaf_image(b: Seq<u8>, v: LeafView, key_len: int) -> bool {
    let live = entry_off(key_len, v.keys.len() as int);
    &&& b.len() >= PAGE_SIZE
    &&& leaf_head(b, v)
    &&& forall|i: int|
        0 <= i < v.keys.len() ==> entry_is(b, key_len, i, #[trigger] v.keys[i], v.record_ids[i])
    &&& u32_at(b, live) == v.tombstones.len()
    &&& forall|j: int|
        0 <= j < v.tombstones.len() ==> u32_at(b, live + 4 + 4 * j) == #[trigger] v.tombstones[j]
    &&& zero_from(b, leaf_bytes(v, key_len))
}

pub open spec fn entry_key_at(b: Seq<u8>, key_len: int, i: int) -> Seq<u8> {
    b.subrange(entry_off(key_len, i), entry_off(key_len, i) + key_len)
}

pub open spec fn entry_rid_at(b: Seq<u8>, key_len: int, i: int) -> Result<
    RecordId,
    PageCodecError,
> {
    record_id_of(
        u64_at(b, entry_off(key_len, i) + key_len),
        u64_at(b, entry_off(key_len, i) + key_len + 8),
    )
}

/// The tombstones that stand in `b` from `off` on.
pub open spec fn slots_at(b: Seq<u8>, off: int) -> Seq<u32> {
    if b.len() - off < 4 {
        seq![]
    } else {
        Seq::new(u32_at(b, off) as nat, |j: int| u32_at(b, off + 4 + 4 * j))
    }
}

/// Why the tombstones that stand in `b` from `off` on cannot be taken.
pub open spec fn slots_error(b: Seq<u8>, off: int, capacity: int, n: int) -> Option<
    PageCodecError,
> {
    let slots = slots_at(b, off);
    if 4 * slots.len() > usize::MAX {
        Some(PageCodecError::BufferError(BufferError::Overflow))
    } else if slots.len() > 0 && off + 4 + 4 * slots.len() > b.len() {
        Some(PageCodecError::Malformed("leaf tombstones section exceeds remaining bytes"))
    } else if slots.len() > capacity {
        Some(PageCodecError::Malformed("leaf tombstones count exceeds tombstone capacity"))
    } else if !slots_below(slots, n) {
        Some(PageCodecError::Malformed("leaf tombstones index out of bounds"))
    } else {
        None
    }
}

/// What the bytes `b` say as a leaf page with keys of length `key_len`.
pub open spec fn leaf_decoded(b: Seq<u8>, key_len: int) -> Result<LeafView, PageCodecError> {
    let size = u32_at(b, 8);
    let max_size = u32_at(b, 12);
    let n = size as int;
    let live = entry_off(key_len, n);
    let capacity = tombstone_room(max_size as int, key_len, NUM_TOMBSTONES as int);
    if key_len == 0 {
        Err(PageCodecError::Malformed("key_len must be > 0"))
    } else if b.len() < PAGE_SIZE {
        Err(too_small(b.len() as int))
    } else {
        match header_kind(b) {
            Err(e) => Err(e),
            Ok(kind) => if kind != KIND_LEAF {
                Err(PageCodecError::WrongPageKind { expected: KIND_LEAF, actual: kind })
            } else if page_id_of(u64_at(b, 16)) is Err {
                Err(page_id_of(u64_at(b, 16))->Err_0)
            } else if entry_bytes(key_len) > usize::MAX {
                Err(PageCodecError::BufferError(BufferError::Overflow))
            } else if space_error(live) is Some {
                Err(space_error(live)->0)
            } else if exists|i: int| 0 <= i < n && #[trigger] entry_rid_at(b, key_len, i) is Err {
                Err(PageCodecError::BufferError(BufferError::Overflow))
            } else if slots_error(b, live, capacity, n) is Some {
                Err(slots_error(b, live, capacity, n)->0)
            } else {
                Ok(
                    LeafView {
                        keys: Seq::new(n as nat, |i: int| entry_key_at(b, key_len, i)),
                        record_ids: Seq::new(
                            n as nat,
                            |i: int| entry_rid_at(b, key_len, i)->Ok_0,
                        ),
                        next_leaf_id: page_id_of(u64_at(b, 16))->Ok_0,
                        tombstones: slots_at(b, live),
                        capacity: capacity as usize,
                        size,
                        max_size,
                    },
                )
            },
        }
    }
}

/// A leaf page that was stored is read back as it was. Its tombstone capacity is not
/// stored: the page that is read has the one that its layout leaves room for.
pub proof fn law_leaf_roundtrip(b: Seq<u8>, v: LeafView, key_len: int)
    requires
        leaf_image(b, v, key_len),
        valid_leaf(v),
        0 < key_len <= u32::MAX,
        leaf_encode_error(v, key_len) is None,
        v.tombstones.len() <= tombstone_room(v.max_size as int, key_len, NUM_TOMBSTONES as int),
    ensures
        leaf_decoded(b, key_len) == Ok::<LeafView, PageCodecError>(
            LeafView {
                capacity: tombstone_room(v.max_size as int, key_len, NUM_TOMBSTONES as int) as usize,
                ..v
            },
        ),
{
    let n = v.keys.len() as int;
    let live = entry_off(key_len, n);
    let room = tombstone_room(v.max_size as int, key_len, NUM_TOMBSTONES as int);
    assert(n * entry_bytes(key_len) >= 0) by (nonlinear_arith)
        requires
            n >= 0,
            entry_bytes(key_len) >= 0,
    ;
    assert forall|i: int| 0 <= i < n implies #[trigger] entry_rid_at(b, key_len, i) == Ok::<
        RecordId,
        PageCodecError,
    >(v.record_ids[i]) by {
        assert(entry_is(b, key_len, i, v.keys[i], v.record_ids[i]));
    }
    let slots = slots_at(b, live);
    assert(slots =~= v.tombstones);
    assert(slots_error(b, live, room, n) is None);
    let d = leaf_decoded(b, key_len)->Ok_0;
    assert(d.record_ids =~= v.record_ids);
    assert(d.keys =~= v.keys) by {
        assert forall|i: int| 0 <= i < n implies #[trigger] d.keys[i] == v.keys[i] by {
            assert(entry_is(b, key_len, i, v.keys[i], v.record_ids[i]));
        }
    }
}

impl LeafPage {
    pub fn encode(&self, buf: &mut [u8], key_len: u32) -> (res: Result<(), PageCodecError>)
        requires
            key_len != 0 ==> valid_leaf(self@),
        ensures
            final(buf)@.len() == old(buf)@.len(),
            match leaf_encode_error(self@, key_len as int) {
                Some(e) => res == Err::<(), PageCodecError>(e) && final(buf)@ == old(buf)@,
                None => if old(buf)@.len() < PAGE_SIZE {
                    res == Err::<(), PageCodecError>(too_small(old(buf)@.len() as int))
                        && zero_from(final(buf)@, 0)
                } else {
                    res == Ok::<(), PageCodecError>(()) && leaf_image(
                        final(buf)@,
                        self@,
                        key_len as int,
                    )
                },
            },
    {
        let key_len: usize = key_len as usize;
        if key_len == 0 {
            return Err(PageCodecError::Malformed("key_len must be > 0"));
        }
        match find_misfit(&self.keys, key_len) {
            Some(i) => {
                assert(self@.keys[i as int] == self.keys@[i as int]@);
                return Err(
                    PageCodecError::InvalidKeyLen {
                        expected: key_len,
                        actual: self.keys[i].0.len(),
                    },
                );
            },
            None => {},
        }
        let ghost v = self@;
        let ghost kl = key_len as int;
        let n: usize = self.keys.len();
        let entry_len: usize = match key_len.checked_add(RECORD_ID_ENCODED_BYTES) {
            Some(e) => e,
            None => { return Err(PageCodecError::BufferError(BufferError::Overflow)); },
        };
        let entries: usize = match n.checked_mul(entry_len) {
            Some(e) => e,
            None => { return Err(PageCodecError::BufferError(BufferError::Overflow)); },
        };
        let live_needed: usize = match LEAF_FIXED_HEADER_BYTES.checked_add(entries) {
            Some(e) => e,
            None => { return Err(PageCodecError::BufferError(BufferError::Overflow)); },
        };
        assert(live_needed == entry_off(kl, n as int));
        if live_needed > PAGE_SIZE {
            return Err(
                PageCodecError::BufferError(
                    BufferError::BufferTooSmall { needed: live_needed, actual: PAGE_SIZE },
                ),
            );
        }
        // The tombstones stand behind the entries: their number, then the slots, oldest
        // first.
        let slot_bytes: usize = match self.tombstones.len().checked_mul(
            TOMBSTONE_SLOT_ENCODED_BYTES,
        ) {
            Some(e) => e,
            None => { return Err(PageCodecError::BufferError(BufferError::Overflow)); },
        };
        let tombstone_bytes: usize = match TOMBSTONE_SLOT_ENCODED_BYTES.checked_add(slot_bytes) {
            Some(e) => e,
            None => { return Err(PageCodecError::BufferError(BufferError::Overflow)); },
        };
        let needed: usize = match live_needed.checked_add(tombstone_bytes) {
            Some(e) => e,
            None => { return Err(PageCodecError::BufferError(BufferError::Overflow)); },
        };
        assert(needed == leaf_bytes(v, kl));
        if needed > PAGE_SIZE {
            return Err(
                PageCodecError::BufferError(
                    BufferError::BufferTooSmall { needed, actual: PAGE_SIZE },
                ),
            );
        }
        fill_zero(buf);
        let next: u64 = encode_page_id(self.next_leaf_id)?;
        let mut w = match BufWriter::new(buf) {
            Ok(w) => w,
            Err(e) => { return Err(PageCodecError::BufferError(e)); },
        };
        let ghost fin = final(w.buf)@;
        write_common_header(&mut w, KIND_LEAF)?;
        proof {
            vstd::bytes::lemma_auto_spec_u32_to_from_le_bytes();
            vstd::bytes::lemma_auto_spec_u64_to_from_le_bytes();
            lemma_splice(w.buf@, 8, spec_u32_to_le_bytes(self.base.size));
            lemma_written_is_read(w.buf@, 8);
        }
        lift(w.write_u32_le(self.base.size))?;
        proof {
            lemma_splice(w.buf@, 12, spec_u32_to_le_bytes(self.base.max_size));
            lemma_written_is_read(w.buf@, 12);
        }
        lift(w.write_u32_le(self.base.max_size))?;
        proof {
            lemma_splice(w.buf@, 16, spec_u64_to_le_bytes(next));
            lemma_written_is_read(w.buf@, 16);
        }
        lift(w.write_u64_le(next))?;
        assert(leaf_head(w.buf@, v));

        let mut i: usize = 0;
        assert(0 * entry_len == 0);
        proof {
            lemma_misfit(v.keys, kl, 0);
        }
        while i < n
            invariant
                i <= n,
                v == self@,
                n == v.keys.len(),
                n == v.record_ids.len(),
                kl == key_len,
                kl > 0,
                entry_len == entry_bytes(kl),
                entry_off(kl, n as int) <= PAGE_SIZE,
                forall|j: int| 0 <= j < n ==> (#[trigger] v.keys[j]).len() == kl,
                w.wf(),
                w.buf@.len() >= PAGE_SIZE,
                w.buf@.len() == old(buf)@.len(),
                final(w.buf)@ == fin,
                w.pos == entry_off(kl, i as int),
                leaf_head(w.buf@, v),
                zero_from(w.buf@, w.pos as int),
                forall|j: int|
                    0 <= j < i ==> entry_is(w.buf@, kl, j, #[trigger] v.keys[j], v.record_ids[j]),
            decreases n - i,
        {
            let ghost b0 = w.buf@;
            let ghost off = w.pos as int;
            let ghost key = v.keys[i as int];
            let ghost rid = v.record_ids[i as int];
            proof {
                vstd::bytes::lemma_auto_spec_u64_to_from_le_bytes();
                assert(v.keys[i as int] == self.keys@[i as int]@);
                lemma_entry_offsets(i as int, n as int, entry_bytes(kl));
                assert forall|j: int| 0 <= j < i implies LEAF_FIXED_HEADER_BYTES
                    <= #[trigger] entry_off(kl, j) && entry_off(kl, j) + entry_bytes(kl)
                    <= off by {
                    lemma_entry_offsets(j, i as int, entry_bytes(kl));
                }
                lemma_splice(b0, off, key);
            }
            lift(w.write_bytes(self.keys[i].0.as_slice()))?;
            let ghost b1 = w.buf@;
            let (pid, sid): (u64, u64) = encode_record_id(&self.record_ids[i])?;
            proof {
                lemma_splice(b1, off + kl, spec_u64_to_le_bytes(pid));
                lemma_written_is_read(b1, off + kl);
            }
            lift(w.write_u64_le(pid))?;
            let ghost b2 = w.buf@;
            proof {
                lemma_splice(b2, off + kl + 8, spec_u64_to_le_bytes(sid));
                lemma_written_is_read(b2, off + kl + 8);
            }
            lift(w.write_u64_le(sid))?;
            assert(entry_is(w.buf@, kl, i as int, key, rid));
            assert forall|j: int| 0 <= j < i implies entry_is(
                w.buf@,
                kl,
                j,
                #[trigger] v.keys[j],
                v.record_ids[j],
            ) by {
                assert(entry_is(b0, kl, j, v.keys[j], v.record_ids[j]));
                assert(entry_off(kl, j) + entry_bytes(kl) <= off);
            }
            i = i + 1;
        }
        let ghost live = entry_off(kl, n as int);
        let ghost b3 = w.buf@;
        let count: u32 = self.tombstones.len() as u32;
        proof {
            assert forall|j: int| 0 <= j < n implies LEAF_FIXED_HEADER_BYTES
                <= #[trigger] entry_off(kl, j) && entry_off(kl, j) + entry_bytes(kl) <= live by {
                lemma_entry_offsets(j, n as int, entry_bytes(kl));
            }
            lemma_splice(b3, live, spec_u32_to_le_bytes(count));
            lemma_written_is_read(b3, live);
        }
        lift(w.write_u32_le(count))?;
        assert forall|j: int| 0 <= j < n implies entry_is(
            w.buf@,
            kl,
            j,
            #[trigger] v.keys[j],
            v.record_ids[j],
        ) by {
            assert(entry_is(b3, kl, j, v.keys[j], v.record_ids[j]));
            assert(entry_off(kl, j) + entry_bytes(kl) <= live);
        }
        let mut i: usize = 0;
        while i < self.tombstones.len()
            invariant
                i <= self.tombstones@.len(),
                v == self@,
                n == v.keys.len(),
                n == v.record_ids.len(),
                kl == key_len,
                kl > 0,
                live == entry_off(kl, n as int),
                LEAF_FIXED_HEADER_BYTES <= live,
                forall|j: int|
                    0 <= j < n ==> LEAF_FIXED_HEADER_BYTES <= #[trigger] entry_off(kl, j)
                        && entry_off(kl, j) + entry_bytes(kl) <= live,
                leaf_bytes(v, kl) <= PAGE_SIZE,
                w.wf(),
                w.buf@.len() >= PAGE_SIZE,
                w.buf@.len() == old(buf)@.len(),
                final(w.buf)@ == fin,
                w.pos == live + 4 + 4 * i,
                leaf_head(w.buf@, v),
                zero_from(w.buf@, w.pos as int),
                forall|j: int|
                    0 <= j < n ==> entry_is(w.buf@, kl, j, #[trigger] v.keys[j], v.record_ids[j]),
                u32_at(w.buf@, live) == v.tombstones.len(),
                forall|j: int|
                    0 <= j < i ==> u32_at(w.buf@, live + 4 + 4 * j) == #[trigger] v.tombstones[j],
            decreases self.tombstones@.len() - i,
        {
            let ghost b0 = w.buf@;
            let slot: u32 = self.tombstones[i];
            proof {
                vstd::bytes::lemma_auto_spec_u32_to_from_le_bytes();
                lemma_splice(b0, w.pos as int, spec_u32_to_le_bytes(slot));
                lemma_written_is_read(b0, w.pos as int);
            }
            lift(w.write_u32_le(slot))?;
            assert forall|j: int| 0 <= j < n implies entry_is(
                w.buf@,
                kl,
                j,
                #[trigger] v.keys[j],
                v.record_ids[j],
            ) by {
                assert(entry_is(b0, kl, j, v.keys[j], v.record_ids[j]));
                assert(entry_off(kl, j) + entry_bytes(kl) <= live);
            }
            i = i + 1;
        }
        assert(leaf_image(w.buf@, v, kl));
        Ok(())
    }

    #[verifier::loop_isolation(false)]
    pub fn decode(buf: &[u8], key_len: u32) -> (res: Result<Self, PageCodecError>)
        requires
            leaf_decoded(buf@, key_len as int) matches Ok(v) ==> valid_leaf(v),
        ensures
            match leaf_decoded(buf@, key_len as int) {
                Ok(v) => res matches Ok(page) && page@ == v && page.base.page_type
                    == PageType::Leaf,
                Err(e) => res == Err::<Self, PageCodecError>(e),
            },
    {
        let raw_key_len: u32 = key_len;
        let key_len: usize = key_len as usize;
        if key_len == 0 {
            return Err(PageCodecError::Malformed("key_len must be > 0"));
        }
        let mut r = match BufReader::new(buf) {
            Ok(r) => r,
            Err(e) => { return Err(PageCodecError::BufferError(e)); },
        };
        let kind: u8 = match read_common_header(&mut r) {
            Ok(k) => k,
            Err(e) => { return Err(e); },
        };
        if kind != KIND_LEAF {
            return Err(PageCodecError::WrongPageKind { expected: KIND_LEAF, actual: kind });
        }
        let size: u32 = match r.read_u32_le() {
            Ok(v) => v,
            Err(e) => { return Err(PageCodecError::BufferError(e)); },
        };
        let max_size: u32 = match r.read_u32_le() {
            Ok(v) => v,
            Err(e) => { return Err(PageCodecError::BufferError(e)); },
        };
        let next: u64 = match r.read_u64_le() {
            Ok(v) => v,
            Err(e) => { return Err(PageCodecError::BufferError(e)); },
        };
        let next_leaf_id: PageId = match decode_page_id(next) {
            Ok(v) => v,
            Err(e) => { return Err(e); },
        };
        let ghost b = buf@;
        let ghost kl = key_len as int;
        let n: usize = size as usize;
        let entry_len: usize = match key_len.checked_add(RECORD_ID_ENCODED_BYTES) {
            Some(e) => e,
            None => { return Err(PageCodecError::BufferError(BufferError::Overflow)); },
        };
        let entries: usize = match n.checked_mul(entry_len) {
            Some(e) => e,
            None => { return Err(PageCodecError::BufferError(BufferError::Overflow)); },
        };
        let live_needed: usize = match LEAF_FIXED_HEADER_BYTES.checked_add(entries) {
            Some(e) => e,
            None => { return Err(PageCodecError::BufferError(BufferError::Overflow)); },
        };
        assert(live_needed == entry_off(kl, n as int));
        if live_needed > PAGE_SIZE {
            return Err(
                PageCodecError::BufferError(
                    BufferError::BufferTooSmall { needed: live_needed, actual: PAGE_SIZE },
                ),
            );
        }
        let mut keys: Vec<IndexKey> = Vec::with_capacity(n);
        let mut record_ids: Vec<RecordId> = Vec::with_capacity(n);
        let mut i: usize = 0;
        assert(0 * entry_len == 0);
        while i < n
            invariant
                i <= n,
                r.buf@ == b,
                r.pos == entry_off(kl, i as int),
                keys@.len() == i,
                record_ids@.len() == i,
                forall|j: int| 0 <= j < i ==> (#[trigger] keys@[j])@ == entry_key_at(b, kl, j),
                forall|j: int|
                    0 <= j < i ==> #[trigger] entry_rid_at(b, kl, j) == Ok::<
                        RecordId,
                        PageCodecError,
                    >(record_ids@[j]),
            decreases n - i,
        {
            proof {
                lemma_entry_offsets(i as int, n as int, entry_bytes(kl));
            }
            let bytes = match r.read_bytes(key_len) {
                Ok(v) => v,
                Err(e) => { return Err(PageCodecError::BufferError(e)); },
            };
            keys.push(IndexKey(vstd::slice::slice_to_vec(bytes)));
            let pid: u64 = match r.read_u64_le() {
                Ok(v) => v,
                Err(e) => { return Err(PageCodecError::BufferError(e)); },
            };
            let sid: u64 = match r.read_u64_le() {
                Ok(v) => v,
                Err(e) => { return Err(PageCodecError::BufferError(e)); },
            };
            assert(entry_rid_at(b, kl, i as int) == record_id_of(pid, sid));
            match decode_record_id(pid, sid) {
                Ok(v) => { record_ids.push(v); },
                Err(e) => {
                    assert(entry_rid_at(b, kl, i as int) is Err);
                    return Err(e);
                },
            }
            i = i + 1;
        }
        assert(!exists|i: int| 0 <= i < n && #[trigger] entry_rid_at(b, kl, i) is Err);
        let cap: u32 = LeafPage::tombstone_capacity_for_layout(
            max_size,
            raw_key_len,
            NUM_TOMBSTONES,
        );
        let mut page = LeafPage::new(max_size, cap);
        page.base.size = size;
        page.keys = keys;
        page.record_ids = record_ids;
        page.next_leaf_id = next_leaf_id;
        let ghost live = entry_off(kl, n as int);
        let ghost slots = slots_at(b, live);

        if r.remaining() >= TOMBSTONE_SLOT_ENCODED_BYTES {
            let count: u32 = match r.read_u32_le() {
                Ok(v) => v,
                Err(e) => { return Err(PageCodecError::BufferError(e)); },
            };
            let tombstone_count: usize = count as usize;
            assert(slots.len() == tombstone_count);
            if tombstone_count > 0 {
                let needed: usize = match tombstone_count.checked_mul(
                    TOMBSTONE_SLOT_ENCODED_BYTES,
                ) {
                    Some(e) => e,
                    None => { return Err(PageCodecError::BufferError(BufferError::Overflow)); },
                };
                if r.remaining() < needed {
                    return Err(
                        PageCodecError::Malformed(
                            "leaf tombstones section exceeds remaining bytes",
                        ),
                    );
                }
                assert(buf.len() == b.len());
                assert(live + 4 + 4 * tombstone_count <= b.len());
                let mut tombstones: VecDeque<u32> = VecDeque::with_capacity(tombstone_count);
                let mut i: usize = 0;
                while i < tombstone_count
                    invariant
                        i <= tombstone_count,
                        live + 4 + 4 * tombstone_count <= b.len(),
                        r.buf@ == b,
                        r.pos == live + 4 + 4 * i,
                        tombstones@ == slots.subrange(0, i as int),
                    decreases tombstone_count - i,
                {
                    match r.read_u32_le() {
                        Ok(v) => { tombstones.push_back(v); },
                        Err(e) => { return Err(PageCodecError::BufferError(e)); },
                    }
                    i = i + 1;
                    assert(tombstones@ =~= slots.subrange(0, i as int));
                }
                assert(tombstones@ =~= slots);
                if tombstones.len() > page.tombstone_capacity {
                    return Err(
                        PageCodecError::Malformed(
                            "leaf tombstones count exceeds tombstone capacity",
                        ),
                    );
                }
                if !Self::slots_in_range(&tombstones, page.keys.len()) {
                    return Err(PageCodecError::Malformed("leaf tombstones index out of bounds"));
                }
                page.tombstones = tombstones;
            }
        }
        proof {
            let d = leaf_decoded(b, kl)->Ok_0;
            assert(page@.keys =~= d.keys);
            assert(page@.record_ids =~= d.record_ids);
            assert(page@.tombstones =~= slots);
        }
        Ok(page)
    }
}

/// What the bytes `b` say as a page of a tree.
pub open spec fn page_kind(b: Seq<u8>) -> Result<PageKind, PageCodecError> {
    if b[KIND_OFFSET as int] == KIND_INTERNAL {
        Ok(PageKind::Internal)
    } else if b[KIND_OFFSET as int] == KIND_LEAF {
        Ok(PageKind::Leaf)
    } else {
        Err(PageCodecError::InvalidPageKind(b[KIND_OFFSET as int]))
    }
}

impl Page {
    pub fn decode(buf: &[u8], key_len: u32) -> (res: Result<Self, PageCodecError>)
        requires
            buf@.len() > KIND_OFFSET,
            page_kind(buf@) == Ok::<PageKind, PageCodecError>(PageKind::Internal) ==> (
            internal_decoded(buf@, key_len as int) matches Ok(v) ==> valid_internal(v)),
            page_kind(buf@) == Ok::<PageKind, PageCodecError>(PageKind::Leaf) ==> (leaf_decoded(
                buf@,
                key_len as int,
            ) matches Ok(v) ==> valid_leaf(v)),
        ensures
            match page_kind(buf@) {
                Ok(PageKind::Internal) => match internal_decoded(buf@, key_len as int) {
                    Ok(v) => res matches Ok(Page::Internal(page)) && page@ == v
                        && page.base.page_type == PageType::Internal,
                    Err(e) => res == Err::<Self, PageCodecError>(e),
                },
                Ok(PageKind::Leaf) => match leaf_decoded(buf@, key_len as int) {
                    Ok(v) => res matches Ok(Page::Leaf(page)) && page@ == v && page.base.page_type
                        == PageType::Leaf,
                    Err(e) => res == Err::<Self, PageCodecError>(e),
                },
                Err(e) => res == Err::<Self, PageCodecError>(e),
            },
    {
        let kind: u8 = buf[KIND_OFFSET];
        if kind == KIND_INTERNAL {
            match InternalPage::decode(buf, key_len) {
                Ok(page) => Ok(Page::Internal(page)),
                Err(e) => Err(e),
            }
        } else if kind == KIND_LEAF {
            match LeafPage::decode(buf, key_len) {
                Ok(page) => Ok(Page::Leaf(page)),
                Err(e) => Err(e),
            }
        } else {
            Err(PageCodecError::InvalidPageKind(kind))
        }
    }

    pub fn kind(buf: &[u8]) -> (res: Result<PageKind, PageCodecError>)
        requires
            buf@.len() > KIND_OFFSET,
        ensures
            res == page_kind(buf@),
    {
        let kind: u8 = buf[KIND_OFFSET];
        if kind == KIND_INTERNAL {
            Ok(PageKind::Internal)
        } else if kind == KIND_LEAF {
            Ok(PageKind::Leaf)
        } else {
            Err(PageCodecError::InvalidPageKind(kind))
        }
    }
}

} // verus!
