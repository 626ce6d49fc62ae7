//! Tables as pages of tuples.
use vstd::bytes::{spec_u16_to_le_bytes, spec_u32_to_le_bytes};
use vstd::prelude::*;

use crate::buf::{lemma_splice, lemma_written_is_read, u16_at, u32_at, BufReader, BufWriter};
use crate::buffer_pool::{can_pin, BufferPoolManager};
use crate::disk::PAGE_SIZE;
use crate::text::{decimal, digits, joined};

verus! {

#[derive(Debug)]
pub struct TableHeapError(pub String);

#[derive(Debug)]
pub struct TablePageError(pub String);

impl From<TablePageError> for TableHeapError {
    fn from(err: TablePageError) -> (res: Self) {
        TableHeapError(err.0)
    }
}

impl vstd::std_specs::convert::FromSpecImpl<TablePageError> for TableHeapError {
    open spec fn obeys_from_spec() -> bool {
        true
    }

    open spec fn from_spec(err: TablePageError) -> Self {
        TableHeapError(err.0)
    }
}

/// Where a tuple lives: a page of the table and a slot in its directory.
#[derive(Debug, Clone, Copy, PartialEq, Eq, Structural)]
pub struct RecordId {
    pub page_id: u32,
    pub slot_id: u32,
}

impl RecordId {
    /// The id that stands for no record: that of tuples which no table stores.
    pub open spec fn no_record() -> RecordId {
        RecordId { page_id: u32::MAX, slot_id: u32::MAX }
    }

    pub fn reserved() -> (res: RecordId)
        ensures
            res == RecordId::no_record(),
    {
        RecordId { page_id: u32::MAX, slot_id: u32::MAX }
    }

    /// The record id as text.
    pub fn describe(&self) -> (res: String)
        ensures
            res@ == "page_id: "@ + digits(self.page_id as nat) + ", slot_id: "@ + digits(
                self.slot_id as nat,
            ),
    {
        let mut s = joined("page_id: ", decimal(self.page_id as u64).as_str());
        s.append(", slot_id: ");
        s.append(decimal(self.slot_id as u64).as_str());
        s
    }
}

/// Where the bytes of a tuple end, how many they are, and whether it was deleted.
#[derive(Debug, Clone, Copy, PartialEq, Eq, Structural)]
pub struct TupleMeta {
    pub offset: u32,
    pub size: u32,
    pub is_deleted: u8,
}

/// The header and the slot directory of a table page. Tuples fill the page from its end;
/// their bytes are not part of this.
pub struct TablePage {
    pub next_page_id: u32,
    pub num_tuples: u16,
    pub num_deleted_tuples: u16,
    /// The tuples start here; the next one ends here.
    pub free_space_offset: u32,
    pub tuples_meta: Vec<TupleMeta>,
}

/// What the header and the slot directory of a table page say.
#[verifier::ext_equal]
pub struct DirectoryView {
    pub next_page_id: u32,
    pub num_tuples: u16,
    pub num_deleted_tuples: u16,
    pub free_space_offset: u32,
    pub metas: Seq<TupleMeta>,
}

impl View for TablePage {
    type V = DirectoryView;

    open spec fn view(&self) -> DirectoryView {
        DirectoryView {
            next_page_id: self.next_page_id,
            num_tuples: self.num_tuples,
            num_deleted_tuples: self.num_deleted_tuples,
            free_space_offset: self.free_space_offset,
            metas: self.tuples_meta@,
        }
    }
}

pub const TABLE_HEADER_BYTES: usize = 12;

pub const SLOT_BYTES: usize = 9;

/// Where a slot directory of `n` entries ends.
pub open spec fn directory_end(n: int) -> int {
    TABLE_HEADER_BYTES + SLOT_BYTES * n
}

/// The directory entry of slot `i`.
pub open spec fn meta_at(b: Seq<u8>, i: int) -> TupleMeta {
    TupleMeta {
        offset: u32_at(b, directory_end(i)),
        size: u32_at(b, directory_end(i) + 4),
        is_deleted: b[directory_end(i) + 8],
    }
}

/// What the bytes of a table page say of its tuples.
pub open spec fn directory(b: Seq<u8>) -> DirectoryView {
    DirectoryView {
        next_page_id: u32_at(b, 0),
        num_tuples: u16_at(b, 4),
        num_deleted_tuples: u16_at(b, 6),
        free_space_offset: u32_at(b, 8),
        metas: Seq::new(u16_at(b, 4) as nat, |i: int| meta_at(b, i)),
    }
}

/// `b` starts with the header and the directory `v`.
pub open spec fn directory_image(b: Seq<u8>, v: DirectoryView) -> bool {
    &&& u32_at(b, 0) == v.next_page_id
    &&& u16_at(b, 4) == v.num_tuples
    &&& u16_at(b, 6) == v.num_deleted_tuples
    &&& u32_at(b, 8) == v.free_space_offset
    &&& forall|i: int| 0 <= i < v.metas.len() ==> meta_at(b, i) == #[trigger] v.metas[i]
}

/// A directory that was written is read back as it was.
pub proof fn law_directory_roundtrip(b: Seq<u8>, v: DirectoryView)
    requires
        directory_image(b, v),
        v.num_tuples == v.metas.len(),
    ensures
        directory(b) == v,
{
    assert(directory(b).metas =~= v.metas);
}

impl TablePage {
    pub fn decode(data: &[u8]) -> (res: Result<Self, TablePageError>)
        requires
            data@.len() >= PAGE_SIZE,
            directory_end(directory(data@).num_tuples as int) <= data@.len(),
        ensures
            res matches Ok(page) && page@ == directory(data@),
    {
        let mut reader = match BufReader::new(data) {
            Ok(r) => r,
            Err(_) => { return Err(TablePageError(String::new())); },
        };
        let next_page_id: u32 = match reader.read_u32_le() {
            Ok(v) => v,
            Err(_) => { return Err(TablePageError(String::new())); },
        };
        let num_tuples: u16 = match reader.read_u16_le() {
            Ok(v) => v,
            Err(_) => { return Err(TablePageError(String::new())); },
        };
        let num_deleted_tuples: u16 = match reader.read_u16_le() {
            Ok(v) => v,
            Err(_) => { return Err(TablePageError(String::new())); },
        };
        let free_space_offset: u32 = match reader.read_u32_le() {
            Ok(v) => v,
            Err(_) => { return Err(TablePageError(String::new())); },
        };
        let mut tuples_meta: Vec<TupleMeta> = Vec::with_capacity(num_tuples as usize);
        let ghost b = data@;
        let mut i: u16 = 0;
        assert(data.len() == b.len());
        while i < num_tuples
            invariant
                i <= num_tuples,
                reader.buf@ == b,
                reader.pos == directory_end(i as int),
                directory_end(num_tuples as int) <= b.len(),
                b.len() <= usize::MAX,
                tuples_meta@.len() == i,
                forall|k: int| 0 <= k < i ==> #[trigger] tuples_meta@[k] == meta_at(b, k),
            decreases num_tuples - i,
        {
            let offset: u32 = match reader.read_u32_le() {
                Ok(v) => v,
                Err(_) => { return Err(TablePageError(String::new())); },
            };
            let size: u32 = match reader.read_u32_le() {
                Ok(v) => v,
                Err(_) => { return Err(TablePageError(String::new())); },
            };
            let is_deleted: u8 = match reader.read_u8() {
                Ok(v) => v,
                Err(_) => { return Err(TablePageError(String::new())); },
            };
            tuples_meta.push(TupleMeta { offset, size, is_deleted });
            i = i + 1;
        }
        let page = Self {
            next_page_id,
            num_tuples,
            num_deleted_tuples,
            free_space_offset,
            tuples_meta,
        };
        assert(page@.metas =~= directory(b).metas);
        Ok(page)
    }

    /// Writes the header and the slot directory. The bytes behind the directory are left alone.
    pub fn encode(&self, data: &mut [u8]) -> (res: Result<(), TablePageError>)
        requires
            old(data)@.len() >= PAGE_SIZE,
            directory_end(self@.metas.len() as int) <= old(data)@.len(),
        ensures
            final(data)@.len() == old(data)@.len(),
            directory_image(final(data)@, self@),
            forall|k: int|
                directory_end(self@.metas.len() as int) <= k < old(data)@.len() ==> #[trigger] final(
                    data)@[k] == old(data)@[k],
            match res {
                Ok(_) => directory_end(self@.metas.len() as int) <= self@.free_space_offset,
                Err(e) => {
                    &&& directory_end(self@.metas.len() as int) > self@.free_space_offset
                    &&& e.0@ == overlap_message(
                        directory_end(self@.metas.len() as int) as nat,
                        self@.free_space_offset as nat,
                    )
                },
            },
    {
        let ghost b0 = data@;
        let ghost v = self@;
        let n: usize = self.tuples_meta.len();
        assert(data.len() == b0.len());
        let mut writer = match BufWriter::new(data) {
            Ok(w) => w,
            Err(_) => { return Err(TablePageError(String::new())); },
        };
        let ghost fin = final(writer.buf)@;
        proof {
            vstd::bytes::lemma_auto_spec_u16_to_from_le_bytes();
            vstd::bytes::lemma_auto_spec_u32_to_from_le_bytes();
            lemma_splice(writer.buf@, 0, spec_u32_to_le_bytes(self.next_page_id));
            lemma_written_is_read(writer.buf@, 0);
        }
        let _r0 = writer.write_u32_le(self.next_page_id);
        proof {
            lemma_splice(writer.buf@, 4, spec_u16_to_le_bytes(self.num_tuples));
            lemma_written_is_read(writer.buf@, 4);
        }
        let _r1 = writer.write_u16_le(self.num_tuples);
        proof {
            lemma_splice(writer.buf@, 6, spec_u16_to_le_bytes(self.num_deleted_tuples));
            lemma_written_is_read(writer.buf@, 6);
        }
        let _r2 = writer.write_u16_le(self.num_deleted_tuples);
        proof {
            lemma_splice(writer.buf@, 8, spec_u32_to_le_bytes(self.free_space_offset));
            lemma_written_is_read(writer.buf@, 8);
        }
        let _r3 = writer.write_u32_le(self.free_space_offset);
        let mut i: usize = 0;
        while i < n
            invariant
                i <= n,
                v == self@,
                n == v.metas.len(),
                directory_end(n as int) <= b0.len() <= usize::MAX,
                writer.wf(),
                final(writer.buf)@ == fin,
                writer.buf@.len() == b0.len(),
                writer.pos == directory_end(i as int),
                u32_at(writer.buf@, 0) == v.next_page_id,
                u16_at(writer.buf@, 4) == v.num_tuples,
                u16_at(writer.buf@, 6) == v.num_deleted_tuples,
                u32_at(writer.buf@, 8) == v.free_space_offset,
                forall|k: int| 0 <= k < i ==> meta_at(writer.buf@, k) == #[trigger] v.metas[k],
                forall|k: int|
                    directory_end(i as int) <= k < b0.len() ==> #[trigger] writer.buf@[k] == b0[k],
            decreases n - i,
        {
            let meta = self.tuples_meta[i];
            let ghost off = directory_end(i as int);
            proof {
                vstd::bytes::lemma_auto_spec_u32_to_from_le_bytes();
                lemma_splice(writer.buf@, off, spec_u32_to_le_bytes(meta.offset));
                lemma_written_is_read(writer.buf@, off);
            }
            let _r0 = writer.write_u32_le(meta.offset);
            proof {
                lemma_splice(writer.buf@, off + 4, spec_u32_to_le_bytes(meta.size));
                lemma_written_is_read(writer.buf@, off + 4);
            }
            let _r1 = writer.write_u32_le(meta.size);
            proof {
                lemma_splice(writer.buf@, off + 8, seq![meta.is_deleted]);
            }
            let _r2 = writer.write_u8(meta.is_deleted);
            i = i + 1;
        }
        let end: usize = writer.pos();
        if end > self.free_space_offset as usize {
            return Err(TablePageError(overlap_text(end, self.free_space_offset)));
        }
        Ok(())
    }

    fn insert_tuple_metadata(&mut self, meta: TupleMeta)
        requires
            meta.size <= old(self).free_space_offset,
        ensures
            final(self)@ == (DirectoryView {
                free_space_offset: (old(self)@.free_space_offset - meta.size) as u32,
                metas: old(self)@.metas.push(meta),
                ..old(self)@
            }),
    {
        self.free_space_offset = self.free_space_offset - meta.size;
        self.tuples_meta.push(meta);
    }

    fn next_free_offset(&self) -> (res: u32)
        ensures
            res == self@.free_space_offset,
    {
        self.free_space_offset
    }
}

/// What is said of a slot directory that runs into the tuples.
pub open spec fn overlap_message(end: nat, start: nat) -> Seq<char> {
    "slot directory ends at "@ + digits(end) + " but tuple area starts at "@ + digits(start)
}

fn overlap_text(end: usize, start: u32) -> (res: String)
    ensures
        res@ == overlap_message(end as nat, start as nat),
{
    let mut s = joined("slot directory ends at ", decimal(end as u64).as_str());
    s.append(" but tuple area starts at ");
    s.append(decimal(start as u64).as_str());
    s
}

#[derive(Debug)]
pub struct Tuple {
    pub data: Vec<u8>,
}

/// A tuple of a table, which may have been deleted.
#[verifier::ext_equal]
pub struct Row {
    pub deleted: bool,
    pub data: Seq<u8>,
}

/// How many entries of a directory stand for deleted tuples.
pub open spec fn deleted_count(metas: Seq<TupleMeta>) -> nat
    decreases metas.len(),
{
    if metas.len() == 0 {
        0
    } else {
        deleted_count(metas.drop_last()) + if metas.last().is_deleted == 1 {
            1nat
        } else {
            0nat
        }
    }
}

proof fn lemma_deleted_count(metas: Seq<TupleMeta>)
    ensures
        deleted_count(metas) <= metas.len(),
    decreases metas.len(),
{
    if metas.len() > 0 {
        lemma_deleted_count(metas.drop_last());
    }
}

proof fn lemma_count_marked(metas: Seq<TupleMeta>, i: int)
    requires
        0 <= i < metas.len(),
        metas[i].is_deleted != 1,
    ensures
        deleted_count(metas.update(i, TupleMeta { is_deleted: 1, ..metas[i] })) == deleted_count(
            metas,
        ) + 1,
        deleted_count(metas) < metas.len(),
    decreases metas.len(),
{
    let marked = metas.update(i, TupleMeta { is_deleted: 1, ..metas[i] });
    if i == metas.len() - 1 {
        assert(marked.drop_last() =~= metas.drop_last());
        lemma_deleted_count(metas.drop_last());
    } else {
        lemma_count_marked(metas.drop_last(), i);
        assert(marked.drop_last() =~= metas.drop_last().update(
            i,
            TupleMeta { is_deleted: 1, ..metas[i] },
        ));
    }
}

/// The tuples of a directory lie behind it, in the page, and do not overlap.
pub open spec fn valid_directory(v: DirectoryView) -> bool {
    let n = v.metas.len() as int;
    &&& v.num_tuples == n
    &&& v.num_deleted_tuples == deleted_count(v.metas)
    &&& directory_end(n) <= v.free_space_offset <= PAGE_SIZE
    &&& forall|i: int|
        0 <= i < n ==> (#[trigger] v.metas[i]).size <= v.metas[i].offset && v.metas[i].offset
            <= PAGE_SIZE && v.free_space_offset <= v.metas[i].offset - v.metas[i].size
    &&& forall|i: int, j: int|
        0 <= i < j < n ==> (#[trigger] v.metas[j]).offset <= (#[trigger] v.metas[i]).offset
            - v.metas[i].size
}

pub open spec fn valid_page(b: Seq<u8>) -> bool {
    b.len() == PAGE_SIZE && valid_directory(directory(b))
}

/// The bytes of the tuple with this directory entry.
pub open spec fn tuple_bytes(b: Seq<u8>, meta: TupleMeta) -> Seq<u8> {
    b.subrange(meta.offset - meta.size, meta.offset as int)
}

/// The tuples of a page by slot.
pub open spec fn page_rows(b: Seq<u8>) -> Seq<Row> {
    directory(b).metas.map_values(
        |m: TupleMeta| Row { deleted: m.is_deleted == 1, data: tuple_bytes(b, m) },
    )
}

/// A tuple of `len` bytes and its directory entry fit on a page.
pub open spec fn page_fits(b: Seq<u8>, len: int) -> bool {
    directory_end(directory(b).metas.len() as int + 1) + len <= directory(b).free_space_offset
}

/// Pages that agree on the directory and behind its end agree on the tuples.
proof fn lemma_same_tuples(a: Seq<u8>, b: Seq<u8>, from: int, meta: TupleMeta)
    requires
        a.len() == PAGE_SIZE,
        b.len() == PAGE_SIZE,
        from <= meta.offset - meta.size,
        meta.size <= meta.offset <= PAGE_SIZE,
        forall|k: int| from <= k < PAGE_SIZE ==> #[trigger] a[k] == b[k],
    ensures
        tuple_bytes(a, meta) == tuple_bytes(b, meta),
{
    assert(tuple_bytes(a, meta) =~= tuple_bytes(b, meta));
}

/// Why a tuple of `len` bytes does not fit on a page with `count` tuples, which has `room` bytes
/// left for tuples and their slots.
pub open spec fn insert_message(count: int, room: int, len: int) -> Seq<char> {
    let free = room + directory_end(count);
    if len > free {
        "tuple of "@ + digits(len as nat) + " bytes exceeds tuple area of "@ + digits(free as nat)
    } else {
        overlap_message(directory_end(count + 1) as nat, (free - len) as nat)
    }
}

/// The bytes that tuples and their slots can still take on a page.
pub open spec fn page_room(b: Seq<u8>) -> int {
    directory(b).free_space_offset - directory_end(directory(b).metas.len() as int)
}

/// Why a tuple of `len` bytes does not fit on a page.
pub open spec fn insert_error(b: Seq<u8>, len: int) -> Seq<char> {
    insert_message(directory(b).metas.len() as int, page_room(b), len)
}

/// Puts a tuple on a page; returns its slot.
fn insert_on_page(data: &mut Vec<u8>, t: &[u8]) -> (res: Result<u32, TableHeapError>)
    requires
        valid_page(old(data)@),
    ensures
        match res {
            Ok(slot) => {
                &&& page_fits(old(data)@, t@.len() as int)
                &&& slot == page_rows(old(data)@).len()
                &&& valid_page(final(data)@)
                &&& page_rows(final(data)@) == page_rows(old(data)@).push(
                    Row { deleted: false, data: t@ },
                )
                &&& directory(final(data)@).free_space_offset == directory(
                    old(data)@,
                ).free_space_offset - t@.len()
            },
            Err(e) => {
                &&& !page_fits(old(data)@, t@.len() as int)
                &&& e.0@ == insert_error(old(data)@, t@.len() as int)
            },
        },
{
    let ghost b0 = data@;
    let ghost v0 = directory(b0);
    let mut page = match TablePage::decode(data.as_slice()) {
        Ok(p) => p,
        Err(e) => { return Err(TableHeapError(e.0)); },
    };
    let tuple_len: usize = t.len();
    let offset: u32 = page.next_free_offset();
    if tuple_len > offset as usize {
        let mut s = joined("tuple of ", decimal(tuple_len as u64).as_str());
        s.append(" bytes exceeds tuple area of ");
        s.append(decimal(offset as u64).as_str());
        return Err(TableHeapError(s));
    }
    let meta = TupleMeta { offset, size: tuple_len as u32, is_deleted: 0 };
    let start: usize = (offset - meta.size) as usize;
    page.insert_tuple_metadata(meta);
    page.num_tuples = page.num_tuples + 1;
    let ghost v1 = page@;
    let directory_len: usize = TABLE_HEADER_BYTES + SLOT_BYTES * page.tuples_meta.len();
    if directory_len > page.free_space_offset as usize {
        return Err(TableHeapError(overlap_text(directory_len, page.free_space_offset)));
    }
    let mut i: usize = 0;
    while i < tuple_len
        invariant
            i <= tuple_len,
            tuple_len == t@.len(),
            start + tuple_len == offset,
            offset <= PAGE_SIZE,
            b0.len() == PAGE_SIZE,
            data@.len() == PAGE_SIZE,
            forall|k: int|
                0 <= k < PAGE_SIZE ==> #[trigger] data@[k] == if start <= k < start + i {
                    t@[k - start]
                } else {
                    b0[k]
                },
        decreases tuple_len - i,
    {
        data.set(start + i, t[i]);
        i = i + 1;
    }
    let slot_id: u32 = (page.tuples_meta.len() - 1) as u32;
    let ghost b1 = data@;
    match page.encode(data.as_mut_slice()) {
        Ok(_) => {},
        Err(e) => { return Err(TableHeapError(e.0)); },
    }
    proof {
        let b2 = data@;
        law_directory_roundtrip(b2, v1);
        let n = v0.metas.len() as int;
        assert(v1.metas.drop_last() =~= v0.metas);
        assert(deleted_count(v1.metas) == deleted_count(v0.metas));
        assert forall|i: int, j: int| 0 <= i < j < v1.metas.len() implies (
        #[trigger] v1.metas[j]).offset <= (#[trigger] v1.metas[i]).offset - v1.metas[i].size by {
            if j == n {
                assert(v1.metas[i] == v0.metas[i]);
            } else {
                assert(v0.metas[j].offset <= v0.metas[i].offset - v0.metas[i].size);
            }
        }
        assert forall|i: int| 0 <= i < v1.metas.len() implies (#[trigger] v1.metas[i]).size
            <= v1.metas[i].offset && v1.metas[i].offset <= PAGE_SIZE && v1.free_space_offset
            <= v1.metas[i].offset - v1.metas[i].size by {
            if i < n {
                assert(v1.metas[i] == v0.metas[i]);
            }
        }
        assert(page_rows(b2) =~= page_rows(b0).push(Row { deleted: false, data: t@ })) by {
            assert forall|i: int| 0 <= i < n implies page_rows(b2)[i] == page_rows(b0)[i] by {
                let m = v0.metas[i];
                assert(v1.metas[i] == m);
                assert(forall|k: int| offset <= k < PAGE_SIZE ==> #[trigger] b2[k] == b0[k]) by {
                    assert forall|k: int| offset <= k < PAGE_SIZE implies #[trigger] b2[k]
                        == b0[k] by {
                        assert(b2[k] == b1[k]);
                    }
                }
                lemma_same_tuples(b2, b0, offset as int, m);
            }
            assert(tuple_bytes(b2, meta) =~= t@) by {
                assert forall|k: int| 0 <= k < tuple_len implies tuple_bytes(b2, meta)[k]
                    == t@[k] by {
                    assert(b2[start + k] == b1[start + k]);
                }
            }
        }
    }
    Ok(slot_id)
}

/// Marks the tuple in a slot as deleted.
fn delete_on_page(data: &mut Vec<u8>, slot: u32) -> (res: Result<(), TableHeapError>)
    requires
        valid_page(old(data)@),
        slot < page_rows(old(data)@).len(),
    ensures
        match res {
            Ok(_) => {
                &&& !page_rows(old(data)@)[slot as int].deleted
                &&& valid_page(final(data)@)
                &&& page_rows(final(data)@) == page_rows(old(data)@).update(
                    slot as int,
                    Row { deleted: true, ..page_rows(old(data)@)[slot as int] },
                )
                &&& directory(final(data)@).free_space_offset == directory(
                    old(data)@,
                ).free_space_offset
            },
            Err(e) => {
                &&& page_rows(old(data)@)[slot as int].deleted
                &&& e.0@ == "record already deleted"@
                &&& final(data)@ == old(data)@
            },
        },
{
    let ghost b0 = data@;
    let ghost v0 = directory(b0);
    let mut page = match TablePage::decode(data.as_slice()) {
        Ok(p) => p,
        Err(e) => { return Err(TableHeapError(e.0)); },
    };
    let idx: usize = slot as usize;
    let mut meta = page.tuples_meta[idx];
    if meta.is_deleted == 1 {
        return Err(TableHeapError("record already deleted".to_owned()));
    }
    proof {
        lemma_count_marked(v0.metas, idx as int);
    }
    meta.is_deleted = 1;
    page.tuples_meta.set(idx, meta);
    page.num_deleted_tuples = page.num_deleted_tuples + 1;
    let ghost v1 = page@;
    match page.encode(data.as_mut_slice()) {
        Ok(_) => {},
        Err(e) => { return Err(TableHeapError(e.0)); },
    }
    proof {
        let b2 = data@;
        law_directory_roundtrip(b2, v1);
        assert forall|i: int| 0 <= i < v1.metas.len() implies (#[trigger] v1.metas[i]).offset
            == v0.metas[i].offset && v1.metas[i].size == v0.metas[i].size by {}
        assert forall|i: int, j: int| 0 <= i < j < v1.metas.len() implies (
        #[trigger] v1.metas[j]).offset <= (#[trigger] v1.metas[i]).offset - v1.metas[i].size by {
            assert(v0.metas[j].offset <= v0.metas[i].offset - v0.metas[i].size);
        }
        assert forall|i: int| 0 <= i < v1.metas.len() implies (#[trigger] v1.metas[i]).size
            <= v1.metas[i].offset && v1.metas[i].offset <= PAGE_SIZE && v1.free_space_offset
            <= v1.metas[i].offset - v1.metas[i].size by {
            assert(v0.metas[i].size <= v0.metas[i].offset);
        }
        assert(page_rows(b2) =~= page_rows(b0).update(
            slot as int,
            Row { deleted: true, ..page_rows(b0)[slot as int] },
        )) by {
            assert forall|i: int| 0 <= i < v0.metas.len() implies page_rows(b2)[i].data
                == page_rows(b0)[i].data by {
                assert(v1.metas[i].offset == v0.metas[i].offset);
                lemma_same_tuples(b2, b0, v0.free_space_offset as int, v0.metas[i]);
                assert(tuple_bytes(b2, v1.metas[i]) == tuple_bytes(b2, v0.metas[i]));
            }
        }
    }
    Ok(())
}

/// Reads the tuple in a slot.
fn get_on_page(data: &Vec<u8>, slot: u32) -> (res: Result<Tuple, TableHeapError>)
    requires
        valid_page(data@),
        slot < page_rows(data@).len(),
    ensures
        match res {
            Ok(t) => !page_rows(data@)[slot as int].deleted && t.data@ == page_rows(
                data@,
            )[slot as int].data,
            Err(e) => page_rows(data@)[slot as int].deleted && e.0@ == "record has been deleted"@,
        },
{
    let page = match TablePage::decode(data.as_slice()) {
        Ok(p) => p,
        Err(e) => { return Err(TableHeapError(e.0)); },
    };
    let meta = page.tuples_meta[slot as usize];
    if meta.is_deleted == 1 {
        return Err(TableHeapError("record has been deleted".to_owned()));
    }
    assert(meta == directory(data@).metas[slot as int]);
    let start: usize = (meta.offset - meta.size) as usize;
    let end: usize = meta.offset as usize;
    let bytes = vstd::slice::slice_subrange(data.as_slice(), start, end);
    Ok(Tuple { data: vstd::slice::slice_to_vec(bytes) })
}

/// A table: one page of tuples in the buffer pool.
#[derive(Debug, Clone, Copy)]
pub struct TableHeap {
    /// The page where the table starts.
    pub first_page_id: usize,
    /// The page that takes new tuples.
    pub last_page_id: usize,
}

/// The deleted tuple of slot `i` is gone for readers; all else is as before.
pub open spec fn row_deleted(rows: Seq<Row>, i: int) -> Seq<Row> {
    rows.update(i, Row { deleted: true, ..rows[i] })
}

impl TableHeap {
    /// The page of the table is in order.
    pub open spec fn wf(&self, pages: Map<usize, Seq<u8>>) -> bool {
        &&& self.first_page_id == self.last_page_id
        &&& self.last_page_id <= u32::MAX
        &&& pages.contains_key(self.last_page_id)
        &&& valid_page(pages[self.last_page_id])
    }

    /// The tuples of the table by slot.
    pub open spec fn rows(&self, pages: Map<usize, Seq<u8>>) -> Seq<Row> {
        page_rows(pages[self.last_page_id])
    }

    /// A tuple of `len` bytes fits into the table.
    pub open spec fn fits(&self, pages: Map<usize, Seq<u8>>, len: int) -> bool {
        page_fits(pages[self.last_page_id], len)
    }

    /// The bytes that tuples and their slots can still take.
    pub open spec fn room(&self, pages: Map<usize, Seq<u8>>) -> int {
        page_room(pages[self.last_page_id])
    }

    /// The id of slot `i`.
    pub open spec fn rid(&self, i: int) -> RecordId {
        RecordId { page_id: self.last_page_id as u32, slot_id: i as u32 }
    }

    /// `rid` stands for a slot of the table.
    pub open spec fn has_slot(&self, pages: Map<usize, Seq<u8>>, rid: RecordId) -> bool {
        rid.page_id == self.last_page_id && rid.slot_id < self.rows(pages).len()
    }

    /// Nothing but the page of the table changed.
    pub open spec fn only_touches(&self, old_bpm: &BufferPoolManager, bpm: &BufferPoolManager) -> bool {
        &&& bpm.wf()
        &&& bpm.next_page_id() == old_bpm.next_page_id()
        &&& bpm.num_frames() == old_bpm.num_frames()
        &&& forall|q: usize| #[trigger] bpm.pins(q) == old_bpm.pins(q)
        &&& bpm.ready()
        &&& bpm.pages().contains_key(self.last_page_id)
        &&& bpm.pages() == old_bpm.pages().insert(
            self.last_page_id,
            bpm.pages()[self.last_page_id],
        )
    }

    /// Creates an empty table on a new page.
    pub fn new(bpm: &mut BufferPoolManager) -> (res: Result<Self, TableHeapError>)
        requires
            old(bpm).wf(),
            old(bpm).ids_fresh(),
            old(bpm).next_page_id() <= u32::MAX,
        ensures
            final(bpm).wf(),
            forall|q: usize| #[trigger] final(bpm).pins(q) == old(bpm).pins(q),
            old(bpm).ready() ==> final(bpm).ready(),
            res is Ok <==> old(bpm).has_frame() && old(bpm).next_page_id() < usize::MAX,
            match res {
                Ok(heap) => {
                    &&& heap.first_page_id == old(bpm).next_page_id()
                    &&& heap.wf(final(bpm).pages())
                    &&& heap.rows(final(bpm).pages()) == Seq::<Row>::empty()
                    &&& final(bpm).next_page_id() == old(bpm).next_page_id() + 1
                    &&& final(bpm).pages() == old(bpm).pages().insert(
                        heap.last_page_id,
                        final(bpm).pages()[heap.last_page_id],
                    )
                    &&& heap.room(final(bpm).pages()) == PAGE_SIZE - directory_end(0)
                    &&& forall|len: int|
                        0 <= len <= PAGE_SIZE - directory_end(1) ==> #[trigger] heap.fits(
                            final(bpm).pages(),
                            len,
                        )
                },
                Err(e) => {
                    &&& e.0@ == "failed to allocate first page: No free frame available"@
                    &&& final(bpm).pages() == old(bpm).pages()
                    &&& final(bpm).next_page_id() == old(bpm).next_page_id()
                },
            },
    {
        assert(!old(bpm).pages().contains_key(old(bpm).next_page_id()));
        let initial = TablePage {
            next_page_id: 0,
            num_tuples: 0,
            num_deleted_tuples: 0,
            free_space_offset: PAGE_SIZE as u32,
            tuples_meta: Vec::new(),
        };
        let mut data: Vec<u8> = vec![0u8; PAGE_SIZE];
        match initial.encode(data.as_mut_slice()) {
            Ok(_) => {},
            Err(e) => { return Err(TableHeapError(e.0)); },
        }
        proof {
            law_directory_roundtrip(data@, initial@);
            assert(page_rows(data@) =~= Seq::<Row>::empty());
            assert(directory(data@).metas.len() == 0);
            assert(deleted_count(directory(data@).metas) == 0);
        }
        let page_id: usize = match bpm.create(data.as_slice()) {
            Ok(id) => id,
            Err(_) => {
                return Err(
                    TableHeapError(
                        "failed to allocate first page: No free frame available".to_owned(),
                    ),
                );
            },
        };
        Ok(TableHeap { first_page_id: page_id, last_page_id: page_id })
    }

    /// Stores a tuple and returns where.
    pub fn insert(&self, bpm: &mut BufferPoolManager, t: &Tuple) -> (res: Result<
        RecordId,
        TableHeapError,
    >)
        requires
            old(bpm).wf(),
            old(bpm).ready(),
            self.wf(old(bpm).pages()),
        ensures
            self.only_touches(old(bpm), final(bpm)),
            self.wf(final(bpm).pages()),
            res is Ok <==> self.fits(old(bpm).pages(), t.data@.len() as int),
            res is Ok <==> t.data@.len() + SLOT_BYTES <= self.room(old(bpm).pages()),
            res is Ok ==> self.room(final(bpm).pages()) == self.room(old(bpm).pages())
                - t.data@.len() - SLOT_BYTES,
            match res {
                Ok(rid) => {
                    &&& rid == self.rid(self.rows(old(bpm).pages()).len() as int)
                    &&& self.has_slot(final(bpm).pages(), rid)
                    &&& self.rows(final(bpm).pages()) == self.rows(old(bpm).pages()).push(
                        Row { deleted: false, data: t.data@ },
                    )
                },
                Err(e) => {
                    &&& e.0@ == insert_error(
                        old(bpm).pages()[self.last_page_id],
                        t.data@.len() as int,
                    )
                    &&& e.0@ == insert_message(
                        self.rows(old(bpm).pages()).len() as int,
                        self.room(old(bpm).pages()),
                        t.data@.len() as int,
                    )
                    &&& final(bpm).pages() == old(bpm).pages()
                },
            },
    {
        let mut data = match bpm.load(self.last_page_id) {
            Ok(d) => d,
            Err(_) => { return Err(TableHeapError(String::new())); },
        };
        match insert_on_page(&mut data, t.data.as_slice()) {
            Ok(slot_id) => {
                match bpm.store(self.last_page_id, data.as_slice()) {
                    Ok(_) => {},
                    Err(_) => { return Err(TableHeapError(String::new())); },
                }
                proof {
                    lemma_slots_fit(data@);
                    assert(page_rows(data@).len() == directory(data@).metas.len());
                    assert(page_rows(old(bpm).pages()[self.last_page_id]).len() == directory(
                        old(bpm).pages()[self.last_page_id],
                    ).metas.len());
                }
                Ok(RecordId { page_id: self.last_page_id as u32, slot_id })
            },
            Err(e) => {
                assert(bpm.pages() =~= old(bpm).pages().insert(
                    self.last_page_id,
                    bpm.pages()[self.last_page_id],
                ));
                Err(e)
            },
        }
    }

    /// Marks a tuple as deleted. Its bytes stay on the page.
    pub fn delete(&self, bpm: &mut BufferPoolManager, rid: &RecordId) -> (res: Result<
        (),
        TableHeapError,
    >)
        requires
            old(bpm).wf(),
            old(bpm).ready(),
            self.wf(old(bpm).pages()),
            self.has_slot(old(bpm).pages(), *rid),
        ensures
            self.only_touches(old(bpm), final(bpm)),
            self.wf(final(bpm).pages()),
            match res {
                Ok(_) => {
                    &&& !self.rows(old(bpm).pages())[rid.slot_id as int].deleted
                    &&& self.rows(final(bpm).pages()) == row_deleted(
                        self.rows(old(bpm).pages()),
                        rid.slot_id as int,
                    )
                    &&& forall|len: int|
                        #[trigger] self.fits(final(bpm).pages(), len) == self.fits(
                            old(bpm).pages(),
                            len,
                        )
                },
                Err(e) => {
                    &&& self.rows(old(bpm).pages())[rid.slot_id as int].deleted
                    &&& e.0@ == "record already deleted"@
                    &&& final(bpm).pages() == old(bpm).pages()
                },
            },
    {
        let mut data = match bpm.load(rid.page_id as usize) {
            Ok(d) => d,
            Err(_) => { return Err(TableHeapError(String::new())); },
        };
        match delete_on_page(&mut data, rid.slot_id) {
            Ok(_) => {
                match bpm.store(rid.page_id as usize, data.as_slice()) {
                    Ok(_) => {},
                    Err(_) => { return Err(TableHeapError(String::new())); },
                }
                assert(page_rows(data@).len() == directory(data@).metas.len());
                assert(page_rows(old(bpm).pages()[self.last_page_id]).len() == directory(
                    old(bpm).pages()[self.last_page_id],
                ).metas.len());
                Ok(())
            },
            Err(e) => {
                assert(bpm.pages() =~= old(bpm).pages().insert(
                    self.last_page_id,
                    bpm.pages()[self.last_page_id],
                ));
                Err(e)
            },
        }
    }

    /// Whether a record id stands for a slot of the table.
    pub fn has(&self, bpm: &mut BufferPoolManager, rid: &RecordId) -> (res: bool)
        requires
            old(bpm).wf(),
            old(bpm).ready(),
            self.wf(old(bpm).pages()),
        ensures
            final(bpm).wf(),
            final(bpm).ready(),
            final(bpm).same_pages(old(bpm)),
            res == self.has_slot(old(bpm).pages(), *rid),
    {
        if rid.page_id as usize != self.last_page_id {
            return false;
        }
        let data = match bpm.load(self.last_page_id) {
            Ok(d) => d,
            Err(_) => { return false; },
        };
        match TablePage::decode(data.as_slice()) {
            Ok(page) => {
                assert(page_rows(data@).len() == directory(data@).metas.len());
                (rid.slot_id as usize) < page.tuples_meta.len()
            },
            Err(_) => false,
        }
    }

    /// Reads a tuple that was not deleted.
    pub fn get(&self, bpm: &mut BufferPoolManager, rid: RecordId) -> (res: Result<
        (RecordId, Tuple),
        TableHeapError,
    >)
        requires
            old(bpm).wf(),
            can_pin(old(bpm), rid.page_id as usize),
            self.wf(old(bpm).pages()),
            self.has_slot(old(bpm).pages(), rid),
        ensures
            final(bpm).wf(),
            old(bpm).ready() ==> final(bpm).ready(),
            final(bpm).same_pages(old(bpm)),
            ({
                let row = self.rows(old(bpm).pages())[rid.slot_id as int];
                match res {
                    Ok((r, t)) => !row.deleted && r == rid && t.data@ == row.data,
                    Err(e) => row.deleted && e.0@ == "record has been deleted"@,
                }
            }),
    {
        let data = match bpm.load(rid.page_id as usize) {
            Ok(d) => d,
            Err(_) => { return Err(TableHeapError(String::new())); },
        };
        match get_on_page(&data, rid.slot_id) {
            Ok(t) => Ok((rid, t)),
            Err(e) => Err(e),
        }
    }

    /// Deletes the old tuple and stores the new one, which gets an id of its own.
    pub fn update(&self, bpm: &mut BufferPoolManager, rid: RecordId, new: Tuple) -> (res: Result<
        (RecordId, Tuple),
        TableHeapError,
    >)
        requires
            old(bpm).wf(),
            old(bpm).ready(),
            self.wf(old(bpm).pages()),
            self.has_slot(old(bpm).pages(), rid),
        ensures
            self.only_touches(old(bpm), final(bpm)),
            self.wf(final(bpm).pages()),
            ({
                let rows = self.rows(old(bpm).pages());
                let deleted = row_deleted(rows, rid.slot_id as int);
                match res {
                    Ok((r, t)) => {
                        &&& !rows[rid.slot_id as int].deleted
                        &&& self.fits(old(bpm).pages(), new.data@.len() as int)
                        &&& r == self.rid(rows.len() as int)
                        &&& r != rid
                        &&& t.data@ == new.data@
                        &&& self.rows(final(bpm).pages()) == deleted.push(
                            Row { deleted: false, data: new.data@ },
                        )
                    },
                    Err(e) => if rows[rid.slot_id as int].deleted {
                        &&& e.0@ == "record already deleted"@
                        &&& final(bpm).pages() == old(bpm).pages()
                    } else {
                        &&& !self.fits(old(bpm).pages(), new.data@.len() as int)
                        &&& self.rows(final(bpm).pages()) == deleted
                        &&& e.0@ == insert_error(
                            final(bpm).pages()[self.last_page_id],
                            new.data@.len() as int,
                        )
                    },
                }
            }),
    {
        match self.delete(bpm, &rid) {
            Ok(_) => {},
            Err(e) => { return Err(e); },
        }
        let ghost mid = *bpm;
        let new_rid = match self.insert(bpm, &new) {
            Ok(r) => r,
            Err(e) => { return Err(e); },
        };
        assert(self.fits(mid.pages(), new.data@.len() as int) == self.fits(
            old(bpm).pages(),
            new.data@.len() as int,
        ));
        proof {
            assert(bpm.pages() =~= old(bpm).pages().insert(
                self.last_page_id,
                bpm.pages()[self.last_page_id],
            ));
            lemma_slots_fit(old(bpm).pages()[self.last_page_id]);
        }
        Ok((new_rid, Tuple { data: new.data }))
    }

    /// A cursor in front of the first tuple.
    pub fn iter(&self) -> (res: TableHeapIterator)
        ensures
            res.table == *self,
            res.current_page_id == self.first_page_id as u32,
            res.current_slot_id == 0,
    {
        TableHeapIterator {
            table: *self,
            current_page_id: self.first_page_id as u32,
            current_slot_id: 0,
        }
    }

    /// All tuples that were not deleted, in the order of their slots.
    pub fn scan(&self, bpm: &mut BufferPoolManager) -> (res: Vec<(RecordId, Tuple)>)
        requires
            old(bpm).wf(),
            old(bpm).ready(),
            self.wf(old(bpm).pages()),
        ensures
            final(bpm).wf(),
            final(bpm).ready(),
            final(bpm).same_pages(old(bpm)),
            scanned(res@) == self.live_rows(
                old(bpm).pages(),
                self.rows(old(bpm).pages()).len() as int,
            ),
    {
        let ghost pages = bpm.pages();
        let ghost rows = self.rows(pages);
        let mut out: Vec<(RecordId, Tuple)> = Vec::new();
        let mut it = self.iter();
        assert(scanned(out@) =~= self.live_rows(pages, 0));
        loop
            invariant
                bpm.wf(),
                bpm.ready(),
                bpm.same_pages(old(bpm)),
                pages == old(bpm).pages(),
                rows == self.rows(pages),
                self.wf(pages),
                it.wf(pages),
                it.table == *self,
                scanned(out@) == self.live_rows(pages, it.current_slot_id as int),
            ensures
                bpm.wf(),
                bpm.ready(),
                bpm.same_pages(old(bpm)),
                scanned(out@) == self.live_rows(pages, rows.len() as int),
            decreases rows.len() - it.current_slot_id,
        {
            let ghost from = it.current_slot_id as int;
            match it.next(bpm) {
                Some((rid, t)) => {
                    let ghost before = out@;
                    out.push((rid, t));
                    proof {
                        let i = it.current_slot_id - 1;
                        self.lemma_live_gap(pages, from, i);
                        assert(scanned(out@) =~= scanned(before).push((rid, t.data@)));
                    }
                },
                None => {
                    proof {
                        self.lemma_live_gap(pages, from, rows.len() as int);
                    }
                    break ;
                },
            }
        }
        out
    }

    /// The tuples of the first `n` slots that were not deleted, in the order of their slots.
    pub open spec fn live_rows(&self, pages: Map<usize, Seq<u8>>, n: int) -> Seq<
        (RecordId, Seq<u8>),
    >
        decreases n,
    {
        if n <= 0 {
            Seq::empty()
        } else {
            let rest = self.live_rows(pages, n - 1);
            let row = self.rows(pages)[n - 1];
            if row.deleted {
                rest
            } else {
                rest.push((self.rid(n - 1), row.data))
            }
        }
    }

    /// Deleted tuples add nothing.
    proof fn lemma_live_gap(&self, pages: Map<usize, Seq<u8>>, from: int, to: int)
        requires
            0 <= from <= to <= self.rows(pages).len(),
            forall|k: int| from <= k < to ==> (#[trigger] self.rows(pages)[k]).deleted,
        ensures
            self.live_rows(pages, to) == self.live_rows(pages, from),
        decreases to - from,
    {
        if from < to {
            self.lemma_live_gap(pages, from, to - 1);
            assert(self.rows(pages)[to - 1].deleted);
        }
    }
}

/// Tuples with their ids, as plain values.
pub open spec fn scanned(rows: Seq<(RecordId, Tuple)>) -> Seq<(RecordId, Seq<u8>)> {
    Seq::new(rows.len(), |i: int| (rows[i].0, rows[i].1.data@))
}

/// A page holds fewer slots than a u16 counts.
pub(crate) proof fn lemma_slots_fit(b: Seq<u8>)
    requires
        valid_page(b),
    ensures
        page_rows(b).len() <= u16::MAX,
        page_rows(b).len() == directory(b).metas.len(),
{
}

/// Walks over the tuples of a table that were not deleted.
pub struct TableHeapIterator {
    pub table: TableHeap,
    pub current_page_id: u32,
    pub current_slot_id: u32,
}

impl TableHeapIterator {
    /// The cursor stands in the table.
    pub open spec fn wf(&self, pages: Map<usize, Seq<u8>>) -> bool {
        &&& self.table.wf(pages)
        &&& self.current_page_id == self.table.last_page_id
        &&& self.current_slot_id <= self.table.rows(pages).len()
    }

    /// The next tuple that was not deleted.
    pub fn next(&mut self, bpm: &mut BufferPoolManager) -> (res: Option<(RecordId, Tuple)>)
        requires
            old(bpm).wf(),
            old(bpm).ready(),
            old(self).wf(old(bpm).pages()),
        ensures
            final(bpm).wf(),
            final(bpm).ready(),
            final(bpm).same_pages(old(bpm)),
            final(self).wf(final(bpm).pages()),
            final(self).table == old(self).table,
            ({
                let rows = old(self).table.rows(old(bpm).pages());
                let from = old(self).current_slot_id as int;
                match res {
                    Some((rid, t)) => {
                        let i = final(self).current_slot_id - 1;
                        &&& from <= i < rows.len()
                        &&& rid == old(self).table.rid(i)
                        &&& !rows[i].deleted
                        &&& t.data@ == rows[i].data
                        &&& forall|k: int| from <= k < i ==> (#[trigger] rows[k]).deleted
                    },
                    None => {
                        &&& final(self).current_slot_id == rows.len()
                        &&& forall|k: int| from <= k < rows.len() ==> (#[trigger] rows[k]).deleted
                    },
                }
            }),
    {
        let ghost rows = self.table.rows(bpm.pages());
        let ghost from = self.current_slot_id as int;
        let data = match bpm.load(self.current_page_id as usize) {
            Ok(d) => d,
            Err(_) => { return None; },
        };
        proof {
            lemma_slots_fit(data@);
        }
        let page = match TablePage::decode(data.as_slice()) {
            Ok(p) => p,
            Err(_) => { return None; },
        };
        while (self.current_slot_id as usize) < page.tuples_meta.len()
            invariant
                bpm.wf(),
                bpm.ready(),
                bpm.same_pages(old(bpm)),
                self.table == old(self).table,
                self.current_page_id == old(self).current_page_id,
                self.wf(bpm.pages()),
                data@ == bpm.pages()[self.table.last_page_id],
                rows == page_rows(data@),
                rows == self.table.rows(old(bpm).pages()),
                page@ == directory(data@),
                rows.len() == page@.metas.len(),
                rows.len() <= u16::MAX,
                from == old(self).current_slot_id,
                from <= self.current_slot_id,
                forall|k: int| from <= k < self.current_slot_id ==> (#[trigger] rows[k]).deleted,
            decreases rows.len() - self.current_slot_id,
        {
            let slot: u32 = self.current_slot_id;
            self.current_slot_id = slot + 1;
            if page.tuples_meta[slot as usize].is_deleted != 1 {
                match get_on_page(&data, slot) {
                    Ok(t) => {
                        return Some((RecordId { page_id: self.current_page_id, slot_id: slot }, t));
                    },
                    Err(_) => {},
                }
            }
        }
        None
    }
}

/// Deleting tuples and storing new ones keeps the slots of all others: what was stored under
/// an id is read back under it until it is deleted.
pub proof fn law_rows_stay(rows: Seq<Row>, added: Row, deleted: int, i: int)
    requires
        0 <= i < rows.len(),
        0 <= deleted < rows.len(),
        i != deleted,
    ensures
        rows.push(added)[i] == rows[i],
        row_deleted(rows, deleted)[i] == rows[i],
        row_deleted(rows, deleted)[deleted].data == rows[deleted].data,
{
}

/// A scan gives each tuple that was not deleted once, under the id of its slot, in the order of the
/// slots. The slots are returned.
pub proof fn law_live_rows(heap: TableHeap, pages: Map<usize, Seq<u8>>, n: int) -> (slots: Seq<int>)
    requires
        0 <= n <= heap.rows(pages).len(),
    ensures
        slots.len() == heap.live_rows(pages, n).len(),
        forall|a: int, b: int| 0 <= a < b < slots.len() ==> #[trigger] slots[a] < #[trigger] slots[b],
        forall|a: int|
            0 <= a < slots.len() ==> 0 <= #[trigger] slots[a] < n && !heap.rows(
                pages,
            )[slots[a]].deleted && heap.live_rows(pages, n)[a] == (
                heap.rid(slots[a]),
                heap.rows(pages)[slots[a]].data,
            ),
        forall|i: int|
            0 <= i < n && !(#[trigger] heap.rows(pages)[i]).deleted ==> slots.contains(i),
    decreases n,
{
    if n == 0 {
        Seq::empty()
    } else {
        let before = law_live_rows(heap, pages, n - 1);
        let rows = heap.rows(pages);
        if rows[n - 1].deleted {
            before
        } else {
            let slots = before.push(n - 1);
            let (was, now) = (heap.live_rows(pages, n - 1), heap.live_rows(pages, n));
            assert forall|a: int| 0 <= a < slots.len() implies 0 <= #[trigger] slots[a] < n
                && !rows[slots[a]].deleted && now[a] == (
                heap.rid(slots[a]),
                rows[slots[a]].data,
            ) by {
                if a < before.len() {
                    assert(slots[a] == before[a] && now[a] == was[a]);
                }
            }
            assert forall|i: int| 0 <= i < n && !(#[trigger] rows[i]).deleted implies slots.contains(
                i,
            ) by {
                if i < n - 1 {
                    let a = choose|a: int| 0 <= a < before.len() && before[a] == i;
                    assert(slots[a] == i);
                } else {
                    assert(slots[before.len() as int] == i);
                }
            }
            slots
        }
    }
}

/// Every slot has an id of its own, on the page of the table.
pub proof fn law_slot_ids(heap: TableHeap, pages: Map<usize, Seq<u8>>, i: int, j: int)
    requires
        heap.wf(pages),
        0 <= i < heap.rows(pages).len(),
        0 <= j < heap.rows(pages).len(),
    ensures
        heap.rid(i).slot_id == i,
        heap.rid(i).page_id == heap.first_page_id,
        heap.rid(i) == heap.rid(j) <==> i == j,
        heap.has_slot(pages, heap.rid(i)),
{
    lemma_slots_fit(pages[heap.last_page_id]);
}

/// Where the tuples of a page stand: the last one first, each at the place that its slot tells,
/// none over another and none over the slots.
pub proof fn law_page_layout(b: Seq<u8>, i: int, j: int)
    requires
        valid_page(b),
        0 <= i < j < page_rows(b).len(),
    ensures
        ({
            let (x, y) = (directory(b).metas[i], directory(b).metas[j]);
            &&& x.size <= x.offset <= PAGE_SIZE
            &&& y.offset <= x.offset - x.size
            &&& TABLE_HEADER_BYTES + SLOT_BYTES * page_rows(b).len() <= y.offset - y.size
            &&& page_rows(b)[i].data == b.subrange(x.offset - x.size, x.offset as int)
            &&& page_rows(b)[i].deleted == (x.is_deleted == 1)
        }),
{
    lemma_slots_fit(b);
    let v = directory(b);
    assert(v.metas[j].size <= v.metas[j].offset);
    assert(v.metas[i].size <= v.metas[i].offset);
}

} // verus!
