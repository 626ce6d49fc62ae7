//! Pages in the database file.
use std::collections::HashMap;
use vstd::prelude::*;

use crate::text::{decimal, digits, joined};

verus! {

broadcast use vstd::std_specs::hash::group_hash_axioms;

/// Size in bytes of every page, in memory and in the database file.
pub const PAGE_SIZE: usize = 8192;

#[derive(Debug, Clone, Copy, PartialEq, Eq, Structural)]
pub enum IoErrorKind {
    NotFound,
    Other,
}

/// Why a page could not be read or written.
#[derive(Debug)]
pub struct IoError {
    pub kind: IoErrorKind,
    pub message: String,
}

/// `e` says that page `id` is nowhere in the file.
pub open spec fn is_missing(e: IoError, id: usize) -> bool {
    &&& e.kind == IoErrorKind::NotFound
    &&& e.message@ == "page "@ + digits(id as nat) + " missing"@
}

pub fn missing_page(id: usize) -> (res: IoError)
    ensures
        is_missing(res, id),
{
    let number = decimal(id as u64);
    let start = joined("page ", number.as_str());
    IoError { kind: IoErrorKind::NotFound, message: joined(start.as_str(), " missing") }
}

/// Where in the file each page stands, and which places of the file are free.
#[derive(Debug)]
pub struct SlotTable {
    pub page_lookup_table: HashMap<usize, u64>,
    pub free_slots: Vec<u64>,
}

impl SlotTable {
    pub fn new() -> (res: Self)
        ensures
            res.page_lookup_table@ == Map::<usize, u64>::empty(),
            res.free_slots@ == Seq::<u64>::empty(),
    {
        SlotTable { page_lookup_table: HashMap::new(), free_slots: Vec::new() }
    }

    /// The offset of page `id`.
    pub fn locate(&self, id: usize) -> (res: Option<u64>)
        ensures
            res == if self.page_lookup_table@.contains_key(id) {
                Some(self.page_lookup_table@[id])
            } else {
                None
            },
    {
        match self.page_lookup_table.get(&id) {
            Some(offset) => Some(*offset),
            None => None,
        }
    }

    /// The offset to write page `id` to: its own, else the last free one, else the end of the
    /// file. A free place is taken.
    pub fn choose_slot(&mut self, id: usize, file_len: u64) -> (res: u64)
        ensures
            final(self).page_lookup_table@ == old(self).page_lookup_table@,
            ({
                let free = old(self).free_slots@;
                if old(self).page_lookup_table@.contains_key(id) {
                    res == old(self).page_lookup_table@[id] && final(self).free_slots@ == free
                } else if free.len() > 0 {
                    res == free.last() && final(self).free_slots@ == free.drop_last()
                } else {
                    res == file_len && final(self).free_slots@ == free
                }
            }),
    {
        match self.page_lookup_table.get(&id) {
            Some(offset) => {
                return *offset;
            },
            None => {},
        }
        match self.free_slots.pop() {
            Some(slot) => {
                assert(self.free_slots@ =~= old(self).free_slots@.drop_last());
                slot
            },
            None => file_len,
        }
    }

    /// Page `id` was written at `offset`.
    pub fn commit(&mut self, id: usize, offset: u64)
        ensures
            final(self).page_lookup_table@ == old(self).page_lookup_table@.insert(id, offset),
            final(self).free_slots@ == old(self).free_slots@,
    {
        let _old = self.page_lookup_table.insert(id, offset);
    }

    /// The places lie in a file of `len` bytes, and no two of them overlap.
    pub open spec fn valid(self, len: int) -> bool {
        let table = self.page_lookup_table@;
        let free = self.free_slots@;
        &&& forall|id: usize| #[trigger] table.contains_key(id) ==> table[id] + PAGE_SIZE <= len
        &&& forall|i: int| 0 <= i < free.len() ==> #[trigger] free[i] + PAGE_SIZE <= len
        &&& forall|a: usize, b: usize| #[trigger]
            table.contains_key(a) && #[trigger] table.contains_key(b) && a != b ==> apart(
                table[a],
                table[b],
            )
        &&& forall|i: int, j: int|
            0 <= i < j < free.len() ==> apart(#[trigger] free[i], #[trigger] free[j])
        &&& forall|a: usize, i: int|
            #![trigger table.contains_key(a), free[i]]
            table.contains_key(a) && 0 <= i < free.len() ==> apart(table[a], free[i])
    }
}

/// Pages at these offsets do not overlap.
pub open spec fn apart(a: u64, b: u64) -> bool {
    a + PAGE_SIZE <= b || b + PAGE_SIZE <= a
}

/// The bytes `file` with `data` at `start`, over what stands there or behind its end.
pub open spec fn written_at(file: Seq<u8>, start: int, data: Seq<u8>) -> Seq<u8> {
    Seq::new(
        if start == file.len() {
            file.len() + data.len()
        } else {
            file.len()
        },
        |k: int|
            if start <= k < start + data.len() {
                data[k - start]
            } else {
                file[k]
            },
    )
}

/// Writes `data` into `file` at `start`, over what stands there or behind its end.
fn write_at(file: &mut Vec<u8>, start: usize, data: &[u8])
    requires
        start == old(file)@.len() || start + data@.len() <= old(file)@.len(),
    ensures
        final(file)@ == written_at(old(file)@, start as int, data@),
{
    let ghost file0 = file@;
    let mut i: usize = 0;
    if start == file.len() {
        while i < data.len()
            invariant
                i <= data@.len(),
                start == file0.len(),
                file@.len() == start + i,
                forall|k: int|
                    0 <= k < start + i ==> #[trigger] file@[k] == if start <= k {
                        data@[k - start]
                    } else {
                        file0[k]
                    },
            decreases data@.len() - i,
        {
            file.push(data[i]);
            i = i + 1;
        }
    } else {
        while i < data.len()
            invariant
                i <= data@.len(),
                start + data@.len() <= file0.len(),
                file@.len() == file0.len(),
                file.len() == file0.len(),
                forall|k: int|
                    0 <= k < file0.len() ==> #[trigger] file@[k] == if start <= k < start + i {
                        data@[k - start]
                    } else {
                        file0[k]
                    },
            decreases data@.len() - i,
        {
            file.set(start + i, data[i]);
            i = i + 1;
        }
    }
    assert(file@ =~= written_at(file0, start as int, data@));
}

/// Reads and writes whole pages of the database file, whose bytes it holds.
pub struct DiskManager {
    slots: SlotTable,
    db_file: Vec<u8>,
    num_writes: u32,
}

impl DiskManager {
    pub closed spec fn wf(&self) -> bool {
        self.slots.valid(self.db_file@.len() as int)
    }

    /// The pages that were written, each with its bytes.
    pub closed spec fn pages(&self) -> Map<usize, Seq<u8>> {
        Map::new(
            |id: usize| self.slots.page_lookup_table@.contains_key(id),
            |id: usize|
                {
                    let offset = self.slots.page_lookup_table@[id] as int;
                    self.db_file@.subrange(offset, offset + PAGE_SIZE)
                },
        )
    }

    /// How often a page was written, as far as a u32 counts.
    pub closed spec fn writes(&self) -> u32 {
        self.num_writes
    }

    /// The bytes of the file.
    pub closed spec fn bytes(&self) -> Seq<u8> {
        self.db_file@
    }

    /// Where in the file each page stands.
    pub closed spec fn places(&self) -> Map<usize, u64> {
        self.slots.page_lookup_table@
    }

    /// The places of the file that hold no page.
    pub closed spec fn free_places(&self) -> Seq<u64> {
        self.slots.free_slots@
    }

    /// Where page `id` is written: over its old bytes, else to the last of the free places, else
    /// to the end of the file.
    pub open spec fn place_for(&self, id: usize) -> int {
        if self.places().contains_key(id) {
            self.places()[id] as int
        } else if self.free_places().len() > 0 {
            self.free_places().last() as int
        } else {
            self.bytes().len() as int
        }
    }

    /// This is what `before` became when `data` was written to page `id`.
    pub open spec fn written_from(&self, before: &Self, id: usize, data: Seq<u8>) -> bool {
        let at = before.place_for(id);
        &&& self.pages() == before.pages().insert(id, data)
        &&& self.bytes() == written_at(before.bytes(), at, data)
        &&& self.places() == before.places().insert(id, at as u64)
        &&& self.free_places() == if before.places().contains_key(id)
            || before.free_places().len() == 0 {
            before.free_places()
        } else {
            before.free_places().drop_last()
        }
        &&& self.writes() == if before.writes() == u32::MAX {
            0
        } else {
            before.writes() + 1
        }
    }

    /// `res` is what a read of page `id` gives.
    pub open spec fn read_gives(&self, id: usize, res: Result<Vec<u8>, IoError>) -> bool {
        match res {
            Ok(data) => self.pages().contains_key(id) && data@ == self.pages()[id],
            Err(e) => !self.pages().contains_key(id) && is_missing(e, id),
        }
    }

    /// A page is known where it has a place, and its bytes are those that stand there.
    pub proof fn law_places(&self, id: usize)
        requires
            self.wf(),
        ensures
            self.pages().contains_key(id) <==> self.places().contains_key(id),
            self.places().contains_key(id) ==> {
                let at = self.places()[id] as int;
                &&& at + PAGE_SIZE <= self.bytes().len()
                &&& self.pages()[id] == self.bytes().subrange(at, at + PAGE_SIZE)
            },
    {
        if self.places().contains_key(id) {
            assert(self.slots.page_lookup_table@.contains_key(id));
        }
    }

    /// A database file with these bytes, in which no page is known yet.
    pub fn new(db_file: Vec<u8>) -> (res: Self)
        ensures
            res.wf(),
            res.pages() == Map::<usize, Seq<u8>>::empty(),
            res.places() == Map::<usize, u64>::empty(),
            res.free_places() == Seq::<u64>::empty(),
            res.bytes() == db_file@,
            res.writes() == 0,
    {
        let res = DiskManager { slots: SlotTable::new(), db_file, num_writes: 0 };
        assert(res.pages() =~= Map::<usize, Seq<u8>>::empty());
        res
    }

    pub fn file(&self) -> (res: &Vec<u8>)
        ensures
            res@ == self.bytes(),
    {
        &self.db_file
    }

    pub fn num_writes(&self) -> (res: u32)
        ensures
            res == self.writes(),
    {
        self.num_writes
    }

    /// Every page has the size of a page.
    pub proof fn lemma_page_len(&self, id: usize)
        requires
            self.wf(),
            self.pages().contains_key(id),
        ensures
            self.pages()[id].len() == PAGE_SIZE,
    {
        assert(self.slots.page_lookup_table@.contains_key(id));
    }

    pub fn read_page(&self, id: usize) -> (res: Result<Vec<u8>, IoError>)
        requires
            self.wf(),
        ensures
            self.read_gives(id, res),
    {
        let offset: usize = match self.slots.locate(id) {
            Some(offset) => offset as usize,
            None => { return Err(missing_page(id)); },
        };
        assert(self.slots.page_lookup_table@.contains_key(id));
        assert(self.db_file.len() == self.db_file@.len());
        let bytes = vstd::slice::slice_subrange(
            self.db_file.as_slice(),
            offset,
            offset + PAGE_SIZE,
        );
        Ok(vstd::slice::slice_to_vec(bytes))
    }

    /// Writes a page: over its old bytes, else to a free place, else to the end of the file.
    pub fn write_page(&mut self, id: usize, data: &[u8]) -> (res: Result<(), IoError>)
        requires
            old(self).wf(),
            data@.len() == PAGE_SIZE,
        ensures
            final(self).wf(),
            res is Ok,
            final(self).written_from(old(self), id, data@),
    {
        let ghost s0 = *self;
        let ghost table = self.slots.page_lookup_table@;
        let ghost free = self.slots.free_slots@;
        let ghost file0 = self.db_file@;
        let file_len: usize = self.db_file.len();
        let offset: u64 = self.slots.choose_slot(id, file_len as u64);
        let start: usize = offset as usize;
        proof {
            if table.contains_key(id) {
            } else if free.len() > 0 {
                assert(free[free.len() - 1] + PAGE_SIZE <= file0.len());
            }
        }
        write_at(&mut self.db_file, start, data);
        self.slots.commit(id, offset);
        self.num_writes = self.num_writes.wrapping_add(1);
        proof {
            let file1 = self.db_file@;
            let table1 = table.insert(id, offset);
            assert(self.slots.valid(file1.len() as int)) by {
                let free1 = self.slots.free_slots@;
                assert forall|i: int| 0 <= i < free1.len() implies free1[i] == free[i] by {}
                assert forall|a: usize, i: int|
                    #![trigger table1.contains_key(a), free1[i]]
                    table1.contains_key(a) && 0 <= i < free1.len() implies apart(
                    table1[a],
                    free1[i],
                ) by {
                    assert(free1[i] == free[i]);
                    if a == id && !table.contains_key(id) {
                        if free.len() > 0 {
                            assert(apart(free[i], free[free.len() - 1]));
                        } else {
                            assert(free[i] + PAGE_SIZE <= file0.len());
                        }
                    } else {
                        assert(table.contains_key(a));
                    }
                }
                assert forall|a: usize, b: usize| #[trigger]
                    table1.contains_key(a) && #[trigger] table1.contains_key(b) && a
                        != b implies apart(table1[a], table1[b]) by {
                    if !table.contains_key(id) && (a == id || b == id) {
                        let o = if a == id { b } else { a };
                        assert(table.contains_key(o));
                        if free.len() > 0 {
                            assert(apart(table[o], free[free.len() - 1]));
                        }
                    } else {
                        assert(table.contains_key(a) && table.contains_key(b));
                    }
                }
            }
            assert forall|x: usize| #[trigger] self.pages().contains_key(x) implies self.pages()[x]
                == s0.pages().insert(id, data@)[x] by {
                if x == id {
                    assert(self.pages()[x] =~= data@);
                } else {
                    assert(table.contains_key(x));
                    assert(table1.contains_key(x) && table1.contains_key(id));
                    assert(apart(table1[x], table1[id]));
                    let o = table[x] as int;
                    assert(file1.subrange(o, o + PAGE_SIZE) =~= file0.subrange(o, o + PAGE_SIZE));
                }
            }
            assert(self.pages() =~= s0.pages().insert(id, data@));
        }
        Ok(())
    }
}

/// A page that is to be read or written.
#[derive(Debug)]
pub struct DiskRequest {
    pub page_id: usize,
    pub is_write: bool,
    /// The bytes to write; of no account for a read.
    pub data: Vec<u8>,
}

/// Why a request was not taken or not served.
#[derive(Debug)]
pub enum DiskSchedulerError {
    Shutdown,
    ChannelClosed(DiskRequest),
    WorkerPanicked,
}

impl DiskSchedulerError {
    /// The error as text.
    pub fn describe(&self) -> (res: String)
        ensures
            res@ == match *self {
                DiskSchedulerError::Shutdown => "disk scheduler is shut down"@,
                DiskSchedulerError::ChannelClosed(req) => "failed to send disk request for page "@
                    + digits(req.page_id as nat),
                DiskSchedulerError::WorkerPanicked => "disk worker thread panicked"@,
            },
    {
        match self {
            DiskSchedulerError::Shutdown => "disk scheduler is shut down".to_owned(),
            DiskSchedulerError::ChannelClosed(req) => joined(
                "failed to send disk request for page ",
                decimal(req.page_id as u64).as_str(),
            ),
            DiskSchedulerError::WorkerPanicked => "disk worker thread panicked".to_owned(),
        }
    }
}

impl DiskManager {
    /// Serves one request: a write gives its bytes back, a read those of the page.
    pub fn serve(&mut self, req: DiskRequest) -> (res: Result<Vec<u8>, IoError>)
        requires
            old(self).wf(),
            req.is_write ==> req.data@.len() == PAGE_SIZE,
        ensures
            final(self).wf(),
            req.is_write ==> {
                &&& res matches Ok(data) && data@ == req.data@
                &&& final(self).written_from(old(self), req.page_id, req.data@)
            },
            !req.is_write ==> {
                &&& *final(self) == *old(self)
                &&& old(self).read_gives(req.page_id, res)
            },
    {
        if req.is_write {
            match self.write_page(req.page_id, req.data.as_slice()) {
                Ok(_) => Ok(req.data),
                Err(e) => Err(e),
            }
        } else {
            self.read_page(req.page_id)
        }
    }
}

/// What is written to a page is what the next read of it gives, and reads of other pages give
/// what they gave before.
pub proof fn law_read_after_write(
    before: DiskManager,
    after: DiskManager,
    id: usize,
    data: Seq<u8>,
    read: Result<Vec<u8>, IoError>,
    other: usize,
    other_before: Result<Vec<u8>, IoError>,
    other_after: Result<Vec<u8>, IoError>,
)
    requires
        after.written_from(&before, id, data),
        after.read_gives(id, read),
        other != id,
        before.read_gives(other, other_before),
        after.read_gives(other, other_after),
    ensures
        read matches Ok(bytes) && bytes@ == data,
        match other_before {
            Ok(b) => other_after matches Ok(a) && a@ == b@,
            Err(_) => other_after matches Err(e) && is_missing(e, other),
        },
{
}

} // verus!
