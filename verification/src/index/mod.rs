//! Indexes: errors, pages and the B+ tree.
pub mod b_plus_page;
pub mod b_plus_tree;
pub mod leaf_laws;
pub mod page_codec;
pub mod page_format;
pub mod page_laws;
pub mod rebalance;
pub mod tree_insert;
pub mod tree_iter;
pub mod tree_laws;
pub mod tree_model;
pub mod tree_print;
pub mod tree_remove;
pub mod tree_scan;

use vstd::prelude::*;

use crate::buffer_pool::{BpmError, BufferPoolManager};
use crate::catalog::index_schema::{IndexKey, IndexValue};
use crate::index::b_plus_tree::{carried, pool_failed};
use crate::index::page_codec::PageCodecError;
use crate::index::tree_insert::with_key;
use crate::index::tree_model::Pages;
use crate::table_heap::RecordId;

pub use crate::index::b_plus_tree::BPlusTree;

verus! {

pub type InsertResult = Result<(), IndexError>;

pub type RemoveResult = Result<(), IndexError>;

/// A map from keys to record ids that is kept on pages of a pool.
pub trait Index {
    /// The pages hold the index.
    spec fn held_by(&self, pages: Pages) -> bool;

    /// The record id that the index holds for a key.
    spec fn found(&self, pages: Pages, k: Seq<u8>) -> Option<RecordId>;

    /// The key is one of this index: of the length that it was made for.
    spec fn takes(&self, k: Seq<u8>) -> bool;

    /// Nothing was ever added.
    spec fn unused(&self, pages: Pages) -> bool;

    /// The pool has all that adding a key may need.
    spec fn room(&self, bpm: &BufferPoolManager) -> bool;

    /// Adds a key. A key that is there already is refused, and nothing changes.
    fn insert(&self, bpm: &mut BufferPoolManager, key: IndexKey, val: IndexValue) -> (res:
        InsertResult)
        requires
            old(bpm).wf(),
            old(bpm).ids_fresh(),
            self.held_by(old(bpm).pages()),
        ensures
            carried(old(bpm), final(bpm)),
            pool_failed(res) ==> !self.room(old(bpm)),
            match res {
                Ok(_) => {
                    &&& self.takes(key@)
                    &&& self.found(old(bpm).pages(), key@) is None
                    &&& self.held_by(final(bpm).pages())
                    &&& forall|k: Seq<u8>| #[trigger]
                        self.found(final(bpm).pages(), k) == with_key(
                            self.found(old(bpm).pages(), k),
                            key@,
                            Some(val->IndexValue_0),
                            k,
                        )
                },
                Err(e) => pool_failed(res) || {
                    &&& final(bpm).pages() == old(bpm).pages()
                    &&& if !self.takes(key@) {
                        e == IndexError::Insert(InsertError::InvalidKey)
                    } else {
                        &&& e == IndexError::Insert(InsertError::DuplicateKey)
                        &&& self.found(old(bpm).pages(), key@) is Some
                    }
                },
            },
    ;

    /// Takes a key out. A key that is not there is refused, and nothing changes.
    fn remove(&self, bpm: &mut BufferPoolManager, key: IndexKey) -> (res: RemoveResult)
        requires
            old(bpm).wf(),
            self.held_by(old(bpm).pages()),
        ensures
            carried(old(bpm), final(bpm)),
            pool_failed(res) ==> !old(bpm).ready(),
            match res {
                Ok(_) => {
                    &&& self.takes(key@)
                    &&& self.found(old(bpm).pages(), key@) is Some
                    &&& self.held_by(final(bpm).pages())
                    &&& forall|k: Seq<u8>| #[trigger]
                        self.found(final(bpm).pages(), k) == with_key(
                            self.found(old(bpm).pages(), k),
                            key@,
                            None,
                            k,
                        )
                },
                Err(e) => pool_failed(res) || {
                    &&& final(bpm).pages() == old(bpm).pages()
                    &&& if !self.takes(key@) {
                        e == IndexError::Insert(InsertError::InvalidKey)
                    } else {
                        &&& e == IndexError::Remove(RemoveError::KeyNotFound)
                        &&& self.found(old(bpm).pages(), key@) is None
                    }
                },
            },
    ;

    /// Looks a key up.
    fn search(&self, bpm: &mut BufferPoolManager, key: &IndexKey) -> (res: Result<
        Option<IndexValue>,
        IndexError,
    >)
        requires
            old(bpm).wf(),
            self.held_by(old(bpm).pages()),
        ensures
            final(bpm).wf(),
            final(bpm).same_pages(old(bpm)),
            pool_failed(res) ==> !old(bpm).ready(),
            match res {
                Ok(found) => {
                    &&& self.takes(key@)
                    &&& !self.unused(old(bpm).pages())
                    &&& found == match self.found(old(bpm).pages(), key@) {
                        Some(rid) => Some(IndexValue::IndexValue(rid)),
                        None => None,
                    }
                },
                Err(e) => pool_failed(res) || if !self.takes(key@) {
                    e == IndexError::Insert(InsertError::InvalidKey)
                } else {
                    e == IndexError::Lookup && self.unused(old(bpm).pages())
                },
            },
    ;
}

impl Index for BPlusTree {
    open spec fn held_by(&self, pages: Pages) -> bool {
        self.wf(pages)
    }

    open spec fn found(&self, pages: Pages, k: Seq<u8>) -> Option<RecordId> {
        self.find(pages, k)
    }

    open spec fn takes(&self, k: Seq<u8>) -> bool {
        k.len() == self.key_len
    }

    open spec fn unused(&self, pages: Pages) -> bool {
        self.is_empty(pages)
    }

    open spec fn room(&self, bpm: &BufferPoolManager) -> bool {
        self.room_to_insert(bpm)
    }

    fn insert(&self, bpm: &mut BufferPoolManager, key: IndexKey, val: IndexValue) -> (res:
        InsertResult) {
        let res = BPlusTree::insert(self, bpm, key, val);
        assert forall|k: Seq<u8>| #[trigger] self.found(bpm.pages(), k) == self.find(
            bpm.pages(),
            k,
        ) by {}
        res
    }

    fn remove(&self, bpm: &mut BufferPoolManager, key: IndexKey) -> (res: RemoveResult) {
        let res = BPlusTree::remove(self, bpm, key);
        assert forall|k: Seq<u8>| #[trigger] self.found(bpm.pages(), k) == self.find(
            bpm.pages(),
            k,
        ) by {}
        res
    }

    fn search(&self, bpm: &mut BufferPoolManager, key: &IndexKey) -> (res: Result<
        Option<IndexValue>,
        IndexError,
    >) {
        BPlusTree::search(self, bpm, key)
    }
}

#[derive(Debug)]
pub enum IndexError {
    Insert(InsertError),
    Remove(RemoveError),
    Lookup,
    BpmError(BpmError),
    PageError(PageCodecError),
    LatchError,
}

#[derive(Debug)]
pub enum InsertError {
    DuplicateKey,
    InvalidKey,
    InvalidValue,
    BpmError,
    BadRoot,
    GenericError(String),
}

#[derive(Debug)]
pub enum RemoveError {
    KeyNotFound,
    GenericError(String),
}

impl From<BpmError> for IndexError {
    fn from(err: BpmError) -> (res: Self) {
        IndexError::BpmError(err)
    }
}

impl vstd::std_specs::convert::FromSpecImpl<BpmError> for IndexError {
    open spec fn obeys_from_spec() -> bool {
        true
    }

    open spec fn from_spec(err: BpmError) -> Self {
        IndexError::BpmError(err)
    }
}

impl From<PageCodecError> for IndexError {
    fn from(err: PageCodecError) -> (res: Self) {
        IndexError::PageError(err)
    }
}

impl vstd::std_specs::convert::FromSpecImpl<PageCodecError> for IndexError {
    open spec fn obeys_from_spec() -> bool {
        true
    }

    open spec fn from_spec(err: PageCodecError) -> Self {
        IndexError::PageError(err)
    }
}

impl From<RemoveError> for IndexError {
    fn from(err: RemoveError) -> (res: Self) {
        IndexError::Remove(err)
    }
}

impl vstd::std_specs::convert::FromSpecImpl<RemoveError> for IndexError {
    open spec fn obeys_from_spec() -> bool {
        true
    }

    open spec fn from_spec(err: RemoveError) -> Self {
        IndexError::Remove(err)
    }
}

} // verus!
