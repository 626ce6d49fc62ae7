//! The B+ tree index.
use cmudb::buffer_pool::{BpmError, BufferPoolManager};
use cmudb::catalog::index_schema::{IndexKey, IndexValue};
use cmudb::create_buffer_pool_manager;
use cmudb::disk::{DiskManager, PAGE_SIZE};
use cmudb::index::b_plus_page::{HeaderPage, InternalPage, LeafPage, INVALID_PAGE_ID};
use cmudb::index::page_codec::PageCodecError;
use cmudb::index::tree_scan::KeyBound;
use cmudb::index::{BPlusTree, Index, IndexError, InsertError, RemoveError};
use cmudb::replacer::ArcReplacer;
use cmudb::table_heap::RecordId;

fn make_bpm(num_frames: usize) -> BufferPoolManager {
    create_buffer_pool_manager(
        num_frames,
        ArcReplacer::new(num_frames),
        DiskManager::new(Vec::new()),
    )
}

fn make_key(first_byte: u8, key_len: usize) -> IndexKey {
    let mut v = vec![0u8; key_len];
    v[0] = first_byte;
    IndexKey(v)
}

fn rid(page_id: u32, slot_id: u32) -> IndexValue {
    IndexValue::IndexValue(RecordId { page_id, slot_id })
}

fn leaf_at(tree: &BPlusTree, bpm: &mut BufferPoolManager, id: usize) -> LeafPage {
    let data = bpm.load(id).expect("page");
    LeafPage::decode(&data, tree.key_len).expect("leaf decode")
}

fn chain(tree: &BPlusTree, bpm: &mut BufferPoolManager) -> (usize, usize) {
    let header = tree.read_header(bpm).expect("header");
    let mut keys = 0usize;
    let mut count = 0usize;
    let mut leaf_id = header.first_leaf_id;
    let mut seen = std::collections::HashSet::new();
    while leaf_id != INVALID_PAGE_ID {
        assert!(seen.insert(leaf_id), "cycle in leaf chain at {leaf_id}");
        let leaf = leaf_at(tree, bpm, leaf_id);
        keys += leaf.keys.len();
        count += 1;
        leaf_id = leaf.next_leaf_id;
    }
    (keys, count)
}

fn sum_keys_in_leaf_chain(tree: &BPlusTree, bpm: &mut BufferPoolManager) -> usize {
    chain(tree, bpm).0
}

fn count_leaves_in_chain(tree: &BPlusTree, bpm: &mut BufferPoolManager) -> usize {
    chain(tree, bpm).1
}

#[test]
fn leaf_pages_iterator_walks_leaf_chain() {
    let mut bpm = make_bpm(10);
    let key_len = 2000u32; // leaf_max_size=4 => multiple leaves
    let tree = BPlusTree::new("idx".to_string(), key_len, &mut bpm).unwrap();

    // Empty tree: iterator yields nothing.
    let mut none = tree.leaf_pages(&mut bpm).unwrap();
    assert!(none.next(&mut bpm).is_none());

    for i in 0u8..20u8 {
        tree.insert(
            &mut bpm,
            make_key(i, key_len as usize),
            rid(i as u32, i as u32 + 10),
        )
        .unwrap();
    }

    let mut leaf_count = 0usize;
    let mut keys_first_bytes: Vec<u8> = Vec::new();
    let mut leaves = tree.leaf_pages(&mut bpm).unwrap();
    while let Some(res) = leaves.next(&mut bpm) {
        let (_leaf_id, leaf) = res.unwrap();
        leaf_count += 1;
        for (k, rid) in leaf.iter() {
            keys_first_bytes.push(k.0[0]);
            assert_eq!(rid.page_id as u8, k.0[0]);
            assert_eq!(rid.slot_id, rid.page_id + 10);
        }
    }

    assert_eq!(leaf_count, count_leaves_in_chain(&tree, &mut bpm));
    assert_eq!(
        keys_first_bytes.len(),
        sum_keys_in_leaf_chain(&tree, &mut bpm)
    );
    assert!(tree.print_tree(&mut bpm, &mut Vec::new()).is_ok());
    assert!(keys_first_bytes.windows(2).all(|w| w[0] <= w[1]));
    assert_eq!(keys_first_bytes, (0u8..20u8).collect::<Vec<_>>());
}

#[test]
fn insert_splits_root_leaf_into_internal_root() {
    let mut bpm = make_bpm(10);
    let key_len = 2000u32;
    let tree = BPlusTree::new("idx".to_string(), key_len, &mut bpm).unwrap();

    for i in 0u8..5u8 {
        tree.insert(&mut bpm, make_key(i, key_len as usize), rid(i as u32, 0))
            .unwrap();
    }

    let header = tree.read_header(&mut bpm).unwrap();
    assert_ne!(header.root_page_id, INVALID_PAGE_ID);
    assert_ne!(header.first_leaf_id, INVALID_PAGE_ID);

    let root_page = bpm.load(header.root_page_id).unwrap();
    let root = InternalPage::decode(&root_page, header.key_len).unwrap();
    assert_eq!(root.keys.len(), 1);
    assert_eq!(root.children.len(), 2);

    let left_leaf_id = root.get_child(0).unwrap();
    let right_leaf_id = root.get_child(1).unwrap();
    assert_eq!(header.first_leaf_id, *left_leaf_id);

    let left_leaf = leaf_at(&tree, &mut bpm, *left_leaf_id);
    let right_leaf = leaf_at(&tree, &mut bpm, *right_leaf_id);

    assert_eq!(left_leaf.next_leaf_id, *right_leaf_id);
    assert_eq!(right_leaf.next_leaf_id, INVALID_PAGE_ID);
    assert_eq!(left_leaf.keys.len(), 2);
    assert_eq!(right_leaf.keys.len(), 3);
}

#[test]
fn insert_duplicate_key_errors() {
    let mut bpm = make_bpm(10);
    let key_len = 32u32;
    let tree = BPlusTree::new("idx".to_string(), key_len, &mut bpm).unwrap();

    let key = make_key(7, key_len as usize);
    tree.insert(&mut bpm, key.clone(), rid(1, 1)).unwrap();

    let err = tree.insert(&mut bpm, key, rid(2, 2)).unwrap_err();
    assert!(matches!(err, IndexError::Insert(InsertError::DuplicateKey)));
}

#[test]
fn print_tree_smoke() {
    let mut bpm = make_bpm(10);
    let key_len = 2000u32;
    let tree = BPlusTree::new("idx".to_string(), key_len, &mut bpm).unwrap();

    for i in 0u8..5u8 {
        tree.insert(&mut bpm, make_key(i, key_len as usize), rid(i as u32, 0))
            .unwrap();
    }

    let mut lines = Vec::new();
    tree.print_tree(&mut bpm, &mut lines).unwrap();
    assert_eq!(
        lines,
        vec![
            "BPlusTree { index_name: idx, header_page_id: 0, key_len: 2000, leaf_max_size: 4, \
             internal_max_size: 4 }",
            "HeaderPage { root_page_id: 3, first_leaf_id: 1 }",
            "tree:",
            "└── internal page_id=3 keys=1 children=[1, 2]",
            "    ├── leaf page_id=1 keys=2 next_leaf_id=2",
            "    └── leaf page_id=2 keys=3 next_leaf_id=INVALID",
            "leaf chain:",
            "  [0] page_id=1 keys=2 next_leaf_id=2",
            "  [1] page_id=2 keys=3 next_leaf_id=INVALID",
        ]
    );
}

#[test]
fn remove_missing_key_errors_and_does_not_mutate_tree() {
    let mut bpm = make_bpm(10);
    let key_len = 32u32;
    let tree = BPlusTree::new("idx".to_string(), key_len, &mut bpm).unwrap();

    let missing = make_key(9, key_len as usize);
    let err = tree.remove(&mut bpm, missing).unwrap_err();
    assert!(matches!(err, IndexError::Remove(RemoveError::KeyNotFound)));

    for i in 0u8..3u8 {
        tree.insert(&mut bpm, make_key(i, key_len as usize), rid(i as u32, 0))
            .unwrap();
    }

    let before_header = tree.read_header(&mut bpm).unwrap();
    let before_total = sum_keys_in_leaf_chain(&tree, &mut bpm);
    let before_leaves = count_leaves_in_chain(&tree, &mut bpm);

    let missing = make_key(200, key_len as usize);
    let err = tree.remove(&mut bpm, missing).unwrap_err();
    assert!(matches!(err, IndexError::Remove(RemoveError::KeyNotFound)));

    let after_header = tree.read_header(&mut bpm).unwrap();
    assert_eq!(before_header.root_page_id, after_header.root_page_id);
    assert_eq!(before_header.first_leaf_id, after_header.first_leaf_id);
    assert_eq!(before_total, sum_keys_in_leaf_chain(&tree, &mut bpm));
    assert_eq!(before_leaves, count_leaves_in_chain(&tree, &mut bpm));
}

#[test]
fn remove_last_key_marks_tombstone_and_search_returns_none() {
    let mut bpm = make_bpm(10);
    let key_len = 32u32;
    let tree = BPlusTree::new("idx".to_string(), key_len, &mut bpm).unwrap();

    let key = make_key(7, key_len as usize);
    tree.insert(&mut bpm, key.clone(), rid(1, 1)).unwrap();

    tree.remove(&mut bpm, key.clone()).unwrap();

    assert!(tree.search(&mut bpm, &key).unwrap().is_none());

    let err = tree.remove(&mut bpm, key).unwrap_err();
    assert!(matches!(err, IndexError::Remove(RemoveError::KeyNotFound)));
}

#[test]
fn remove_marks_tombstones_without_changing_leaf_key_counts() {
    let mut bpm = make_bpm(10);
    let key_len = 2000u32; // leaf_max_size=4 => triggers a split at 5 inserts
    let tree = BPlusTree::new("idx".to_string(), key_len, &mut bpm).unwrap();

    for i in 0u8..5u8 {
        tree.insert(&mut bpm, make_key(i, key_len as usize), rid(i as u32, 0))
            .unwrap();
    }

    let header = tree.read_header(&mut bpm).unwrap();
    let root_page = bpm.load(header.root_page_id).unwrap();
    let root = InternalPage::decode(&root_page, header.key_len).unwrap();
    assert_eq!(root.keys.len(), 1);
    assert_eq!(root.children.len(), 2);

    let left_leaf_id = *root.get_child(0).unwrap();
    let right_leaf_id = *root.get_child(1).unwrap();
    let left_leaf = leaf_at(&tree, &mut bpm, left_leaf_id);
    let right_leaf = leaf_at(&tree, &mut bpm, right_leaf_id);
    assert_eq!(left_leaf.keys.len(), 2);
    assert_eq!(right_leaf.keys.len(), 3);
    assert_eq!(left_leaf.next_leaf_id, right_leaf_id);
    assert_eq!(right_leaf.next_leaf_id, INVALID_PAGE_ID);

    let before_total = sum_keys_in_leaf_chain(&tree, &mut bpm);
    tree.remove(&mut bpm, make_key(4, key_len as usize)).unwrap();
    tree.remove(&mut bpm, make_key(0, key_len as usize)).unwrap();
    assert_eq!(before_total, sum_keys_in_leaf_chain(&tree, &mut bpm));
    assert!(tree
        .search(&mut bpm, &make_key(4, key_len as usize))
        .unwrap()
        .is_none());
    assert!(tree
        .search(&mut bpm, &make_key(0, key_len as usize))
        .unwrap()
        .is_none());
}

#[test]
fn search_finds_inserted_keys_and_returns_none_for_missing() {
    let mut bpm = make_bpm(10);
    let key_len = 2000u32; // leaf_max_size=4 => triggers a split at 5 inserts
    let tree = BPlusTree::new("idx".to_string(), key_len, &mut bpm).unwrap();

    for i in 0u8..5u8 {
        tree.insert(
            &mut bpm,
            make_key(i, key_len as usize),
            rid(i as u32, i as u32 + 10),
        )
        .unwrap();
    }

    for i in 0u8..5u8 {
        let key = make_key(i, key_len as usize);
        let IndexValue::IndexValue(rid) = tree.search(&mut bpm, &key).unwrap().expect("key present");
        assert_eq!(rid.page_id, i as u32);
        assert_eq!(rid.slot_id, i as u32 + 10);
    }

    let missing = make_key(9, key_len as usize);
    assert!(tree.search(&mut bpm, &missing).unwrap().is_none());
}

#[test]
fn b_plus_tree_single_thread() {
    let num_frames = 500;
    let key_len = 20;
    let inserts = 500;
    let removes = 500;

    let mut bpm = make_bpm(num_frames);
    let tree = BPlusTree::new("idx".to_string(), key_len as u32, &mut bpm).unwrap();

    for i in 0..inserts {
        let k = (i % 200) as u8;
        let key = make_key(k, key_len);
        let _ = tree.insert(&mut bpm, key, rid(i, 0));
    }

    for i in 0..removes {
        let k = (i % 200) as u8;
        let key = make_key(k, key_len);
        let _ = tree.remove(&mut bpm, key);
    }
}

#[test]
fn a_tree_behaves_like_a_sorted_map() {
    let mut bpm = make_bpm(12);
    let key_len = 900usize; // small nodes: splits and merges come soon
    let tree = BPlusTree::new("idx".to_string(), key_len as u32, &mut bpm).unwrap();
    let mut model = std::collections::BTreeMap::new();
    let mut seed: u32 = 12345;
    for step in 0..1500u32 {
        seed = seed.wrapping_mul(1_103_515_245).wrapping_add(12345);
        let k = ((seed >> 16) % 120) as u8;
        let key = make_key(k, key_len);
        if (seed >> 8) % 5 < 3 {
            let res = tree.insert(&mut bpm, key, rid(step, 1));
            if model.contains_key(&k) {
                assert!(matches!(
                    res,
                    Err(IndexError::Insert(InsertError::DuplicateKey))
                ));
            } else {
                res.unwrap();
                model.insert(k, step);
            }
        } else {
            let res = tree.remove(&mut bpm, key);
            if model.remove(&k).is_some() {
                res.unwrap();
            } else {
                assert!(matches!(
                    res,
                    Err(IndexError::Remove(RemoveError::KeyNotFound))
                ));
            }
        }
        if step % 100 == 99 && !model.is_empty() {
            let all = tree
                .scan(&mut bpm, &KeyBound::Unbounded, KeyBound::Unbounded)
                .unwrap()
                .collect(&mut bpm)
                .unwrap();
            let got: Vec<(u8, u32)> = all
                .iter()
                .map(|(k, IndexValue::IndexValue(r))| (k.0[0], r.page_id))
                .collect();
            let want: Vec<(u8, u32)> = model.iter().map(|(k, v)| (*k, *v)).collect();
            assert_eq!(want, got);
            let lower = make_key(30, key_len);
            let upper = make_key(70, key_len);
            let part = tree
                .scan(
                    &mut bpm,
                    &KeyBound::Excluded(lower),
                    KeyBound::Included(upper),
                )
                .unwrap()
                .collect(&mut bpm)
                .unwrap();
            assert_eq!(model.range(31u8..=70).count(), part.len());
        }
    }
}

#[test]
fn keys_of_the_wrong_length_and_empty_trees_are_refused() {
    let mut bpm = make_bpm(4);
    assert!(matches!(
        BPlusTree::new("idx".to_string(), 0, &mut bpm),
        Err(IndexError::Insert(InsertError::InvalidKey))
    ));
    let tree = BPlusTree::new("idx".to_string(), 4, &mut bpm).unwrap();
    assert!(matches!(
        tree.insert(&mut bpm, make_key(1, 5), rid(0, 0)),
        Err(IndexError::Insert(InsertError::InvalidKey))
    ));
    assert!(matches!(
        tree.search(&mut bpm, &make_key(1, 4)),
        Err(IndexError::Lookup)
    ));
}

/// Adds a key, finds it, takes it out and adds it again, through any index.
fn exercise<I: Index>(index: &I, bpm: &mut BufferPoolManager) {
    index.insert(bpm, make_key(3, 4), rid(1, 2)).unwrap();
    index.insert(bpm, make_key(4, 4), rid(1, 3)).unwrap();
    assert!(matches!(
        index.search(bpm, &make_key(3, 4)),
        Ok(Some(IndexValue::IndexValue(r))) if r.page_id == 1 && r.slot_id == 2
    ));
    index.remove(bpm, make_key(3, 4)).unwrap();
    assert!(matches!(index.search(bpm, &make_key(3, 4)), Ok(None)));
    assert!(matches!(index.search(bpm, &make_key(4, 4)), Ok(Some(_))));
    assert!(matches!(
        index.remove(bpm, make_key(3, 4)),
        Err(IndexError::Remove(RemoveError::KeyNotFound))
    ));
    index.insert(bpm, make_key(3, 4), rid(5, 6)).unwrap();
    assert!(matches!(
        index.insert(bpm, make_key(3, 4), rid(5, 6)),
        Err(IndexError::Insert(InsertError::DuplicateKey))
    ));
}

#[test]
fn an_index_forgets_what_is_removed() {
    let mut bpm = make_bpm(8);
    let tree = BPlusTree::new("idx".to_string(), 4, &mut bpm).unwrap();
    exercise(&tree, &mut bpm);
}

/// An index whose header names these pages.
fn tree_with_header(bpm: &mut BufferPoolManager, root: usize, first_leaf: usize) -> BPlusTree {
    let tree = BPlusTree::new("idx".to_string(), 2000, bpm).unwrap();
    let header = HeaderPage {
        root_page_id: root,
        first_leaf_id: first_leaf,
        key_len: 2000,
    };
    let mut data = bpm.load(tree.header_page_id).unwrap();
    header.encode(&mut data).unwrap();
    bpm.store(tree.header_page_id, &data).unwrap();
    tree
}

fn printed(tree: &BPlusTree, bpm: &mut BufferPoolManager) -> (Vec<String>, Result<(), IndexError>) {
    let mut lines = Vec::new();
    let res = tree.print_tree(bpm, &mut lines);
    (lines, res)
}

#[test]
fn pages_that_are_no_tree_are_shown_as_they_are_found() {
    let mut bpm = make_bpm(10);
    let tree = tree_with_header(&mut bpm, 1, 2);
    // page 1: an internal node with itself, a leaf, no page and the header as its children
    let mut node = InternalPage::new(4);
    node.children = vec![1, 2, INVALID_PAGE_ID, 0];
    node.keys = vec![make_key(1, 2000), make_key(2, 2000), make_key(3, 2000)];
    node.base.size = 3;
    let mut data = vec![0u8; PAGE_SIZE];
    node.encode(&mut data, 2000).unwrap();
    assert_eq!(1, bpm.create(&data).unwrap());
    // page 2: a leaf that is followed by itself
    let mut leaf = LeafPage::new(4, 1);
    leaf.next_leaf_id = 2;
    let mut data = vec![0u8; PAGE_SIZE];
    leaf.encode(&mut data, 2000).unwrap();
    assert_eq!(2, bpm.create(&data).unwrap());

    let (lines, res) = printed(&tree, &mut bpm);
    assert!(res.is_ok());
    assert_eq!(
        &lines[2..],
        &[
            "tree:",
            "└── internal page_id=1 keys=3 children=[1, 2, INVALID, 0]",
            "    ├── * cycle/revisit: page 1",
            "    ├── leaf page_id=2 keys=0 next_leaf_id=2",
            "    └── unknown page_id=0 (neither leaf nor internal)",
            "leaf chain:",
            "  [0] page_id=2 keys=0 next_leaf_id=2",
            "  * cycle/revisit at leaf 2",
        ]
    );
}

#[test]
fn a_view_of_a_tree_ends_at_pages_that_cannot_be_read() {
    let mut bpm = make_bpm(10);
    let tree = tree_with_header(&mut bpm, 77, 77);
    let (lines, res) = printed(&tree, &mut bpm);
    assert_eq!(3, lines.len());
    assert!(matches!(res, Err(IndexError::BpmError(BpmError::Io(_)))));

    let mut other = bpm.load(tree.header_page_id).unwrap();
    other[0] ^= 0xff;
    bpm.store(tree.header_page_id, &other).unwrap();
    let (lines, res) = printed(&tree, &mut bpm);
    assert!(lines.is_empty());
    assert!(matches!(
        res,
        Err(IndexError::PageError(PageCodecError::BadMagic))
    ));

    let mut longer = tree_with_header(&mut bpm, INVALID_PAGE_ID, INVALID_PAGE_ID);
    let (lines, res) = printed(&longer, &mut bpm);
    assert!(res.is_ok());
    assert_eq!("(empty)", lines[2]);
    longer.key_len = 2001;
    let (_, res) = printed(&longer, &mut bpm);
    assert!(matches!(
        res,
        Err(IndexError::Insert(InsertError::InvalidKey))
    ));
}

#[test]
fn separators_part_the_keys_of_their_children() {
    let mut bpm = make_bpm(16);
    let tree = BPlusTree::new("idx".to_string(), 2000, &mut bpm).unwrap();
    for i in 0u8..40u8 {
        let key = make_key(i.wrapping_mul(37), 2000);
        tree.insert_pessimistic(&mut bpm, &key, rid(i as u32, 0))
            .unwrap();
    }
    for i in 0u8..10u8 {
        let key = make_key(i.wrapping_mul(37), 2000);
        tree.remove_pessimistic(&mut bpm, &key).unwrap();
    }
    let root = tree.read_header(&mut bpm).unwrap().root_page_id;
    let page = bpm.load(root).unwrap();
    let node = InternalPage::decode(&page, 2000).unwrap();
    assert_eq!(node.children.len(), node.keys.len() + 1);
    for (i, child) in node.children.iter().enumerate() {
        for key in keys_below(&mut bpm, *child) {
            assert!(i == node.keys.len() || key < node.keys[i].0);
            assert!(i == 0 || node.keys[i - 1].0 <= key);
        }
    }
}

fn keys_below(bpm: &mut BufferPoolManager, page_id: usize) -> Vec<Vec<u8>> {
    let data = bpm.load(page_id).unwrap();
    if let Ok(leaf) = LeafPage::decode(&data, 2000) {
        return leaf.keys.iter().map(|k| k.0.clone()).collect();
    }
    let node = InternalPage::decode(&data, 2000).unwrap();
    node.children
        .iter()
        .flat_map(|c| keys_below(bpm, *c))
        .collect()
}
