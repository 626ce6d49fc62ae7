//! Pages of the B+ tree.
use cmudb::buf::{BufReader, BufWriter, BufferError};
use cmudb::catalog::index_schema::IndexKey;
use cmudb::disk::PAGE_SIZE;
use cmudb::index::b_plus_page::{
    HeaderPage, InternalPage, LeafPage, INVALID_PAGE_ID, NUM_TOMBSTONES,
};
use cmudb::index::page_codec::{read_common_header, write_common_header, PageCodecError};
use cmudb::table_heap::RecordId;
use std::collections::VecDeque;

#[test]
fn test_internal_page_split() {
    let mut left = InternalPage::new(10);
    left.children = vec![1, 2, 3, 4, 5, 6];
    left.keys = vec![
        IndexKey(vec![10]),
        IndexKey(vec![20]),
        IndexKey(vec![30]),
        IndexKey(vec![40]),
        IndexKey(vec![50]),
    ];
    left.base.size = left.keys.len() as u32;
    assert!(left.validate());

    let mut right = InternalPage::new(10);
    let sep = left.split_into(&mut right);

    assert_eq!(sep, IndexKey(vec![30]));
    assert_eq!(left.keys, vec![IndexKey(vec![10]), IndexKey(vec![20])]);
    assert_eq!(left.children, vec![1, 2, 3]);
    assert_eq!(right.keys, vec![IndexKey(vec![40]), IndexKey(vec![50])]);
    assert_eq!(right.children, vec![4, 5, 6]);
}

#[test]
fn test_leaf_page_split_and_merge() {
    let mut left = LeafPage::new(10, NUM_TOMBSTONES);
    left.keys = vec![
        IndexKey(vec![10]),
        IndexKey(vec![20]),
        IndexKey(vec![30]),
        IndexKey(vec![40]),
    ];
    left.record_ids = vec![
        RecordId {
            page_id: 1,
            slot_id: 0,
        },
        RecordId {
            page_id: 1,
            slot_id: 1,
        },
        RecordId {
            page_id: 1,
            slot_id: 2,
        },
        RecordId {
            page_id: 1,
            slot_id: 3,
        },
    ];
    left.base.size = left.keys.len() as u32;
    left.next_leaf_id = 999;
    left.tombstones = VecDeque::from([1u32, 3u32]); // keys 20 and 40 tombstoned
    assert!(left.validate());

    let mut right = LeafPage::new(10, NUM_TOMBSTONES);
    let sep = left.split_into(&mut right, 123);

    assert_eq!(sep, IndexKey(vec![30]));
    assert_eq!(left.keys, vec![IndexKey(vec![10]), IndexKey(vec![20])]);
    assert_eq!(right.keys, vec![IndexKey(vec![30]), IndexKey(vec![40])]);
    assert_eq!(left.tombstones, VecDeque::from([1u32]));
    assert_eq!(right.tombstones, VecDeque::from([1u32]));
    assert_eq!(left.next_leaf_id, 123);
    assert_eq!(right.next_leaf_id, 999);

    left.absorb_right(&mut right);
    assert_eq!(
        left.keys,
        vec![
            IndexKey(vec![10]),
            IndexKey(vec![20]),
            IndexKey(vec![30]),
            IndexKey(vec![40])
        ]
    );
    assert_eq!(left.tombstones, VecDeque::from([1u32, 3u32]));
    assert_eq!(left.next_leaf_id, 999);
}

#[test]
fn test_leaf_page_merge_treats_absorbed_tombstones_as_more_recent() {
    let mut left = LeafPage::new(10, 1);
    left.keys = vec![IndexKey(vec![10]), IndexKey(vec![20])];
    left.record_ids = vec![
        RecordId {
            page_id: 1,
            slot_id: 0,
        },
        RecordId {
            page_id: 1,
            slot_id: 1,
        },
    ];
    left.base.size = left.keys.len() as u32;
    left.tombstones = VecDeque::from([0u32]); // delete key 10
    assert!(left.validate());

    let mut right = LeafPage::new(10, 1);
    right.keys = vec![IndexKey(vec![30]), IndexKey(vec![40])];
    right.record_ids = vec![
        RecordId {
            page_id: 2,
            slot_id: 0,
        },
        RecordId {
            page_id: 2,
            slot_id: 1,
        },
    ];
    right.base.size = right.keys.len() as u32;
    right.tombstones = VecDeque::from([0u32]); // delete key 30
    assert!(right.validate());

    // Capacity is 1, but merging would create 2 tombstones. Since the absorbed leaf's deletes are
    // considered more recent, the older tombstone from `left` must be evicted and physically
    // deleted first.
    left.absorb_right(&mut right);
    assert_eq!(
        left.keys,
        vec![IndexKey(vec![20]), IndexKey(vec![30]), IndexKey(vec![40])]
    );
    assert_eq!(left.tombstones, VecDeque::from([1u32])); // key 30 shifted to slot 1
    assert!(left.get(&IndexKey(vec![10])).is_none()); // physically removed
    assert!(left.get(&IndexKey(vec![30])).is_none()); // still tombstoned
}

#[test]
fn test_internal_page_merge() {
    let mut left = InternalPage::new(10);
    left.children = vec![1, 2, 3];
    left.keys = vec![IndexKey(vec![10]), IndexKey(vec![20])];
    left.base.size = left.keys.len() as u32;

    let mut right = InternalPage::new(10);
    right.children = vec![5, 6, 7];
    right.keys = vec![IndexKey(vec![90]), IndexKey(vec![100])];
    right.base.size = right.keys.len() as u32;

    left.absorb_right(IndexKey(vec![50]), &mut right);

    assert_eq!(
        vec![
            IndexKey(vec![10]),
            IndexKey(vec![20]),
            IndexKey(vec![50]),
            IndexKey(vec![90]),
            IndexKey(vec![100]),
        ],
        left.keys
    );
    assert_eq!(vec![1, 2, 3, 5, 6, 7], left.children);
    assert_eq!(0, right.keys.len());
    assert_eq!(0, right.children.len());
}

#[test]
fn test_header_page_encode_decode_roundtrip() {
    let mut buf = [0u8; PAGE_SIZE];
    let hdr = HeaderPage {
        root_page_id: 42,
        first_leaf_id: INVALID_PAGE_ID,
        key_len: 8,
    };
    hdr.encode(&mut buf).unwrap();
    let decoded = HeaderPage::decode(&buf).unwrap();
    assert_eq!(decoded.root_page_id, 42);
    assert_eq!(decoded.first_leaf_id, INVALID_PAGE_ID);
    assert_eq!(decoded.key_len, 8);
}

#[test]
fn test_leaf_page_encode_decode_roundtrip() {
    let mut buf = [0u8; PAGE_SIZE];
    let key_len = 4u32;
    let mut leaf = LeafPage::new(10, NUM_TOMBSTONES);
    leaf.keys = vec![
        IndexKey(vec![0, 0, 0, 10]),
        IndexKey(vec![0, 0, 0, 20]),
        IndexKey(vec![0, 0, 0, 30]),
    ];
    leaf.record_ids = vec![
        RecordId {
            page_id: 1,
            slot_id: 7,
        },
        RecordId {
            page_id: 2,
            slot_id: 8,
        },
        RecordId {
            page_id: 3,
            slot_id: 9,
        },
    ];
    leaf.base.size = leaf.keys.len() as u32;
    leaf.next_leaf_id = 123;
    leaf.encode(&mut buf, key_len).unwrap();

    let decoded = LeafPage::decode(&buf, key_len).unwrap();
    assert_eq!(decoded.base.size, 3);
    assert_eq!(decoded.base.max_size, 10);
    assert_eq!(decoded.next_leaf_id, 123);
    assert_eq!(decoded.keys, leaf.keys);
    assert_eq!(decoded.record_ids.len(), leaf.record_ids.len());
    for (a, b) in decoded.record_ids.iter().zip(leaf.record_ids.iter()) {
        assert_eq!(a.page_id, b.page_id);
        assert_eq!(a.slot_id, b.slot_id);
    }
}

#[test]
fn test_leaf_page_delete_stores_tombstones_and_eviction_is_fifo() {
    let mut leaf = LeafPage::new(10, 2);
    leaf.insert(
        IndexKey(vec![10]),
        RecordId {
            page_id: 1,
            slot_id: 1,
        },
    )
    .unwrap();
    leaf.insert(
        IndexKey(vec![20]),
        RecordId {
            page_id: 1,
            slot_id: 2,
        },
    )
    .unwrap();
    leaf.insert(
        IndexKey(vec![30]),
        RecordId {
            page_id: 1,
            slot_id: 3,
        },
    )
    .unwrap();

    assert!(leaf.remove_key(&IndexKey(vec![10])).is_ok());
    assert_eq!(leaf.keys.len(), 3);
    assert_eq!(leaf.tombstones.len(), 1);
    assert_eq!(leaf.tombstones[0], 0);
    assert!(leaf.get(&IndexKey(vec![10])).is_none());

    assert!(leaf.remove_key(&IndexKey(vec![20])).is_ok());
    assert_eq!(leaf.keys.len(), 3);
    assert_eq!(leaf.tombstones.len(), 2);
    assert_eq!(leaf.tombstones[0], 0);
    assert_eq!(leaf.tombstones[1], 1);
    assert!(leaf.get(&IndexKey(vec![20])).is_none());

    // Tombstones capacity is 2: the oldest (10) is evicted (physically deleted) when adding 30.
    assert!(leaf.remove_key(&IndexKey(vec![30])).is_ok());
    assert_eq!(leaf.keys.len(), 2);
    assert_eq!(leaf.tombstones.len(), 2);
    assert_eq!(leaf.tombstones[0], 0); // key 20 shifted to slot 0 after deleting key 10
    assert_eq!(leaf.tombstones[1], 1); // key 30 is now at slot 1
    assert!(leaf.get(&IndexKey(vec![30])).is_none());

    // Tombstones are persisted as a trailing section in the leaf encoding.
    let mut buf = [0u8; PAGE_SIZE];
    leaf.encode(&mut buf, 1).unwrap();
    let decoded = LeafPage::decode(&buf, 1).unwrap();
    assert_eq!(decoded.keys.len(), 2);
    assert_eq!(decoded.tombstones.len(), 2);
    assert_eq!(decoded.tombstones[0], 0);
    assert_eq!(decoded.tombstones[1], 1);
    assert!(decoded.get(&IndexKey(vec![20])).is_none());
    assert!(decoded.get(&IndexKey(vec![30])).is_none());
}
#[test]
fn test_leaf_page_encode_errors_if_tombstones_do_not_fit() {
    // Fill the page so that only 8 bytes remain after the live entries, then try to encode 2
    // tombstones (4 bytes count + 2 * 4 bytes indexes = 12 bytes) => must error.
    let key_len = 1u32;
    let max_size = 480u32; // 24 + 480*(1+16)=8184 => 8 bytes slack
    let mut leaf = LeafPage::new(max_size, 2);
    leaf.keys = vec![IndexKey(vec![0u8]); 480];
    leaf.record_ids = (0u32..480u32)
        .map(|i| RecordId {
            page_id: i,
            slot_id: 0,
        })
        .collect();
    leaf.base.size = leaf.keys.len() as u32;
    leaf.tombstones = VecDeque::from([0u32, 1u32]);
    assert!(leaf.validate());

    let mut buf = [0u8; PAGE_SIZE];
    let err = leaf.encode(&mut buf, key_len).unwrap_err();
    assert!(matches!(
        err,
        PageCodecError::BufferError(BufferError::BufferTooSmall { .. })
    ));
}

#[test]
fn test_internal_page_encode_decode_roundtrip() {
    let mut buf = [0u8; PAGE_SIZE];
    let key_len = 2u32;
    let mut internal = InternalPage::new(10);
    internal.children = vec![11, 22, 33];
    internal.keys = vec![IndexKey(vec![1, 2]), IndexKey(vec![3, 4])];
    internal.base.size = internal.keys.len() as u32;
    internal.encode(&mut buf, key_len).unwrap();

    let decoded = InternalPage::decode(&buf, key_len).unwrap();
    assert_eq!(decoded.base.size, 2);
    assert_eq!(decoded.base.max_size, 10);
    assert_eq!(decoded.children, internal.children);
    assert_eq!(decoded.keys, internal.keys);
}

#[test]
fn test_decode_rejects_bad_magic() {
    let mut buf = [0u8; PAGE_SIZE];
    let hdr = HeaderPage {
        root_page_id: 1,
        first_leaf_id: 2,
        key_len: 4,
    };
    hdr.encode(&mut buf).unwrap();
    buf[0] ^= 0xff;
    assert!(matches!(
        HeaderPage::decode(&buf),
        Err(PageCodecError::BadMagic)
    ));
}

#[test]
fn pages_know_their_keys() {
    let mut leaf = LeafPage::new(10, 2);
    assert!(leaf.base.is_leaf_page());
    assert_eq!(leaf.base.min_size(), 5);
    let rid = RecordId {
        page_id: 1,
        slot_id: 2,
    };
    leaf.insert(IndexKey(vec![5]), rid).unwrap();
    assert!(leaf.key_exists(&IndexKey(vec![5])));
    assert!(!leaf.key_exists(&IndexKey(vec![6])));

    let mut internal = InternalPage::new(10);
    assert!(!internal.base.is_leaf_page());
    internal.insert_key(0, IndexKey(vec![7]));
    internal.insert_key(0, IndexKey(vec![3]));
    assert_eq!(internal.keys, vec![IndexKey(vec![3]), IndexKey(vec![7])]);
    assert_eq!(internal.base.size, 2);
    assert_eq!(internal.remove_key(1), IndexKey(vec![7]));
}

#[test]
fn a_common_header_stands_anywhere() {
    let mut buf = vec![0u8; PAGE_SIZE];
    {
        let mut w = BufWriter::new(&mut buf).unwrap();
        w.pos = 100;
        write_common_header(&mut w, 2).unwrap();
        assert_eq!(108, w.pos);
        w.pos = PAGE_SIZE - 3;
        assert!(write_common_header(&mut w, 2).is_err());
    }
    let mut r = BufReader::new(&buf).unwrap();
    r.pos = 100;
    assert_eq!(2, read_common_header(&mut r).unwrap());
    assert_eq!(108, r.pos);
    r.pos = 101;
    assert!(matches!(
        read_common_header(&mut r),
        Err(PageCodecError::BadMagic)
    ));
    r.pos = PAGE_SIZE - 3;
    assert!(matches!(
        read_common_header(&mut r),
        Err(PageCodecError::BufferError(_))
    ));
}

#[test]
fn children_and_separators_leave_an_internal_page_together() {
    let mut node = InternalPage::new(10);
    node.children = vec![10, 11, 12, 13];
    node.keys = vec![IndexKey(vec![1]), IndexKey(vec![2]), IndexKey(vec![3])];
    node.base.size = 3;
    assert_eq!(node.remove_separator(1), (IndexKey(vec![2]), 12));
    assert_eq!(node.pop_first_child_and_key(), (IndexKey(vec![1]), 10));
    assert_eq!(node.pop_last_child_and_key(), (IndexKey(vec![3]), 13));
    assert_eq!(node.children, vec![11]);
    assert!(node.keys.is_empty());
    assert_eq!(node.base.size, 0);
}
