//! The buffer pool, the replacer, the disk and table heaps.
use cmudb::buffer_pool::{BpmError, BufferPoolManager, FrameChoice, FramePool};
use cmudb::create_buffer_pool_manager;
use cmudb::disk::{
    DiskManager, DiskRequest, DiskSchedulerError, IoErrorKind, SlotTable, PAGE_SIZE,
};
use cmudb::replacer::ArcReplacer;
use cmudb::table_heap::{RecordId, TableHeap, Tuple};

fn make_bpm(num_frames: usize) -> BufferPoolManager {
    create_buffer_pool_manager(
        num_frames,
        ArcReplacer::new(num_frames),
        DiskManager::new(Vec::new()),
    )
}

/// Creates a page that starts with these bytes, and lets go of it.
fn fill_new_page(bpm: &mut BufferPoolManager, bytes: &[u8]) -> usize {
    let page = bpm.new_page().expect("new page");
    let mut data = bpm.data_of(&page).to_vec();
    data[0..bytes.len()].copy_from_slice(bytes);
    bpm.write_data(&page, &data);
    let id = page.page_id().expect("page id");
    bpm.unpin_write(page);
    id
}

#[test]
fn write_flush_read_roundtrip() {
    let mut bpm = make_bpm(2);
    fill_new_page(&mut bpm, &[1, 2, 3, 4]);
    let read = bpm.read_page(0).expect("read flushed page");
    assert_eq!(&bpm.data(&read)[0..4], &[1, 2, 3, 4]);
}

#[test]
fn cached_then_io_read_paths() {
    let mut bpm = make_bpm(1);

    // Create and cache page 0
    fill_new_page(&mut bpm, &[9, 9, 9, 9]);

    // Cached path
    {
        let cached = bpm.read_page(0).unwrap();
        assert_eq!(&bpm.data(&cached)[0..4], &[9, 9, 9, 9]);
        bpm.unpin_read(cached);
    }

    // Force eviction of page 0 so the next read goes through IO
    fill_new_page(&mut bpm, &[7]);

    // Read page 0 again; this should trigger IO (page 0 was evicted)
    let reread = bpm.read_page(0).unwrap();
    assert_eq!(&bpm.data(&reread)[0..4], &[9, 9, 9, 9]);
}

#[test]
fn page_not_found_when_not_inserted() {
    let mut bpm = make_bpm(1);
    let page = bpm.new_page().unwrap();
    bpm.unpin_write(page);
    let err = bpm.read_page(1).unwrap_err();
    assert!(matches!(err, BpmError::Io(_)), "unexpected error: {err:?}");
}

#[test]
fn eviction_flushes_and_clears_mapping() {
    let mut bpm = make_bpm(1);

    // Page 0 with data
    fill_new_page(&mut bpm, &[5, 6, 7]);

    // Allocate page 1 to force eviction of page 0
    fill_new_page(&mut bpm, &[42]);

    // Page 0 should have been flushed and unmapped; re-read should still see the data
    let reread = bpm.read_page(0).expect("page 0 re-read after eviction");
    assert_eq!(&bpm.data(&reread)[0..3], &[5, 6, 7]);
}

#[test]
fn io_error_restores_free_frame() {
    let mut bpm = make_bpm(1);

    // Page 99 is missing; first read should error
    assert!(matches!(
        bpm.read_page(99).unwrap_err(),
        BpmError::Io(_) | BpmError::ChannelClosed
    ));

    // A subsequent new_page should succeed, proving the reserved frame was returned
    bpm.new_page()
        .expect("frame should be available after IO error");
}

#[test]
fn pinned_pages_keep_their_frames() {
    let mut bpm = make_bpm(1);
    let held = bpm.new_page().unwrap();
    assert!(matches!(bpm.new_page(), Err(BpmError::NoFreeFrame)));
    assert!(matches!(bpm.read_page(5), Err(BpmError::NoFreeFrame)));
    bpm.unpin_write(held);
    assert_eq!(Some(1), bpm.new_page().unwrap().page_id());
}

#[test]
fn free_frames_are_taken_before_a_page_leaves() {
    let mut bpm = make_bpm(3);
    for n in 0..3u8 {
        fill_new_page(&mut bpm, &[n]);
        assert_eq!(0, bpm.disk().num_writes());
    }
    fill_new_page(&mut bpm, &[3]);
    assert_eq!(1, bpm.disk().num_writes());
    assert!(bpm.disk().read_page(0).is_ok());
}

#[test]
fn a_page_that_was_used_twice_outlives_one_that_was_used_once() {
    let mut bpm = make_bpm(2);
    fill_new_page(&mut bpm, &[0]);
    fill_new_page(&mut bpm, &[1]);
    let again = bpm.read_page(0).unwrap();
    bpm.unpin_read(again);
    fill_new_page(&mut bpm, &[2]);
    assert!(bpm.disk().read_page(0).is_err());
    assert!(bpm.disk().read_page(1).is_ok());
}

#[test]
fn a_frame_pool_gives_the_last_free_frame_and_then_victims() {
    let mut pool = FramePool::new(2, ArcReplacer::new(2));
    for page_id in [6usize, 5] {
        let Ok(FrameChoice::Ready(reservation)) = pool.choose_frame() else {
            panic!("a free frame");
        };
        assert_eq!(page_id - 5, reservation.frame_id);
        let frame = pool
            .install_page(reservation, page_id, Ok(vec![0u8; PAGE_SIZE]), false)
            .unwrap();
        assert_eq!(page_id - 5, frame);
    }
    assert!(matches!(pool.choose_frame(), Err(BpmError::NoFreeFrame)));
    pool.unpin(0);
    let Ok(FrameChoice::Ready(reservation)) = pool.choose_frame() else {
        panic!("a frame whose page left");
    };
    assert_eq!(0, reservation.frame_id);
    assert_eq!(Some(5), reservation.page_id);
}

#[test]
fn a_new_page_is_cleared() {
    let mut bpm = make_bpm(1);
    let page = bpm.new_page().unwrap();
    assert!(bpm.data_of(&page).iter().all(|b| *b == 0));
    let mut data = vec![0u8; PAGE_SIZE];
    data[9] = 77;
    bpm.write_data(&page, &data);
    bpm.unpin_write(page);
    let next = bpm.new_page().unwrap();
    assert!(bpm.data_of(&next).iter().all(|b| *b == 0));
}

#[test]
fn flushing_writes_to_the_disk() {
    let mut bpm = make_bpm(2);
    let id = fill_new_page(&mut bpm, &[8, 8]);
    assert_eq!(0, bpm.disk().num_writes());
    bpm.flush_page(id).unwrap();
    assert_eq!(1, bpm.disk().num_writes());
    assert!(bpm.disk().file().len() >= PAGE_SIZE);
}

#[test]
fn the_disk_gives_back_what_was_written() {
    let mut disk = DiskManager::new(Vec::new());
    let mut a = vec![0u8; PAGE_SIZE];
    a[17] = 4;
    disk.write_page(3, &a).unwrap();
    disk.write_page(1, &vec![9u8; PAGE_SIZE]).unwrap();
    assert_eq!(a, disk.read_page(3).unwrap());
    assert_eq!(vec![9u8; PAGE_SIZE], disk.read_page(1).unwrap());
    assert_eq!(IoErrorKind::NotFound, disk.read_page(2).unwrap_err().kind);
}

fn request(page_id: usize, is_write: bool, byte: u8) -> DiskRequest {
    DiskRequest {
        page_id,
        is_write,
        data: vec![byte; PAGE_SIZE],
    }
}

#[test]
fn requests_are_served_in_turn() {
    let mut disk = DiskManager::new(Vec::new());
    assert_eq!(disk.serve(request(5, true, 1)).unwrap(), vec![1; PAGE_SIZE]);
    assert_eq!(disk.serve(request(5, false, 0)).unwrap(), vec![1; PAGE_SIZE]);
    assert_eq!(disk.serve(request(5, true, 2)).unwrap(), vec![2; PAGE_SIZE]);
    assert_eq!(disk.serve(request(5, false, 0)).unwrap(), vec![2; PAGE_SIZE]);
    let missing = disk.serve(request(6, false, 0)).unwrap_err();
    assert_eq!(missing.kind, IoErrorKind::NotFound);
    assert_eq!(missing.message, "page 6 missing");
    assert_eq!(disk.num_writes(), 2);
}

#[test]
fn scheduler_errors_as_text() {
    assert_eq!(
        DiskSchedulerError::Shutdown.describe(),
        "disk scheduler is shut down"
    );
    assert_eq!(
        DiskSchedulerError::ChannelClosed(request(120, true, 0)).describe(),
        "failed to send disk request for page 120"
    );
    assert_eq!(
        DiskSchedulerError::WorkerPanicked.describe(),
        "disk worker thread panicked"
    );
}

#[test]
fn pages_keep_their_place_in_the_file() {
    let mut slots = SlotTable::new();
    assert_eq!(slots.locate(7), None);
    assert_eq!(slots.choose_slot(7, 100), 100);
    slots.commit(7, 100);
    assert_eq!(slots.locate(7), Some(100));
    assert_eq!(slots.choose_slot(7, 900), 100);
    slots.free_slots.push(300);
    assert_eq!(slots.choose_slot(8, 900), 300);
    assert_eq!(slots.choose_slot(8, 900), 900);
}

#[test]
fn test_sample() {
    let mut arc_replacer = ArcReplacer::new(7);
    arc_replacer.record_access(1, 1);
    arc_replacer.record_access(2, 2);
    arc_replacer.record_access(3, 3);
    arc_replacer.record_access(4, 4);
    arc_replacer.record_access(5, 5);
    arc_replacer.record_access(6, 6);
    arc_replacer.set_evictable(1, true);
    arc_replacer.set_evictable(2, true);
    arc_replacer.set_evictable(3, true);
    arc_replacer.set_evictable(4, true);
    arc_replacer.set_evictable(5, true);
    arc_replacer.set_evictable(6, false);
    assert_eq!(5, arc_replacer.size());

    arc_replacer.record_access(1, 1);
    assert_eq!(Some(2), arc_replacer.evict());
    assert_eq!(Some(3), arc_replacer.evict());
    assert_eq!(Some(4), arc_replacer.evict());
    assert_eq!(2, arc_replacer.size());

    arc_replacer.record_access(2, 7);
    arc_replacer.set_evictable(2, true);
    arc_replacer.record_access(3, 2);
    arc_replacer.set_evictable(3, true);
    assert_eq!(4, arc_replacer.size());

    arc_replacer.record_access(4, 3);
    arc_replacer.set_evictable(4, true);
    arc_replacer.record_access(7, 4);
    arc_replacer.set_evictable(7, true);
    assert_eq!(6, arc_replacer.size());

    assert_eq!(Some(5), arc_replacer.evict());
    assert_eq!(Some(1), arc_replacer.evict());

    arc_replacer.record_access(5, 1);
    arc_replacer.set_evictable(5, true);
    assert_eq!(5, arc_replacer.size());

    assert_eq!(Some(2), arc_replacer.evict());
}

#[test]
fn test_sample_two() {
    let mut arc_replacer = ArcReplacer::new(3);
    arc_replacer.record_access(1, 1);
    arc_replacer.set_evictable(1, true);
    arc_replacer.record_access(2, 2);
    arc_replacer.set_evictable(2, true);
    arc_replacer.record_access(3, 3);
    arc_replacer.set_evictable(3, true);
    assert_eq!(3, arc_replacer.size());

    assert_eq!(Some(1), arc_replacer.evict());
    assert_eq!(Some(2), arc_replacer.evict());
    assert_eq!(Some(3), arc_replacer.evict());
    assert_eq!(0, arc_replacer.size());

    arc_replacer.record_access(3, 4);
    arc_replacer.set_evictable(3, true);

    arc_replacer.record_access(2, 1);
    arc_replacer.set_evictable(2, true);
    assert_eq!(2, arc_replacer.size());

    arc_replacer.record_access(1, 3);
    arc_replacer.set_evictable(1, true);

    assert_eq!(Some(3), arc_replacer.evict());
    assert_eq!(Some(2), arc_replacer.evict());
    assert_eq!(Some(1), arc_replacer.evict());

    arc_replacer.record_access(1, 1);
    arc_replacer.set_evictable(1, true);

    arc_replacer.record_access(2, 4);
    arc_replacer.set_evictable(2, true);

    arc_replacer.record_access(3, 5);
    arc_replacer.set_evictable(3, true);
    assert_eq!(Some(1), arc_replacer.evict());

    arc_replacer.record_access(1, 6);
    arc_replacer.set_evictable(1, true);
    assert_eq!(Some(2), arc_replacer.evict());

    arc_replacer.record_access(2, 7);
    arc_replacer.set_evictable(2, true);
    assert_eq!(Some(3), arc_replacer.evict());

    arc_replacer.record_access(3, 5);
    arc_replacer.set_evictable(3, true);
    assert_eq!(Some(3), arc_replacer.evict());

    arc_replacer.record_access(3, 2);
    arc_replacer.set_evictable(3, true);
    assert_eq!(Some(1), arc_replacer.evict());

    arc_replacer.record_access(1, 3);
    arc_replacer.set_evictable(1, true);

    assert_eq!(Some(2), arc_replacer.evict());
    assert_eq!(Some(3), arc_replacer.evict());
    assert_eq!(Some(1), arc_replacer.evict());
}

#[test]
fn test_arc_replacer_performance() {
    let bpm_size: usize = 256 << 10; // ~1GB if frames are 4KB
    let mut arc_replacer = ArcReplacer::new(bpm_size);

    for i in 0..bpm_size {
        arc_replacer.record_access(i, i);
        arc_replacer.set_evictable(i, true);
    }

    let rounds: usize = 10;
    let mut access_frame_id: usize = 256 << 9;
    let mut access_times_ms: Vec<u128> = Vec::with_capacity(rounds);

    for _round in 0..rounds {
        let start_time = std::time::Instant::now();
        for _i in 0..bpm_size {
            arc_replacer.record_access(access_frame_id, access_frame_id);
            access_frame_id = (access_frame_id + 1) % bpm_size;
        }
        access_times_ms.push(start_time.elapsed().as_millis());
    }

    let total_ms: u128 = access_times_ms.iter().copied().sum();
    let avg_s: f64 = (total_ms as f64) / 1000.0 / (access_times_ms.len() as f64);

    assert!(avg_s < 3.0, "Average time used: {avg_s}s");
}

fn make_heap() -> (TableHeap, BufferPoolManager) {
    let mut bpm = make_bpm(8);
    let heap = TableHeap::new(&mut bpm).expect("create heap");
    (heap, bpm)
}

#[test]
fn insert_returns_rid_at_first_slot() {
    let (heap, mut bpm) = make_heap();
    let rid = heap
        .insert(
            &mut bpm,
            &Tuple {
                data: b"hello world".to_vec(),
            },
        )
        .expect("insert");
    assert_eq!(rid.slot_id, 0);
}

#[test]
fn get_returns_inserted_tuple_bytes() {
    let (heap, mut bpm) = make_heap();
    let payload = b"the quick brown fox".to_vec();
    let rid = heap
        .insert(
            &mut bpm,
            &Tuple {
                data: payload.clone(),
            },
        )
        .expect("insert");
    let (returned_rid, got) = heap.get(&mut bpm, rid).expect("get");
    assert_eq!(got.data, payload);
    assert_eq!(returned_rid, rid);
}

#[test]
fn delete_tombstones_and_blocks_get() {
    let (heap, mut bpm) = make_heap();
    let rid = heap
        .insert(
            &mut bpm,
            &Tuple {
                data: b"to be deleted".to_vec(),
            },
        )
        .expect("insert");
    heap.delete(&mut bpm, &rid).expect("delete");
    assert!(
        heap.get(&mut bpm, rid).is_err(),
        "get should fail on a tombstoned record"
    );
    assert!(
        heap.delete(&mut bpm, &rid).is_err(),
        "double-delete should be rejected"
    );
}

#[test]
fn update_replaces_tuple_and_invalidates_old_rid() {
    let (heap, mut bpm) = make_heap();
    let old_rid = heap
        .insert(
            &mut bpm,
            &Tuple {
                data: b"before".to_vec(),
            },
        )
        .expect("insert");
    let (new_rid, returned) = heap
        .update(
            &mut bpm,
            old_rid,
            Tuple {
                data: b"after!".to_vec(),
            },
        )
        .expect("update");
    assert_eq!(returned.data, b"after!");
    assert_ne!(new_rid, old_rid, "update should produce a new RID");
    assert!(
        heap.get(&mut bpm, old_rid).is_err(),
        "old RID should be tombstoned after update"
    );
    let (_, got) = heap.get(&mut bpm, new_rid).expect("get new");
    assert_eq!(got.data, b"after!");
}

#[test]
fn mixed_ops() {
    let (heap, mut bpm) = make_heap();
    // keep track of records we don't delete
    let mut live: Vec<(RecordId, Vec<u8>)> = Vec::new();

    for i in 0..10 {
        let payload = format!("tuple-{i:02}").into_bytes();
        let rid = heap
            .insert(
                &mut bpm,
                &Tuple {
                    data: payload.clone(),
                },
            )
            .expect("insert");
        live.push((rid, payload));

        // Every live tuple should still read back correctly after each insert.
        for (rid, expected) in &live {
            let (_, got) = heap.get(&mut bpm, *rid).expect("get live");
            assert_eq!(&got.data, expected, "iteration {i}: live tuple mismatch");
        }

        // update some tuples
        if i % 3 == 0 {
            let (old_rid, _) = live.pop().expect("at least one live tuple");
            let new_payload = format!("updated-{i:02}").into_bytes();
            let (new_rid, _) = heap
                .update(
                    &mut bpm,
                    old_rid,
                    Tuple {
                        data: new_payload.clone(),
                    },
                )
                .expect("update");
            assert!(heap.get(&mut bpm, old_rid).is_err());
            live.push((new_rid, new_payload));
        }

        // delete some tuples
        if i % 4 == 0 && !live.is_empty() {
            let (rid, _) = live.remove(0);
            heap.delete(&mut bpm, &rid).expect("delete");
            assert!(heap.get(&mut bpm, rid).is_err());
        }
    }

    // re-read non-deleted tuples
    for (rid, expected) in &live {
        let (_, got) = heap.get(&mut bpm, *rid).expect("final get");
        assert_eq!(&got.data, expected);
    }
}

#[test]
fn a_full_heap_refuses_tuples_and_stays_as_it_is() {
    let (heap, mut bpm) = make_heap();
    // 12 bytes of header, 9 bytes of slot, and the rest for one tuple
    let all = Tuple {
        data: vec![1; PAGE_SIZE - 12 - 9],
    };
    let rid = heap.insert(&mut bpm, &all).unwrap();
    assert!(heap.insert(&mut bpm, &Tuple { data: vec![] }).is_err());
    assert_eq!(all.data, heap.get(&mut bpm, rid).unwrap().1.data);
    assert!(heap.has(&mut bpm, &rid));
    assert!(!heap.has(
        &mut bpm,
        &RecordId {
            page_id: rid.page_id,
            slot_id: 1
        }
    ));
}

#[test]
fn a_scan_gives_the_tuples_that_were_not_deleted() {
    let (heap, mut bpm) = make_heap();
    let mut rids = Vec::new();
    for i in 0u8..5 {
        rids.push(heap.insert(&mut bpm, &Tuple { data: vec![i] }).unwrap());
    }
    heap.delete(&mut bpm, &rids[0]).unwrap();
    heap.delete(&mut bpm, &rids[3]).unwrap();
    let mut iter = heap.iter();
    let mut seen = Vec::new();
    while let Some((_, t)) = iter.next(&mut bpm) {
        seen.push(t.data[0]);
    }
    assert_eq!(vec![1, 2, 4], seen);
    assert_eq!(3, heap.scan(&mut bpm).len());
    assert_eq!("page_id: 0, slot_id: 4", rids[4].describe());
}
