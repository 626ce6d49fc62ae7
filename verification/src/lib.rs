//! A small disk-oriented database: buffer pool, table heap, B+ tree index and
//! query processing.
pub mod ast;
pub mod buf;
pub mod buffer_pool;
pub mod catalog;
pub mod disk;
pub mod errors;
pub mod index;
pub mod parser;
pub mod planner;
pub mod processor;
pub mod replacer;
pub mod replacer_laws;
pub mod table_heap;
pub mod text;

use vstd::prelude::*;

verus! {

/// Builds a buffer pool from its parts.
pub fn create_buffer_pool_manager(
    num_frames: usize,
    replacer: replacer::ArcReplacer,
    disk: disk::DiskManager,
) -> (res: buffer_pool::BufferPoolManager)
    requires
        replacer.wf(),
        replacer@.resident().len() == 0,
        num_frames <= replacer@.capacity,
        disk.wf(),
    ensures
        res.wf(),
        res.pages() == disk.pages(),
        res.on_disk() == disk.pages(),
        res.next_page_id() == 0,
        res.num_frames() == num_frames,
        res.cache() == (buffer_pool::CacheView {
            free: Seq::new(num_frames as nat, |i: int| i as usize),
            replacer: replacer@,
        }),
        forall|p: usize| !#[trigger] res.cached(p),
        forall|p: usize| #[trigger] res.pins(p) == 0,
        forall|f: usize|
            f < num_frames ==> #[trigger] res.frame_bytes(f) == buffer_pool::zero_page(),
        num_frames > 0 ==> res.ready(),
{
    buffer_pool::BufferPoolManager::new(num_frames, replacer, disk)
}

} // verus!
