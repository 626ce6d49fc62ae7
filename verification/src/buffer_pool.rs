//! Pages in memory: frames, pins, eviction and write-back.
use std::collections::HashMap;
use vstd::prelude::*;

use crate::disk::{is_missing, DiskManager, IoError, PAGE_SIZE};
use crate::replacer::{evictable_count, ArcReplacer, ArcView, Resident};

verus! {

broadcast use vstd::std_specs::hash::group_hash_axioms;

#[derive(Debug)]
pub enum BpmError {
    Poisoned,
    NoFreeFrame,
    FrameMissing,
    MutexPanic,
    FramePinned,
    ChannelClosed,
    Io(IoError),
    FrameInUse,
}

/// A slot of the pool: the bytes of a page and what is known of them.
pub struct FrameHeader {
    pub frame_id: usize,
    pub page_id: Option<usize>,
    pub buf: Vec<u8>,
    pub pin_count: u32,
    pub dirty: bool,
}

/// A frame that was taken out of use, with the page that it held before.
pub struct FrameReservation {
    pub frame_id: usize,
    pub page_id: Option<usize>,
    pub reclaimed_page: Option<Vec<u8>>,
}

/// A frame to reuse: at once, or after the page in it was written to disk.
pub enum FrameChoice {
    Ready(FrameReservation),
    Flush { frame_id: usize, page_id: usize },
}

/// Which page sits in which frame, which frames are free, and what to evict next.
pub struct Meta {
    pub replacer: ArcReplacer,
    pub free_list: Vec<usize>,
    pub page_table: HashMap<usize, usize>,
}

impl FrameHeader {
    /// Forgets the page. Its bytes stay until others take their place.
    pub fn clear(&mut self)
        ensures
            *final(self) == (FrameHeader {
                dirty: false,
                pin_count: 0,
                page_id: None,
                ..*old(self)
            }),
    {
        self.dirty = false;
        self.pin_count = 0;
        self.page_id = None;
    }
}

/// The bytes of a page that is cleared.
pub open spec fn zero_page() -> Seq<u8> {
    Seq::new(PAGE_SIZE as nat, |j: int| 0u8)
}

/// The tracked pages sit in the first `n` frames.
pub open spec fn frames_below(v: ArcView, n: int) -> bool {
    forall|r: Resident| #[trigger] v.tracks(r) ==> r.frame < n
}

/// Where one of `n` frames is not tracked, fewer than `n` pages are.
proof fn lemma_spare_frame(v: ArcView, n: int, frame: usize)
    requires
        v.valid(),
        frames_below(v, n),
        frame < n,
        forall|r: Resident| #[trigger] v.tracks(r) ==> r.frame != frame,
    ensures
        v.resident().len() < n,
{
    let s = v.resident();
    let fs = s.map_values(|r: Resident| r.frame as int);
    assert forall|i: int, j: int| 0 <= i < fs.len() && 0 <= j < fs.len() && i != j implies fs[i]
        != fs[j] by {
        assert(v.tracks(s[i]) && v.tracks(s[j]));
        if s[i].frame == s[j].frame {
            v.law_one_page_per_frame(s[i], s[j]);
            let a = if i < j { i } else { j };
            let b = if i < j { j } else { i };
            assert(s[a].page != s[b].page);
        }
    }
    fs.unique_seq_to_set();
    let all = vstd::set_lib::set_int_range(0, n);
    vstd::set_lib::lemma_int_range(0, n);
    assert(fs.to_set().subset_of(all.remove(frame as int))) by {
        assert forall|x: int| fs.to_set().contains(x) implies all.remove(frame as int).contains(
            x,
        ) by {
            let i = choose|i: int| 0 <= i < fs.len() && fs[i] == x;
            assert(v.tracks(s[i]));
        }
    }
    vstd::set_lib::lemma_len_subset(fs.to_set(), all.remove(frame as int));
}

/// Tells the replacer that `page_id`, which sits in `frame_id`, is in use, and whether it may be
/// evicted.
fn track(
    replacer: &mut ArcReplacer,
    frame_id: usize,
    page_id: usize,
    evictable: bool,
    Ghost(n): Ghost<int>,
)
    requires
        old(replacer).wf(),
        frames_below(old(replacer)@, n),
        frame_id < n <= old(replacer)@.capacity,
        old(replacer)@.fits(frame_id, page_id),
    ensures
        final(replacer).wf(),
        final(replacer)@ == old(replacer)@.accessed(frame_id, page_id).marked(frame_id, evictable),
        final(replacer)@.capacity == old(replacer)@.capacity,
        forall|r: Resident| #[trigger]
            final(replacer)@.tracks(r) <==> if r.frame == frame_id {
                r == (Resident { page: page_id, frame: frame_id, evictable })
            } else {
                old(replacer)@.tracks(r)
            },
{
    let ghost v = replacer@;
    proof {
        replacer.lemma_valid();
        if !(exists|r: Resident| #[trigger] v.tracks(r) && r.page == page_id) {
            assert forall|r: Resident| #[trigger] v.tracks(r) implies r.frame != frame_id by {
                let i = choose|i: int| 0 <= i < v.resident().len() && v.resident()[i] == r;
                assert(v.resident()[i].frame == frame_id <==> v.resident()[i].page == page_id);
            }
            lemma_spare_frame(v, n, frame_id);
        }
        v.law_access(frame_id, page_id);
    }
    replacer.record_access(frame_id, page_id);
    let ghost w = replacer@;
    proof {
        w.law_mark(frame_id, evictable);
    }
    replacer.set_evictable(frame_id, evictable);
    proof {
        let e = choose|e: bool|
            #[trigger] w.tracks(Resident { page: page_id, frame: frame_id, evictable: e });
        let r0 = Resident { page: page_id, frame: frame_id, evictable };
        assert(Resident { evictable: e, ..r0 } == Resident {
            page: page_id,
            frame: frame_id,
            evictable: e,
        });
        assert(replacer@.tracks(r0));
        assert forall|r: Resident| #[trigger] replacer@.tracks(r) <==> if r.frame == frame_id {
            r == r0
        } else {
            v.tracks(r)
        } by {
            if replacer@.tracks(r) && r.frame == frame_id {
                let f = choose|f: bool| #[trigger] w.tracks(Resident { evictable: f, ..r });
                assert((Resident { evictable: f, ..r }).page == page_id);
            }
        }
    }
}

/// What decides which frame is given next: the free frames, and what the replacer knows of the
/// pages in the others.
#[verifier::ext_equal]
pub struct CacheView {
    pub free: Seq<usize>,
    pub replacer: ArcView,
}

impl CacheView {
    /// The frame that is given next, and the state once it was given: the free one that came
    /// last, and only where none is free the one that the replacer gives up.
    pub open spec fn taken(self) -> Option<(usize, CacheView)> {
        if self.free.len() > 0 {
            Some((self.free.last(), CacheView { free: self.free.drop_last(), ..self }))
        } else {
            match self.replacer.evicted() {
                Some((frame, after)) => Some((frame, CacheView { replacer: after, ..self })),
                None => None,
            }
        }
    }

    /// The state after one access to a page in a frame.
    pub open spec fn used(self, frame: usize, page: usize, evictable: bool) -> CacheView {
        CacheView { replacer: self.replacer.accessed(frame, page).marked(frame, evictable), ..self }
    }

    /// The state after the page in a frame may be evicted.
    pub open spec fn released(self, frame: usize) -> CacheView {
        CacheView { replacer: self.replacer.marked(frame, true), ..self }
    }

    /// The state after a frame that was taken is given back, to the page that was in it or to
    /// the free frames.
    pub open spec fn returned(self, frame: usize, page: Option<usize>) -> CacheView {
        match page {
            Some(p) => self.used(frame, p, true),
            None => CacheView { free: self.free.push(frame), ..self },
        }
    }
}

/// The frames of the pool, without the disk behind them. Where a page has to be read or
/// written, the caller does that and comes back with what happened.
pub struct FramePool {
    pub frames: Vec<FrameHeader>,
    pub meta: Meta,
    pub next_page_id: usize,
}

impl FramePool {
    /// Frames, page table, free list and replacer agree; the frame `reserved` is taken out of
    /// use and belongs to none of them.
    pub open spec fn wf_except(&self, reserved: Option<usize>) -> bool {
        let frames = self.frames@;
        let table = self.meta.page_table@;
        let free = self.meta.free_list@;
        let arc = self.meta.replacer@;
        &&& self.meta.replacer.wf()
        &&& frames.len() <= arc.capacity
        &&& forall|i: int|
            0 <= i < frames.len() ==> (#[trigger] frames[i]).frame_id == i && frames[i].buf@.len()
                == PAGE_SIZE
        &&& forall|p: usize| #[trigger]
            table.contains_key(p) ==> table[p] < frames.len() && frames[table[p] as int].page_id
                == Some(p)
        &&& forall|i: int|
            0 <= i < frames.len() && (#[trigger] frames[i]).page_id is Some ==> table.contains_key(
                frames[i].page_id->0,
            ) && table[frames[i].page_id->0] == i
        &&& free.no_duplicates()
        &&& forall|f: usize| #[trigger]
            free.contains(f) <==> f < frames.len() && frames[f as int].page_id is None && Some(f)
                != reserved
        &&& forall|r: Resident| #[trigger]
            arc.tracks(r) ==> r.frame < frames.len() && frames[r.frame as int].page_id == Some(
                r.page,
            ) && r.evictable == (frames[r.frame as int].pin_count == 0)
        &&& forall|i: int|
            0 <= i < frames.len() && (#[trigger] frames[i]).pin_count > 0 ==> frames[i].page_id
                is Some && arc.tracks(
                Resident { page: frames[i].page_id->0, frame: i as usize, evictable: false },
            )
        &&& (reserved matches Some(f) ==> f < frames.len() && frames[f as int].page_id is None)
    }

    pub open spec fn wf(&self) -> bool {
        self.wf_except(None)
    }

    /// The replacer knows of every page in the pool, but for the one in the frame `except`.
    pub open spec fn all_tracked(&self, except: Option<usize>) -> bool {
        forall|i: int|
            0 <= i < self.frames@.len() && (#[trigger] self.frames@[i]).page_id is Some && Some(
                i as usize,
            ) != except ==> self.meta.replacer@.tracks(
                Resident {
                    page: self.frames@[i].page_id->0,
                    frame: i as usize,
                    evictable: self.frames@[i].pin_count == 0,
                },
            )
    }

    /// The free frames and the state of the replacer.
    pub open spec fn cache(&self) -> CacheView {
        CacheView { free: self.meta.free_list@, replacer: self.meta.replacer@ }
    }

    pub open spec fn cached(&self, page_id: usize) -> bool {
        self.meta.page_table@.contains_key(page_id)
    }

    pub open spec fn frame_of(&self, page_id: usize) -> FrameHeader {
        self.frames@[self.meta.page_table@[page_id] as int]
    }

    /// How often a page is pinned.
    pub open spec fn pins(&self, page_id: usize) -> int {
        if self.cached(page_id) {
            self.frame_of(page_id).pin_count as int
        } else {
            0
        }
    }

    /// A frame can be had: one is free, or a page that nobody uses can give way.
    pub open spec fn has_frame(&self) -> bool {
        self.meta.free_list@.len() > 0 || exists|r: Resident| #[trigger]
            self.meta.replacer@.tracks(r) && r.evictable
    }

    /// A frame can be had, and every page can be pinned once more.
    pub open spec fn ready(&self) -> bool {
        &&& self.has_frame()
        &&& forall|i: int|
            0 <= i < self.frames@.len() ==> (#[trigger] self.frames@[i]).pin_count < u32::MAX
    }

    pub fn new(num_frames: usize, replacer: ArcReplacer) -> (res: Self)
        requires
            replacer.wf(),
            replacer@.resident().len() == 0,
            num_frames <= replacer@.capacity,
        ensures
            res.wf(),
            res.frames@.len() == num_frames,
            res.next_page_id == 0,
            res.meta.page_table@ == Map::<usize, usize>::empty(),
            res.all_tracked(None),
            res.cache() == (CacheView {
                free: Seq::new(num_frames as nat, |i: int| i as usize),
                replacer: replacer@,
            }),
            num_frames > 0 ==> res.ready(),
            forall|k: int|
                0 <= k < num_frames ==> (#[trigger] res.frames@[k]).buf@ == zero_page(),
    {
        let mut frames: Vec<FrameHeader> = Vec::with_capacity(num_frames);
        let mut free_list: Vec<usize> = Vec::with_capacity(num_frames);
        let mut i: usize = 0;
        while i < num_frames
            invariant
                i <= num_frames,
                frames@.len() == i,
                free_list@.len() == i,
                forall|k: int|
                    0 <= k < i ==> (#[trigger] frames@[k]).frame_id == k && frames@[k].page_id
                        is None && frames@[k].buf@.len() == PAGE_SIZE && frames@[k].pin_count == 0
                        && frames@[k].buf@ =~= zero_page(),
                forall|k: int| 0 <= k < i ==> #[trigger] free_list@[k] == k,
            decreases num_frames - i,
        {
            frames.push(
                FrameHeader {
                    frame_id: i,
                    page_id: None,
                    buf: vec![0u8; PAGE_SIZE],
                    pin_count: 0,
                    dirty: false,
                },
            );
            free_list.push(i);
            i = i + 1;
        }
        let res = FramePool {
            frames,
            meta: Meta { replacer, free_list, page_table: HashMap::new() },
            next_page_id: 0,
        };
        proof {
            assert forall|f: usize| #[trigger] res.meta.free_list@.contains(f) <==> f
                < res.frames@.len() by {
                if f < res.frames@.len() {
                    assert(res.meta.free_list@[f as int] == f);
                }
            }
            assert(res.meta.free_list@ =~= Seq::new(num_frames as nat, |i: int| i as usize));
        }
        res
    }

    /// Takes a frame to put another page in: a free one, else one whose page may be evicted.
    pub fn choose_frame(&mut self) -> (res: Result<FrameChoice, BpmError>)
        requires
            old(self).wf(),
        ensures
            final(self).frames@.len() == old(self).frames@.len(),
            final(self).next_page_id == old(self).next_page_id,
            match old(self).cache().taken() {
                Some((frame, after)) => {
                    &&& final(self).cache() == after
                    &&& match res {
                        Ok(FrameChoice::Ready(r)) => r.frame_id == frame && r.page_id == old(
                            self).frames@[frame as int].page_id,
                        Ok(FrameChoice::Flush { frame_id, page_id }) => frame_id == frame && Some(
                            page_id,
                        ) == old(self).frames@[frame as int].page_id,
                        Err(_) => false,
                    }
                },
                None => res is Err && final(self).cache() == old(self).cache(),
            },
            match res {
                Ok(FrameChoice::Ready(r)) => {
                    &&& old(self).has_frame()
                    &&& final(self).wf_except(Some(r.frame_id))
                    &&& old(self).all_tracked(None) ==> final(self).all_tracked(None)
                    &&& r.page_id is Some <==> r.reclaimed_page is Some
                    &&& match r.page_id {
                        Some(p) => {
                            &&& old(self).cached(p)
                            &&& old(self).pins(p) == 0
                            &&& !old(self).frame_of(p).dirty
                            &&& r.reclaimed_page->0@ == old(self).frame_of(p).buf@
                            &&& same_but(*old(self), *final(self), p)
                        },
                        None => final(self).meta.page_table@ == old(self).meta.page_table@,
                    }
                    &&& final(self).frames@[r.frame_id as int].buf@ == old(
                        self).frames@[r.frame_id as int].buf@
                    &&& forall|i: int|
                        0 <= i < old(self).frames@.len() && i != r.frame_id ==> #[trigger] final(
                            self).frames@[i] == old(self).frames@[i]
                },
                Ok(FrameChoice::Flush { frame_id, page_id }) => {
                    &&& old(self).has_frame()
                    &&& final(self).wf()
                    &&& final(self).frames@ == old(self).frames@
                    &&& final(self).meta.page_table@ == old(self).meta.page_table@
                    &&& final(self).flushing(frame_id, page_id)
                    &&& old(self).all_tracked(None) ==> final(self).all_tracked(Some(frame_id))
                },
                Err(e) => {
                    &&& e is NoFreeFrame
                    &&& !old(self).has_frame()
                    &&& final(self).wf()
                    &&& final(self).frames@ == old(self).frames@
                    &&& final(self).meta.page_table@ == old(self).meta.page_table@
                    &&& !final(self).has_frame()
                    &&& old(self).all_tracked(None) ==> final(self).all_tracked(None)
                },
            },
    {
        let ghost s0 = *self;
        match self.meta.free_list.pop() {
            Some(frame_id) => {
                proof {
                    let free = s0.meta.free_list@;
                    assert(free[free.len() - 1] == frame_id);
                    assert(free.contains(frame_id));
                    assert forall|f: usize| #[trigger]
                        self.meta.free_list@.contains(f) <==> free.contains(f) && f
                            != frame_id by {
                        if free.contains(f) && f != frame_id {
                            let k = choose|k: int| 0 <= k < free.len() && free[k] == f;
                            assert(self.meta.free_list@[k] == f);
                        }
                        if self.meta.free_list@.contains(f) {
                            let k = choose|k: int|
                                0 <= k < self.meta.free_list@.len() && self.meta.free_list@[k]
                                    == f;
                            assert(free[k] == f);
                        }
                    }
                }
                return Ok(
                    FrameChoice::Ready(
                        FrameReservation { frame_id, page_id: None, reclaimed_page: None },
                    ),
                );
            },
            None => {},
        }
        proof {
            self.meta.replacer.lemma_valid();
            self.meta.replacer@.law_evict();
        }
        let ghost arc = self.meta.replacer@;
        let frame_id: usize = match self.meta.replacer.evict() {
            Some(f) => f,
            None => { return Err(BpmError::NoFreeFrame); },
        };
        proof {
            let after = self.meta.replacer@;
            assert forall|i: int|
                0 <= i < self.frames@.len() && (#[trigger] self.frames@[i]).pin_count
                    > 0 implies after.tracks(
                Resident {
                    page: self.frames@[i].page_id->0,
                    frame: i as usize,
                    evictable: false,
                },
            ) by {
                let r = Resident {
                    page: self.frames@[i].page_id->0,
                    frame: i as usize,
                    evictable: false,
                };
                assert(arc.tracks(r));
                if i == frame_id {
                    let v = choose|v: Resident| #[trigger]
                        arc.tracks(v) && v.frame == frame_id && v.evictable;
                    assert(false);
                }
            }
        }
        if self.frames[frame_id].pin_count > 0 {
            return Err(BpmError::FrameInUse);
        }
        let page_id: usize = match self.frames[frame_id].page_id {
            Some(p) => p,
            None => {
                return Ok(
                    FrameChoice::Ready(
                        FrameReservation { frame_id, page_id: None, reclaimed_page: None },
                    ),
                );
            },
        };
        if self.frames[frame_id].dirty {
            return Ok(FrameChoice::Flush { frame_id, page_id });
        }
        Ok(FrameChoice::Ready(self.reclaim(frame_id, page_id)))
    }

    /// The page in a frame was given up by the replacer and waits to be written.
    pub open spec fn flushing(&self, frame_id: usize, page_id: usize) -> bool {
        &&& self.cached(page_id)
        &&& self.meta.page_table@[page_id] == frame_id
        &&& self.frame_of(page_id).dirty
        &&& self.frame_of(page_id).pin_count == 0
        &&& forall|r: Resident| #[trigger] self.meta.replacer@.tracks(r) ==> r.frame != frame_id
    }

    /// Takes a frame from the page in it.
    fn reclaim(&mut self, frame_id: usize, page_id: usize) -> (res: FrameReservation)
        requires
            old(self).wf(),
            old(self).cached(page_id),
            old(self).meta.page_table@[page_id] == frame_id,
            old(self).frame_of(page_id).pin_count == 0,
            forall|r: Resident| #[trigger]
                old(self).meta.replacer@.tracks(r) ==> r.frame != frame_id,
        ensures
            res.frame_id == frame_id,
            res.page_id == Some(page_id),
            res.reclaimed_page is Some,
            res.reclaimed_page->0@ == old(self).frame_of(page_id).buf@,
            final(self).wf_except(Some(frame_id)),
            same_but(*old(self), *final(self), page_id),
            final(self).frames@.len() == old(self).frames@.len(),
            final(self).next_page_id == old(self).next_page_id,
            final(self).meta.replacer@ == old(self).meta.replacer@,
            final(self).meta.free_list@ == old(self).meta.free_list@,
            final(self).frames@[frame_id as int].buf@ == old(self).frames@[frame_id as int].buf@,
            old(self).all_tracked(Some(frame_id)) ==> final(self).all_tracked(None),
            forall|i: int|
                0 <= i < old(self).frames@.len() && i != frame_id ==> #[trigger] final(
                    self).frames@[i] == old(self).frames@[i],
    {
        let ghost s0 = *self;
        let _mapping = self.meta.page_table.remove(&page_id);
        let buf = vstd::slice::slice_to_vec(self.frames[frame_id].buf.as_slice());
        let frame = &mut self.frames[frame_id];
        frame.clear();
        proof {
            assert forall|i: int|
                0 <= i < self.frames@.len() && (#[trigger] self.frames@[i]).page_id
                    is Some implies self.meta.page_table@.contains_key(self.frames@[i].page_id->0)
                && self.meta.page_table@[self.frames@[i].page_id->0] == i by {
                assert(s0.frames@[i].page_id is Some);
            }
            assert forall|f: usize| #[trigger]
                self.meta.free_list@.contains(f) <==> f < self.frames@.len()
                    && self.frames@[f as int].page_id is None && Some(f) != Some(frame_id) by {
                assert(s0.meta.free_list@.contains(f) <==> f < s0.frames@.len()
                    && s0.frames@[f as int].page_id is None);
            }
        }
        FrameReservation { frame_id, page_id: Some(page_id), reclaimed_page: Some(buf) }
    }
}

/// Both pools hold the same pages in the same frames but for page `p`, which only the first
/// one holds.
pub open spec fn same_but(a: FramePool, b: FramePool, p: usize) -> bool {
    &&& b.meta.page_table@ == a.meta.page_table@.remove(p)
    &&& a.cached(p)
    &&& forall|q: usize| #[trigger] b.cached(q) ==> b.frame_of(q) == a.frame_of(q)
}

/// The frame behind a reservation is out of use, and the page that was in it is not in the
/// pool.
pub open spec fn reserves(pool: FramePool, r: FrameReservation) -> bool {
    &&& pool.wf_except(Some(r.frame_id))
    &&& r.page_id is Some <==> r.reclaimed_page is Some
    &&& r.page_id matches Some(p) ==> !pool.cached(p) && r.reclaimed_page->0@.len() == PAGE_SIZE
}

/// `b` is `a` with page `p` in addition; all other pages are where they were.
pub open spec fn page_added(a: FramePool, b: FramePool, p: usize, frame_id: usize) -> bool {
    &&& b.meta.page_table@ == a.meta.page_table@.insert(p, frame_id)
    &&& b.frames@.len() == a.frames@.len()
    &&& forall|i: int|
        0 <= i < a.frames@.len() && i != frame_id ==> #[trigger] b.frames@[i] == a.frames@[i]
}

impl FramePool {
    /// Goes on after the page that stood in the way was written, or could not be.
    pub fn finish_flush(
        &mut self,
        frame_id: usize,
        page_id: usize,
        io: Result<(), IoError>,
    ) -> (res: Result<FrameReservation, BpmError>)
        requires
            old(self).wf(),
            old(self).flushing(frame_id, page_id),
        ensures
            match io {
                Ok(_) => {
                    &&& res matches Ok(r) && r.frame_id == frame_id && r.page_id == Some(page_id)
                        && r.reclaimed_page is Some && r.reclaimed_page->0@ == old(self).frame_of(
                        page_id,
                    ).buf@ && reserves(*final(self), r)
                    &&& same_but(*old(self), *final(self), page_id)
                    &&& final(self).frames@.len() == old(self).frames@.len()
                    &&& final(self).frames@[frame_id as int].buf@ == old(
                        self).frames@[frame_id as int].buf@
                    &&& forall|i: int|
                        0 <= i < old(self).frames@.len() && i != frame_id ==> #[trigger] final(
                            self).frames@[i] == old(self).frames@[i]
                },
                Err(e) => res == Err::<FrameReservation, BpmError>(BpmError::Io(e)) && *final(self)
                    == *old(self),
            },
            final(self).next_page_id == old(self).next_page_id,
            final(self).cache() == old(self).cache(),
            io is Ok && old(self).all_tracked(Some(frame_id)) ==> final(self).all_tracked(None),
    {
        match io {
            Ok(_) => Ok(self.reclaim(frame_id, page_id)),
            Err(e) => Err(BpmError::Io(e)),
        }
    }

    /// Puts a page into a reserved frame and marks it as in use by `pin_count` callers.
    fn place(&mut self, frame_id: usize, page_id: usize, buf: Vec<u8>, dirty: bool, pin_count: u32)
        requires
            old(self).wf_except(Some(frame_id)),
            !old(self).cached(page_id),
            buf@.len() == PAGE_SIZE,
        ensures
            final(self).wf(),
            page_added(*old(self), *final(self), page_id, frame_id),
            final(self).frames@[frame_id as int] == (FrameHeader {
                frame_id,
                page_id: Some(page_id),
                buf,
                pin_count,
                dirty,
            }),
            final(self).cache() == old(self).cache().used(frame_id, page_id, pin_count == 0),
            forall|r: Resident| #[trigger]
                final(self).meta.replacer@.tracks(r) <==> if r.frame == frame_id {
                    r == (Resident { page: page_id, frame: frame_id, evictable: pin_count == 0 })
                } else {
                    old(self).meta.replacer@.tracks(r)
                },
            final(self).next_page_id == old(self).next_page_id,
            old(self).all_tracked(None) ==> final(self).all_tracked(None),
    {
        let ghost s0 = *self;
        proof {
            let arc = s0.meta.replacer@;
            assert(arc.fits(frame_id, page_id)) by {
                assert forall|i: int| 0 <= i < arc.resident().len() implies (
                (#[trigger] arc.resident()[i]).frame == frame_id <==> arc.resident()[i].page
                    == page_id) by {
                    let r = arc.resident()[i];
                    assert(arc.tracks(r));
                    assert(s0.frames@[r.frame as int].page_id == Some(r.page));
                }
            }
        }
        self.frames.set(
            frame_id,
            FrameHeader { frame_id, page_id: Some(page_id), buf, pin_count, dirty },
        );
        let _old = self.meta.page_table.insert(page_id, frame_id);
        track(
            &mut self.meta.replacer,
            frame_id,
            page_id,
            pin_count == 0,
            Ghost(self.frames@.len() as int),
        );
        proof {
            assert forall|p: usize| #[trigger] self.meta.page_table@.contains_key(p) implies
                self.meta.page_table@[p] < self.frames@.len()
                && self.frames@[self.meta.page_table@[p] as int].page_id == Some(p) by {
                if p != page_id {
                    assert(s0.meta.page_table@.contains_key(p));
                }
            }
            assert forall|f: usize| #[trigger] self.meta.free_list@.contains(f) <==> f
                < self.frames@.len() && self.frames@[f as int].page_id is None by {
                assert(s0.meta.free_list@.contains(f) <==> f < s0.frames@.len()
                    && s0.frames@[f as int].page_id is None && Some(f) != Some(frame_id));
            }
            assert forall|r: Resident| #[trigger] self.meta.replacer@.tracks(r) implies r.frame
                < self.frames@.len() && self.frames@[r.frame as int].page_id == Some(r.page)
                && r.evictable == (self.frames@[r.frame as int].pin_count == 0) by {
                if r.frame != frame_id {
                    assert(s0.meta.replacer@.tracks(r));
                }
            }
            assert forall|i: int|
                0 <= i < self.frames@.len() && (#[trigger] self.frames@[i]).pin_count
                    > 0 implies self.frames@[i].page_id is Some && self.meta.replacer@.tracks(
                Resident {
                    page: self.frames@[i].page_id->0,
                    frame: i as usize,
                    evictable: false,
                },
            ) by {
                if i != frame_id {
                    assert(self.frames@[i] == s0.frames@[i]);
                }
            }
        }
    }

    /// Gives a reserved frame back: to the page that was in it, else to the free frames.
    pub fn restore_frame(&mut self, reservation: FrameReservation)
        requires
            reserves(*old(self), reservation),
        ensures
            final(self).wf(),
            final(self).next_page_id == old(self).next_page_id,
            final(self).has_frame(),
            old(self).all_tracked(None) ==> final(self).all_tracked(None),
            final(self).cache() == old(self).cache().returned(
                reservation.frame_id,
                reservation.page_id,
            ),
            match reservation.page_id {
                Some(p) => {
                    &&& page_added(*old(self), *final(self), p, reservation.frame_id)
                    &&& final(self).frames@[reservation.frame_id as int] == (FrameHeader {
                        frame_id: reservation.frame_id,
                        page_id: Some(p),
                        buf: reservation.reclaimed_page->0,
                        pin_count: 0,
                        dirty: false,
                    })
                },
                None => {
                    &&& final(self).meta.page_table@ == old(self).meta.page_table@
                    &&& final(self).frames@ == old(self).frames@
                },
            },
    {
        let ghost s0 = *self;
        let frame_id: usize = reservation.frame_id;
        let page_id: usize = match reservation.page_id {
            Some(p) => p,
            None => {
                self.meta.free_list.push(frame_id);
                proof {
                    let free = s0.meta.free_list@;
                    assert(!free.contains(frame_id));
                    assert forall|f: usize| #[trigger]
                        self.meta.free_list@.contains(f) <==> free.contains(f) || f
                            == frame_id by {
                        if free.contains(f) {
                            let k = choose|k: int| 0 <= k < free.len() && free[k] == f;
                            assert(self.meta.free_list@[k] == f);
                        }
                        if f == frame_id {
                            assert(self.meta.free_list@[free.len() as int] == f);
                        }
                    }
                    assert forall|i: int, j: int|
                        0 <= i < self.meta.free_list@.len() && 0 <= j < self.meta.free_list@.len()
                            && i != j implies self.meta.free_list@[i]
                        != self.meta.free_list@[j] by {
                        if i < free.len() && j < free.len() {
                        } else if i < free.len() {
                            assert(free.contains(free[i]));
                        } else {
                            assert(free.contains(free[j]));
                        }
                    }
                }
                return ;
            },
        };
        match reservation.reclaimed_page {
            Some(buf) => {
                self.place(frame_id, page_id, buf, false, 0);
                assert(self.meta.replacer@.tracks(
                    Resident { page: page_id, frame: frame_id, evictable: true },
                ));
            },
            None => {},
        }
    }

    /// Goes on after the page to bring in was read, or could not be: it sits in the reserved
    /// frame with one pin, or the frame is given back.
    pub fn install_page(
        &mut self,
        reservation: FrameReservation,
        page_id: usize,
        io: Result<Vec<u8>, IoError>,
        dirty: bool,
    ) -> (res: Result<usize, BpmError>)
        requires
            reserves(*old(self), reservation),
            !old(self).cached(page_id),
            io matches Ok(data) ==> data@.len() == PAGE_SIZE,
        ensures
            final(self).wf(),
            old(self).all_tracked(None) ==> final(self).all_tracked(None),
            final(self).next_page_id == old(self).next_page_id,
            match io {
                Ok(data) => {
                    &&& res == Ok::<usize, BpmError>(reservation.frame_id)
                    &&& final(self).cache() == old(self).cache().used(
                        reservation.frame_id,
                        page_id,
                        false,
                    )
                    &&& page_added(*old(self), *final(self), page_id, reservation.frame_id)
                    &&& final(self).frames@[reservation.frame_id as int] == (FrameHeader {
                        frame_id: reservation.frame_id,
                        page_id: Some(page_id),
                        buf: data,
                        pin_count: 1,
                        dirty,
                    })
                },
                Err(e) => {
                    &&& res == Err::<usize, BpmError>(BpmError::Io(e))
                    &&& final(self).has_frame()
                    &&& final(self).cache() == old(self).cache().returned(
                        reservation.frame_id,
                        reservation.page_id,
                    )
                    &&& match reservation.page_id {
                        Some(p) => {
                            &&& page_added(*old(self), *final(self), p, reservation.frame_id)
                            &&& final(self).frames@[reservation.frame_id as int] == (FrameHeader {
                                frame_id: reservation.frame_id,
                                page_id: Some(p),
                                buf: reservation.reclaimed_page->0,
                                pin_count: 0,
                                dirty: false,
                            })
                        },
                        None => final(self).meta.page_table@ == old(self).meta.page_table@
                            && final(self).frames@ == old(self).frames@,
                    }
                },
            },
    {
        match io {
            Ok(data) => {
                self.place(reservation.frame_id, page_id, data, dirty, 1);
                Ok(reservation.frame_id)
            },
            Err(e) => {
                self.restore_frame(reservation);
                Err(BpmError::Io(e))
            },
        }
    }

    fn get_next_page_id(&mut self) -> (res: usize)
        requires
            old(self).next_page_id < usize::MAX,
        ensures
            res == old(self).next_page_id,
            *final(self) == (FramePool { next_page_id: (res + 1) as usize, ..*old(self) }),
    {
        let id: usize = self.next_page_id;
        self.next_page_id = id + 1;
        id
    }

    /// Gives a reserved frame to a new page, which is dirty and has one pin. Its bytes are
    /// cleared.
    pub fn adopt_page(&mut self, reservation: FrameReservation) -> (res: usize)
        requires
            reserves(*old(self), reservation),
            old(self).next_page_id < usize::MAX,
            !old(self).cached(old(self).next_page_id),
        ensures
            res == old(self).next_page_id,
            final(self).wf(),
            old(self).all_tracked(None) ==> final(self).all_tracked(None),
            final(self).next_page_id == old(self).next_page_id + 1,
            final(self).cache() == old(self).cache().used(reservation.frame_id, res, false),
            page_added(*old(self), *final(self), res, reservation.frame_id),
            final(self).frames@[reservation.frame_id as int] == (FrameHeader {
                frame_id: reservation.frame_id,
                page_id: Some(res),
                buf: final(self).frames@[reservation.frame_id as int].buf,
                pin_count: 1,
                dirty: true,
            }),
            final(self).frames@[reservation.frame_id as int].buf@ == zero_page(),
    {
        let page_id: usize = self.get_next_page_id();
        let buf: Vec<u8> = vec![0u8; PAGE_SIZE];
        assert(buf@ =~= zero_page());
        self.place(reservation.frame_id, page_id, buf, true, 1);
        page_id
    }

    /// Pins a page that is in the pool; marks it dirty where it is to be written. `None` where
    /// it is not in the pool.
    pub fn pin_cached(&mut self, page_id: usize, write: bool) -> (res: Option<
        Result<usize, BpmError>,
    >)
        requires
            old(self).wf(),
        ensures
            final(self).wf(),
            old(self).all_tracked(None) ==> final(self).all_tracked(None),
            final(self).next_page_id == old(self).next_page_id,
            final(self).meta.page_table@ == old(self).meta.page_table@,
            final(self).meta.free_list@ == old(self).meta.free_list@,
            !old(self).cached(page_id) ==> res is None && *final(self) == *old(self),
            old(self).cached(page_id) && old(self).pins(page_id) == u32::MAX ==> res == Some(
                Err::<usize, BpmError>(BpmError::FramePinned),
            ) && *final(self) == *old(self),
            old(self).cached(page_id) && old(self).pins(page_id) < u32::MAX ==> {
                let f = old(self).meta.page_table@[page_id];
                &&& res == Some(Ok::<usize, BpmError>(f))
                &&& final(self).cache() == old(self).cache().used(f, page_id, false)
                &&& final(self).frames@ == old(self).frames@.update(
                    f as int,
                    FrameHeader {
                        pin_count: (old(self).frames@[f as int].pin_count + 1) as u32,
                        dirty: old(self).frames@[f as int].dirty || write,
                        ..old(self).frames@[f as int]
                    },
                )
                &&& forall|r: Resident| #[trigger]
                    final(self).meta.replacer@.tracks(r) <==> if r.frame == f {
                        r == (Resident { page: page_id, frame: f, evictable: false })
                    } else {
                        old(self).meta.replacer@.tracks(r)
                    }
            },
    {
        let ghost s0 = *self;
        let frame_id: usize = match self.meta.page_table.get(&page_id) {
            Some(f) => *f,
            None => { return None; },
        };
        if self.frames[frame_id].pin_count == u32::MAX {
            return Some(Err(BpmError::FramePinned));
        }
        proof {
            let arc = s0.meta.replacer@;
            assert(arc.fits(frame_id, page_id)) by {
                assert forall|i: int| 0 <= i < arc.resident().len() implies (
                (#[trigger] arc.resident()[i]).frame == frame_id <==> arc.resident()[i].page
                    == page_id) by {
                    let r = arc.resident()[i];
                    assert(arc.tracks(r));
                    assert(s0.frames@[r.frame as int].page_id == Some(r.page));
                    assert(s0.meta.page_table@.contains_key(r.page));
                }
            }
        }
        track(
            &mut self.meta.replacer,
            frame_id,
            page_id,
            false,
            Ghost(self.frames@.len() as int),
        );
        let frame = &mut self.frames[frame_id];
        frame.pin_count = frame.pin_count + 1;
        if write {
            frame.dirty = true;
        }
        proof {
            self.lemma_after_frame_change(s0, frame_id);
        }
        Some(Ok(frame_id))
    }

    /// Changing the pins, the mark or the bytes of one frame, together with its mark in the
    /// replacer, keeps the pool in order.
    proof fn lemma_after_frame_change(self, s0: FramePool, frame_id: usize)
        requires
            s0.wf(),
            frame_id < s0.frames@.len(),
            s0.frames@[frame_id as int].page_id is Some,
            self.frames@.len() == s0.frames@.len(),
            forall|i: int|
                0 <= i < s0.frames@.len() && i != frame_id ==> #[trigger] self.frames@[i]
                    == s0.frames@[i],
            self.frames@[frame_id as int].frame_id == frame_id,
            self.frames@[frame_id as int].page_id == s0.frames@[frame_id as int].page_id,
            self.frames@[frame_id as int].buf@.len() == PAGE_SIZE,
            self.meta.page_table@ == s0.meta.page_table@,
            self.meta.free_list@ == s0.meta.free_list@,
            self.meta.replacer.wf(),
            self.meta.replacer@.capacity == s0.meta.replacer@.capacity,
            forall|r: Resident| #[trigger]
                self.meta.replacer@.tracks(r) ==> if r.frame == frame_id {
                    r.page == s0.frames@[frame_id as int].page_id->0 && r.evictable == (
                    self.frames@[frame_id as int].pin_count == 0)
                } else {
                    s0.meta.replacer@.tracks(r)
                },
            forall|r: Resident|
                r.frame != frame_id && s0.meta.replacer@.tracks(r)
                    ==> #[trigger] self.meta.replacer@.tracks(r),
            self.frames@[frame_id as int].pin_count > 0 ==> self.meta.replacer@.tracks(
                Resident {
                    page: s0.frames@[frame_id as int].page_id->0,
                    frame: frame_id,
                    evictable: false,
                },
            ),
        ensures
            self.wf(),
    {
        assert forall|i: int|
            0 <= i < self.frames@.len() && (#[trigger] self.frames@[i]).pin_count
                > 0 implies self.frames@[i].page_id is Some && self.meta.replacer@.tracks(
            Resident { page: self.frames@[i].page_id->0, frame: i as usize, evictable: false },
        ) by {
            if i != frame_id {
                assert(self.frames@[i] == s0.frames@[i]);
            }
        }
        assert forall|i: int|
            0 <= i < self.frames@.len() && (#[trigger] self.frames@[i]).page_id
                is Some implies self.meta.page_table@.contains_key(self.frames@[i].page_id->0)
            && self.meta.page_table@[self.frames@[i].page_id->0] == i by {
            assert(s0.frames@[i].page_id == self.frames@[i].page_id);
        }
        assert forall|f: usize| #[trigger] self.meta.free_list@.contains(f) <==> f
            < self.frames@.len() && self.frames@[f as int].page_id is None by {
            if f < s0.frames@.len() {
                assert(s0.frames@[f as int].page_id == self.frames@[f as int].page_id);
            }
        }
    }

    /// Takes one pin from a frame. Without pins its page may be evicted.
    pub fn unpin(&mut self, frame_id: usize)
        requires
            old(self).wf(),
            frame_id < old(self).frames@.len(),
        ensures
            final(self).wf(),
            old(self).all_tracked(None) ==> final(self).all_tracked(None),
            final(self).next_page_id == old(self).next_page_id,
            final(self).meta.page_table@ == old(self).meta.page_table@,
            final(self).meta.free_list@ == old(self).meta.free_list@,
            ({
                let frame = old(self).frames@[frame_id as int];
                if frame.pin_count == 0 {
                    *final(self) == *old(self)
                } else {
                    &&& final(self).frames@ == old(self).frames@.update(
                        frame_id as int,
                        FrameHeader { pin_count: (frame.pin_count - 1) as u32, ..frame },
                    )
                    &&& final(self).cache() == if frame.pin_count == 1 {
                        old(self).cache().released(frame_id)
                    } else {
                        old(self).cache()
                    }
                    &&& forall|r: Resident| #[trigger]
                        final(self).meta.replacer@.tracks(r) <==> if r.frame == frame_id {
                            r == (Resident {
                                page: frame.page_id->0,
                                frame: frame_id,
                                evictable: frame.pin_count == 1,
                            })
                        } else {
                            old(self).meta.replacer@.tracks(r)
                        }
                }
            }),
    {
        let ghost s0 = *self;
        let current: u32 = self.frames[frame_id].pin_count;
        if current == 0 {
            return ;
        }
        let ghost arc = s0.meta.replacer@;
        let ghost page = s0.frames@[frame_id as int].page_id->0;
        let ghost pinned = Resident { page, frame: frame_id, evictable: false };
        assert(arc.tracks(pinned));
        proof {
            self.meta.replacer.lemma_valid();
            arc.law_mark(frame_id, true);
            assert forall|r: Resident| #[trigger] arc.tracks(r) && r.frame == frame_id implies r
                == pinned by {
                arc.law_one_page_per_frame(r, pinned);
            }
        }
        let frame = &mut self.frames[frame_id];
        frame.pin_count = current - 1;
        if current == 1 {
            self.meta.replacer.set_evictable(frame_id, true);
            proof {
                let free = Resident { page, frame: frame_id, evictable: true };
                assert(Resident { evictable: false, ..free } == pinned);
                assert(self.meta.replacer@.tracks(free));
                assert forall|r: Resident| #[trigger]
                    self.meta.replacer@.tracks(r) <==> if r.frame == frame_id {
                        r == free
                    } else {
                        arc.tracks(r)
                    } by {
                    if self.meta.replacer@.tracks(r) && r.frame == frame_id {
                        let e = choose|e: bool| #[trigger]
                            arc.tracks(Resident { evictable: e, ..r });
                        assert(Resident { evictable: e, ..r } == pinned);
                    }
                }
            }
        }
        proof {
            self.lemma_after_frame_change(s0, frame_id);
        }
    }
}

/// A pin on a page for reading. It is given back with `unpin_read`.
#[derive(Debug)]
pub struct PageRef {
    pub frame_id: usize,
    pub page_id: usize,
}

impl PageRef {
    pub fn frame_id(&self) -> (res: usize)
        ensures
            res == self.frame_id,
    {
        self.frame_id
    }

    pub fn page_id(&self) -> (res: Option<usize>)
        ensures
            res == Some(self.page_id),
    {
        Some(self.page_id)
    }
}

/// A pin on a page for writing. It is given back with `unpin_write`.
#[derive(Debug)]
pub struct PageMut {
    pub frame_id: usize,
    pub page_id: usize,
}

impl PageMut {
    pub fn frame_id(&self) -> (res: usize)
        ensures
            res == self.frame_id,
    {
        self.frame_id
    }

    pub fn page_id(&self) -> (res: Option<usize>)
        ensures
            res == Some(self.page_id),
    {
        Some(self.page_id)
    }
}

/// The buffer pool: pages of the database file, some of them in memory.
pub struct BufferPoolManager {
    pool: FramePool,
    disk: DiskManager,
}

impl BufferPoolManager {
    /// Pool and disk are in order, and a page in memory that is not marked dirty is on disk as
    /// it is in memory.
    pub closed spec fn wf(&self) -> bool {
        &&& self.pool.wf()
        &&& self.disk.wf()
        &&& self.synced()
        &&& self.pool.all_tracked(None)
    }

    spec fn synced(&self) -> bool {
        forall|p: usize| #[trigger]
            self.pool.cached(p) && !self.pool.frame_of(p).dirty ==> self.disk.pages().contains_key(
                p,
            ) && self.disk.pages()[p] == self.pool.frame_of(p).buf@
    }

    /// Every page, with its bytes as the callers see them.
    pub closed spec fn pages(&self) -> Map<usize, Seq<u8>> {
        Map::new(
            |p: usize| self.pool.cached(p) || self.disk.pages().contains_key(p),
            |p: usize|
                if self.pool.cached(p) {
                    self.pool.frame_of(p).buf@
                } else {
                    self.disk.pages()[p]
                },
        )
    }

    /// The pages on disk.
    pub closed spec fn on_disk(&self) -> Map<usize, Seq<u8>> {
        self.disk.pages()
    }

    pub closed spec fn cached(&self, page_id: usize) -> bool {
        self.pool.cached(page_id)
    }

    /// The frame that holds a page.
    pub closed spec fn frame(&self, page_id: usize) -> usize {
        self.pool.meta.page_table@[page_id]
    }

    /// The page that a frame holds.
    pub closed spec fn page_in(&self, frame: usize) -> Option<usize> {
        self.pool.frames@[frame as int].page_id
    }

    /// The bytes in a frame, whether a page is in it or not.
    pub closed spec fn frame_bytes(&self, frame: usize) -> Seq<u8> {
        self.pool.frames@[frame as int].buf@
    }

    /// The free frames and the state of the replacer.
    pub closed spec fn cache(&self) -> CacheView {
        self.pool.cache()
    }

    /// The frame in which a page sits once it is pinned.
    pub open spec fn frame_to_pin(&self, page_id: usize) -> usize {
        if self.cached(page_id) {
            self.frame(page_id)
        } else {
            (self.cache().taken()->0).0
        }
    }

    /// The free frames and the state of the replacer after a page was to be pinned. One that is
    /// in memory counts as accessed. Another one takes a frame, which is given back where there
    /// is no such page.
    pub open spec fn cache_after_pin(&self, page_id: usize) -> CacheView {
        if self.cached(page_id) {
            if self.pins(page_id) < u32::MAX {
                self.cache().used(self.frame(page_id), page_id, false)
            } else {
                self.cache()
            }
        } else {
            match self.cache().taken() {
                Some((frame, after)) => if self.pages().contains_key(page_id) {
                    after.used(frame, page_id, false)
                } else {
                    after.returned(frame, self.page_in(frame))
                },
                None => self.cache(),
            }
        }
    }

    /// The free frames and the state of the replacer after a page was pinned, where it can be,
    /// and given back at once.
    pub open spec fn cache_after_visit(&self, page_id: usize) -> CacheView {
        if can_pin(self, page_id) && self.pins(page_id) == 0 {
            self.cache_after_pin(page_id).released(self.frame_to_pin(page_id))
        } else {
            self.cache_after_pin(page_id)
        }
    }

    /// The free frames and the state of the replacer after a page was created, where one can be,
    /// and given back at once.
    pub open spec fn cache_after_creation(&self) -> CacheView {
        match self.cache().taken() {
            Some((frame, after)) => if self.next_page_id() < usize::MAX {
                after.used(frame, self.next_page_id(), false).released(frame)
            } else {
                self.cache()
            },
            None => self.cache(),
        }
    }

    /// The pages that are in memory, and the frames that hold them, once the next frame was
    /// taken: the page in it has left.
    pub open spec fn stays_in(&self, page_id: usize) -> bool {
        self.cached(page_id) && !(self.cache().taken() matches Some((frame, _)) && self.frame(
            page_id,
        ) == frame)
    }

    /// The pages on disk once the next frame was taken: a page in it that is dirty is written.
    pub open spec fn on_disk_after_take(&self) -> Map<usize, Seq<u8>> {
        match self.cache().taken() {
            Some((frame, _)) => match self.page_in(frame) {
                Some(p) => if self.dirty(p) {
                    self.on_disk().insert(p, self.pages()[p])
                } else {
                    self.on_disk()
                },
                None => self.on_disk(),
            },
            None => self.on_disk(),
        }
    }

    pub closed spec fn num_frames(&self) -> nat {
        self.pool.frames@.len()
    }

    /// How often a page is pinned.
    pub closed spec fn pins(&self, page_id: usize) -> int {
        self.pool.pins(page_id)
    }

    /// A page that is not in memory can be brought in.
    pub closed spec fn has_frame(&self) -> bool {
        self.pool.has_frame()
    }

    /// One pin more can be counted on every page.
    pub open spec fn pins_countable(&self) -> bool {
        forall|p: usize| #[trigger] self.pins(p) < u32::MAX
    }

    /// Any page can be pinned once more.
    pub open spec fn ready(&self) -> bool {
        self.has_frame() && self.pins_countable()
    }

    /// The id of the page that is created next.
    pub closed spec fn next_page_id(&self) -> usize {
        self.pool.next_page_id
    }

    /// No page has an id that is still to be given out.
    pub open spec fn ids_fresh(&self) -> bool {
        forall|p: usize| #[trigger] self.pages().contains_key(p) ==> p < self.next_page_id()
    }

    /// Two states in which callers see the same pages with the same pins.
    pub open spec fn same_pages(&self, other: &Self) -> bool {
        &&& self.pages() == other.pages()
        &&& self.next_page_id() == other.next_page_id()
        &&& self.num_frames() == other.num_frames()
        &&& forall|p: usize| #[trigger] self.pins(p) == other.pins(p)
    }

    /// A frame can be had exactly where one of them holds no page with pins.
    pub proof fn law_has_frame(&self)
        requires
            self.wf(),
        ensures
            self.has_frame() <==> exists|f: usize| #[trigger] self.unpinned(f),
    {
        let pool = self.pool;
        if self.has_frame() {
            if pool.meta.free_list@.len() > 0 {
                let f = pool.meta.free_list@[0];
                assert(pool.meta.free_list@.contains(f));
                assert(self.unpinned(f));
            } else {
                let r = choose|r: Resident| #[trigger]
                    pool.meta.replacer@.tracks(r) && r.evictable;
                assert(self.unpinned(r.frame));
            }
        }
        if exists|f: usize| #[trigger] self.unpinned(f) {
            let f = choose|f: usize| #[trigger] self.unpinned(f);
            if pool.frames@[f as int].page_id is None {
                assert(pool.meta.free_list@.contains(f));
            } else {
                let p = pool.frames@[f as int].page_id->0;
                assert(pool.cached(p) && pool.meta.page_table@[p] == f);
                assert(self.cached(p) && self.frame(p) == f);
                assert(self.pins(p) == 0);
                assert(pool.meta.replacer@.tracks(
                    Resident { page: p, frame: f, evictable: true },
                ));
            }
        }
    }

    /// A frame can be had exactly where one is free or the replacer gives one up.
    pub proof fn law_frame_taken(&self)
        requires
            self.wf(),
        ensures
            self.has_frame() <==> self.cache().taken() is Some,
            self.cache().taken() matches Some((frame, _)) ==> frame < self.num_frames(),
            forall|f: usize, p: usize|
                f < self.num_frames() ==> ((#[trigger] self.page_in(f)) == Some(p) <==> (
                #[trigger] self.cached(p)) && self.frame(p) == f),
    {
        let pool = self.pool;
        pool.meta.replacer.lemma_valid();
        pool.meta.replacer@.law_evict();
        if pool.meta.free_list@.len() > 0 {
            let f = pool.meta.free_list@.last();
            assert(pool.meta.free_list@.contains(f));
        }
        assert forall|f: usize, p: usize| f < self.num_frames() implies ((#[trigger] self.page_in(
            f,
        )) == Some(p) <==> (#[trigger] self.cached(p)) && self.frame(p) == f) by {
            if self.page_in(f) == Some(p) {
                assert(pool.frames@[f as int].page_id is Some);
            }
            if self.cached(p) && self.frame(p) == f {
                assert(pool.meta.page_table@.contains_key(p));
            }
        }
    }

    /// Frame `f` holds no page with pins.
    pub open spec fn unpinned(&self, f: usize) -> bool {
        &&& f < self.num_frames()
        &&& forall|p: usize| #[trigger] self.cached(p) && self.frame(p) == f ==> self.pins(p) == 0
    }

    /// Where the pins are the same and pinned pages stay in their frames, a frame can be had as
    /// before.
    proof fn lemma_frame_kept(&self, s0: Self)
        requires
            s0.wf(),
            self.wf(),
            self.num_frames() == s0.num_frames(),
            forall|p: usize| #[trigger] self.pins(p) == s0.pins(p),
            forall|q: usize| #[trigger]
                s0.pins(q) > 0 ==> self.cached(q) && self.frame(q) == s0.frame(q),
        ensures
            s0.has_frame() ==> self.has_frame(),
    {
        s0.law_has_frame();
        self.law_has_frame();
        if s0.has_frame() {
            let f = choose|f: usize| #[trigger] s0.unpinned(f);
            assert forall|p: usize| #[trigger] self.cached(p) && self.frame(p) == f implies
                self.pins(p) == 0 by {
                assert(self.pins(p) == s0.pins(p));
                if s0.pins(p) > 0 {
                    assert(s0.cached(p));
                }
            }
            assert(self.unpinned(f));
        }
    }

    /// Where nobody holds a page, every page can be read and a page can be created. What a read
    /// of any other id gives is that it is missing.
    pub proof fn law_idle_pool(&self, page_id: usize, e: BpmError)
        requires
            self.wf(),
            self.num_frames() > 0,
            forall|p: usize| #[trigger] self.pins(p) == 0,
        ensures
            self.ready(),
            can_pin(self, page_id) <==> self.pages().contains_key(page_id),
            !self.pages().contains_key(page_id) && pin_error(self, page_id, e) ==> (
            e matches BpmError::Io(io) && is_missing(io, page_id)),
    {
        self.law_has_frame();
        assert(self.unpinned(0));
    }

    /// A page is in memory or on disk. In memory it is what stands in its frame; where it is not
    /// dirty, the same bytes are on disk.
    pub proof fn law_page_bytes(&self, p: usize)
        requires
            self.wf(),
        ensures
            self.pages().contains_key(p) <==> self.cached(p) || self.on_disk().contains_key(p),
            self.cached(p) ==> self.frame(p) < self.num_frames() && self.pages()[p]
                == self.frame_bytes(self.frame(p)),
            self.cached(p) && !self.dirty(p) ==> self.on_disk().contains_key(p)
                && self.on_disk()[p] == self.pages()[p],
            !self.cached(p) && self.on_disk().contains_key(p) ==> self.pages()[p]
                == self.on_disk()[p],
    {
    }

    /// Every page has the size of a page.
    pub proof fn law_page_size(&self, p: usize)
        requires
            self.wf(),
            self.pages().contains_key(p),
        ensures
            self.pages()[p].len() == PAGE_SIZE,
    {
        if self.pool.cached(p) {
            assert(self.pool.frames@[self.pool.meta.page_table@[p] as int].buf@.len()
                == PAGE_SIZE);
        } else {
            self.disk.lemma_page_len(p);
        }
    }

    /// A page with pins is in memory.
    pub proof fn law_pinned_is_cached(&self, p: usize)
        requires
            self.pins(p) > 0,
        ensures
            self.cached(p),
    {
    }

    /// No frame holds two pages.
    pub proof fn law_frames_distinct(&self, p: usize, q: usize)
        requires
            self.wf(),
            self.cached(p),
            self.cached(q),
            self.frame(p) == self.frame(q),
        ensures
            p == q,
            self.frame(p) < self.num_frames(),
    {
    }

    pub fn new(num_frames: usize, replacer: ArcReplacer, disk: DiskManager) -> (res: Self)
        requires
            replacer.wf(),
            replacer@.resident().len() == 0,
            num_frames <= replacer@.capacity,
            disk.wf(),
        ensures
            res.wf(),
            res.pages() == disk.pages(),
            res.on_disk() == disk.pages(),
            res.next_page_id() == 0,
            res.num_frames() == num_frames,
            res.cache() == (CacheView {
                free: Seq::new(num_frames as nat, |i: int| i as usize),
                replacer: replacer@,
            }),
            forall|p: usize| !#[trigger] res.cached(p),
            forall|p: usize| #[trigger] res.pins(p) == 0,
            forall|f: usize|
                f < num_frames ==> #[trigger] res.frame_bytes(f) == zero_page(),
            num_frames > 0 ==> res.ready(),
    {
        let res = BufferPoolManager { pool: FramePool::new(num_frames, replacer), disk };
        assert(res.pages() =~= disk.pages());
        res
    }

    /// Whether a page that is not in memory can be brought in.
    pub fn frame_available(&self) -> (res: bool)
        requires
            self.wf(),
        ensures
            res == self.has_frame(),
    {
        proof {
            let v = self.pool.meta.replacer@;
            lemma_some_evictable(v.resident());
            if evictable_count(v.resident()) > 0 {
                let r = choose|r: Resident| #[trigger] v.resident().contains(r) && r.evictable;
                assert(v.tracks(r));
            }
        }
        self.pool.meta.free_list.len() > 0 || self.pool.meta.replacer.size() > 0
    }

    /// Whether a page can be pinned.
    pub fn can_read(&self, page_id: usize) -> (res: bool)
        requires
            self.wf(),
        ensures
            res == can_pin(self, page_id),
    {
        match self.pool.meta.page_table.get(&page_id) {
            Some(f) => self.pool.frames[*f].pin_count < u32::MAX,
            None => self.frame_available() && self.disk.read_page(page_id).is_ok(),
        }
    }

    /// The id of the page that is created next.
    pub fn next_id(&self) -> (res: usize)
        ensures
            res == self.next_page_id(),
    {
        self.pool.next_page_id
    }

    /// The disk behind the pool.
    pub fn disk(&self) -> (res: &DiskManager)
        requires
            self.wf(),
        ensures
            res.wf(),
            res.pages() == self.on_disk(),
    {
        &self.disk
    }

    /// Takes a frame out of use, writing the page in it to disk first where it is dirty.
    fn get_free_frame(&mut self) -> (res: Result<FrameReservation, BpmError>)
        requires
            old(self).wf(),
        ensures
            final(self).disk.wf(),
            final(self).synced(),
            final(self).pool.all_tracked(None),
            final(self).pages() == old(self).pages(),
            final(self).pool.next_page_id == old(self).pool.next_page_id,
            final(self).pool.frames@.len() == old(self).pool.frames@.len(),
            match old(self).cache().taken() {
                Some((frame, after)) => {
                    &&& res matches Ok(r) && r.frame_id == frame && r.page_id == old(
                        self,
                    ).page_in(frame)
                    &&& final(self).cache() == after
                },
                None => res is Err && final(self).cache() == old(self).cache(),
            },
            final(self).on_disk() == old(self).on_disk_after_take(),
            forall|p: usize| #[trigger] final(self).cached(p) <==> old(self).stays_in(p),
            forall|p: usize| #[trigger] final(self).pins(p) == old(self).pins(p),
            forall|p: usize| #[trigger] final(self).pool.cached(p) ==> old(self).pool.cached(p)
                && final(self).pool.meta.page_table@[p] == old(self).pool.meta.page_table@[p],
            match res {
                Ok(r) => {
                    &&& old(self).has_frame()
                    &&& reserves(final(self).pool, r)
                    &&& r.page_id matches Some(p) ==> final(self).disk.pages().contains_key(p)
                        && final(self).disk.pages()[p] == r.reclaimed_page->0@ && old(self).pins(p)
                        == 0
                    &&& forall|i: int|
                        0 <= i < old(self).pool.frames@.len() && i != r.frame_id
                            ==> #[trigger] final(self).pool.frames@[i] == old(self).pool.frames@[i]
                    &&& final(self).pool.frames@[r.frame_id as int].pin_count == 0
                    &&& final(self).frame_bytes(r.frame_id) == old(self).frame_bytes(r.frame_id)
                },
                Err(e) => {
                    &&& e is NoFreeFrame
                    &&& !old(self).has_frame()
                    &&& final(self).pool.wf()
                    &&& final(self).disk.pages() == old(self).disk.pages()
                    &&& final(self).pool.frames@ == old(self).pool.frames@
                    &&& final(self).pool.meta.page_table@ == old(self).pool.meta.page_table@
                },
            },
    {
        let ghost s0 = *self;
        match self.pool.choose_frame() {
            Ok(FrameChoice::Ready(r)) => {
                proof {
                    self.lemma_reclaimed(s0, r);
                }
                Ok(r)
            },
            Ok(FrameChoice::Flush { frame_id, page_id }) => {
                let ghost s1 = *self;
                assert(self.pool.frames@[frame_id as int].buf@.len() == PAGE_SIZE);
                let io = self.disk.write_page(page_id, self.pool.frames[frame_id].buf.as_slice());
                let ghost s2 = *self;
                assert(s2.pages() =~= s0.pages()) by {
                    assert forall|p: usize| s0.pages().contains_key(p) implies s2.pages()[p]
                        == s0.pages()[p] by {
                        if s0.pool.cached(p) {
                            assert(s2.pool.frame_of(p) == s0.pool.frame_of(p));
                        }
                    }
                }
                proof {
                    s2.lemma_synced_by(s0, page_id);
                }
                let res = self.pool.finish_flush(frame_id, page_id, io);
                proof {
                    if res is Ok {
                        self.lemma_flushed(s2, res->Ok_0);
                    }
                }
                res
            },
            Err(e) => {
                proof {
                    assert(self.pages() =~= s0.pages());
                    assert forall|p: usize| #[trigger] self.pins(p) == s0.pins(p) by {}
                    self.lemma_synced_as(s0);
                }
                Err(e)
            },
        }
    }

    proof fn lemma_synced_as(&self, s0: Self)
        requires
            s0.synced(),
            self.pool.frames@ == s0.pool.frames@,
            self.pool.meta.page_table@ == s0.pool.meta.page_table@,
            self.disk.pages() == s0.disk.pages(),
        ensures
            self.synced(),
    {
        assert forall|p: usize| #[trigger]
            self.pool.cached(p) && !self.pool.frame_of(p).dirty implies
            self.disk.pages().contains_key(p) && self.disk.pages()[p] == self.pool.frame_of(
            p,
        ).buf@ by {
            assert(s0.pool.cached(p));
        }
    }

    /// Writing a page from its frame leaves the other pages as they are on disk.
    proof fn lemma_synced_by(&self, s0: Self, page_id: usize)
        requires
            s0.synced(),
            self.pool.frames@ == s0.pool.frames@,
            self.pool.meta.page_table@ == s0.pool.meta.page_table@,
            s0.pool.cached(page_id),
            self.disk.pages() == s0.disk.pages().insert(page_id, s0.pool.frame_of(page_id).buf@),
        ensures
            self.synced(),
            self.disk.pages().contains_key(page_id),
            self.disk.pages()[page_id] == self.pool.frame_of(page_id).buf@,
    {
        assert forall|p: usize| #[trigger]
            self.pool.cached(p) && !self.pool.frame_of(p).dirty implies
            self.disk.pages().contains_key(p) && self.disk.pages()[p] == self.pool.frame_of(
            p,
        ).buf@ by {
            assert(s0.pool.cached(p));
        }
    }

    /// Taking a frame from a page that is on disk as well changes no page.
    proof fn lemma_flushed(&self, s0: Self, r: FrameReservation)
        requires
            s0.pool.wf(),
            s0.disk.wf(),
            r.page_id is Some,
            r.reclaimed_page is Some,
            reserves(self.pool, r),
            s0.disk.pages().contains_key(r.page_id->0),
            s0.disk.pages()[r.page_id->0] == s0.pool.frame_of(r.page_id->0).buf@,
            s0.pool.frame_of(r.page_id->0).pin_count == 0,
            r.reclaimed_page->0@ == s0.pool.frame_of(r.page_id->0).buf@,
            same_but(s0.pool, self.pool, r.page_id->0),
            self.disk == s0.disk,
            forall|p: usize| #[trigger]
                s0.pool.cached(p) && p != r.page_id->0 && !s0.pool.frame_of(p).dirty
                    ==> s0.disk.pages().contains_key(p) && s0.disk.pages()[p] == s0.pool.frame_of(
                    p,
                ).buf@,
        ensures
            self.synced(),
            self.pages() == s0.pages(),
            forall|p: usize| #[trigger] self.pins(p) == s0.pins(p),
            self.disk.wf(),
    {
        let gone = r.page_id->0;
        assert forall|p: usize| #[trigger] self.pins(p) == s0.pins(p) by {
            if self.pool.cached(p) {
                assert(self.pool.frame_of(p) == s0.pool.frame_of(p));
            } else if s0.pool.cached(p) {
                assert(p == gone);
            }
        }
        assert(self.pages() =~= s0.pages()) by {
            assert forall|p: usize| s0.pages().contains_key(p) implies self.pages()[p]
                == s0.pages()[p] by {
                if self.pool.cached(p) {
                    assert(self.pool.frame_of(p) == s0.pool.frame_of(p));
                }
            }
        }
        assert forall|p: usize| #[trigger]
            self.pool.cached(p) && !self.pool.frame_of(p).dirty implies
            self.disk.pages().contains_key(p) && self.disk.pages()[p] == self.pool.frame_of(
            p,
        ).buf@ by {
            assert(self.pool.frame_of(p) == s0.pool.frame_of(p));
            assert(s0.pool.cached(p));
        }
    }

    proof fn lemma_reclaimed(&self, s0: Self, r: FrameReservation)
        requires
            s0.wf(),
            self.pool.wf_except(Some(r.frame_id)),
            self.disk == s0.disk,
            r.page_id is Some <==> r.reclaimed_page is Some,
            self.pool.frames@.len() == s0.pool.frames@.len(),
            forall|i: int|
                0 <= i < s0.pool.frames@.len() && i != r.frame_id ==> #[trigger] self.pool.frames@[i]
                    == s0.pool.frames@[i],
            match r.page_id {
                Some(p) => {
                    &&& s0.pool.cached(p)
                    &&& s0.pool.pins(p) == 0
                    &&& !s0.pool.frame_of(p).dirty
                    &&& r.reclaimed_page->0@ == s0.pool.frame_of(p).buf@
                    &&& same_but(s0.pool, self.pool, p)
                },
                None => self.pool.meta.page_table@ == s0.pool.meta.page_table@,
            },
        ensures
            self.synced(),
            self.pages() == s0.pages(),
            forall|p: usize| #[trigger] self.pins(p) == s0.pins(p),
            reserves(self.pool, r),
            r.page_id matches Some(p) ==> self.disk.pages().contains_key(p)
                && self.disk.pages()[p] == r.reclaimed_page->0@,
            self.pool.frames@[r.frame_id as int].pin_count == 0,
    {
        match r.page_id {
            Some(p) => {
                assert(s0.pool.cached(p));
                assert(s0.pool.frames@[s0.pool.meta.page_table@[p] as int].buf@.len()
                    == PAGE_SIZE);
                self.lemma_flushed(s0, r);
            },
            None => {
                assert forall|p: usize| #[trigger] self.pool.cached(p) implies self.pool.frame_of(p)
                    == s0.pool.frame_of(p) by {
                    let f = self.pool.meta.page_table@[p];
                    assert(self.pool.frames@[f as int].page_id == Some(p));
                    assert(f != r.frame_id);
                }
                assert forall|p: usize| #[trigger] self.pins(p) == s0.pins(p) by {
                    if self.pool.cached(p) {
                        assert(self.pool.frame_of(p) == s0.pool.frame_of(p));
                    }
                }
                assert(self.pages() =~= s0.pages()) by {
                    assert forall|p: usize| s0.pages().contains_key(p) implies self.pages()[p]
                        == s0.pages()[p] by {
                        if self.pool.cached(p) {
                            assert(self.pool.frame_of(p) == s0.pool.frame_of(p));
                        }
                    }
                }
                assert forall|p: usize| #[trigger]
                    self.pool.cached(p) && !self.pool.frame_of(p).dirty implies
                    self.disk.pages().contains_key(p) && self.disk.pages()[p]
                    == self.pool.frame_of(p).buf@ by {
                    assert(self.pool.frame_of(p) == s0.pool.frame_of(p));
                    assert(s0.pool.cached(p));
                }
            },
        }
    }
}

impl BufferPoolManager {
    /// Putting a page that is on disk into the reserved frame changes no page.
    proof fn lemma_loaded(&self, s0: Self, p: usize, frame_id: usize)
        requires
            s0.pool.wf_except(Some(frame_id)),
            s0.synced(),
            s0.disk.wf(),
            self.pool.all_tracked(None),
            !s0.pool.cached(p),
            s0.disk.pages().contains_key(p),
            self.pool.wf(),
            self.disk == s0.disk,
            page_added(s0.pool, self.pool, p, frame_id),
            self.pool.frames@[frame_id as int].buf@ == s0.disk.pages()[p],
        ensures
            self.wf(),
            self.pages() == s0.pages(),
            forall|q: usize| q != p ==> #[trigger] self.pins(q) == s0.pins(q),
    {
        assert forall|q: usize| #[trigger] self.pool.cached(q) && q != p implies s0.pool.cached(q)
            && self.pool.frame_of(q) == s0.pool.frame_of(q) by {
            assert(s0.pool.cached(q));
            let f = s0.pool.meta.page_table@[q];
            assert(s0.pool.frames@[f as int].page_id == Some(q));
            assert(f != frame_id);
        }
        assert forall|q: usize| q != p implies #[trigger] self.pins(q) == s0.pins(q) by {
            if self.pool.cached(q) {
                assert(self.pool.frame_of(q) == s0.pool.frame_of(q));
            } else {
                assert(!s0.pool.cached(q));
            }
        }
        assert(self.pages() =~= s0.pages()) by {
            assert forall|q: usize| s0.pages().contains_key(q) implies self.pages()[q]
                == s0.pages()[q] by {
                if self.pool.cached(q) && q != p {
                    assert(self.pool.frame_of(q) == s0.pool.frame_of(q));
                } else if q != p {
                    assert(!s0.pool.cached(q));
                }
            }
        }
        assert forall|q: usize| #[trigger]
            self.pool.cached(q) && !self.pool.frame_of(q).dirty implies
            self.disk.pages().contains_key(q) && self.disk.pages()[q] == self.pool.frame_of(
            q,
        ).buf@ by {
            if q != p {
                assert(s0.pool.cached(q));
            }
        }
    }

    /// Pins a page: one that is in memory, else one that is read from disk.
    fn pin_page(&mut self, page_id: usize, write: bool) -> (res: Result<usize, BpmError>)
        requires
            old(self).wf(),
        ensures
            final(self).wf(),
            final(self).pages() == old(self).pages(),
            final(self).next_page_id() == old(self).next_page_id(),
            final(self).num_frames() == old(self).num_frames(),
            forall|q: usize| q != page_id ==> #[trigger] final(self).pins(q) == old(self).pins(q),
            final(self).pins(page_id) == old(self).pins(page_id) + if res is Ok {
                1int
            } else {
                0int
            },
            final(self).cache() == old(self).cache_after_pin(page_id),
            old(self).cached(page_id) ==> same_places(old(self), final(self)) && marks_kept(
                old(self),
                final(self),
                page_id,
            ),
            !old(self).cached(page_id) ==> brought_in(
                old(self),
                final(self),
                page_id,
                res is Ok,
            ),
            res is Ok ==> final(self).dirty(page_id) == (write || (old(self).cached(page_id) && old(
                self,
            ).dirty(page_id))),
            res is Err && old(self).cached(page_id) ==> final(self).dirty(page_id) == old(
                self,
            ).dirty(page_id),
            res matches Ok(f) ==> f == old(self).frame_to_pin(page_id),
            res is Ok <==> can_pin(old(self), page_id),
            res matches Err(e) ==> pin_error(old(self), page_id, e),
            res matches Ok(f) ==> final(self).cached(page_id) && final(self).frame(page_id) == f
                && (write ==> final(self).pool.frame_of(page_id).dirty),
            forall|q: usize| #[trigger]
                old(self).pins(q) > 0 ==> final(self).cached(q) && final(self).frame(q) == old(
                    self).frame(q),
    {
        let ghost s0 = *self;
        match self.pool.pin_cached(page_id, write) {
            Some(Ok(frame_id)) => {
                proof {
                    self.lemma_pinned(s0, page_id);
                }
                return Ok(frame_id);
            },
            Some(Err(e)) => {
                return Err(e);
            },
            None => {},
        }
        let reservation = match self.get_free_frame() {
            Ok(r) => r,
            Err(e) => {
                proof {
                    assert forall|q: usize| #[trigger] s0.pins(q) > 0 implies self.cached(q)
                        && self.frame(q) == s0.frame(q) by {}
                }
                return Err(e);
            },
        };
        proof {
            s0.law_frame_taken();
        }
        let ghost s1 = *self;
        let ghost frame_id = reservation.frame_id;
        let ghost reclaimed = reservation.page_id;
        let io = self.disk.read_page(page_id);
        proof {
            if io is Ok {
                s1.disk.lemma_page_len(page_id);
            }
        }
        let ghost loaded = io is Ok;
        let res = self.pool.install_page(reservation, page_id, io, write);
        proof {
            if loaded {
                self.lemma_loaded(s1, page_id, frame_id);
                assert(self.pool.frame_of(page_id) == self.pool.frames@[frame_id as int]);
                self.lemma_still_cached(s0, s1, page_id, frame_id);
                assert forall|q: usize| #[trigger] self.cached(q) <==> q == page_id
                    || s0.stays_in(q) by {
                    assert(s1.cached(q) <==> s0.stays_in(q));
                }
                assert forall|q: usize| q != page_id && self.cached(q) implies #[trigger]
                    self.frame(q) == s0.frame(q) by {
                    assert(s1.cached(q) <==> s0.stays_in(q));
                    assert(s1.frame(q) == s0.frame(q));
                }
            } else {
                match reclaimed {
                    Some(p) => {
                        self.lemma_loaded(s1, p, frame_id);
                        assert(self.pool.frame_of(p) == self.pool.frames@[frame_id as int]);
                        self.lemma_still_cached(s0, s1, p, frame_id);
                        assert(s0.page_in(frame_id) == Some(p) <==> s0.cached(p) && s0.frame(p)
                            == frame_id);
                        assert forall|q: usize| #[trigger] self.cached(q) <==> s0.cached(q) by {
                            assert(s1.cached(q) <==> s0.stays_in(q));
                            assert(s0.page_in(frame_id) == Some(q) <==> s0.cached(q) && s0.frame(
                                q,
                            ) == frame_id);
                        }
                    },
                    None => {
                        assert(self.pages() =~= s1.pages());
                        assert forall|q: usize| #[trigger] self.pins(q) == s1.pins(q) by {}
                        self.lemma_synced_as(s1);
                        assert forall|q: usize| #[trigger] s0.pins(q) > 0 implies self.cached(q)
                            && self.frame(q) == s0.frame(q) by {
                            assert(s1.pins(q) == s0.pins(q));
                        }
                        assert forall|q: usize| #[trigger] self.cached(q) <==> s0.cached(q) by {
                            assert(s1.cached(q) <==> s0.stays_in(q));
                            assert(s0.page_in(frame_id) == Some(q) <==> s0.cached(q) && s0.frame(
                                q,
                            ) == frame_id);
                        }
                    },
                }
                assert forall|q: usize| q != page_id && self.cached(q) implies #[trigger]
                    self.frame(q) == s0.frame(q) by {
                    assert(s0.cached(q));
                    assert(s1.cached(q) <==> s0.stays_in(q));
                }
            }
            assert(self.on_disk() == s0.on_disk_after_take());
            assert(brought_in(&s0, self, page_id, loaded));
        }
        res
    }

    /// Pages with pins stay in their frames while another page is brought in.
    proof fn lemma_still_cached(&self, s0: Self, s1: Self, p: usize, frame_id: usize)
        requires
            forall|q: usize| #[trigger] s1.pool.cached(q) ==> s0.pool.cached(q)
                && s1.pool.meta.page_table@[q] == s0.pool.meta.page_table@[q],
            forall|q: usize| #[trigger] s1.pins(q) == s0.pins(q),
            page_added(s1.pool, self.pool, p, frame_id),
            !s1.pool.cached(p),
        ensures
            forall|q: usize| #[trigger]
                s0.pins(q) > 0 ==> self.cached(q) && self.frame(q) == s0.frame(q),
    {
        assert forall|q: usize| #[trigger] s0.pins(q) > 0 implies self.cached(q) && self.frame(q)
            == s0.frame(q) by {
            assert(s1.pins(q) == s0.pins(q));
            assert(s1.pool.cached(q));
        }
    }

    proof fn lemma_pinned(&self, s0: Self, p: usize)
        requires
            s0.wf(),
            s0.pool.cached(p),
            self.disk == s0.disk,
            self.pool.wf(),
            self.pool.all_tracked(None),
            self.pool.meta.page_table@ == s0.pool.meta.page_table@,
            self.pool.meta.free_list@ == s0.pool.meta.free_list@,
            s0.pool.pins(p) < u32::MAX,
            ({
                let f = s0.pool.meta.page_table@[p];
                &&& self.pool.frames@.len() == s0.pool.frames@.len()
                &&& forall|i: int|
                    0 <= i < s0.pool.frames@.len() && i != f ==> #[trigger] self.pool.frames@[i]
                        == s0.pool.frames@[i]
                &&& self.pool.frames@[f as int].buf == s0.pool.frames@[f as int].buf
                &&& self.pool.frames@[f as int].pin_count == s0.pool.frames@[f as int].pin_count
                    + 1
                &&& self.pool.frames@[f as int].page_id == Some(p)
                &&& s0.pool.frames@[f as int].dirty ==> self.pool.frames@[f as int].dirty
                &&& forall|r: Resident| #[trigger]
                    self.pool.meta.replacer@.tracks(r) <==> if r.frame == f {
                        r == (Resident { page: p, frame: f, evictable: false })
                    } else {
                        s0.pool.meta.replacer@.tracks(r)
                    }
            }),
        ensures
            self.wf(),
            self.pages() == s0.pages(),
            self.num_frames() == s0.num_frames(),
            forall|q: usize| q != p ==> #[trigger] self.pins(q) == s0.pins(q),
            self.pins(p) == s0.pins(p) + 1,
            forall|q: usize| #[trigger]
                s0.pins(q) > 0 ==> self.cached(q) && self.frame(q) == s0.frame(q),
    {
        let f = s0.pool.meta.page_table@[p];
        assert forall|q: usize| #[trigger] self.pool.cached(q) && q != p implies
            self.pool.frame_of(q) == s0.pool.frame_of(q) by {
            let g = s0.pool.meta.page_table@[q];
            assert(s0.pool.frames@[g as int].page_id == Some(q));
            assert(g != f);
        }
        assert forall|q: usize| q != p implies #[trigger] self.pins(q) == s0.pins(q) by {
            if self.pool.cached(q) {
                assert(self.pool.frame_of(q) == s0.pool.frame_of(q));
            }
        }
        assert(self.pages() =~= s0.pages()) by {
            assert forall|q: usize| s0.pages().contains_key(q) implies self.pages()[q]
                == s0.pages()[q] by {
                if self.pool.cached(q) && q != p {
                    assert(self.pool.frame_of(q) == s0.pool.frame_of(q));
                }
            }
        }
        assert forall|q: usize| #[trigger]
            self.pool.cached(q) && !self.pool.frame_of(q).dirty implies
            self.disk.pages().contains_key(q) && self.disk.pages()[q] == self.pool.frame_of(
            q,
        ).buf@ by {
            assert(s0.pool.cached(q));
            assert(!s0.pool.frame_of(q).dirty);
        }
    }
}

proof fn lemma_some_evictable(s: Seq<Resident>)
    ensures
        evictable_count(s) > 0 ==> exists|r: Resident| #[trigger] s.contains(r) && r.evictable,
        forall|r: Resident| #[trigger] s.contains(r) && r.evictable ==> evictable_count(s) > 0,
    decreases s.len(),
{
    if s.len() > 0 {
        let rest = s.drop_last();
        lemma_some_evictable(rest);
        assert(s.contains(s.last())) by {
            assert(s[s.len() - 1] == s.last());
        }
        assert forall|r: Resident| #[trigger] s.contains(r) <==> rest.contains(r) || r
            == s.last() by {
            if s.contains(r) {
                let i = choose|i: int| 0 <= i < s.len() && s[i] == r;
                if i < rest.len() {
                    assert(rest[i] == r);
                }
            }
            if rest.contains(r) {
                let i = choose|i: int| 0 <= i < rest.len() && rest[i] == r;
                assert(s[i] == r);
            }
        }
        if evictable_count(s) > 0 {
            if s.last().evictable {
                assert(s.contains(s.last()) && s.last().evictable);
            } else {
                let r = choose|r: Resident| #[trigger] rest.contains(r) && r.evictable;
                assert(s.contains(r) && r.evictable);
            }
        }
    }
}

/// `b` is `a` after a frame was to be taken for a page that was not in memory. The page that was
/// in the frame has left, and was written where it was dirty. Where there is nothing to put into
/// the frame, all pages in memory are where they were.
pub open spec fn brought_in(
    a: &BufferPoolManager,
    b: &BufferPoolManager,
    page_id: usize,
    found: bool,
) -> bool {
    &&& b.on_disk() == a.on_disk_after_take()
    &&& forall|q: usize| #[trigger]
        b.cached(q) <==> if found {
            q == page_id || a.stays_in(q)
        } else {
            a.cached(q)
        }
    &&& forall|q: usize|
        q != page_id && b.cached(q) ==> #[trigger] b.frame(q) == a.frame(q)
    &&& forall|q: usize|
        q != page_id && b.cached(q) ==> #[trigger] b.dirty(q) == (a.dirty(q) && a.stays_in(q))
}

/// The pages in memory but `page_id` are marked dirty in `b` where they are in `a`.
pub open spec fn marks_kept(a: &BufferPoolManager, b: &BufferPoolManager, page_id: usize) -> bool {
    forall|q: usize| q != page_id && a.cached(q) ==> #[trigger] b.dirty(q) == a.dirty(q)
}

/// `b` holds the same pages as `a` in the same frames, and the same ones on disk.
pub open spec fn same_places(a: &BufferPoolManager, b: &BufferPoolManager) -> bool {
    &&& b.on_disk() == a.on_disk()
    &&& forall|q: usize| #[trigger] b.cached(q) == a.cached(q)
    &&& forall|q: usize| #[trigger] b.frame(q) == a.frame(q)
}

/// Page `page_id` can be pinned in the state `s`. A page in memory can be as long as its pins
/// can be counted. Another one needs a frame, and has to be on disk.
pub open spec fn can_pin(s: &BufferPoolManager, page_id: usize) -> bool {
    if s.cached(page_id) {
        s.pins(page_id) < u32::MAX
    } else {
        s.has_frame() && s.pages().contains_key(page_id)
    }
}

/// `e` says why page `page_id` cannot be pinned in the state `s`.
pub open spec fn pin_error(s: &BufferPoolManager, page_id: usize, e: BpmError) -> bool {
    if s.cached(page_id) {
        e is FramePinned
    } else if !s.has_frame() {
        e is NoFreeFrame
    } else {
        e matches BpmError::Io(io) && is_missing(io, page_id)
    }
}

impl BufferPoolManager {
    /// Pins a page for reading.
    pub fn read_page(&mut self, page_id: usize) -> (res: Result<PageRef, BpmError>)
        requires
            old(self).wf(),
        ensures
            final(self).wf(),
            final(self).pages() == old(self).pages(),
            final(self).next_page_id() == old(self).next_page_id(),
            final(self).num_frames() == old(self).num_frames(),
            forall|q: usize| q != page_id ==> #[trigger] final(self).pins(q) == old(self).pins(q),
            forall|q: usize| #[trigger]
                old(self).pins(q) > 0 ==> final(self).cached(q) && final(self).frame(q) == old(
                    self).frame(q),
            res is Ok <==> can_pin(old(self), page_id),
            final(self).cache() == old(self).cache_after_pin(page_id),
            old(self).cached(page_id) ==> same_places(old(self), final(self)) && marks_kept(
                old(self),
                final(self),
                page_id,
            ),
            res is Err && old(self).cached(page_id) ==> final(self).dirty(page_id) == old(
                self,
            ).dirty(page_id),
            !old(self).cached(page_id) ==> brought_in(
                old(self),
                final(self),
                page_id,
                res is Ok,
            ),
            match res {
                Ok(page) => {
                    &&& page.frame_id == old(self).frame_to_pin(page_id)
                    &&& page.page_id == page_id
                    &&& final(self).cached(page_id)
                    &&& page.frame_id == final(self).frame(page_id)
                    &&& final(self).pages().contains_key(page_id)
                    &&& final(self).pins(page_id) == old(self).pins(page_id) + 1
                    &&& final(self).dirty(page_id) == (old(self).cached(page_id) && old(self).dirty(
                        page_id,
                    ))
                },
                Err(e) => pin_error(old(self), page_id, e) && final(self).pins(page_id) == old(
                    self).pins(page_id),
            },
    {
        match self.pin_page(page_id, false) {
            Ok(frame_id) => Ok(PageRef { frame_id, page_id }),
            Err(e) => Err(e),
        }
    }

    /// Pins a page for writing and marks it dirty.
    pub fn write_page(&mut self, page_id: usize) -> (res: Result<PageMut, BpmError>)
        requires
            old(self).wf(),
        ensures
            final(self).wf(),
            final(self).pages() == old(self).pages(),
            final(self).next_page_id() == old(self).next_page_id(),
            final(self).num_frames() == old(self).num_frames(),
            forall|q: usize| q != page_id ==> #[trigger] final(self).pins(q) == old(self).pins(q),
            forall|q: usize| #[trigger]
                old(self).pins(q) > 0 ==> final(self).cached(q) && final(self).frame(q) == old(
                    self).frame(q),
            res is Ok <==> can_pin(old(self), page_id),
            final(self).cache() == old(self).cache_after_pin(page_id),
            old(self).cached(page_id) ==> same_places(old(self), final(self)) && marks_kept(
                old(self),
                final(self),
                page_id,
            ),
            res is Err && old(self).cached(page_id) ==> final(self).dirty(page_id) == old(
                self,
            ).dirty(page_id),
            !old(self).cached(page_id) ==> brought_in(
                old(self),
                final(self),
                page_id,
                res is Ok,
            ),
            match res {
                Ok(page) => {
                    &&& page.frame_id == old(self).frame_to_pin(page_id)
                    &&& page.page_id == page_id
                    &&& final(self).cached(page_id)
                    &&& page.frame_id == final(self).frame(page_id)
                    &&& final(self).pages().contains_key(page_id)
                    &&& final(self).pins(page_id) == old(self).pins(page_id) + 1
                    &&& final(self).dirty(page_id)
                },
                Err(e) => pin_error(old(self), page_id, e) && final(self).pins(page_id) == old(
                    self).pins(page_id),
            },
    {
        match self.pin_page(page_id, true) {
            Ok(frame_id) => Ok(PageMut { frame_id, page_id }),
            Err(e) => Err(e),
        }
    }

    /// The page is marked as newer in memory than on disk.
    pub closed spec fn dirty(&self, page_id: usize) -> bool {
        self.pool.frame_of(page_id).dirty
    }

    /// Creates a page and pins it for writing. At first all its bytes are 0.
    pub fn new_page(&mut self) -> (res: Result<PageMut, BpmError>)
        requires
            old(self).wf(),
            !old(self).pages().contains_key(old(self).next_page_id()),
        ensures
            final(self).wf(),
            final(self).num_frames() == old(self).num_frames(),
            res is Ok <==> old(self).has_frame() && old(self).next_page_id() < usize::MAX,
            old(self).next_page_id() < usize::MAX ==> brought_in(
                old(self),
                final(self),
                old(self).next_page_id(),
                res is Ok,
            ),
            old(self).next_page_id() == usize::MAX ==> same_places(old(self), final(self))
                && marks_kept(old(self), final(self), usize::MAX),
            forall|q: usize| #[trigger]
                old(self).pins(q) > 0 ==> final(self).cached(q) && final(self).frame(q) == old(
                    self).frame(q),
            match res {
                Ok(page) => {
                    let id = old(self).next_page_id();
                    &&& old(self).cache().taken() matches Some((frame, after)) && page.frame_id
                        == frame && final(self).cache() == after.used(frame, id, false)
                    &&& page.page_id == id
                    &&& final(self).cached(id)
                    &&& page.frame_id == final(self).frame(id)
                    &&& final(self).next_page_id() == id + 1
                    &&& final(self).pages().contains_key(id)
                    &&& final(self).pages()[id].len() == PAGE_SIZE
                    &&& final(self).pages() == old(self).pages().insert(id, zero_page())
                    &&& final(self).pins(id) == 1
                    &&& final(self).dirty(id)
                    &&& forall|q: usize| q != id ==> #[trigger] final(self).pins(q) == old(
                        self).pins(q)
                },
                Err(e) => {
                    &&& e is NoFreeFrame
                    &&& final(self).same_pages(old(self))
                    &&& final(self).cache() == old(self).cache()
                },
            },
    {
        let ghost s0 = *self;
        if self.pool.next_page_id == usize::MAX {
            return Err(BpmError::NoFreeFrame);
        }
        let reservation = match self.get_free_frame() {
            Ok(r) => r,
            Err(e) => {
                proof {
                    assert forall|q: usize| #[trigger] s0.pins(q) > 0 implies self.cached(q)
                        && self.frame(q) == s0.frame(q) by {}
                }
                return Err(e);
            },
        };
        let ghost s1 = *self;
        let frame_id: usize = reservation.frame_id;
        assert(!s1.pages().contains_key(s1.pool.next_page_id));
        let page_id: usize = self.pool.adopt_page(reservation);
        proof {
            self.lemma_still_cached(s0, s1, page_id, frame_id);
            self.lemma_created(s1, page_id, frame_id);
            assert(self.pool.frame_of(page_id) == self.pool.frames@[frame_id as int]);
            self.law_page_size(page_id);
            assert forall|q: usize| q != page_id && self.cached(q) implies #[trigger] self.dirty(q)
                == (s0.dirty(q) && s0.stays_in(q)) by {
                assert(s1.cached(q));
                assert(s0.stays_in(q));
                assert(s0.frame(q) != frame_id);
            }
            assert forall|q: usize| #[trigger] self.cached(q) <==> q == page_id || s0.stays_in(
                q,
            ) by {
                assert(s1.cached(q) <==> s0.stays_in(q));
            }
            assert forall|q: usize| q != page_id && self.cached(q) implies #[trigger] self.frame(q)
                == s0.frame(q) by {
                assert(s1.cached(q));
                assert(s1.frame(q) == s0.frame(q));
            }
            assert(self.on_disk() == s0.on_disk_after_take());
            assert(brought_in(&s0, self, page_id, true));
        }
        Ok(PageMut { frame_id, page_id })
    }

    /// A new page adds itself and changes no other one.
    proof fn lemma_created(&self, s0: Self, p: usize, frame_id: usize)
        requires
            s0.pool.wf_except(Some(frame_id)),
            s0.synced(),
            s0.disk.wf(),
            self.pool.all_tracked(None),
            !s0.pages().contains_key(p),
            self.pool.wf(),
            self.disk == s0.disk,
            page_added(s0.pool, self.pool, p, frame_id),
            self.pool.frames@[frame_id as int].dirty,
        ensures
            self.wf(),
            self.pages().contains_key(p),
            self.pages() == s0.pages().insert(p, self.pages()[p]),
            forall|q: usize| q != p ==> #[trigger] self.pins(q) == s0.pins(q),
    {
        assert(!s0.pool.cached(p));
        assert forall|q: usize| #[trigger] self.pool.cached(q) && q != p implies s0.pool.cached(q)
            && self.pool.frame_of(q) == s0.pool.frame_of(q) by {
            assert(s0.pool.cached(q));
            let f = s0.pool.meta.page_table@[q];
            assert(s0.pool.frames@[f as int].page_id == Some(q));
            assert(f != frame_id);
        }
        assert forall|q: usize| q != p implies #[trigger] self.pins(q) == s0.pins(q) by {
            if self.pool.cached(q) {
                assert(self.pool.frame_of(q) == s0.pool.frame_of(q));
            } else {
                assert(!s0.pool.cached(q));
            }
        }
        assert(self.pages() =~= s0.pages().insert(p, self.pages()[p])) by {
            assert forall|q: usize| s0.pages().contains_key(q) implies self.pages()[q]
                == s0.pages()[q] by {
                if self.pool.cached(q) {
                    assert(self.pool.frame_of(q) == s0.pool.frame_of(q));
                } else {
                    assert(!s0.pool.cached(q));
                }
            }
        }
        assert forall|q: usize| #[trigger]
            self.pool.cached(q) && !self.pool.frame_of(q).dirty implies
            self.disk.pages().contains_key(q) && self.disk.pages()[q] == self.pool.frame_of(
            q,
        ).buf@ by {
            if q != p {
                assert(s0.pool.cached(q));
            }
        }
    }

    fn unpin_frame(&mut self, frame_id: usize, Ghost(page_id): Ghost<usize>)
        requires
            old(self).wf(),
            old(self).cached(page_id),
            old(self).frame(page_id) == frame_id,
        ensures
            final(self).wf(),
            final(self).pages() == old(self).pages(),
            final(self).next_page_id() == old(self).next_page_id(),
            final(self).num_frames() == old(self).num_frames(),
            forall|q: usize| #[trigger] final(self).cached(q) == old(self).cached(q),
            forall|q: usize| #[trigger] final(self).frame(q) == old(self).frame(q),
            forall|q: usize| q != page_id ==> #[trigger] final(self).pins(q) == old(self).pins(q),
            final(self).pins(page_id) == if old(self).pins(page_id) > 0 {
                old(self).pins(page_id) - 1
            } else {
                0
            },
            final(self).cache() == if old(self).pins(page_id) == 1 {
                old(self).cache().released(frame_id)
            } else {
                old(self).cache()
            },
            final(self).on_disk() == old(self).on_disk(),
            forall|q: usize|
                old(self).cached(q) ==> #[trigger] final(self).dirty(q) == old(self).dirty(q),
    {
        let ghost s0 = *self;
        self.pool.unpin(frame_id);
        proof {
            assert forall|q: usize| #[trigger] self.pool.cached(q) && q != page_id implies
                self.pool.frame_of(q) == s0.pool.frame_of(q) by {
                let g = s0.pool.meta.page_table@[q];
                assert(s0.pool.frames@[g as int].page_id == Some(q));
                assert(g != frame_id);
            }
            assert forall|q: usize| q != page_id implies #[trigger] self.pins(q) == s0.pins(q) by {
                if self.pool.cached(q) {
                    assert(self.pool.frame_of(q) == s0.pool.frame_of(q));
                }
            }
            assert(self.pages() =~= s0.pages()) by {
                assert forall|q: usize| s0.pages().contains_key(q) implies self.pages()[q]
                    == s0.pages()[q] by {
                    if self.pool.cached(q) && q != page_id {
                        assert(self.pool.frame_of(q) == s0.pool.frame_of(q));
                    }
                }
            }
            assert forall|q: usize| #[trigger]
                self.pool.cached(q) && !self.pool.frame_of(q).dirty implies
                self.disk.pages().contains_key(q) && self.disk.pages()[q] == self.pool.frame_of(
                q,
            ).buf@ by {
                assert(s0.pool.cached(q));
                assert(!s0.pool.frame_of(q).dirty);
            }
        }
    }

    /// Gives a pin for reading back. Without pins the page may be evicted.
    pub fn unpin_read(&mut self, page: PageRef)
        requires
            old(self).wf(),
            old(self).cached(page.page_id),
            old(self).frame(page.page_id) == page.frame_id,
        ensures
            final(self).wf(),
            final(self).pages() == old(self).pages(),
            final(self).next_page_id() == old(self).next_page_id(),
            final(self).num_frames() == old(self).num_frames(),
            forall|q: usize| #[trigger] final(self).cached(q) == old(self).cached(q),
            forall|q: usize| #[trigger] final(self).frame(q) == old(self).frame(q),
            forall|q: usize|
                q != page.page_id ==> #[trigger] final(self).pins(q) == old(self).pins(q),
            final(self).pins(page.page_id) == if old(self).pins(page.page_id) > 0 {
                old(self).pins(page.page_id) - 1
            } else {
                0
            },
            final(self).cache() == if old(self).pins(page.page_id) == 1 {
                old(self).cache().released(page.frame_id)
            } else {
                old(self).cache()
            },
            final(self).on_disk() == old(self).on_disk(),
            forall|q: usize|
                old(self).cached(q) ==> #[trigger] final(self).dirty(q) == old(self).dirty(q),
    {
        self.unpin_frame(page.frame_id, Ghost(page.page_id));
    }

    /// Gives a pin for writing back. Without pins the page may be evicted.
    pub fn unpin_write(&mut self, page: PageMut)
        requires
            old(self).wf(),
            old(self).cached(page.page_id),
            old(self).frame(page.page_id) == page.frame_id,
        ensures
            final(self).wf(),
            final(self).pages() == old(self).pages(),
            final(self).next_page_id() == old(self).next_page_id(),
            final(self).num_frames() == old(self).num_frames(),
            forall|q: usize| #[trigger] final(self).cached(q) == old(self).cached(q),
            forall|q: usize| #[trigger] final(self).frame(q) == old(self).frame(q),
            forall|q: usize|
                q != page.page_id ==> #[trigger] final(self).pins(q) == old(self).pins(q),
            final(self).pins(page.page_id) == if old(self).pins(page.page_id) > 0 {
                old(self).pins(page.page_id) - 1
            } else {
                0
            },
            final(self).cache() == if old(self).pins(page.page_id) == 1 {
                old(self).cache().released(page.frame_id)
            } else {
                old(self).cache()
            },
            final(self).on_disk() == old(self).on_disk(),
            forall|q: usize|
                old(self).cached(q) ==> #[trigger] final(self).dirty(q) == old(self).dirty(q),
    {
        self.unpin_frame(page.frame_id, Ghost(page.page_id));
    }

    /// The bytes of a page that is pinned for reading.
    pub fn data(&self, page: &PageRef) -> (res: &[u8])
        requires
            self.wf(),
            self.cached(page.page_id),
            self.frame(page.page_id) == page.frame_id,
        ensures
            res@ == self.pages()[page.page_id],
            res@.len() == PAGE_SIZE,
    {
        proof {
            self.law_page_size(page.page_id);
        }
        self.pool.frames[page.frame_id].buf.as_slice()
    }

    /// The bytes of a page that is pinned for writing.
    pub fn data_of(&self, page: &PageMut) -> (res: &[u8])
        requires
            self.wf(),
            self.cached(page.page_id),
            self.frame(page.page_id) == page.frame_id,
        ensures
            res@ == self.pages()[page.page_id],
            res@.len() == PAGE_SIZE,
    {
        proof {
            self.law_page_size(page.page_id);
        }
        self.pool.frames[page.frame_id].buf.as_slice()
    }

    /// Replaces the bytes of a page that is pinned for writing.
    pub fn write_data(&mut self, page: &PageMut, data: &[u8])
        requires
            old(self).wf(),
            old(self).cached(page.page_id),
            old(self).frame(page.page_id) == page.frame_id,
            data@.len() == PAGE_SIZE,
        ensures
            final(self).wf(),
            final(self).pages() == old(self).pages().insert(page.page_id, data@),
            final(self).next_page_id() == old(self).next_page_id(),
            final(self).num_frames() == old(self).num_frames(),
            forall|q: usize| #[trigger] final(self).cached(q) == old(self).cached(q),
            forall|q: usize| #[trigger] final(self).frame(q) == old(self).frame(q),
            forall|q: usize| #[trigger] final(self).pins(q) == old(self).pins(q),
            final(self).dirty(page.page_id),
            marks_kept(old(self), final(self), page.page_id),
            final(self).cache() == old(self).cache(),
            final(self).on_disk() == old(self).on_disk(),
    {
        let ghost s0 = *self;
        let ghost p = page.page_id;
        let frame_id: usize = page.frame_id;
        let buf = vstd::slice::slice_to_vec(data);
        let frame = &mut self.pool.frames[frame_id];
        frame.buf = buf;
        frame.dirty = true;
        proof {
            self.pool.lemma_after_frame_change(s0.pool, frame_id);
            assert(self.pool.all_tracked(None)) by {
                assert forall|i: int|
                    0 <= i < self.pool.frames@.len() && (#[trigger] self.pool.frames@[i]).page_id
                        is Some implies self.pool.meta.replacer@.tracks(
                    Resident {
                        page: self.pool.frames@[i].page_id->0,
                        frame: i as usize,
                        evictable: self.pool.frames@[i].pin_count == 0,
                    },
                ) by {
                    assert(s0.pool.frames@[i].page_id is Some);
                }
            }
            assert forall|q: usize| #[trigger] self.pool.cached(q) && q != p implies
                self.pool.frame_of(q) == s0.pool.frame_of(q) by {
                let g = s0.pool.meta.page_table@[q];
                assert(s0.pool.frames@[g as int].page_id == Some(q));
                assert(g != frame_id);
            }
            assert forall|q: usize| #[trigger] self.pins(q) == s0.pins(q) by {
                if self.pool.cached(q) && q != p {
                    assert(self.pool.frame_of(q) == s0.pool.frame_of(q));
                }
            }
            assert(self.pages() =~= s0.pages().insert(p, data@)) by {
                assert forall|q: usize| s0.pages().contains_key(q) && q != p implies self.pages()[q]
                    == s0.pages()[q] by {
                    if self.pool.cached(q) {
                        assert(self.pool.frame_of(q) == s0.pool.frame_of(q));
                    }
                }
            }
            assert forall|q: usize| #[trigger]
                self.pool.cached(q) && !self.pool.frame_of(q).dirty implies
                self.disk.pages().contains_key(q) && self.disk.pages()[q] == self.pool.frame_of(
                q,
            ).buf@ by {
                assert(s0.pool.cached(q));
                assert(!s0.pool.frame_of(q).dirty);
            }
        }
    }

    /// Writes a page that is in memory to disk. Its pins and its place stay as they are.
    pub fn flush_page(&mut self, page_id: usize) -> (res: Result<(), BpmError>)
        requires
            old(self).wf(),
        ensures
            final(self).wf(),
            final(self).same_pages(old(self)),
            forall|q: usize| #[trigger] final(self).cached(q) == old(self).cached(q),
            forall|q: usize| #[trigger] final(self).frame(q) == old(self).frame(q),
            final(self).cache() == old(self).cache(),
            marks_kept(old(self), final(self), page_id),
            if old(self).cached(page_id) {
                &&& res is Ok
                &&& final(self).on_disk() == old(self).on_disk().insert(
                    page_id,
                    old(self).pages()[page_id],
                )
                &&& !final(self).dirty(page_id)
            } else {
                &&& res == Err::<(), BpmError>(BpmError::FrameMissing)
                &&& final(self).on_disk() == old(self).on_disk()
            },
    {
        let ghost s0 = *self;
        let frame_id: usize = match self.pool.meta.page_table.get(&page_id) {
            Some(f) => *f,
            None => { return Err(BpmError::FrameMissing); },
        };
        assert(self.pool.frames@[frame_id as int].buf@.len() == PAGE_SIZE);
        match self.disk.write_page(page_id, self.pool.frames[frame_id].buf.as_slice()) {
            Ok(_) => {},
            Err(e) => { return Err(BpmError::Io(e)); },
        }
        let ghost s1 = *self;
        proof {
            s1.lemma_synced_by(s0, page_id);
        }
        let frame = &mut self.pool.frames[frame_id];
        frame.dirty = false;
        proof {
            self.pool.lemma_after_frame_change(s0.pool, frame_id);
            assert(self.pool.all_tracked(None)) by {
                assert forall|i: int|
                    0 <= i < self.pool.frames@.len() && (#[trigger] self.pool.frames@[i]).page_id
                        is Some implies self.pool.meta.replacer@.tracks(
                    Resident {
                        page: self.pool.frames@[i].page_id->0,
                        frame: i as usize,
                        evictable: self.pool.frames@[i].pin_count == 0,
                    },
                ) by {
                    assert(s0.pool.frames@[i].page_id is Some);
                }
            }
            assert forall|q: usize| #[trigger] self.pool.cached(q) && q != page_id implies
                self.pool.frame_of(q) == s0.pool.frame_of(q) by {
                let g = s0.pool.meta.page_table@[q];
                assert(s0.pool.frames@[g as int].page_id == Some(q));
                assert(g != frame_id);
            }
            assert forall|q: usize| #[trigger] self.pins(q) == s0.pins(q) by {
                if self.pool.cached(q) && q != page_id {
                    assert(self.pool.frame_of(q) == s0.pool.frame_of(q));
                }
            }
            assert(self.pages() =~= s0.pages()) by {
                assert forall|q: usize| s0.pages().contains_key(q) implies self.pages()[q]
                    == s0.pages()[q] by {
                    if self.pool.cached(q) && q != page_id {
                        assert(self.pool.frame_of(q) == s0.pool.frame_of(q));
                    }
                }
            }
            assert forall|q: usize| #[trigger]
                self.pool.cached(q) && !self.pool.frame_of(q).dirty implies
                self.disk.pages().contains_key(q) && self.disk.pages()[q] == self.pool.frame_of(
                q,
            ).buf@ by {
                assert(s1.pool.cached(q));
                if q != page_id {
                    assert(!s1.pool.frame_of(q).dirty);
                }
            }
        }
        Ok(())
    }

    /// A copy of the bytes of a page.
    pub fn load(&mut self, page_id: usize) -> (res: Result<Vec<u8>, BpmError>)
        requires
            old(self).wf(),
        ensures
            final(self).wf(),
            final(self).same_pages(old(self)),
            res is Ok <==> can_pin(old(self), page_id),
            res matches Ok(data) ==> final(self).pages().contains_key(page_id) && data@ == final(
                self).pages()[page_id] && data@.len() == PAGE_SIZE,
            res matches Err(e) ==> pin_error(old(self), page_id, e),
            final(self).cache() == old(self).cache_after_visit(page_id),
            old(self).cached(page_id) ==> same_places(old(self), final(self)) && marks_kept(
                old(self),
                final(self),
                page_id,
            ) && final(self).dirty(page_id) == old(self).dirty(page_id),
            !old(self).cached(page_id) ==> brought_in(
                old(self),
                final(self),
                page_id,
                res is Ok,
            ) && (res is Ok ==> !final(self).dirty(page_id)),
            old(self).ready() ==> final(self).ready(),
    {
        let ghost s0 = *self;
        match self.read_page(page_id) {
            Ok(page) => {
                let data = vstd::slice::slice_to_vec(self.data(&page));
                self.unpin_read(page);
                proof {
                    assert forall|q: usize| #[trigger] self.pins(q) == s0.pins(q) by {}
                    self.lemma_frame_kept(s0);
                }
                Ok(data)
            },
            Err(e) => {
                proof {
                    assert forall|q: usize| #[trigger] self.pins(q) == s0.pins(q) by {}
                    self.lemma_frame_kept(s0);
                }
                Err(e)
            },
        }
    }

    /// Replaces the bytes of a page.
    pub fn store(&mut self, page_id: usize, data: &[u8]) -> (res: Result<(), BpmError>)
        requires
            old(self).wf(),
            data@.len() == PAGE_SIZE,
        ensures
            final(self).wf(),
            final(self).next_page_id() == old(self).next_page_id(),
            final(self).num_frames() == old(self).num_frames(),
            forall|q: usize| #[trigger] final(self).pins(q) == old(self).pins(q),
            res is Ok <==> can_pin(old(self), page_id),
            match res {
                Ok(_) => old(self).pages().contains_key(page_id) && final(self).pages() == old(
                    self).pages().insert(page_id, data@),
                Err(e) => pin_error(old(self), page_id, e) && final(self).pages() == old(
                    self).pages(),
            },
            final(self).cache() == old(self).cache_after_visit(page_id),
            old(self).ready() ==> final(self).ready(),
    {
        let ghost s0 = *self;
        match self.write_page(page_id) {
            Ok(page) => {
                self.write_data(&page, data);
                self.unpin_write(page);
                proof {
                    assert forall|q: usize| #[trigger] self.pins(q) == s0.pins(q) by {}
                    self.lemma_frame_kept(s0);
                }
                Ok(())
            },
            Err(e) => {
                proof {
                    assert forall|q: usize| #[trigger] self.pins(q) == s0.pins(q) by {}
                    self.lemma_frame_kept(s0);
                }
                Err(e)
            },
        }
    }

    /// Creates a page and leaves it without pins.
    pub fn allocate(&mut self) -> (res: Result<usize, BpmError>)
        requires
            old(self).wf(),
            !old(self).pages().contains_key(old(self).next_page_id()),
        ensures
            final(self).wf(),
            final(self).num_frames() == old(self).num_frames(),
            forall|q: usize| #[trigger] final(self).pins(q) == old(self).pins(q),
            res is Ok <==> old(self).has_frame() && old(self).next_page_id() < usize::MAX,
            match res {
                Ok(id) => {
                    &&& id == old(self).next_page_id()
                    &&& final(self).next_page_id() == id + 1
                    &&& final(self).pages().contains_key(id)
                    &&& final(self).pages()[id].len() == PAGE_SIZE
                    &&& final(self).pages() == old(self).pages().insert(id, zero_page())
                },
                Err(e) => e is NoFreeFrame && final(self).same_pages(old(self)),
            },
            final(self).cache() == old(self).cache_after_creation(),
            old(self).ready() ==> final(self).ready(),
    {
        let ghost s0 = *self;
        proof {
            self.law_frame_taken();
        }
        match self.new_page() {
            Ok(page) => {
                let id: usize = page.page_id;
                proof {
                    assert(!s0.cached(id));
                    assert(s0.pins(id) == 0);
                }
                self.unpin_write(page);
                proof {
                    assert forall|q: usize| #[trigger] self.pins(q) == s0.pins(q) by {}
                    self.lemma_frame_kept(s0);
                }
                Ok(id)
            },
            Err(e) => {
                proof {
                    assert forall|q: usize| #[trigger] self.pins(q) == s0.pins(q) by {}
                    self.lemma_frame_kept(s0);
                }
                Err(e)
            },
        }
    }

    /// Creates a page that holds `data` and leaves it without pins.
    pub fn create(&mut self, data: &[u8]) -> (res: Result<usize, BpmError>)
        requires
            old(self).wf(),
            !old(self).pages().contains_key(old(self).next_page_id()),
            data@.len() == PAGE_SIZE,
        ensures
            final(self).wf(),
            final(self).num_frames() == old(self).num_frames(),
            forall|q: usize| #[trigger] final(self).pins(q) == old(self).pins(q),
            res is Ok <==> old(self).has_frame() && old(self).next_page_id() < usize::MAX,
            match res {
                Ok(id) => {
                    &&& id == old(self).next_page_id()
                    &&& final(self).next_page_id() == id + 1
                    &&& final(self).pages() == old(self).pages().insert(id, data@)
                },
                Err(e) => e is NoFreeFrame && final(self).same_pages(old(self)),
            },
            final(self).cache() == old(self).cache_after_creation(),
            old(self).has_frame() ==> final(self).has_frame(),
    {
        let ghost s0 = *self;
        proof {
            self.law_frame_taken();
        }
        match self.new_page() {
            Ok(page) => {
                let id: usize = page.page_id;
                proof {
                    assert(!s0.cached(id));
                    assert(s0.pins(id) == 0);
                }
                self.write_data(&page, data);
                self.unpin_write(page);
                proof {
                    assert forall|q: usize| #[trigger] self.pins(q) == s0.pins(q) by {}
                    self.lemma_frame_kept(s0);
                    assert(self.pages() =~= s0.pages().insert(id, data@));
                }
                Ok(id)
            },
            Err(e) => {
                proof {
                    self.lemma_frame_kept(s0);
                }
                Err(e)
            },
        }
    }
}

} // verus!
