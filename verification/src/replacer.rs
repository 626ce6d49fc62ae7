//! Adaptive replacement cache: which frame of a buffer pool to give up next.
use std::collections::HashMap;
use vstd::prelude::*;

verus! {

broadcast use vstd::std_specs::hash::group_hash_axioms;

#[derive(Copy, Clone, Debug, PartialEq, Eq, Structural)]
pub enum ArcList {
    Mru,
    Mfu,
    GhostMru,
    GhostMfu,
}

#[derive(Copy, Clone, Debug, PartialEq, Eq)]
pub struct Node {
    pub page_id: usize,
    /// `None` on the ghost lists.
    pub frame_id: Option<usize>,
    pub evictable: bool,
    pub list: ArcList,
    pub next: Option<usize>,
    pub prev: Option<usize>,
}

/// A doubly linked list of nodes, the most recent one at the head.
pub struct ListHead {
    pub head: Option<usize>,
    pub tail: Option<usize>,
    pub length: usize,
    /// The nodes of the list from head to tail.
    pub ids: Ghost<Seq<usize>>,
}

/// A page that sits in a frame.
pub struct Resident {
    pub page: usize,
    pub frame: usize,
    pub evictable: bool,
}

/// What the replacer tracks. Every list has its most recent page first.
#[verifier::ext_equal]
pub struct ArcView {
    /// Pages that were accessed once.
    pub mru: Seq<Resident>,
    /// Pages that were accessed more than once.
    pub mfu: Seq<Resident>,
    /// Pages evicted from `mru`.
    pub ghost_mru: Seq<usize>,
    /// Pages evicted from `mfu`.
    pub ghost_mfu: Seq<usize>,
    /// The length that `mru` should have.
    pub target: int,
    pub capacity: int,
}

/// The position of the least recent page of `s` that may be evicted.
pub open spec fn victim(s: Seq<Resident>) -> Option<int>
    decreases s.len(),
{
    if s.len() == 0 {
        None
    } else if s.last().evictable {
        Some(s.len() - 1)
    } else {
        victim(s.drop_last())
    }
}

/// How many pages of `s` may be evicted.
pub open spec fn evictable_count(s: Seq<Resident>) -> nat
    decreases s.len(),
{
    if s.len() == 0 {
        0
    } else {
        evictable_count(s.drop_last()) + if s.last().evictable {
            1nat
        } else {
            0nat
        }
    }
}

impl ArcView {
    /// The pages that sit in a frame.
    pub open spec fn resident(self) -> Seq<Resident> {
        self.mru + self.mfu
    }

    pub open spec fn is_full(self) -> bool {
        self.mru.len() + self.mfu.len() >= self.capacity
    }

    /// The position in `mru` of a page.
    pub open spec fn mru_slot(self, page: usize) -> Option<int> {
        if exists|i: int| 0 <= i < self.mru.len() && (#[trigger] self.mru[i]).page == page {
            Some(choose|i: int| 0 <= i < self.mru.len() && (#[trigger] self.mru[i]).page == page)
        } else {
            None
        }
    }

    /// The position in `mfu` of a page.
    pub open spec fn mfu_slot(self, page: usize) -> Option<int> {
        if exists|i: int| 0 <= i < self.mfu.len() && (#[trigger] self.mfu[i]).page == page {
            Some(choose|i: int| 0 <= i < self.mfu.len() && (#[trigger] self.mfu[i]).page == page)
        } else {
            None
        }
    }

    /// The page at position `i` of `mru` leaves its frame.
    pub open spec fn mru_evicted(self, i: int) -> ArcView {
        ArcView {
            mru: self.mru.remove(i),
            ghost_mru: self.ghost_mru.insert(0, self.mru[i].page),
            ..self
        }
    }

    /// The page at position `i` of `mfu` leaves its frame.
    pub open spec fn mfu_evicted(self, i: int) -> ArcView {
        ArcView {
            mfu: self.mfu.remove(i),
            ghost_mfu: self.ghost_mfu.insert(0, self.mfu[i].page),
            ..self
        }
    }

    /// The frame that is given up next and the state after that. The longer list gives way:
    /// `mru` where it has its target length, `mfu` otherwise; the other one where nothing
    /// of the first may be evicted.
    pub open spec fn evicted(self) -> Option<(usize, ArcView)> {
        let from_mru = match victim(self.mru) {
            Some(i) => Some((self.mru[i].frame, self.mru_evicted(i))),
            None => None,
        };
        let from_mfu = match victim(self.mfu) {
            Some(i) => Some((self.mfu[i].frame, self.mfu_evicted(i))),
            None => None,
        };
        if self.mru.len() >= self.target {
            if from_mru is Some {
                from_mru
            } else {
                from_mfu
            }
        } else {
            if from_mfu is Some {
                from_mfu
            } else {
                from_mru
            }
        }
    }

    /// The target after a hit in `ghost_mru`: it grows.
    pub open spec fn target_up(self) -> int {
        let delta = if self.ghost_mru.len() >= self.ghost_mfu.len() {
            1
        } else {
            self.ghost_mfu.len() as int / self.ghost_mru.len() as int
        };
        if self.target + delta < self.capacity {
            self.target + delta
        } else {
            self.capacity
        }
    }

    /// The target after a hit in `ghost_mfu`: it shrinks.
    pub open spec fn target_down(self) -> int {
        let delta = if self.ghost_mfu.len() >= self.ghost_mru.len() {
            1
        } else {
            self.ghost_mru.len() as int / self.ghost_mfu.len() as int
        };
        if self.target > delta {
            self.target - delta
        } else {
            0
        }
    }

    /// A page comes back from the ghost lists to the front of `mfu`.
    pub open spec fn revived(self, frame: usize, page: usize) -> ArcView {
        ArcView {
            mfu: self.mfu.insert(0, Resident { page, frame, evictable: false }),
            ghost_mru: if self.ghost_mru.contains(page) {
                self.ghost_mru.remove(self.ghost_mru.index_of(page))
            } else {
                self.ghost_mru
            },
            ghost_mfu: if self.ghost_mfu.contains(page) {
                self.ghost_mfu.remove(self.ghost_mfu.index_of(page))
            } else {
                self.ghost_mfu
            },
            ..self
        }
    }

    /// A ghost page was accessed. Where the cache is full another page has to go first; where
    /// none can, the page stays a ghost.
    pub open spec fn ghost_hit(self, frame: usize, page: usize) -> ArcView {
        if self.is_full() {
            match self.evicted() {
                Some((_, after)) => after.revived(frame, page),
                None => self,
            }
        } else {
            self.revived(frame, page)
        }
    }

    /// A page that no list holds was accessed. The ghost lists make room where they have to;
    /// where they cannot, the page is not tracked.
    pub open spec fn missed(self, frame: usize, page: usize) -> ArcView {
        let added = Resident { page, frame, evictable: false };
        if self.mru.len() + self.ghost_mru.len() == self.capacity {
            if self.ghost_mru.len() == 0 {
                self
            } else {
                ArcView {
                    mru: self.mru.insert(0, added),
                    ghost_mru: self.ghost_mru.drop_last(),
                    ..self
                }
            }
        } else if self.mru.len() + self.ghost_mru.len() + self.mfu.len() + self.ghost_mfu.len() == 2
            * self.capacity {
            if self.ghost_mfu.len() == 0 {
                self
            } else {
                ArcView {
                    mru: self.mru.insert(0, added),
                    ghost_mfu: self.ghost_mfu.drop_last(),
                    ..self
                }
            }
        } else {
            ArcView { mru: self.mru.insert(0, added), ..self }
        }
    }

    /// The state after `page`, which sits in `frame`, was accessed.
    pub open spec fn accessed(self, frame: usize, page: usize) -> ArcView {
        if self.mru_slot(page) is Some {
            let i = self.mru_slot(page)->0;
            let moved = Resident { page, frame, evictable: self.mru[i].evictable };
            ArcView { mru: self.mru.remove(i), mfu: self.mfu.insert(0, moved), ..self }
        } else if self.mfu_slot(page) is Some {
            let i = self.mfu_slot(page)->0;
            let moved = Resident { page, frame, evictable: self.mfu[i].evictable };
            ArcView { mfu: self.mfu.remove(i).insert(0, moved), ..self }
        } else if self.ghost_mru.contains(page) {
            (ArcView { target: self.target_up(), ..self }).ghost_hit(frame, page)
        } else if self.ghost_mfu.contains(page) {
            (ArcView { target: self.target_down(), ..self }).ghost_hit(frame, page)
        } else {
            self.missed(frame, page)
        }
    }

    /// The state after the page in `frame` was marked.
    pub open spec fn marked(self, frame: usize, evictable: bool) -> ArcView {
        let mark = |r: Resident|
            if r.frame == frame {
                Resident { evictable, ..r }
            } else {
                r
            };
        ArcView { mru: self.mru.map_values(mark), mfu: self.mfu.map_values(mark), ..self }
    }

    /// `frame` holds no page, or `page`; and `page` sits in no other frame.
    pub open spec fn fits(self, frame: usize, page: usize) -> bool {
        forall|i: int|
            0 <= i < self.resident().len() ==> ((#[trigger] self.resident()[i]).frame == frame
                <==> self.resident()[i].page == page)
    }

    /// No page and no frame is tracked twice, and the lists keep their bounds.
    pub open spec fn valid(self) -> bool {
        &&& forall|i: int, j: int|
            0 <= i < j < self.resident().len() ==> (#[trigger] self.resident()[i]).page
                != (#[trigger] self.resident()[j]).page && self.resident()[i].frame
                != self.resident()[j].frame
        &&& self.ghost_mru.no_duplicates()
        &&& self.ghost_mfu.no_duplicates()
        &&& forall|p: usize| self.ghost_mru.contains(p) ==> !#[trigger] self.ghost_mfu.contains(p)
        &&& forall|i: int|
            0 <= i < self.resident().len() ==> !self.ghost_mru.contains(
                (#[trigger] self.resident()[i]).page,
            ) && !self.ghost_mfu.contains(self.resident()[i].page)
        &&& 0 <= self.target <= self.capacity
        &&& self.mru.len() + self.ghost_mru.len() <= self.capacity
        &&& self.mru.len() + self.ghost_mru.len() + self.mfu.len() + self.ghost_mfu.len() <= 2
            * self.capacity
    }
}

/// ARC keeps two lists of cached pages, two lists of recently evicted ones, and a target for
/// the length of the first list that adapts to the workload.
pub struct ArcReplacer {
    nodes: Vec<Node>,
    page_indices: HashMap<usize, usize>,
    frame_indices: HashMap<usize, usize>,
    mru_list: ListHead,
    mfu_list: ListHead,
    mru_ghost_list: ListHead,
    mfu_ghost_list: ListHead,
    mru_target_size: usize,
    capacity: usize,
    curr_size: usize,
}

#[verifier::opaque]
spec fn list_ok(h: ListHead, nodes: Seq<Node>, kind: ArcList) -> bool {
    let ids = h.ids@;
    &&& h.length == ids.len()
    &&& ids.no_duplicates()
    &&& h.head == if ids.len() == 0 { None } else { Some(ids[0]) }
    &&& h.tail == if ids.len() == 0 { None } else { Some(ids.last()) }
    &&& forall|i: int|
        0 <= i < ids.len() ==> {
            let id = #[trigger] ids[i];
            &&& id < nodes.len()
            &&& nodes[id as int].list == kind
            &&& nodes[id as int].prev == if i == 0 { None } else { Some(ids[i - 1]) }
            &&& nodes[id as int].next == if i == ids.len() - 1 { None } else { Some(ids[i + 1]) }
        }
}

spec fn resident_of(n: Node) -> Resident {
    Resident { page: n.page_id, frame: n.frame_id->0, evictable: n.evictable }
}

spec fn residents(ids: Seq<usize>, nodes: Seq<Node>) -> Seq<Resident> {
    ids.map_values(|id: usize| resident_of(nodes[id as int]))
}

spec fn pages(ids: Seq<usize>, nodes: Seq<Node>) -> Seq<usize> {
    ids.map_values(|id: usize| nodes[id as int].page_id)
}

/// The nodes of both agree but for their links and lists.
spec fn same_contents(a: Seq<Node>, b: Seq<Node>) -> bool {
    &&& a.len() == b.len()
    &&& forall|i: int|
        #![trigger a[i]]
        #![trigger b[i]]
        0 <= i < a.len() ==> a[i].page_id == b[i].page_id && a[i].frame_id == b[i].frame_id
            && a[i].evictable == b[i].evictable
}

impl ArcReplacer {
    spec fn head_of(&self, kind: ArcList) -> ListHead {
        match kind {
            ArcList::Mru => self.mru_list,
            ArcList::Mfu => self.mfu_list,
            ArcList::GhostMru => self.mru_ghost_list,
            ArcList::GhostMfu => self.mfu_ghost_list,
        }
    }

    spec fn ids(&self, kind: ArcList) -> Seq<usize> {
        self.head_of(kind).ids@
    }

    /// All four lists are properly linked.
    spec fn linked(&self) -> bool {
        forall|kind: ArcList| list_ok(#[trigger] self.head_of(kind), self.nodes@, kind)
    }

    /// `id` stands on the list that its node names.
    spec fn listed(&self, id: usize) -> bool {
        id < self.nodes@.len() && self.ids(self.nodes@[id as int].list).contains(id)
    }

    spec fn in_frame(&self, id: usize) -> bool {
        self.nodes@[id as int].list == ArcList::Mru || self.nodes@[id as int].list == ArcList::Mfu
    }

    spec fn indexed(&self) -> bool {
        &&& forall|p: usize| #[trigger]
            self.page_indices@.contains_key(p) ==> self.listed(self.page_indices@[p])
                && self.nodes@[self.page_indices@[p] as int].page_id == p
        &&& forall|id: usize| #[trigger]
            self.listed(id) ==> self.page_indices@.contains_key(self.nodes@[id as int].page_id)
                && self.page_indices@[self.nodes@[id as int].page_id] == id
        &&& forall|f: usize| #[trigger]
            self.frame_indices@.contains_key(f) ==> self.listed(self.frame_indices@[f])
                && self.in_frame(self.frame_indices@[f])
                && self.nodes@[self.frame_indices@[f] as int].frame_id == Some(f)
        &&& forall|id: usize| #[trigger]
            self.listed(id) ==> if self.in_frame(id) {
                &&& self.nodes@[id as int].frame_id is Some
                &&& self.frame_indices@.contains_key(self.nodes@[id as int].frame_id->0)
                &&& self.frame_indices@[self.nodes@[id as int].frame_id->0] == id
            } else {
                self.nodes@[id as int].frame_id is None
            }
    }

    /// The lists, the two indices and the counters agree.
    pub closed spec fn wf(&self) -> bool {
        &&& self.linked()
        &&& self.indexed()
        &&& self.curr_size == evictable_count(self@.resident())
        &&& self.mru_target_size <= self.capacity
        &&& self.ids(ArcList::Mru).len() + self.ids(ArcList::GhostMru).len() <= self.capacity
        &&& self.ids(ArcList::Mru).len() + self.ids(ArcList::GhostMru).len() + self.ids(
            ArcList::Mfu,
        ).len() + self.ids(ArcList::GhostMfu).len() <= 2 * self.capacity
        &&& self.capacity <= usize::MAX / 4
    }
}

impl View for ArcReplacer {
    type V = ArcView;

    closed spec fn view(&self) -> ArcView {
        ArcView {
            mru: residents(self.mru_list.ids@, self.nodes@),
            mfu: residents(self.mfu_list.ids@, self.nodes@),
            ghost_mru: pages(self.mru_ghost_list.ids@, self.nodes@),
            ghost_mfu: pages(self.mfu_ghost_list.ids@, self.nodes@),
            target: self.mru_target_size as int,
            capacity: self.capacity as int,
        }
    }
}

impl ArcReplacer {
    /// Removes a node from its list.
    fn detach(&mut self, node_idx: usize)
        requires
            old(self).linked(),
            old(self).listed(node_idx),
        ensures
            final(self).linked(),
            same_contents(old(self).nodes@, final(self).nodes@),
            forall|i: int|
                0 <= i < old(self).nodes@.len() ==> #[trigger] final(self).nodes@[i].list == old(self).nodes@[i].list,
            forall|kind: ArcList|
                kind != old(self).nodes@[node_idx as int].list ==> #[trigger] final(self).ids(kind)
                    == old(self).ids(kind),
            final(self).ids(old(self).nodes@[node_idx as int].list) == old(self).ids(
                old(self).nodes@[node_idx as int].list,
            ).remove(
                old(self).ids(old(self).nodes@[node_idx as int].list).index_of(node_idx),
            ),
            final(self).page_indices == old(self).page_indices,
            final(self).frame_indices == old(self).frame_indices,
            final(self).mru_target_size == old(self).mru_target_size,
            final(self).capacity == old(self).capacity,
            final(self).curr_size == old(self).curr_size,
    {
        let ghost s0 = *self;
        let node = self.nodes[node_idx];
        let kind = node.list;
        let next = node.next;
        let prev = node.prev;
        let ghost ids = self.ids(kind);
        let ghost at = ids.index_of(node_idx);
        let ghost nodes0 = self.nodes@;
        assert(list_ok(self.head_of(kind), self.nodes@, kind));
        assert(0 <= at < ids.len() && ids[at] == node_idx);
        proof {
            lemma_node_at(self.head_of(kind), self.nodes@, kind, at);
        }
        let list = self.list_mut(kind);
        if list.head == Some(node_idx) {
            list.head = next;
        }
        if list.tail == Some(node_idx) {
            list.tail = prev;
        }
        list.length = list.length - 1;
        list.ids = Ghost(ids.remove(at));
        let ghost s1 = *self;
        if let Some(p) = prev {
            let mut other = self.nodes[p];
            other.next = next;
            self.nodes.set(p, other);
        }
        if let Some(n) = next {
            let mut other = self.nodes[n];
            other.prev = prev;
            self.nodes.set(n, other);
        }
        let mut gone = self.nodes[node_idx];
        gone.prev = None;
        gone.next = None;
        self.nodes.set(node_idx, gone);
        proof {
            assert(self.nodes@ == unlinked(nodes0, node_idx));
            assert forall|k: ArcList| list_ok(#[trigger] self.head_of(k), self.nodes@, k) by {
                assert(list_ok(s0.head_of(k), nodes0, k));
                if k == kind {
                    assert(s1.head_of(k) == self.head_of(k));
                    lemma_detached(s0.head_of(k), self.head_of(k), nodes0, kind, at);
                } else {
                    assert(s1.head_of(k) == s0.head_of(k));
                    assert(self.head_of(k) == s0.head_of(k));
                    lemma_other_detached(s0.head_of(k), s0.head_of(kind), nodes0, k, kind, at);
                }
            }
            assert forall|k: ArcList| k != kind implies #[trigger] self.ids(k) == s0.ids(k) by {
                assert(s1.head_of(k) == s0.head_of(k));
            }
            assert(s1.head_of(kind) == self.head_of(kind));
        }
    }

    fn list_mut(&mut self, list: ArcList) -> (res: &mut ListHead)
        ensures
            *res == old(self).head_of(list),
            final(self).head_of(list) == *final(res),
            forall|k: ArcList|
                k != list ==> #[trigger] final(self).head_of(k) == old(self).head_of(k),
            final(self).nodes == old(self).nodes,
            final(self).page_indices == old(self).page_indices,
            final(self).frame_indices == old(self).frame_indices,
            final(self).mru_target_size == old(self).mru_target_size,
            final(self).capacity == old(self).capacity,
            final(self).curr_size == old(self).curr_size,
    {
        match list {
            ArcList::Mfu => &mut self.mfu_list,
            ArcList::Mru => &mut self.mru_list,
            ArcList::GhostMru => &mut self.mru_ghost_list,
            ArcList::GhostMfu => &mut self.mfu_ghost_list,
        }
    }

    /// Puts a node that stands on no list at the front of `list`.
    fn push(&mut self, node_idx: usize, list: ArcList)
        requires
            old(self).linked(),
            node_idx < old(self).nodes@.len(),
            forall|kind: ArcList| !(#[trigger] old(self).ids(kind)).contains(node_idx),
            old(self).ids(list).len() < usize::MAX,
        ensures
            final(self).linked(),
            same_contents(old(self).nodes@, final(self).nodes@),
            final(self).nodes@[node_idx as int].list == list,
            forall|i: int|
                0 <= i < old(self).nodes@.len() && i != node_idx ==> #[trigger] final(self).nodes@[i].list == old(self).nodes@[i].list,
            forall|kind: ArcList|
                kind != list ==> #[trigger] final(self).ids(kind) == old(self).ids(kind),
            final(self).ids(list) == old(self).ids(list).insert(0, node_idx),
            final(self).page_indices == old(self).page_indices,
            final(self).frame_indices == old(self).frame_indices,
            final(self).mru_target_size == old(self).mru_target_size,
            final(self).capacity == old(self).capacity,
            final(self).curr_size == old(self).curr_size,
    {
        let ghost s0 = *self;
        let ghost ids = self.ids(list);
        let ghost nodes0 = self.nodes@;
        assert(list_ok(self.head_of(list), self.nodes@, list));
        proof {
            if ids.len() > 0 {
                lemma_node_at(self.head_of(list), self.nodes@, list, 0);
            } else {
                reveal(list_ok);
            }
        }
        let head = self.list_mut(list);
        let old_head = head.head;
        if old_head.is_none() {
            head.tail = Some(node_idx);
        }
        head.head = Some(node_idx);
        head.length = head.length + 1;
        head.ids = Ghost(ids.insert(0, node_idx));
        let ghost s1 = *self;
        let mut added = self.nodes[node_idx];
        added.list = list;
        added.prev = None;
        added.next = old_head;
        self.nodes.set(node_idx, added);
        if let Some(h) = old_head {
            let mut other = self.nodes[h];
            other.prev = Some(node_idx);
            self.nodes.set(h, other);
        }
        proof {
            assert(!s0.ids(list).contains(node_idx));
            assert(self.nodes@ == pushed(nodes0, node_idx, list, old_head));
            assert forall|k: ArcList| list_ok(#[trigger] self.head_of(k), self.nodes@, k) by {
                assert(list_ok(s0.head_of(k), nodes0, k));
                assert(!s0.ids(k).contains(node_idx));
                if k == list {
                    assert(s1.head_of(k) == self.head_of(k));
                    lemma_pushed(s0.head_of(k), self.head_of(k), nodes0, k, node_idx);
                } else {
                    assert(s1.head_of(k) == s0.head_of(k));
                    assert(self.head_of(k) == s0.head_of(k));
                    lemma_other_pushed(
                        s0.head_of(k),
                        s0.head_of(list),
                        nodes0,
                        k,
                        list,
                        node_idx,
                    );
                }
            }
            assert forall|k: ArcList| k != list implies #[trigger] self.ids(k) == s0.ids(k) by {
                assert(s1.head_of(k) == s0.head_of(k));
            }
            assert(s1.head_of(list) == self.head_of(list));
        }
    }
}

/// What holds of a node on a list and its neighbours.
proof fn lemma_node_at(h: ListHead, nodes: Seq<Node>, kind: ArcList, at: int)
    requires
        list_ok(h, nodes, kind),
        0 <= at < h.ids@.len(),
    ensures
        h.length == h.ids@.len(),
        h.ids@.no_duplicates(),
        h.head == Some(h.ids@[0]),
        h.tail == Some(h.ids@.last()),
        h.ids@[at] < nodes.len(),
        nodes[h.ids@[at] as int].list == kind,
        nodes[h.ids@[at] as int].prev == if at == 0 {
            None
        } else {
            Some(h.ids@[at - 1])
        },
        nodes[h.ids@[at] as int].next == if at == h.ids@.len() - 1 {
            None
        } else {
            Some(h.ids@[at + 1])
        },
        at > 0 ==> h.ids@[at - 1] < nodes.len(),
        at < h.ids@.len() - 1 ==> h.ids@[at + 1] < nodes.len(),
{
    reveal(list_ok);
    if at > 0 {
        assert(h.ids@[at - 1] < nodes.len());
    }
    if at < h.ids@.len() - 1 {
        assert(h.ids@[at + 1] < nodes.len());
    }
}

/// The nodes after node `id` was linked out.
spec fn unlinked(nodes: Seq<Node>, id: usize) -> Seq<Node> {
    let next = nodes[id as int].next;
    let prev = nodes[id as int].prev;
    let a = match prev {
        Some(p) => nodes.update(p as int, Node { next, ..nodes[p as int] }),
        None => nodes,
    };
    let b = match next {
        Some(n) => a.update(n as int, Node { prev, ..a[n as int] }),
        None => a,
    };
    b.update(id as int, Node { prev: None, next: None, ..b[id as int] })
}

/// The nodes after node `id` was put in front of `old_head`.
spec fn pushed(nodes: Seq<Node>, id: usize, list: ArcList, old_head: Option<usize>) -> Seq<Node> {
    let a = nodes.update(
        id as int,
        Node { list, prev: None, next: old_head, ..nodes[id as int] },
    );
    match old_head {
        Some(h) => a.update(h as int, Node { prev: Some(id), ..a[h as int] }),
        None => a,
    }
}

proof fn lemma_detached(h0: ListHead, h1: ListHead, nodes: Seq<Node>, kind: ArcList, at: int)
    requires
        list_ok(h0, nodes, kind),
        0 <= at < h0.ids@.len(),
        h1.ids@ == h0.ids@.remove(at),
        h1.length == h0.length - 1,
        h1.head == if h0.head == Some(h0.ids@[at]) {
            nodes[h0.ids@[at] as int].next
        } else {
            h0.head
        },
        h1.tail == if h0.tail == Some(h0.ids@[at]) {
            nodes[h0.ids@[at] as int].prev
        } else {
            h0.tail
        },
    ensures
        list_ok(h1, unlinked(nodes, h0.ids@[at]), kind),
{
    reveal(list_ok);
    let ids = h0.ids@;
    let new_ids = h1.ids@;
    let nodes1 = unlinked(nodes, ids[at]);
    assert(ids[at] < nodes.len());
    if at > 0 {
        assert(ids[at - 1] < nodes.len());
        assert(ids[at - 1] != ids[at]);
        assert(ids[0] != ids[at]);
    }
    if at < ids.len() - 1 {
        assert(ids[at + 1] < nodes.len());
        assert(ids[at + 1] != ids[at]);
        assert(ids[ids.len() - 1] != ids[at]);
    }
    assert forall|i: int, j: int|
        0 <= i < new_ids.len() && 0 <= j < new_ids.len() && i != j implies new_ids[i]
        != new_ids[j] by {
        let a = if i < at { i } else { i + 1 };
        let b = if j < at { j } else { j + 1 };
        assert(ids[a] != ids[b]);
    }
    assert forall|i: int| 0 <= i < new_ids.len() implies {
        let id = #[trigger] new_ids[i];
        &&& id < nodes1.len()
        &&& nodes1[id as int].list == kind
        &&& nodes1[id as int].prev == if i == 0 {
            None
        } else {
            Some(new_ids[i - 1])
        }
        &&& nodes1[id as int].next == if i == new_ids.len() - 1 {
            None
        } else {
            Some(new_ids[i + 1])
        }
    } by {
        let a = if i < at { i } else { i + 1 };
        assert(new_ids[i] == ids[a]);
        assert(ids[a] < nodes.len());
        assert(ids[a] != ids[at]);
        if at > 0 && a != at - 1 {
            assert(ids[a] != ids[at - 1]);
        }
        if at < ids.len() - 1 && a != at + 1 {
            assert(ids[a] != ids[at + 1]);
        }
    }
}

proof fn lemma_other_detached(
    other: ListHead,
    h0: ListHead,
    nodes: Seq<Node>,
    other_kind: ArcList,
    kind: ArcList,
    at: int,
)
    requires
        list_ok(other, nodes, other_kind),
        list_ok(h0, nodes, kind),
        kind != other_kind,
        0 <= at < h0.ids@.len(),
    ensures
        list_ok(other, unlinked(nodes, h0.ids@[at]), other_kind),
{
    reveal(list_ok);
    let ids = h0.ids@;
    let nodes1 = unlinked(nodes, ids[at]);
    assert(nodes[ids[at] as int].list == kind);
    if at > 0 {
        assert(nodes[ids[at - 1] as int].list == kind);
    }
    if at < ids.len() - 1 {
        assert(nodes[ids[at + 1] as int].list == kind);
    }
    assert forall|i: int| 0 <= i < other.ids@.len() implies nodes1[(
    #[trigger] other.ids@[i]) as int] == nodes[other.ids@[i] as int] by {
        assert(nodes[other.ids@[i] as int].list == other_kind);
    }
}

proof fn lemma_pushed(h0: ListHead, h1: ListHead, nodes: Seq<Node>, kind: ArcList, id: usize)
    requires
        list_ok(h0, nodes, kind),
        id < nodes.len(),
        !h0.ids@.contains(id),
        h1.ids@ == h0.ids@.insert(0, id),
        h1.length == h0.length + 1,
        h1.head == Some(id),
        h1.tail == if h0.head is None {
            Some(id)
        } else {
            h0.tail
        },
    ensures
        list_ok(h1, pushed(nodes, id, kind, h0.head), kind),
{
    reveal(list_ok);
    let ids = h0.ids@;
    let new_ids = h1.ids@;
    let nodes1 = pushed(nodes, id, kind, h0.head);
    assert forall|k: int| 0 <= k < ids.len() implies #[trigger] ids[k] != id by {
        assert(ids.contains(ids[k]));
    }
    assert forall|i: int, j: int|
        0 <= i < new_ids.len() && 0 <= j < new_ids.len() && i != j implies new_ids[i]
        != new_ids[j] by {
        if i > 0 && j > 0 {
            assert(ids[i - 1] != ids[j - 1]);
        } else if i > 0 {
            assert(ids[i - 1] != id);
        } else {
            assert(ids[j - 1] != id);
        }
    }
    assert forall|i: int| 0 <= i < new_ids.len() implies {
        let x = #[trigger] new_ids[i];
        &&& x < nodes1.len()
        &&& nodes1[x as int].list == kind
        &&& nodes1[x as int].prev == if i == 0 {
            None
        } else {
            Some(new_ids[i - 1])
        }
        &&& nodes1[x as int].next == if i == new_ids.len() - 1 {
            None
        } else {
            Some(new_ids[i + 1])
        }
    } by {
        if i > 0 {
            assert(new_ids[i] == ids[i - 1]);
            assert(ids[i - 1] < nodes.len());
            if i > 1 {
                assert(ids[i - 1] != ids[0]);
            }
        } else if ids.len() > 0 {
            assert(ids[0] < nodes.len());
        }
    }
    if ids.len() > 0 {
        assert(new_ids.last() == ids.last());
    }
}

proof fn lemma_other_pushed(
    other: ListHead,
    h0: ListHead,
    nodes: Seq<Node>,
    other_kind: ArcList,
    kind: ArcList,
    id: usize,
)
    requires
        list_ok(other, nodes, other_kind),
        list_ok(h0, nodes, kind),
        kind != other_kind,
        id < nodes.len(),
        !other.ids@.contains(id),
    ensures
        list_ok(other, pushed(nodes, id, kind, h0.head), other_kind),
{
    reveal(list_ok);
    let nodes1 = pushed(nodes, id, kind, h0.head);
    if h0.ids@.len() > 0 {
        assert(nodes[h0.ids@[0] as int].list == kind);
    }
    assert forall|i: int| 0 <= i < other.ids@.len() implies nodes1[(
    #[trigger] other.ids@[i]) as int] == nodes[other.ids@[i] as int] by {
        assert(nodes[other.ids@[i] as int].list == other_kind);
        assert(other.ids@.contains(other.ids@[i]));
    }
}

proof fn lemma_remove_contains<A>(s: Seq<A>, at: int)
    requires
        s.no_duplicates(),
        0 <= at < s.len(),
    ensures
        forall|x: A| #[trigger] s.remove(at).contains(x) <==> s.contains(x) && x != s[at],
        s.remove(at).no_duplicates(),
{
    let t = s.remove(at);
    assert forall|x: A| #[trigger] t.contains(x) <==> s.contains(x) && x != s[at] by {
        if t.contains(x) {
            let k = choose|k: int| 0 <= k < t.len() && t[k] == x;
            let j = if k < at { k } else { k + 1 };
            assert(s[j] == x);
        }
        if s.contains(x) && x != s[at] {
            let k = choose|k: int| 0 <= k < s.len() && s[k] == x;
            let j = if k < at { k } else { k - 1 };
            assert(t[j] == x);
        }
    }
    assert forall|i: int, j: int| 0 <= i < t.len() && 0 <= j < t.len() && i != j implies t[i]
        != t[j] by {
        let a = if i < at { i } else { i + 1 };
        let b = if j < at { j } else { j + 1 };
        assert(s[a] != s[b]);
    }
}

proof fn lemma_insert_contains<A>(s: Seq<A>, y: A)
    ensures
        forall|x: A| #[trigger] s.insert(0, y).contains(x) <==> s.contains(x) || x == y,
{
    let t = s.insert(0, y);
    assert forall|x: A| #[trigger] t.contains(x) <==> s.contains(x) || x == y by {
        if t.contains(x) {
            let k = choose|k: int| 0 <= k < t.len() && t[k] == x;
            if k > 0 {
                assert(s[k - 1] == x);
            }
        }
        if s.contains(x) {
            let k = choose|k: int| 0 <= k < s.len() && s[k] == x;
            assert(t[k + 1] == x);
        }
        if x == y {
            assert(t[0] == x);
        }
    }
}

proof fn lemma_count_concat(a: Seq<Resident>, b: Seq<Resident>)
    ensures
        evictable_count(a + b) == evictable_count(a) + evictable_count(b),
    decreases b.len(),
{
    if b.len() == 0 {
        assert(a + b =~= a);
    } else {
        lemma_count_concat(a, b.drop_last());
        assert((a + b).drop_last() =~= a + b.drop_last());
    }
}

proof fn lemma_count_one(r: Resident)
    ensures
        evictable_count(seq![r]) == if r.evictable {
            1nat
        } else {
            0nat
        },
{
    assert(seq![r].drop_last() =~= Seq::<Resident>::empty());
    assert(evictable_count(Seq::<Resident>::empty()) == 0);
}

proof fn lemma_count_remove(s: Seq<Resident>, at: int)
    requires
        0 <= at < s.len(),
    ensures
        evictable_count(s) == evictable_count(s.remove(at)) + if s[at].evictable {
            1nat
        } else {
            0nat
        },
{
    let l = s.subrange(0, at);
    let r = s.subrange(at + 1, s.len() as int);
    assert(s =~= l + (seq![s[at]] + r));
    assert(s.remove(at) =~= l + r);
    lemma_count_concat(l, seq![s[at]] + r);
    lemma_count_concat(seq![s[at]], r);
    lemma_count_concat(l, r);
    lemma_count_one(s[at]);
}

proof fn lemma_count_insert(s: Seq<Resident>, r: Resident)
    ensures
        evictable_count(s.insert(0, r)) == evictable_count(s) + if r.evictable {
            1nat
        } else {
            0nat
        },
{
    assert(s.insert(0, r) =~= seq![r] + s);
    lemma_count_concat(seq![r], s);
    lemma_count_one(r);
}

proof fn lemma_count_update(s: Seq<Resident>, at: int, r: Resident)
    requires
        0 <= at < s.len(),
    ensures
        evictable_count(s.update(at, r)) + if s[at].evictable {
            1nat
        } else {
            0nat
        } == evictable_count(s) + if r.evictable {
            1nat
        } else {
            0nat
        },
{
    lemma_count_remove(s, at);
    lemma_count_remove(s.update(at, r), at);
    assert(s.update(at, r).remove(at) =~= s.remove(at));
}

/// What `victim` finds.
pub proof fn lemma_victim(s: Seq<Resident>)
    ensures
        match victim(s) {
            Some(i) => 0 <= i < s.len() && s[i].evictable && forall|j: int|
                i < j < s.len() ==> !(#[trigger] s[j]).evictable,
            None => forall|j: int| 0 <= j < s.len() ==> !(#[trigger] s[j]).evictable,
        },
    decreases s.len(),
{
    if s.len() > 0 && !s.last().evictable {
        lemma_victim(s.drop_last());
        let t = s.drop_last();
        assert forall|j: int|
            (match victim(s) {
                Some(i) => i,
                None => -1,
            }) < j < s.len() implies !(#[trigger] s[j]).evictable by {
            if j < t.len() {
                assert(!t[j].evictable);
            }
        }
    }
}

impl ArcReplacer {
    /// A node stands on the list that it names and on no other one.
    proof fn lemma_on_list(&self, kind: ArcList)
        requires
            self.linked(),
        ensures
            self.ids(kind).no_duplicates(),
            self.head_of(kind).length == self.ids(kind).len(),
            forall|id: usize| #[trigger]
                self.ids(kind).contains(id) ==> id < self.nodes@.len()
                    && self.nodes@[id as int].list == kind && self.listed(id),
            forall|i: int|
                0 <= i < self.ids(kind).len() ==> (#[trigger] self.ids(kind)[i])
                    < self.nodes@.len() && self.nodes@[self.ids(kind)[i] as int].list == kind
                    && self.listed(self.ids(kind)[i]),
    {
        let h = self.head_of(kind);
        assert(list_ok(h, self.nodes@, kind));
        assert(h.ids@.no_duplicates() && h.length == h.ids@.len()) by {
            reveal(list_ok);
        }
        assert forall|i: int| 0 <= i < self.ids(kind).len() implies (#[trigger] self.ids(kind)[i])
            < self.nodes@.len() && self.nodes@[self.ids(kind)[i] as int].list == kind
            && self.listed(self.ids(kind)[i]) by {
            lemma_node_at(h, self.nodes@, kind, i);
            assert(self.ids(kind).contains(self.ids(kind)[i]));
        }
    }

    /// Moves a node to the front of `list`.
    fn move_to_front(&mut self, node_idx: usize, list: ArcList)
        requires
            old(self).linked(),
            old(self).listed(node_idx),
            old(self).ids(list).len() < usize::MAX,
        ensures
            final(self).linked(),
            same_contents(old(self).nodes@, final(self).nodes@),
            final(self).nodes@[node_idx as int].list == list,
            forall|i: int|
                0 <= i < old(self).nodes@.len() && i != node_idx ==> #[trigger] final(
                    self).nodes@[i].list == old(self).nodes@[i].list,
            forall|id: usize| #[trigger] final(self).listed(id) == old(self).listed(id),
            ({
                let kind = old(self).nodes@[node_idx as int].list;
                let rest = old(self).ids(kind).remove(old(self).ids(kind).index_of(node_idx));
                if kind == list {
                    final(self).ids(list) == rest.insert(0, node_idx)
                } else {
                    final(self).ids(kind) == rest && final(self).ids(list) == old(self).ids(
                        list,
                    ).insert(0, node_idx)
                }
            }),
            forall|kind: ArcList|
                kind != list && kind != old(self).nodes@[node_idx as int].list
                    ==> #[trigger] final(self).ids(kind) == old(self).ids(kind),
            final(self).page_indices == old(self).page_indices,
            final(self).frame_indices == old(self).frame_indices,
            final(self).mru_target_size == old(self).mru_target_size,
            final(self).capacity == old(self).capacity,
            final(self).curr_size == old(self).curr_size,
    {
        let ghost s0 = *self;
        let ghost kind = self.nodes@[node_idx as int].list;
        let ghost at = s0.ids(kind).index_of(node_idx);
        proof {
            s0.lemma_on_list(kind);
            lemma_remove_contains(s0.ids(kind), at);
        }
        self.detach(node_idx);
        let ghost s1 = *self;
        proof {
            assert forall|k: ArcList| !(#[trigger] s1.ids(k)).contains(node_idx) by {
                s0.lemma_on_list(k);
            }
            assert(s1.ids(list).len() <= s0.ids(list).len());
        }
        self.push(node_idx, list);
        proof {
            lemma_insert_contains(s1.ids(list), node_idx);
            assert forall|id: usize| #[trigger] self.listed(id) == s0.listed(id) by {
                if id < self.nodes@.len() && id != node_idx {
                    let k = s0.nodes@[id as int].list;
                    assert(s1.nodes@[id as int].list == k);
                    assert(self.nodes@[id as int].list == k);
                    if k == kind {
                        assert(s1.ids(k).contains(id) == s0.ids(k).contains(id));
                    } else {
                        assert(s1.ids(k) == s0.ids(k));
                    }
                    if k == list {
                        assert(self.ids(k).contains(id) == s1.ids(k).contains(id));
                    } else {
                        assert(self.ids(k) == s1.ids(k));
                    }
                }
                if id == node_idx {
                    assert(self.ids(list).contains(id));
                }
            }
        }
    }

    /// What the state says of any tracked page.
    pub proof fn lemma_valid(&self)
        requires
            self.wf(),
        ensures
            self@.valid(),
    {
        let v = self@;
        let n = self.nodes@;
        self.lemma_on_list(ArcList::Mru);
        self.lemma_on_list(ArcList::Mfu);
        self.lemma_on_list(ArcList::GhostMru);
        self.lemma_on_list(ArcList::GhostMfu);
        let mru = self.ids(ArcList::Mru);
        let mfu = self.ids(ArcList::Mfu);
        let gmru = self.ids(ArcList::GhostMru);
        let gmfu = self.ids(ArcList::GhostMfu);
        let both = mru + mfu;
        assert forall|i: int| 0 <= i < both.len() implies self.listed(#[trigger] both[i])
            && self.in_frame(both[i]) && v.resident()[i] == resident_of(n[both[i] as int]) by {
            if i < mru.len() {
                assert(both[i] == mru[i]);
            } else {
                assert(both[i] == mfu[i - mru.len()]);
            }
        }
        assert forall|i: int, j: int| 0 <= i < j < both.len() implies both[i] != both[j] by {
            if j < mru.len() {
                assert(mru[i] != mru[j]);
            } else if i >= mru.len() {
                assert(mfu[i - mru.len()] != mfu[j - mru.len()]);
            } else {
                assert(n[mru[i] as int].list == ArcList::Mru);
                assert(n[mfu[j - mru.len()] as int].list == ArcList::Mfu);
            }
        }
        assert forall|i: int, j: int| 0 <= i < j < v.resident().len() implies (
        #[trigger] v.resident()[i]).page != (#[trigger] v.resident()[j]).page
            && v.resident()[i].frame != v.resident()[j].frame by {
            assert(both[i] != both[j]);
            assert(self.listed(both[i]) && self.listed(both[j]));
        }
        assert forall|i: int, j: int|
            0 <= i < v.ghost_mru.len() && 0 <= j < v.ghost_mru.len() && i
                != j implies v.ghost_mru[i] != v.ghost_mru[j] by {
            assert(gmru[i] != gmru[j]);
            assert(self.listed(gmru[i]) && self.listed(gmru[j]));
        }
        assert forall|i: int, j: int|
            0 <= i < v.ghost_mfu.len() && 0 <= j < v.ghost_mfu.len() && i
                != j implies v.ghost_mfu[i] != v.ghost_mfu[j] by {
            assert(gmfu[i] != gmfu[j]);
            assert(self.listed(gmfu[i]) && self.listed(gmfu[j]));
        }
        assert forall|p: usize| v.ghost_mru.contains(p) implies !#[trigger] v.ghost_mfu.contains(
            p,
        ) by {
            let i = choose|i: int| 0 <= i < v.ghost_mru.len() && v.ghost_mru[i] == p;
            assert(self.listed(gmru[i]));
            if v.ghost_mfu.contains(p) {
                let j = choose|j: int| 0 <= j < v.ghost_mfu.len() && v.ghost_mfu[j] == p;
                assert(self.listed(gmfu[j]));
            }
        }
        assert forall|i: int| 0 <= i < v.resident().len() implies !v.ghost_mru.contains(
            (#[trigger] v.resident()[i]).page,
        ) && !v.ghost_mfu.contains(v.resident()[i].page) by {
            let p = v.resident()[i].page;
            assert(self.listed(both[i]));
            if v.ghost_mru.contains(p) {
                let j = choose|j: int| 0 <= j < v.ghost_mru.len() && v.ghost_mru[j] == p;
                assert(self.listed(gmru[j]));
            }
            if v.ghost_mfu.contains(p) {
                let j = choose|j: int| 0 <= j < v.ghost_mfu.len() && v.ghost_mfu[j] == p;
                assert(self.listed(gmfu[j]));
            }
        }
    }

    pub fn new(cap: usize) -> (res: Self)
        requires
            cap <= usize::MAX / 4,
        ensures
            res.wf(),
            res@ == (ArcView {
                mru: seq![],
                mfu: seq![],
                ghost_mru: seq![],
                ghost_mfu: seq![],
                target: 0,
                capacity: cap as int,
            }),
    {
        let res = Self {
            nodes: Vec::with_capacity(cap),
            page_indices: HashMap::new(),
            frame_indices: HashMap::new(),
            mru_list: ListHead::empty(),
            mfu_list: ListHead::empty(),
            mru_ghost_list: ListHead::empty(),
            mfu_ghost_list: ListHead::empty(),
            mru_target_size: 0,
            capacity: cap,
            curr_size: 0,
        };
        proof {
            reveal(list_ok);
            assert forall|id: usize| !res.listed(id) by {}
            assert(res@.mru =~= seq![]);
            assert(res@.mfu =~= seq![]);
            assert(res@.ghost_mru =~= seq![]);
            assert(res@.ghost_mfu =~= seq![]);
            assert(res@.resident() =~= seq![]);
        }
        res
    }

    /// The number of frames that may be evicted.
    pub fn size(&self) -> (res: usize)
        requires
            self.wf(),
        ensures
            res == evictable_count(self@.resident()),
    {
        self.curr_size
    }

    fn is_full(&self) -> (res: bool)
        requires
            self.wf(),
        ensures
            res == self@.is_full(),
    {
        proof {
            self.lemma_on_list(ArcList::Mru);
            self.lemma_on_list(ArcList::Mfu);
        }
        self.mru_list.length + self.mfu_list.length >= self.capacity
    }
}

impl ListHead {
    fn empty() -> (res: Self)
        ensures
            res.head is None,
            res.tail is None,
            res.length == 0,
            res.ids@ == Seq::<usize>::empty(),
    {
        ListHead { head: None, tail: None, length: 0, ids: Ghost(Seq::empty()) }
    }
}

/// The nodes agree on what the pages of `ids` are.
proof fn lemma_same_residents(ids: Seq<usize>, a: Seq<Node>, b: Seq<Node>)
    requires
        same_contents(a, b),
        forall|i: int| 0 <= i < ids.len() ==> #[trigger] ids[i] < a.len(),
    ensures
        residents(ids, a) == residents(ids, b),
        pages(ids, a) == pages(ids, b),
{
    assert(residents(ids, a) =~= residents(ids, b)) by {
        assert forall|i: int| 0 <= i < ids.len() implies residents(ids, a)[i] == residents(
            ids,
            b,
        )[i] by {
            assert(ids[i] < a.len());
            assert(a[ids[i] as int].page_id == b[ids[i] as int].page_id);
        }
    }
    assert(pages(ids, a) =~= pages(ids, b)) by {
        assert forall|i: int| 0 <= i < ids.len() implies pages(ids, a)[i] == pages(ids, b)[i] by {
            assert(ids[i] < a.len());
            assert(a[ids[i] as int].page_id == b[ids[i] as int].page_id);
        }
    }
}

impl ArcReplacer {
    /// Where a page that sits in a frame stands among the residents.
    proof fn lemma_resident_at(&self, id: usize) -> (pos: int)
        requires
            self.linked(),
            self.listed(id),
            self.in_frame(id),
        ensures
            0 <= pos < self@.resident().len(),
            self@.resident()[pos] == resident_of(self.nodes@[id as int]),
            (self.ids(ArcList::Mru) + self.ids(ArcList::Mfu))[pos] == id,
            self.nodes@[id as int].list == ArcList::Mru ==> pos == self.ids(ArcList::Mru).index_of(
                id,
            ),
            self.nodes@[id as int].list == ArcList::Mfu ==> pos == self.ids(ArcList::Mru).len()
                + self.ids(ArcList::Mfu).index_of(id),
    {
        let kind = self.nodes@[id as int].list;
        let i = self.ids(kind).index_of(id);
        assert(self.ids(kind)[i] == id);
        if kind == ArcList::Mru {
            i
        } else {
            i + self.ids(ArcList::Mru).len()
        }
    }

    /// What the residents are.
    proof fn lemma_residents(&self)
        requires
            self.linked(),
        ensures
            ({
                let both = self.ids(ArcList::Mru) + self.ids(ArcList::Mfu);
                &&& both.len() == self@.resident().len()
                &&& both.no_duplicates()
                &&& forall|i: int|
                    0 <= i < both.len() ==> {
                        &&& self.listed(#[trigger] both[i])
                        &&& self.in_frame(both[i])
                        &&& self@.resident()[i] == resident_of(self.nodes@[both[i] as int])
                    }
            }),
    {
        self.lemma_on_list(ArcList::Mru);
        self.lemma_on_list(ArcList::Mfu);
        let mru = self.ids(ArcList::Mru);
        let mfu = self.ids(ArcList::Mfu);
        let both = mru + mfu;
        assert forall|i: int| 0 <= i < both.len() implies {
            &&& self.listed(#[trigger] both[i])
            &&& self.in_frame(both[i])
            &&& self@.resident()[i] == resident_of(self.nodes@[both[i] as int])
        } by {
            if i < mru.len() {
                assert(both[i] == mru[i]);
            } else {
                assert(both[i] == mfu[i - mru.len()]);
            }
        }
        assert forall|i: int, j: int|
            0 <= i < both.len() && 0 <= j < both.len() && i != j implies both[i] != both[j] by {
            if i < mru.len() && j < mru.len() {
                assert(mru[i] != mru[j]);
            } else if i >= mru.len() && j >= mru.len() {
                assert(mfu[i - mru.len()] != mfu[j - mru.len()]);
            } else if i < mru.len() {
                assert(self.nodes@[mru[i] as int].list == ArcList::Mru);
                assert(self.nodes@[mfu[j - mru.len()] as int].list == ArcList::Mfu);
            } else {
                assert(self.nodes@[mru[j] as int].list == ArcList::Mru);
                assert(self.nodes@[mfu[i - mru.len()] as int].list == ArcList::Mfu);
            }
        }
    }

    /// Marking a frame that is not tracked changes nothing.
    proof fn lemma_untracked(&self, frame_id: usize, evictable: bool)
        requires
            self.wf(),
            !self.frame_indices@.contains_key(frame_id),
        ensures
            self@.marked(frame_id, evictable) == self@,
            forall|i: int|
                0 <= i < self@.resident().len() ==> (#[trigger] self@.resident()[i]).frame
                    != frame_id,
    {
        let v = self@;
        self.lemma_residents();
        let both = self.ids(ArcList::Mru) + self.ids(ArcList::Mfu);
        assert forall|i: int| 0 <= i < v.resident().len() implies (
        #[trigger] v.resident()[i]).frame != frame_id by {
            assert(self.listed(both[i]));
        }
        assert forall|i: int| 0 <= i < v.mru.len() implies (#[trigger] v.mru[i]).frame
            != frame_id by {
            assert(v.resident()[i] == v.mru[i]);
        }
        assert forall|i: int| 0 <= i < v.mfu.len() implies (#[trigger] v.mfu[i]).frame
            != frame_id by {
            assert(v.resident()[v.mru.len() + i] == v.mfu[i]);
        }
        assert(v.marked(frame_id, evictable).mru =~= v.mru);
        assert(v.marked(frame_id, evictable).mfu =~= v.mfu);
    }

    /// The effect of marking the node of a frame on the lists and the view.
    proof fn lemma_marked(self, s1: ArcReplacer, frame_id: usize, evictable: bool)
        requires
            self.wf(),
            self.frame_indices@.contains_key(frame_id),
            ({
                let idx = self.frame_indices@[frame_id] as int;
                s1.nodes@ == self.nodes@.update(idx, Node { evictable, ..self.nodes@[idx] })
            }),
            forall|k: ArcList| #[trigger] s1.head_of(k) == self.head_of(k),
            s1.page_indices == self.page_indices,
            s1.frame_indices == self.frame_indices,
            s1.mru_target_size == self.mru_target_size,
            s1.capacity == self.capacity,
        ensures
            s1.linked(),
            s1.indexed(),
            s1@ == self@.marked(frame_id, evictable),
            evictable_count(s1@.resident()) + if self.nodes@[self.frame_indices@[frame_id] as int].evictable {
                1nat
            } else {
                0nat
            } == evictable_count(self@.resident()) + if evictable {
                1nat
            } else {
                0nat
            },
    {
        let idx = self.frame_indices@[frame_id];
        let v = self@;
        let w = v.marked(frame_id, evictable);
        let pos = self.lemma_resident_at(idx);
        assert forall|k: ArcList| list_ok(#[trigger] s1.head_of(k), s1.nodes@, k) by {
            assert(list_ok(self.head_of(k), self.nodes@, k));
            reveal(list_ok);
        }
        assert forall|id: usize| #[trigger] s1.listed(id) == self.listed(id) by {
            if id < s1.nodes@.len() {
                let k = self.nodes@[id as int].list;
                assert(s1.head_of(k) == self.head_of(k));
                assert(s1.ids(k) == self.ids(k));
            }
        }
        assert(s1.head_of(ArcList::Mru) == self.head_of(ArcList::Mru));
        assert(s1.head_of(ArcList::Mfu) == self.head_of(ArcList::Mfu));
        assert(s1.head_of(ArcList::GhostMru) == self.head_of(ArcList::GhostMru));
        assert(s1.head_of(ArcList::GhostMfu) == self.head_of(ArcList::GhostMfu));
        assert(s1.indexed());
        self.lemma_residents();
        let both = self.ids(ArcList::Mru) + self.ids(ArcList::Mfu);
        let mark = |r: Resident|
            if r.frame == frame_id {
                Resident { evictable, ..r }
            } else {
                r
            };
        assert forall|i: int| 0 <= i < both.len() implies #[trigger] resident_of(
            s1.nodes@[both[i] as int],
        ) == mark(resident_of(self.nodes@[both[i] as int])) by {
            assert(self.listed(both[i]));
            if both[i] != idx {
                assert(resident_of(self.nodes@[both[i] as int]).frame != frame_id);
            }
        }
        assert(s1@.mru =~= w.mru) by {
            assert forall|i: int| 0 <= i < w.mru.len() implies s1@.mru[i] == w.mru[i] by {
                assert(both[i] == self.ids(ArcList::Mru)[i]);
                assert(resident_of(s1.nodes@[both[i] as int]) == mark(
                    resident_of(self.nodes@[both[i] as int]),
                ));
            }
        }
        assert(s1@.mfu =~= w.mfu) by {
            let n = self.ids(ArcList::Mru).len() as int;
            assert forall|i: int| 0 <= i < w.mfu.len() implies s1@.mfu[i] == w.mfu[i] by {
                assert(both[n + i] == self.ids(ArcList::Mfu)[i]);
                assert(resident_of(s1.nodes@[both[n + i] as int]) == mark(
                    resident_of(self.nodes@[both[n + i] as int]),
                ));
            }
        }
        self.lemma_on_list(ArcList::GhostMru);
        self.lemma_on_list(ArcList::GhostMfu);
        assert(s1@.ghost_mru =~= w.ghost_mru);
        assert(s1@.ghost_mfu =~= w.ghost_mfu);
        let r = Resident { evictable, ..v.resident()[pos] };
        assert(w.resident() =~= v.resident().update(pos, r)) by {
            assert forall|i: int| 0 <= i < both.len() implies w.resident()[i]
                == v.resident().update(pos, r)[i] by {
                assert(w.resident()[i] == mark(v.resident()[i]));
                assert(self.listed(both[i]));
                if i != pos {
                    assert(both[i] != both[pos]);
                    assert(resident_of(self.nodes@[both[i] as int]).frame != frame_id);
                }
            }
        }
        lemma_count_update(v.resident(), pos, r);
    }

    /// Sets whether the page in a frame may be evicted. A frame that is not tracked is
    /// left alone.
    pub fn set_evictable(&mut self, frame_id: usize, evictable: bool)
        requires
            old(self).wf(),
        ensures
            final(self).wf(),
            final(self)@ == old(self)@.marked(frame_id, evictable),
    {
        let ghost s0 = *self;
        let idx: usize = match self.frame_indices.get(&frame_id) {
            Some(idx) => *idx,
            None => {
                proof {
                    s0.lemma_untracked(frame_id, evictable);
                }
                return ;
            },
        };
        let mut node = self.nodes[idx];
        let was_evictable: bool = node.evictable;
        node.evictable = evictable;
        self.nodes.set(idx, node);
        proof {
            s0.lemma_marked(*self, frame_id, evictable);
            lemma_count_bound(self@.resident());
            s0.lemma_on_list(ArcList::Mru);
            s0.lemma_on_list(ArcList::Mfu);
        }
        if evictable && !was_evictable {
            self.curr_size = self.curr_size + 1;
        } else if !evictable && was_evictable {
            self.curr_size = self.curr_size - 1;
        }
        proof {
            s0.lemma_marked(*self, frame_id, evictable);
        }
    }
}

proof fn lemma_count_bound(s: Seq<Resident>)
    ensures
        evictable_count(s) <= s.len(),
    decreases s.len(),
{
    if s.len() > 0 {
        lemma_count_bound(s.drop_last());
    }
}

pub open spec fn ghost_of(list: ArcList) -> ArcList {
    match list {
        ArcList::Mru => ArcList::GhostMru,
        _ => ArcList::GhostMfu,
    }
}

impl ArcView {
    pub open spec fn cached(self, list: ArcList) -> Seq<Resident> {
        match list {
            ArcList::Mru => self.mru,
            ArcList::Mfu => self.mfu,
            _ => seq![],
        }
    }

    /// The page at position `i` of `list` leaves its frame.
    pub open spec fn evicted_at(self, list: ArcList, i: int) -> ArcView {
        match list {
            ArcList::Mru => self.mru_evicted(i),
            _ => self.mfu_evicted(i),
        }
    }
}

impl ArcReplacer {
    /// The effect of moving the node at position `at` of `list` to its ghost list.
    proof fn lemma_evicted(self, s1: ArcReplacer, list: ArcList, at: int)
        requires
            self.wf(),
            list == ArcList::Mru || list == ArcList::Mfu,
            0 <= at < self.ids(list).len(),
            ({
                let idx = self.ids(list)[at];
                let f = self.nodes@[idx as int].frame_id->0;
                let cleared = self.nodes@.update(
                    idx as int,
                    Node { frame_id: None, ..self.nodes@[idx as int] },
                );
                &&& same_contents(cleared, s1.nodes@)
                &&& s1.linked()
                &&& s1.nodes@[idx as int].list == ghost_of(list)
                &&& forall|i: int|
                    0 <= i < self.nodes@.len() && i != idx ==> #[trigger] s1.nodes@[i].list
                        == self.nodes@[i].list
                &&& forall|id: usize| #[trigger] s1.listed(id) == self.listed(id)
                &&& s1.ids(list) == self.ids(list).remove(at)
                &&& s1.ids(ghost_of(list)) == self.ids(ghost_of(list)).insert(0, idx)
                &&& forall|kind: ArcList|
                    kind != list && kind != ghost_of(list) ==> #[trigger] s1.ids(kind)
                        == self.ids(kind)
                &&& s1.frame_indices@ == self.frame_indices@.remove(f)
            }),
            s1.page_indices == self.page_indices,
            s1.mru_target_size == self.mru_target_size,
            s1.capacity == self.capacity,
        ensures
            s1.indexed(),
            s1@ == self@.evicted_at(list, at),
            evictable_count(self@.resident()) == evictable_count(s1@.resident()) + if self@.cached(
                list,
            )[at].evictable {
                1nat
            } else {
                0nat
            },
    {
        let idx = self.ids(list)[at];
        let v = self@;
        let w = v.evicted_at(list, at);
        self.lemma_on_list(ArcList::Mru);
        self.lemma_on_list(ArcList::Mfu);
        self.lemma_on_list(ArcList::GhostMru);
        self.lemma_on_list(ArcList::GhostMfu);
        assert(self.listed(idx));
        assert forall|i: int|
            0 <= i < self.nodes@.len() && i != idx implies #[trigger] s1.nodes@[i].page_id
            == self.nodes@[i].page_id && s1.nodes@[i].frame_id == self.nodes@[i].frame_id
            && s1.nodes@[i].evictable == self.nodes@[i].evictable by {}
        assert(s1.nodes@[idx as int].page_id == self.nodes@[idx as int].page_id);
        assert(s1.indexed());
        // The list that the page leaves.
        assert(residents(s1.ids(list), s1.nodes@) =~= v.cached(list).remove(at)) by {
            assert forall|i: int| 0 <= i < s1.ids(list).len() implies residents(
                s1.ids(list),
                s1.nodes@,
            )[i] == v.cached(list).remove(at)[i] by {
                let j = if i < at { i } else { i + 1 };
                assert(self.ids(list)[j] != self.ids(list)[at]);
            }
        }
        // The ghost list that it joins.
        let gids = self.ids(ghost_of(list));
        assert(pages(s1.ids(ghost_of(list)), s1.nodes@) =~= pages(gids, self.nodes@).insert(
            0,
            self.nodes@[idx as int].page_id,
        )) by {
            assert forall|i: int| 0 <= i < gids.len() implies gids[i] != idx by {
                assert(self.nodes@[gids[i] as int].list == ghost_of(list));
            }
        }
        // The other two.
        if list == ArcList::Mru {
            let o = self.ids(ArcList::Mfu);
            assert(s1.ids(ArcList::Mfu) == o);
            assert(s1.ids(ArcList::GhostMfu) == self.ids(ArcList::GhostMfu));
            assert forall|i: int| 0 <= i < o.len() implies o[i] != idx by {
                assert(self.nodes@[o[i] as int].list == ArcList::Mfu);
            }
            let g = self.ids(ArcList::GhostMfu);
            assert forall|i: int| 0 <= i < g.len() implies g[i] != idx by {
                assert(self.nodes@[g[i] as int].list == ArcList::GhostMfu);
            }
            assert(s1@.mfu =~= v.mfu);
            assert(s1@.ghost_mfu =~= v.ghost_mfu);
            lemma_count_concat(v.mru, v.mfu);
            lemma_count_concat(w.mru, w.mfu);
            lemma_count_remove(v.mru, at);
        } else {
            let o = self.ids(ArcList::Mru);
            assert(s1.ids(ArcList::Mru) == o);
            assert(s1.ids(ArcList::GhostMru) == self.ids(ArcList::GhostMru));
            assert forall|i: int| 0 <= i < o.len() implies o[i] != idx by {
                assert(self.nodes@[o[i] as int].list == ArcList::Mru);
            }
            let g = self.ids(ArcList::GhostMru);
            assert forall|i: int| 0 <= i < g.len() implies g[i] != idx by {
                assert(self.nodes@[g[i] as int].list == ArcList::GhostMru);
            }
            assert(s1@.mru =~= v.mru);
            assert(s1@.ghost_mru =~= v.ghost_mru);
            lemma_count_concat(v.mru, v.mfu);
            lemma_count_concat(w.mru, w.mfu);
            lemma_count_remove(v.mfu, at);
        }
    }

    /// The node of the least recent page of `list` that may be evicted.
    fn find_victim(&self, list: ArcList) -> (res: Option<usize>)
        requires
            self.wf(),
            list == ArcList::Mru || list == ArcList::Mfu,
        ensures
            match victim(self@.cached(list)) {
                Some(i) => 0 <= i < self.ids(list).len() && res == Some(self.ids(list)[i]),
                None => res is None,
            },
    {
        let tail = match list {
            ArcList::Mru => self.mru_list.tail,
            _ => self.mfu_list.tail,
        };
        let ghost ids = self.ids(list);
        let ghost cached = self@.cached(list);
        proof {
            assert(list_ok(self.head_of(list), self.nodes@, list));
            if ids.len() > 0 {
                lemma_node_at(self.head_of(list), self.nodes@, list, ids.len() - 1);
            } else {
                reveal(list_ok);
            }
            assert(cached == residents(ids, self.nodes@));
        }
        let mut current: usize = match tail {
            Some(t) => t,
            None => { return None; },
        };
        let ghost mut pos = ids.len() - 1;
        assert(cached.subrange(0, pos + 1) =~= cached);
        while !self.nodes[current].evictable
            invariant
                self.wf(),
                cached == self@.cached(list),
                cached == residents(ids, self.nodes@),
                ids == self.ids(list),
                0 <= pos < ids.len(),
                current == ids[pos],
                current < self.nodes@.len(),
                victim(cached) == victim(cached.subrange(0, pos + 1)),
            decreases pos,
        {
            proof {
                lemma_node_at(self.head_of(list), self.nodes@, list, pos);
                assert(cached.subrange(0, pos + 1).drop_last() =~= cached.subrange(0, pos));
                assert(cached.subrange(0, pos + 1).last() == cached[pos]);
                assert(!cached[pos].evictable);
                assert(victim(cached) == victim(cached.subrange(0, pos)));
            }
            match self.nodes[current].prev {
                Some(p) => {
                    current = p;
                    proof {
                        pos = pos - 1;
                    }
                },
                None => {
                    return None;
                },
            }
        }
        assert(cached.subrange(0, pos + 1).last() == cached[pos]);
        assert(cached[pos].evictable);
        assert(victim(cached) == Some(pos));
        Some(current)
    }

    /// Evicts the least recent page of `list` that may be evicted.
    fn evict_from_list(&mut self, list: ArcList) -> (res: Option<usize>)
        requires
            old(self).wf(),
        ensures
            final(self).wf(),
            match victim(old(self)@.cached(list)) {
                Some(i) => res == Some(old(self)@.cached(list)[i].frame) && final(self)@ == old(
                    self)@.evicted_at(list, i),
                None => res is None && final(self)@ == old(self)@,
            },
    {
        let ghost s0 = *self;
        let ghost v = self@;
        let ghost_list = match list {
            ArcList::Mru => ArcList::GhostMru,
            ArcList::Mfu => ArcList::GhostMfu,
            _ => { return None; },
        };
        let current: usize = match self.find_victim(list) {
            Some(c) => c,
            None => { return None; },
        };
        let ghost ids = s0.ids(list);
        let ghost pos = victim(v.cached(list))->0;
        proof {
            s0.lemma_on_list(list);
            s0.lemma_on_list(ghost_list);
            lemma_victim(v.cached(list));
            assert(s0.listed(ids[pos]));
            assert(ids.index_of(current) == pos);
            lemma_count_remove(
                v.resident(),
                if list == ArcList::Mru {
                    pos
                } else {
                    v.mru.len() + pos
                },
            );
        }
        let mut node = self.nodes[current];
        let frame_id: usize = match node.frame_id {
            Some(fid) => fid,
            None => { return None; },
        };
        node.frame_id = None;
        self.nodes.set(current, node);
        let _removed = self.frame_indices.remove(&frame_id);
        self.curr_size = self.curr_size - 1;
        let ghost s1 = *self;
        proof {
            s0.lemma_relabelled(s1);
        }
        self.move_to_front(current, ghost_list);
        proof {
            assert forall|kind: ArcList|
                kind != list && kind != ghost_of(list) implies #[trigger] self.ids(kind) == s0.ids(
                kind,
            ) by {
                assert(s1.ids(kind) == s0.ids(kind));
            }
            assert(s1.ids(list) == s0.ids(list));
            assert(s1.ids(ghost_list) == s0.ids(ghost_list));
            s0.lemma_evicted(*self, list, pos);
            self.lemma_lengths(s0, list);
        }
        Some(frame_id)
    }

    /// Changing what a node holds leaves the lists as they are.
    proof fn lemma_relabelled(self, s1: ArcReplacer)
        requires
            self.linked(),
            s1.nodes@.len() == self.nodes@.len(),
            forall|i: int|
                0 <= i < self.nodes@.len() ==> (#[trigger] s1.nodes@[i]).list == self.nodes@[i].list
                    && s1.nodes@[i].next == self.nodes@[i].next && s1.nodes@[i].prev
                    == self.nodes@[i].prev,
            s1.mru_list == self.mru_list,
            s1.mfu_list == self.mfu_list,
            s1.mru_ghost_list == self.mru_ghost_list,
            s1.mfu_ghost_list == self.mfu_ghost_list,
        ensures
            s1.linked(),
            forall|id: usize| #[trigger] s1.listed(id) == self.listed(id),
            forall|k: ArcList| #[trigger] s1.ids(k) == self.ids(k),
    {
        assert forall|k: ArcList| list_ok(#[trigger] s1.head_of(k), s1.nodes@, k) by {
            assert(list_ok(self.head_of(k), self.nodes@, k));
            reveal(list_ok);
        }
        assert forall|id: usize| #[trigger] s1.listed(id) == self.listed(id) by {
            if id < self.nodes@.len() {
                assert(s1.nodes@[id as int].list == self.nodes@[id as int].list);
            }
        }
    }

    /// Moving one node from `list` to its ghost list keeps the bounds.
    proof fn lemma_lengths(&self, s0: ArcReplacer, list: ArcList)
        requires
            s0.wf(),
            list == ArcList::Mru || list == ArcList::Mfu,
            self.ids(list).len() == s0.ids(list).len() - 1,
            self.ids(ghost_of(list)).len() == s0.ids(ghost_of(list)).len() + 1,
            forall|kind: ArcList|
                kind != list && kind != ghost_of(list) ==> #[trigger] self.ids(kind) == s0.ids(
                    kind,
                ),
        ensures
            self.ids(ArcList::Mru).len() + self.ids(ArcList::GhostMru).len() == s0.ids(
                ArcList::Mru,
            ).len() + s0.ids(ArcList::GhostMru).len(),
            self.ids(ArcList::Mfu).len() + self.ids(ArcList::GhostMfu).len() == s0.ids(
                ArcList::Mfu,
            ).len() + s0.ids(ArcList::GhostMfu).len(),
    {
        if list == ArcList::Mru {
            assert(self.ids(ArcList::Mfu) == s0.ids(ArcList::Mfu));
            assert(self.ids(ArcList::GhostMfu) == s0.ids(ArcList::GhostMfu));
        } else {
            assert(self.ids(ArcList::Mru) == s0.ids(ArcList::Mru));
            assert(self.ids(ArcList::GhostMru) == s0.ids(ArcList::GhostMru));
        }
    }

    /// Gives up a frame and returns it; `None` where no frame may be given up.
    pub fn evict(&mut self) -> (res: Option<usize>)
        requires
            old(self).wf(),
        ensures
            final(self).wf(),
            match old(self)@.evicted() {
                Some((frame, after)) => res == Some(frame) && final(self)@ == after,
                None => res is None && final(self)@ == old(self)@,
            },
    {
        proof {
            self.lemma_on_list(ArcList::Mru);
        }
        if self.mru_list.length >= self.mru_target_size {
            match self.evict_from_list(ArcList::Mru) {
                Some(id) => Some(id),
                None => self.evict_from_list(ArcList::Mfu),
            }
        } else {
            match self.evict_from_list(ArcList::Mfu) {
                Some(id) => Some(id),
                None => self.evict_from_list(ArcList::Mru),
            }
        }
    }
}

impl ArcView {
    /// The pages of a ghost list.
    pub open spec fn ghosts(self, list: ArcList) -> Seq<usize> {
        match list {
            ArcList::GhostMru => self.ghost_mru,
            ArcList::GhostMfu => self.ghost_mfu,
            _ => seq![],
        }
    }

    /// The least recent page of a ghost list is forgotten.
    pub open spec fn trimmed(self, list: ArcList) -> ArcView {
        match list {
            ArcList::GhostMru => ArcView { ghost_mru: self.ghost_mru.drop_last(), ..self },
            _ => ArcView { ghost_mfu: self.ghost_mfu.drop_last(), ..self },
        }
    }
}

impl ArcReplacer {
    /// Where a page stands, by the node that the index names for it.
    proof fn lemma_page_found(&self, page: usize)
        requires
            self.wf(),
        ensures
            self.page_indices@.contains_key(page) ==> ({
                let id = self.page_indices@[page];
                let list = self.nodes@[id as int].list;
                let at = self.ids(list).index_of(id);
                &&& self.listed(id)
                &&& self.nodes@[id as int].page_id == page
                &&& 0 <= at < self.ids(list).len() && self.ids(list)[at] == id
                &&& self@.mru_slot(page) == if list == ArcList::Mru {
                    Some(at)
                } else {
                    None
                }
                &&& self@.mfu_slot(page) == if list == ArcList::Mfu {
                    Some(at)
                } else {
                    None
                }
                &&& self@.ghost_mru.contains(page) <==> list == ArcList::GhostMru
                &&& self@.ghost_mfu.contains(page) <==> list == ArcList::GhostMfu
                &&& list == ArcList::GhostMru ==> self@.ghost_mru.index_of(page) == at
                &&& list == ArcList::GhostMfu ==> self@.ghost_mfu.index_of(page) == at
            }),
            !self.page_indices@.contains_key(page) ==> {
                &&& self@.mru_slot(page) is None
                &&& self@.mfu_slot(page) is None
                &&& !self@.ghost_mru.contains(page)
                &&& !self@.ghost_mfu.contains(page)
            },
    {
        let v = self@;
        let mru = self.ids(ArcList::Mru);
        let mfu = self.ids(ArcList::Mfu);
        let gmru = self.ids(ArcList::GhostMru);
        let gmfu = self.ids(ArcList::GhostMfu);
        self.lemma_on_list(ArcList::Mru);
        self.lemma_on_list(ArcList::Mfu);
        self.lemma_on_list(ArcList::GhostMru);
        self.lemma_on_list(ArcList::GhostMfu);
        // Any position that holds the page is that of the indexed node.
        assert forall|i: int| 0 <= i < v.mru.len() && (#[trigger] v.mru[i]).page == page implies {
            &&& self.page_indices@.contains_key(page)
            &&& self.page_indices@[page] == mru[i]
        } by {
            assert(self.listed(mru[i]));
        }
        assert forall|i: int| 0 <= i < v.mfu.len() && (#[trigger] v.mfu[i]).page == page implies {
            &&& self.page_indices@.contains_key(page)
            &&& self.page_indices@[page] == mfu[i]
        } by {
            assert(self.listed(mfu[i]));
        }
        assert forall|i: int| 0 <= i < v.ghost_mru.len() && (#[trigger] v.ghost_mru[i])
            == page implies {
            &&& self.page_indices@.contains_key(page)
            &&& self.page_indices@[page] == gmru[i]
        } by {
            assert(self.listed(gmru[i]));
        }
        assert forall|i: int| 0 <= i < v.ghost_mfu.len() && (#[trigger] v.ghost_mfu[i])
            == page implies {
            &&& self.page_indices@.contains_key(page)
            &&& self.page_indices@[page] == gmfu[i]
        } by {
            assert(self.listed(gmfu[i]));
        }
        if self.page_indices@.contains_key(page) {
            let id = self.page_indices@[page];
            let list = self.nodes@[id as int].list;
            assert(self.listed(id));
            let at = self.ids(list).index_of(id);
            assert(self.ids(list)[at] == id);
            match list {
                ArcList::Mru => {
                    assert(v.mru[at].page == page);
                },
                ArcList::Mfu => {
                    assert(v.mfu[at].page == page);
                },
                ArcList::GhostMru => {
                    assert(v.ghost_mru[at] == page);
                },
                ArcList::GhostMfu => {
                    assert(v.ghost_mfu[at] == page);
                },
            }
        }
    }

    /// The effect of forgetting the last node of a ghost list.
    proof fn lemma_trimmed(self, s1: ArcReplacer, list: ArcList)
        requires
            self.wf(),
            list == ArcList::GhostMru || list == ArcList::GhostMfu,
            self.ids(list).len() > 0,
            same_contents(self.nodes@, s1.nodes@),
            s1.linked(),
            forall|i: int|
                0 <= i < self.nodes@.len() ==> #[trigger] s1.nodes@[i].list == self.nodes@[i].list,
            forall|kind: ArcList| kind != list ==> #[trigger] s1.ids(kind) == self.ids(kind),
            s1.ids(list) == self.ids(list).remove(self.ids(list).len() - 1),
            s1.page_indices@ == self.page_indices@.remove(
                self.nodes@[self.ids(list).last() as int].page_id,
            ),
            s1.frame_indices == self.frame_indices,
            s1.mru_target_size == self.mru_target_size,
            s1.capacity == self.capacity,
            s1.curr_size == self.curr_size,
        ensures
            s1.wf(),
            s1@ == self@.trimmed(list),
    {
        let last = self.ids(list).len() - 1;
        let gone = self.ids(list)[last];
        self.lemma_on_list(ArcList::Mru);
        self.lemma_on_list(ArcList::Mfu);
        self.lemma_on_list(ArcList::GhostMru);
        self.lemma_on_list(ArcList::GhostMfu);
        lemma_remove_contains(self.ids(list), last);
        assert(self.listed(gone));
        assert forall|id: usize| #[trigger] s1.listed(id) == (self.listed(id) && id != gone) by {
            if id < self.nodes@.len() {
                let k = self.nodes@[id as int].list;
                assert(s1.nodes@[id as int].list == k);
                if k != list {
                    assert(s1.ids(k) == self.ids(k));
                }
            }
        }
        assert(s1.indexed());
        lemma_same_residents(self.ids(ArcList::Mru), self.nodes@, s1.nodes@);
        lemma_same_residents(self.ids(ArcList::Mfu), self.nodes@, s1.nodes@);
        lemma_same_residents(self.ids(ArcList::GhostMru), self.nodes@, s1.nodes@);
        lemma_same_residents(self.ids(ArcList::GhostMfu), self.nodes@, s1.nodes@);
        assert(s1.ids(ArcList::Mru) == self.ids(ArcList::Mru));
        assert(s1.ids(ArcList::Mfu) == self.ids(ArcList::Mfu));
        assert(pages(s1.ids(list), s1.nodes@) =~= pages(self.ids(list), self.nodes@).drop_last());
        if list == ArcList::GhostMru {
            assert(s1.ids(ArcList::GhostMfu) == self.ids(ArcList::GhostMfu));
        } else {
            assert(s1.ids(ArcList::GhostMru) == self.ids(ArcList::GhostMru));
        }
        assert(s1@ == self@.trimmed(list));
    }

    /// Forgets the least recent page of a ghost list; says whether there was one.
    fn trim_ghost_tail(&mut self, ghost_list: ArcList) -> (res: bool)
        requires
            old(self).wf(),
        ensures
            final(self).wf(),
            res == (old(self)@.ghosts(ghost_list).len() > 0),
            final(self)@ == if res {
                old(self)@.trimmed(ghost_list)
            } else {
                old(self)@
            },
    {
        let ghost s0 = *self;
        let tail = match ghost_list {
            ArcList::GhostMru => self.mru_ghost_list.tail,
            ArcList::GhostMfu => self.mfu_ghost_list.tail,
            _ => { return false; },
        };
        let ghost ids = s0.ids(ghost_list);
        proof {
            s0.lemma_on_list(ghost_list);
            assert(list_ok(s0.head_of(ghost_list), s0.nodes@, ghost_list));
            if ids.len() > 0 {
                lemma_node_at(s0.head_of(ghost_list), s0.nodes@, ghost_list, ids.len() - 1);
                assert(s0.listed(ids[ids.len() - 1]));
            } else {
                reveal(list_ok);
            }
        }
        let idx: usize = match tail {
            Some(idx) => idx,
            None => { return false; },
        };
        let page_id: usize = self.nodes[idx].page_id;
        assert(ids.index_of(idx) == ids.len() - 1);
        self.detach(idx);
        let ghost s1 = *self;
        let _removed = self.page_indices.remove(&page_id);
        proof {
            s1.lemma_relabelled(*self);
            assert forall|kind: ArcList| kind != ghost_list implies #[trigger] self.ids(kind)
                == s0.ids(kind) by {
                assert(s1.ids(kind) == s0.ids(kind));
            }
            assert(self.ids(ghost_list) == s1.ids(ghost_list));
            s0.lemma_trimmed(*self, ghost_list);
        }
        true
    }

    /// The effect of moving the node of a page in a frame to the front of the MFU list.
    proof fn lemma_touched(self, s1: ArcReplacer, frame_id: usize, page_id: usize)
        requires
            self.wf(),
            self.page_indices@.contains_key(page_id),
            self@.fits(frame_id, page_id),
            ({
                let id = self.page_indices@[page_id];
                let list = self.nodes@[id as int].list;
                let rest = self.ids(list).remove(self.ids(list).index_of(id));
                &&& self.in_frame(id)
                &&& s1.nodes@[id as int].list == ArcList::Mfu
                &&& forall|i: int|
                    0 <= i < self.nodes@.len() && i != id ==> #[trigger] s1.nodes@[i].list
                        == self.nodes@[i].list
                &&& if list == ArcList::Mfu {
                    s1.ids(ArcList::Mfu) == rest.insert(0, id)
                } else {
                    s1.ids(list) == rest && s1.ids(ArcList::Mfu) == self.ids(ArcList::Mfu).insert(
                        0,
                        id,
                    )
                }
                &&& forall|kind: ArcList|
                    kind != ArcList::Mfu && kind != list ==> #[trigger] s1.ids(kind) == self.ids(
                        kind,
                    )
            }),
            same_contents(self.nodes@, s1.nodes@),
            s1.linked(),
            forall|id: usize| #[trigger] s1.listed(id) == self.listed(id),
            s1.page_indices == self.page_indices,
            s1.frame_indices@ == self.frame_indices@,
            s1.mru_target_size == self.mru_target_size,
            s1.capacity == self.capacity,
            s1.curr_size == self.curr_size,
        ensures
            s1.wf(),
            s1@ == self@.accessed(frame_id, page_id),
    {
        let v = self@;
        let id = self.page_indices@[page_id];
        let list = self.nodes@[id as int].list;
        let at = self.ids(list).index_of(id);
        self.lemma_page_found(page_id);
        self.lemma_on_list(ArcList::Mru);
        self.lemma_on_list(ArcList::Mfu);
        self.lemma_on_list(ArcList::GhostMru);
        self.lemma_on_list(ArcList::GhostMfu);
        let pos = self.lemma_resident_at(id);
        assert(v.resident()[pos].page == page_id);
        assert(v.resident()[pos].frame == frame_id);
        assert(s1.indexed());
        lemma_same_residents(self.ids(ArcList::Mru), self.nodes@, s1.nodes@);
        lemma_same_residents(self.ids(ArcList::Mfu), self.nodes@, s1.nodes@);
        lemma_same_residents(self.ids(ArcList::GhostMru), self.nodes@, s1.nodes@);
        lemma_same_residents(self.ids(ArcList::GhostMfu), self.nodes@, s1.nodes@);
        assert(s1.ids(ArcList::GhostMru) == self.ids(ArcList::GhostMru));
        assert(s1.ids(ArcList::GhostMfu) == self.ids(ArcList::GhostMfu));
        let moved = resident_of(self.nodes@[id as int]);
        assert(resident_of(s1.nodes@[id as int]) == moved);
        let w = v.accessed(frame_id, page_id);
        lemma_count_concat(v.mru, v.mfu);
        lemma_count_concat(w.mru, w.mfu);
        if list == ArcList::Mru {
            assert(s1@.mru =~= v.mru.remove(at));
            assert(s1@.mfu =~= v.mfu.insert(0, moved));
            lemma_count_remove(v.mru, at);
            lemma_count_insert(v.mfu, moved);
        } else {
            assert(s1.ids(ArcList::Mru) == self.ids(ArcList::Mru));
            assert(s1@.mfu =~= v.mfu.remove(at).insert(0, moved));
            lemma_count_remove(v.mfu, at);
            lemma_count_insert(v.mfu.remove(at), moved);
        }
        assert(s1@ == w);
    }

    /// The effect of bringing a ghost page back into a frame.
    proof fn lemma_revived(self, s1: ArcReplacer, frame_id: usize, page_id: usize)
        requires
            self.wf(),
            self.page_indices@.contains_key(page_id),
            self@.fits(frame_id, page_id),
            ({
                let id = self.page_indices@[page_id];
                let list = self.nodes@[id as int].list;
                let changed = self.nodes@.update(
                    id as int,
                    Node {
                        frame_id: Some(frame_id),
                        evictable: false,
                        ..self.nodes@[id as int]
                    },
                );
                &&& !self.in_frame(id)
                &&& same_contents(changed, s1.nodes@)
                &&& s1.nodes@[id as int].list == ArcList::Mfu
                &&& forall|i: int|
                    0 <= i < self.nodes@.len() && i != id ==> #[trigger] s1.nodes@[i].list
                        == self.nodes@[i].list
                &&& s1.ids(list) == self.ids(list).remove(self.ids(list).index_of(id))
                &&& s1.ids(ArcList::Mfu) == self.ids(ArcList::Mfu).insert(0, id)
                &&& forall|kind: ArcList|
                    kind != ArcList::Mfu && kind != list ==> #[trigger] s1.ids(kind) == self.ids(
                        kind,
                    )
                &&& s1.frame_indices@ == self.frame_indices@.insert(frame_id, id)
            }),
            s1.linked(),
            forall|id: usize| #[trigger] s1.listed(id) == self.listed(id),
            s1.page_indices == self.page_indices,
            s1.mru_target_size == self.mru_target_size,
            s1.capacity == self.capacity,
            s1.curr_size == self.curr_size,
        ensures
            s1.wf(),
            s1@ == self@.revived(frame_id, page_id),
    {
        let v = self@;
        let id = self.page_indices@[page_id];
        let list = self.nodes@[id as int].list;
        let at = self.ids(list).index_of(id);
        self.lemma_page_found(page_id);
        self.lemma_on_list(ArcList::Mru);
        self.lemma_on_list(ArcList::Mfu);
        self.lemma_on_list(ArcList::GhostMru);
        self.lemma_on_list(ArcList::GhostMfu);
        self.lemma_residents();
        let both = self.ids(ArcList::Mru) + self.ids(ArcList::Mfu);
        // The frame holds no other page.
        assert(!self.frame_indices@.contains_key(frame_id)) by {
            if self.frame_indices@.contains_key(frame_id) {
                let other = self.frame_indices@[frame_id];
                let pos = self.lemma_resident_at(other);
                assert(v.resident()[pos].frame == frame_id);
                assert(v.resident()[pos].page == page_id);
            }
        }
        assert forall|i: int|
            0 <= i < self.nodes@.len() && i != id implies #[trigger] s1.nodes@[i].page_id
            == self.nodes@[i].page_id && s1.nodes@[i].frame_id == self.nodes@[i].frame_id
            && s1.nodes@[i].evictable == self.nodes@[i].evictable by {}
        assert(s1.nodes@[id as int].page_id == page_id);
        assert(s1.indexed());
        let added = Resident { page: page_id, frame: frame_id, evictable: false };
        assert(resident_of(s1.nodes@[id as int]) == added);
        let w = v.revived(frame_id, page_id);
        assert forall|i: int| 0 <= i < both.len() implies both[i] != id by {
            assert(self.in_frame(both[i]));
        }
        assert(s1.ids(ArcList::Mru) == self.ids(ArcList::Mru));
        assert(s1@.mru =~= v.mru) by {
            assert forall|i: int| 0 <= i < v.mru.len() implies self.ids(ArcList::Mru)[i] != id by {
                assert(both[i] == self.ids(ArcList::Mru)[i]);
            }
        }
        assert(s1@.mfu =~= v.mfu.insert(0, added)) by {
            assert forall|i: int| 0 <= i < v.mfu.len() implies self.ids(ArcList::Mfu)[i] != id by {
                assert(both[v.mru.len() + i] == self.ids(ArcList::Mfu)[i]);
            }
        }
        assert(pages(s1.ids(list), s1.nodes@) =~= pages(self.ids(list), self.nodes@).remove(at));
        let other = if list == ArcList::GhostMru {
            ArcList::GhostMfu
        } else {
            ArcList::GhostMru
        };
        assert(s1.ids(other) == self.ids(other));
        assert(pages(s1.ids(other), s1.nodes@) =~= pages(self.ids(other), self.nodes@)) by {
            assert forall|i: int| 0 <= i < self.ids(other).len() implies self.ids(other)[i]
                != id by {
                assert(self.nodes@[self.ids(other)[i] as int].list == other);
            }
        }
        assert(s1@ == w);
        lemma_count_concat(v.mru, v.mfu);
        lemma_count_concat(w.mru, w.mfu);
        lemma_count_insert(v.mfu, added);
    }

    /// Brings the ghost page of a node back into a frame.
    fn revive(&mut self, idx: usize, frame_id: usize, Ghost(page_id): Ghost<usize>)
        requires
            old(self).wf(),
            old(self).page_indices@.contains_key(page_id),
            old(self).page_indices@[page_id] == idx,
            !old(self).in_frame(idx),
            old(self)@.fits(frame_id, page_id),
        ensures
            final(self).wf(),
            final(self)@ == old(self)@.revived(frame_id, page_id),
    {
        let ghost s0 = *self;
        proof {
            s0.lemma_page_found(page_id);
            s0.lemma_on_list(ArcList::Mfu);
        }
        let mut node = self.nodes[idx];
        node.frame_id = Some(frame_id);
        node.evictable = false;
        self.nodes.set(idx, node);
        let _old = self.frame_indices.insert(frame_id, idx);
        let ghost s1 = *self;
        proof {
            s0.lemma_relabelled(s1);
            assert(s1.ids(ArcList::Mfu) == s0.ids(ArcList::Mfu));
            assert(s1.ids(node.list) == s0.ids(node.list));
        }
        self.move_to_front(idx, ArcList::Mfu);
        proof {
            assert forall|kind: ArcList|
                kind != ArcList::Mfu && kind != node.list implies #[trigger] self.ids(kind)
                == s0.ids(kind) by {
                assert(s1.ids(kind) == s0.ids(kind));
            }
            s0.lemma_revived(*self, frame_id, page_id);
        }
    }

    /// Evicts a page where the cache is full; says whether there is room now.
    fn make_room(&mut self) -> (res: bool)
        requires
            old(self).wf(),
        ensures
            final(self).wf(),
            res == (!old(self)@.is_full() || old(self)@.evicted() is Some),
            final(self)@ == if old(self)@.is_full() && old(self)@.evicted() is Some {
                (old(self)@.evicted()->0).1
            } else {
                old(self)@
            },
    {
        if self.is_full() {
            match self.evict() {
                Some(_) => true,
                None => false,
            }
        } else {
            true
        }
    }
}

impl ArcView {
    /// What an eviction leaves as it was.
    pub proof fn lemma_evicted_keeps(self)
        requires
            self.evicted() is Some,
        ensures
            ({
                let after = (self.evicted()->0).1;
                &&& forall|i: int|
                    0 <= i < after.resident().len() ==> self.resident().contains(
                        #[trigger] after.resident()[i],
                    )
                &&& forall|p: usize| #[trigger]
                    self.ghost_mru.contains(p) ==> after.ghost_mru.contains(p)
                &&& forall|p: usize| #[trigger]
                    self.ghost_mfu.contains(p) ==> after.ghost_mfu.contains(p)
                &&& after.target == self.target
                &&& after.capacity == self.capacity
            }),
    {
        let after = (self.evicted()->0).1;
        lemma_victim(self.mru);
        lemma_victim(self.mfu);
        let from_mru = after.mru.len() < self.mru.len();
        if from_mru {
            lemma_insert_contains(self.ghost_mru, self.mru[victim(self.mru)->0].page);
        } else {
            lemma_insert_contains(self.ghost_mfu, self.mfu[victim(self.mfu)->0].page);
        }
        assert forall|i: int| 0 <= i < after.resident().len() implies self.resident().contains(
            #[trigger] after.resident()[i],
        ) by {
            let j = if from_mru {
                if i < victim(self.mru)->0 {
                    i
                } else {
                    i + 1
                }
            } else {
                if i < self.mru.len() + victim(self.mfu)->0 {
                    i
                } else {
                    i + 1
                }
            };
            assert(self.resident()[j] == after.resident()[i]);
        }
    }
}

impl ArcReplacer {
    /// Brings a ghost page back where there is, or can be made, room for it.
    fn access_ghost(&mut self, frame_id: usize, page_id: usize)
        requires
            old(self).wf(),
            old(self)@.ghost_mru.contains(page_id) || old(self)@.ghost_mfu.contains(page_id),
            old(self)@.fits(frame_id, page_id),
        ensures
            final(self).wf(),
            final(self)@ == old(self)@.ghost_hit(frame_id, page_id),
    {
        let ghost v = self@;
        if !self.make_room() {
            return ;
        }
        let ghost w = self@;
        proof {
            if v.is_full() {
                v.lemma_evicted_keeps();
            }
            assert(w.ghost_mru.contains(page_id) || w.ghost_mfu.contains(page_id));
            assert(w.fits(frame_id, page_id)) by {
                assert forall|i: int| 0 <= i < w.resident().len() implies (
                (#[trigger] w.resident()[i]).frame == frame_id <==> w.resident()[i].page
                    == page_id) by {
                    if v.is_full() {
                        assert(v.resident().contains(w.resident()[i]));
                    }
                }
            }
            self.lemma_page_found(page_id);
            self.lemma_valid();
        }
        match self.page_indices.get(&page_id) {
            Some(found) => {
                let idx: usize = *found;
                self.revive(idx, frame_id, Ghost(page_id));
            },
            None => {},
        }
    }

    /// The effect of putting a node for a page that was not tracked on the MRU list.
    proof fn lemma_tracked(self, s1: ArcReplacer, frame_id: usize, page_id: usize)
        requires
            self.wf(),
            !self.page_indices@.contains_key(page_id),
            self@.fits(frame_id, page_id),
            self.ids(ArcList::Mru).len() + self.ids(ArcList::GhostMru).len() < self.capacity,
            self.ids(ArcList::Mru).len() + self.ids(ArcList::GhostMru).len() + self.ids(
                ArcList::Mfu,
            ).len() + self.ids(ArcList::GhostMfu).len() < 2 * self.capacity,
            ({
                let id = self.nodes@.len() as usize;
                &&& self.nodes@.len() < usize::MAX
                &&& s1.nodes@.len() == self.nodes@.len() + 1
                &&& forall|i: int|
                    0 <= i < self.nodes@.len() ==> (#[trigger] s1.nodes@[i]).page_id
                        == self.nodes@[i].page_id && s1.nodes@[i].frame_id
                        == self.nodes@[i].frame_id && s1.nodes@[i].evictable
                        == self.nodes@[i].evictable && s1.nodes@[i].list == self.nodes@[i].list
                &&& s1.nodes@[id as int].page_id == page_id
                &&& s1.nodes@[id as int].frame_id == Some(frame_id)
                &&& !s1.nodes@[id as int].evictable
                &&& s1.nodes@[id as int].list == ArcList::Mru
                &&& s1.ids(ArcList::Mru) == self.ids(ArcList::Mru).insert(0, id)
                &&& forall|kind: ArcList|
                    kind != ArcList::Mru ==> #[trigger] s1.ids(kind) == self.ids(kind)
                &&& s1.page_indices@ == self.page_indices@.insert(page_id, id)
                &&& s1.frame_indices@ == self.frame_indices@.insert(frame_id, id)
            }),
            s1.linked(),
            s1.mru_target_size == self.mru_target_size,
            s1.capacity == self.capacity,
            s1.curr_size == self.curr_size,
        ensures
            s1.wf(),
            s1@ == (ArcView {
                mru: self@.mru.insert(0, Resident { page: page_id, frame: frame_id, evictable: false }),
                ..self@
            }),
    {
        let v = self@;
        let id = self.nodes@.len() as usize;
        self.lemma_page_found(page_id);
        self.lemma_on_list(ArcList::Mru);
        self.lemma_on_list(ArcList::Mfu);
        self.lemma_on_list(ArcList::GhostMru);
        self.lemma_on_list(ArcList::GhostMfu);
        lemma_insert_contains(self.ids(ArcList::Mru), id);
        // The frame holds no page.
        assert(!self.frame_indices@.contains_key(frame_id)) by {
            if self.frame_indices@.contains_key(frame_id) {
                let other = self.frame_indices@[frame_id];
                let pos = self.lemma_resident_at(other);
                assert(v.resident()[pos].frame == frame_id);
                assert(v.resident()[pos].page == page_id);
                assert(self.listed(other));
            }
        }
        assert forall|x: usize| #[trigger] s1.listed(x) == (self.listed(x) || x == id) by {
            if x < self.nodes@.len() {
                let k = self.nodes@[x as int].list;
                assert(s1.nodes@[x as int].list == k);
                if k != ArcList::Mru {
                    assert(s1.ids(k) == self.ids(k));
                }
            }
        }
        assert(s1.indexed());
        assert(s1.ids(ArcList::Mfu) == self.ids(ArcList::Mfu));
        assert(s1.ids(ArcList::GhostMru) == self.ids(ArcList::GhostMru));
        assert(s1.ids(ArcList::GhostMfu) == self.ids(ArcList::GhostMfu));
        let added = Resident { page: page_id, frame: frame_id, evictable: false };
        assert(resident_of(s1.nodes@[id as int]) == added);
        assert(s1@.mru =~= v.mru.insert(0, added));
        assert(s1@.mfu =~= v.mfu);
        assert(s1@.ghost_mru =~= v.ghost_mru);
        assert(s1@.ghost_mfu =~= v.ghost_mfu);
        lemma_count_concat(v.mru, v.mfu);
        lemma_count_concat(s1@.mru, s1@.mfu);
        lemma_count_insert(v.mru, added);
    }

    /// Starts to track a page that no list holds.
    fn access_new(&mut self, frame_id: usize, page_id: usize)
        requires
            old(self).wf(),
            !old(self).page_indices@.contains_key(page_id),
            old(self)@.fits(frame_id, page_id),
        ensures
            final(self).wf(),
            final(self)@ == old(self)@.missed(frame_id, page_id),
    {
        let ghost v = self@;
        proof {
            self.lemma_on_list(ArcList::Mru);
            self.lemma_on_list(ArcList::Mfu);
            self.lemma_on_list(ArcList::GhostMru);
            self.lemma_on_list(ArcList::GhostMfu);
            self.lemma_page_found(page_id);
        }
        if self.mru_list.length + self.mru_ghost_list.length == self.capacity {
            if !self.trim_ghost_tail(ArcList::GhostMru) {
                return ;
            }
        } else if self.mru_list.length + self.mru_ghost_list.length + self.mfu_list.length
            + self.mfu_ghost_list.length == 2 * self.capacity {
            if !self.trim_ghost_tail(ArcList::GhostMfu) {
                return ;
            }
        }
        let ghost s0 = *self;
        proof {
            s0.lemma_on_list(ArcList::Mru);
            s0.lemma_on_list(ArcList::Mfu);
            s0.lemma_on_list(ArcList::GhostMru);
            s0.lemma_on_list(ArcList::GhostMfu);
            s0.lemma_page_found(page_id);
            assert(s0@.mru == v.mru && s0@.mfu == v.mfu);
            assert(v.mru.len() + v.ghost_mru.len() + v.mfu.len() + v.ghost_mfu.len() <= 2
                * v.capacity);
            assert(s0@.ghost_mru.len() == s0.ids(ArcList::GhostMru).len());
            assert(s0@.ghost_mfu.len() == s0.ids(ArcList::GhostMfu).len());
            assert(s0@.mru.len() == s0.ids(ArcList::Mru).len());
            assert(s0@.mfu.len() == s0.ids(ArcList::Mfu).len());
            assert(s0@.mru.len() + s0@.ghost_mru.len() + s0@.mfu.len() + s0@.ghost_mfu.len() < 2
                * s0@.capacity);
            assert(s0@.resident() == v.resident());
            if s0.page_indices@.contains_key(page_id) {
                let id = s0.page_indices@[page_id];
                match s0.nodes@[id as int].list {
                    ArcList::Mru => {
                        assert(v.mru_slot(page_id) is Some);
                    },
                    ArcList::Mfu => {
                        assert(v.mfu_slot(page_id) is Some);
                    },
                    ArcList::GhostMru => {
                        let k = s0@.ghost_mru.index_of(page_id);
                        assert(v.ghost_mru[k] == page_id);
                    },
                    ArcList::GhostMfu => {
                        let k = s0@.ghost_mfu.index_of(page_id);
                        assert(v.ghost_mfu[k] == page_id);
                    },
                }
            }
        }
        let new_node = Node {
            page_id,
            frame_id: Some(frame_id),
            evictable: false,
            list: ArcList::Mru,
            next: None,
            prev: None,
        };
        self.nodes.push(new_node);
        let idx: usize = self.nodes.len() - 1;
        let _p = self.page_indices.insert(page_id, idx);
        let _f = self.frame_indices.insert(frame_id, idx);
        let ghost s1 = *self;
        proof {
            assert forall|k: ArcList| list_ok(#[trigger] s1.head_of(k), s1.nodes@, k) by {
                assert(list_ok(s0.head_of(k), s0.nodes@, k));
                assert(s1.head_of(k) == s0.head_of(k));
                reveal(list_ok);
            }
            assert forall|k: ArcList| !(#[trigger] s1.ids(k)).contains(idx) by {
                s0.lemma_on_list(k);
                assert(s1.ids(k) == s0.ids(k));
            }
        }
        self.push(idx, ArcList::Mru);
        proof {
            assert forall|kind: ArcList| kind != ArcList::Mru implies #[trigger] self.ids(kind)
                == s0.ids(kind) by {
                assert(s1.ids(kind) == s0.ids(kind));
            }
            assert forall|i: int| 0 <= i < s0.nodes@.len() implies (
            #[trigger] self.nodes@[i]).page_id == s0.nodes@[i].page_id && self.nodes@[i].frame_id
                == s0.nodes@[i].frame_id && self.nodes@[i].evictable == s0.nodes@[i].evictable
                && self.nodes@[i].list == s0.nodes@[i].list by {
                assert(s1.nodes@[i] == s0.nodes@[i]);
            }
            assert(s1.nodes@[idx as int] == new_node);
            assert(s1.ids(ArcList::Mru) == s0.ids(ArcList::Mru));
            s0.lemma_tracked(*self, frame_id, page_id);
        }
    }

    /// Records that `page_id`, which sits in `frame_id`, was accessed just now.
    pub fn record_access(&mut self, frame_id: usize, page_id: usize)
        requires
            old(self).wf(),
            old(self)@.fits(frame_id, page_id),
        ensures
            final(self).wf(),
            final(self)@ == old(self)@.accessed(frame_id, page_id),
    {
        let ghost s0 = *self;
        let ghost v = self@;
        proof {
            s0.lemma_page_found(page_id);
            s0.lemma_on_list(ArcList::Mru);
            s0.lemma_on_list(ArcList::Mfu);
            s0.lemma_on_list(ArcList::GhostMru);
            s0.lemma_on_list(ArcList::GhostMfu);
        }
        let idx: usize = match self.page_indices.get(&page_id) {
            Some(idx) => *idx,
            None => {
                self.access_new(frame_id, page_id);
                return ;
            },
        };
        match self.nodes[idx].list {
            ArcList::Mfu | ArcList::Mru => {
                proof {
                    let pos = s0.lemma_resident_at(idx);
                    assert(v.resident()[pos].page == page_id);
                }
                let mut node = self.nodes[idx];
                node.frame_id = Some(frame_id);
                self.nodes.set(idx, node);
                let _f = self.frame_indices.insert(frame_id, idx);
                proof {
                    assert(self.nodes@ =~= s0.nodes@);
                    assert(self.frame_indices@ =~= s0.frame_indices@);
                    s0.lemma_relabelled(*self);
                    assert(self.ids(ArcList::Mfu) == s0.ids(ArcList::Mfu));
                    assert(self.ids(node.list) == s0.ids(node.list));
                }
                let ghost s1 = *self;
                self.move_to_front(idx, ArcList::Mfu);
                proof {
                    assert forall|kind: ArcList|
                        kind != ArcList::Mfu && kind != node.list implies #[trigger] self.ids(kind)
                        == s0.ids(kind) by {
                        assert(s1.ids(kind) == s0.ids(kind));
                    }
                    s0.lemma_touched(*self, frame_id, page_id);
                }
            },
            ArcList::GhostMru => {
                // Recency was worth more than it was given.
                let delta: usize = if self.mru_ghost_list.length >= self.mfu_ghost_list.length {
                    1
                } else {
                    self.mfu_ghost_list.length / self.mru_ghost_list.length
                };
                proof {
                    s0.lemma_delta();
                }
                let raised: usize = self.mru_target_size + delta;
                self.mru_target_size = if raised < self.capacity {
                    raised
                } else {
                    self.capacity
                };
                proof {
                    s0.lemma_retargeted(*self);
                }
                self.access_ghost(frame_id, page_id);
            },
            ArcList::GhostMfu => {
                // Frequency was worth more than it was given.
                let delta: usize = if self.mfu_ghost_list.length >= self.mru_ghost_list.length {
                    1
                } else {
                    self.mru_ghost_list.length / self.mfu_ghost_list.length
                };
                self.mru_target_size = self.mru_target_size.saturating_sub(delta);
                proof {
                    s0.lemma_retargeted(*self);
                }
                self.access_ghost(frame_id, page_id);
            },
        }
    }

    /// A step of the target is no longer than the lists.
    proof fn lemma_delta(&self)
        requires
            self.wf(),
        ensures
            self.ids(ArcList::GhostMru).len() > 0 ==> self.ids(ArcList::GhostMfu).len() as int
                / self.ids(ArcList::GhostMru).len() as int <= 2 * self.capacity,
    {
        let a = self.ids(ArcList::GhostMfu).len() as int;
        let b = self.ids(ArcList::GhostMru).len() as int;
        if b > 0 {
            assert(a / b <= a) by (nonlinear_arith)
                requires
                    a >= 0,
                    b > 0,
            ;
        }
    }

    /// A new target changes nothing else.
    proof fn lemma_retargeted(self, s1: ArcReplacer)
        requires
            self.wf(),
            s1 == (ArcReplacer { mru_target_size: s1.mru_target_size, ..self }),
            s1.mru_target_size <= self.capacity,
        ensures
            s1.wf(),
            s1@ == (ArcView { target: s1.mru_target_size as int, ..self@ }),
    {
        self.lemma_relabelled(s1);
        assert(s1.ids(ArcList::Mru) == self.ids(ArcList::Mru));
        assert(s1.ids(ArcList::Mfu) == self.ids(ArcList::Mfu));
        assert(s1.ids(ArcList::GhostMru) == self.ids(ArcList::GhostMru));
        assert(s1.ids(ArcList::GhostMfu) == self.ids(ArcList::GhostMfu));
        assert(s1@.resident() == self@.resident());
    }
}

proof fn lemma_concat_contains<A>(a: Seq<A>, b: Seq<A>)
    ensures
        forall|x: A| #[trigger] (a + b).contains(x) <==> a.contains(x) || b.contains(x),
{
    assert forall|x: A| #[trigger] (a + b).contains(x) <==> a.contains(x) || b.contains(x) by {
        if a.contains(x) {
            let k = choose|k: int| 0 <= k < a.len() && a[k] == x;
            assert((a + b)[k] == x);
        }
        if b.contains(x) {
            let k = choose|k: int| 0 <= k < b.len() && b[k] == x;
            assert((a + b)[a.len() + k] == x);
        }
        if (a + b).contains(x) {
            let k = choose|k: int| 0 <= k < (a + b).len() && (a + b)[k] == x;
            if k < a.len() {
                assert(a[k] == x);
            } else {
                assert(b[k - a.len()] == x);
            }
        }
    }
}

impl ArcView {
    /// `r` is one of the pages that sit in a frame.
    pub open spec fn tracks(self, r: Resident) -> bool {
        self.resident().contains(r)
    }

    proof fn lemma_parts_distinct(self)
        requires
            self.valid(),
        ensures
            self.mru.no_duplicates(),
            self.mfu.no_duplicates(),
            self.resident().no_duplicates(),
            forall|r: Resident| !(self.mru.contains(r) && #[trigger] self.mfu.contains(r)),
            forall|a: Resident, b: Resident| #[trigger]
                self.tracks(a) && #[trigger] self.tracks(b) && (a.frame == b.frame || a.page
                    == b.page) ==> a == b,
    {
        let n = self.mru.len() as int;
        assert forall|i: int, j: int|
            0 <= i < self.mru.len() && 0 <= j < self.mru.len() && i != j implies self.mru[i]
            != self.mru[j] by {
            let a = if i < j { i } else { j };
            let b = if i < j { j } else { i };
            assert(self.resident()[a].page != self.resident()[b].page);
        }
        assert forall|i: int, j: int|
            0 <= i < self.mfu.len() && 0 <= j < self.mfu.len() && i != j implies self.mfu[i]
            != self.mfu[j] by {
            let a = if i < j { i } else { j };
            let b = if i < j { j } else { i };
            assert(self.resident()[n + a].page != self.resident()[n + b].page);
        }
        assert forall|i: int, j: int|
            0 <= i < self.resident().len() && 0 <= j < self.resident().len() && i
                != j implies self.resident()[i] != self.resident()[j] by {
            let a = if i < j { i } else { j };
            let b = if i < j { j } else { i };
            assert(self.resident()[a].page != self.resident()[b].page);
        }
        assert forall|r: Resident| !(self.mru.contains(r) && #[trigger] self.mfu.contains(r)) by {
            if self.mru.contains(r) && self.mfu.contains(r) {
                let i = choose|i: int| 0 <= i < self.mru.len() && self.mru[i] == r;
                let j = choose|j: int| 0 <= j < self.mfu.len() && self.mfu[j] == r;
                assert(self.resident()[i].page != self.resident()[n + j].page);
            }
        }
        assert forall|a: Resident, b: Resident| #[trigger]
            self.tracks(a) && #[trigger] self.tracks(b) && (a.frame == b.frame || a.page
                == b.page) implies a == b by {
            let i = choose|i: int| 0 <= i < self.resident().len() && self.resident()[i] == a;
            let j = choose|j: int| 0 <= j < self.resident().len() && self.resident()[j] == b;
            if i < j {
                assert(self.resident()[i].page != self.resident()[j].page);
            } else if j < i {
                assert(self.resident()[j].page != self.resident()[i].page);
            }
        }
    }

    /// No two tracked pages share a frame, and none is tracked twice.
    pub proof fn law_one_page_per_frame(self, a: Resident, b: Resident)
        requires
            self.valid(),
            self.tracks(a),
            self.tracks(b),
            a.frame == b.frame || a.page == b.page,
        ensures
            a == b,
    {
        self.lemma_parts_distinct();
    }

    /// A frame is given up exactly where one may be; it was tracked, and it is not tracked
    /// afterwards; all other frames are as before.
    pub proof fn law_evict(self)
        requires
            self.valid(),
        ensures
            self.evicted() is None <==> forall|r: Resident| #[trigger]
                self.tracks(r) ==> !r.evictable,
            self.evicted() matches Some((frame, after)) ==> {
                &&& exists|r: Resident| #[trigger]
                    self.tracks(r) && r.frame == frame && r.evictable && (after.ghost_mru.contains(
                        r.page,
                    ) || after.ghost_mfu.contains(r.page))
                &&& forall|r: Resident| #[trigger]
                    after.tracks(r) <==> self.tracks(r) && r.frame != frame
                &&& after.capacity == self.capacity
                &&& after.resident().len() == self.resident().len() - 1
            },
    {
        self.lemma_parts_distinct();
        lemma_concat_contains(self.mru, self.mfu);
        lemma_victim(self.mru);
        lemma_victim(self.mfu);
        if self.evicted() is None {
            assert forall|r: Resident| #[trigger] self.tracks(r) implies !r.evictable by {
                if self.mru.contains(r) {
                    let i = choose|i: int| 0 <= i < self.mru.len() && self.mru[i] == r;
                    assert(!self.mru[i].evictable);
                } else {
                    let i = choose|i: int| 0 <= i < self.mfu.len() && self.mfu[i] == r;
                    assert(!self.mfu[i].evictable);
                }
            }
        } else {
            let frame = (self.evicted()->0).0;
            let after = (self.evicted()->0).1;
            let from_mru = after.mru.len() < self.mru.len();
            let r = if from_mru {
                self.mru[victim(self.mru)->0]
            } else {
                self.mfu[victim(self.mfu)->0]
            };
            lemma_concat_contains(after.mru, after.mfu);
            if from_mru {
                lemma_remove_contains(self.mru, victim(self.mru)->0);
                lemma_insert_contains(self.ghost_mru, r.page);
                assert(self.mru.contains(r));
            } else {
                lemma_remove_contains(self.mfu, victim(self.mfu)->0);
                lemma_insert_contains(self.ghost_mfu, r.page);
                assert(self.mfu.contains(r));
            }
            assert(self.tracks(r) && r.frame == frame && r.evictable);
            assert forall|x: Resident| #[trigger] after.tracks(x) <==> self.tracks(x) && x.frame
                != frame by {
                if self.tracks(x) && x.frame == frame {
                    assert(x == r);
                }
            }
        }
    }

    /// Marking a frame changes the mark of that frame and nothing else.
    pub proof fn law_mark(self, frame: usize, evictable: bool)
        ensures
            forall|r: Resident| #[trigger]
                self.marked(frame, evictable).tracks(r) <==> if r.frame == frame {
                    r.evictable == evictable && exists|e: bool|
                        #[trigger] self.tracks(Resident { evictable: e, ..r })
                } else {
                    self.tracks(r)
                },
            self.marked(frame, evictable).resident().len() == self.resident().len(),
            self.marked(frame, evictable).capacity == self.capacity,
    {
        let w = self.marked(frame, evictable);
        let mark = |r: Resident|
            if r.frame == frame {
                Resident { evictable, ..r }
            } else {
                r
            };
        assert forall|i: int| 0 <= i < w.resident().len() implies w.resident()[i] == mark(
            #[trigger] self.resident()[i],
        ) by {}
        assert forall|r: Resident| #[trigger] w.tracks(r) <==> if r.frame == frame {
            r.evictable == evictable && exists|e: bool|
                #[trigger] self.tracks(Resident { evictable: e, ..r })
        } else {
            self.tracks(r)
        } by {
            if w.tracks(r) {
                let i = choose|i: int| 0 <= i < w.resident().len() && w.resident()[i] == r;
                let r0 = self.resident()[i];
                assert(self.tracks(r0));
                if r.frame == frame {
                    assert(Resident { evictable: r0.evictable, ..r } == r0);
                }
            }
            if r.frame == frame && r.evictable == evictable && exists|e: bool|
                #[trigger] self.tracks(Resident { evictable: e, ..r }) {
                let e = choose|e: bool| #[trigger] self.tracks(Resident { evictable: e, ..r });
                let r0 = Resident { evictable: e, ..r };
                let i = choose|i: int| 0 <= i < self.resident().len() && self.resident()[i] == r0;
                assert(w.resident()[i] == r);
            }
            if r.frame != frame && self.tracks(r) {
                let i = choose|i: int| 0 <= i < self.resident().len() && self.resident()[i] == r;
                assert(w.resident()[i] == r);
            }
        }
    }

    /// Where there is room, an accessed page is tracked in its frame, and all other frames
    /// are as before. A page that was not tracked may not be evicted at first.
    pub proof fn law_access(self, frame: usize, page: usize)
        requires
            self.valid(),
            self.fits(frame, page),
            self.resident().len() < self.capacity || exists|r: Resident| #[trigger]
                self.tracks(r) && r.page == page,
        ensures
            ({
                let after = self.accessed(frame, page);
                &&& after.capacity == self.capacity
                &&& forall|r: Resident|
                    r.frame != frame ==> (#[trigger] after.tracks(r) <==> self.tracks(r))
                &&& exists|e: bool|
                    #[trigger] after.tracks(Resident { page, frame, evictable: e }) && (
                    forall|r: Resident| #[trigger] self.tracks(r) && r.page == page ==> r.evictable
                        == e)
                &&& forall|r: Resident| #[trigger]
                    after.tracks(r) && r.frame == frame ==> r.page == page
            }),
    {
        self.lemma_parts_distinct();
        lemma_concat_contains(self.mru, self.mfu);
        let after = self.accessed(frame, page);
        lemma_concat_contains(after.mru, after.mfu);
        assert forall|r: Resident| #[trigger] self.tracks(r) implies (r.frame == frame <==> r.page
            == page) by {
            let i = choose|i: int| 0 <= i < self.resident().len() && self.resident()[i] == r;
            assert(self.resident()[i].frame == frame <==> self.resident()[i].page == page);
        }
        if self.mru_slot(page) is Some {
            let i = self.mru_slot(page)->0;
            let r0 = self.mru[i];
            assert(self.mru.contains(r0));
            assert(self.tracks(r0));
            assert(r0 == Resident { page, frame, evictable: r0.evictable });
            lemma_remove_contains(self.mru, i);
            lemma_insert_contains(self.mfu, r0);
            assert(after.mfu.contains(r0));
            assert(after.tracks(Resident { page, frame, evictable: r0.evictable }));
            assert forall|r: Resident| r.frame != frame implies (#[trigger] after.tracks(r)
                <==> self.tracks(r)) by {}
            assert forall|r: Resident| #[trigger] after.tracks(r) && r.frame == frame implies r.page
                == page by {
                if r != r0 {
                    assert(self.tracks(r));
                }
            }
        } else if self.mfu_slot(page) is Some {
            let i = self.mfu_slot(page)->0;
            let r0 = self.mfu[i];
            assert(self.mfu.contains(r0));
            assert(self.tracks(r0));
            assert(r0 == Resident { page, frame, evictable: r0.evictable });
            lemma_remove_contains(self.mfu, i);
            lemma_insert_contains(self.mfu.remove(i), r0);
            assert(after.mfu.contains(r0));
            assert(after.tracks(Resident { page, frame, evictable: r0.evictable }));
            assert forall|r: Resident| r.frame != frame implies (#[trigger] after.tracks(r)
                <==> self.tracks(r)) by {}
            assert forall|r: Resident| #[trigger] after.tracks(r) && r.frame == frame implies r.page
                == page by {
                if r != r0 {
                    assert(self.tracks(r));
                }
            }
        } else {
            assert forall|r: Resident| #[trigger] self.tracks(r) implies r.page != page by {
                if self.mru.contains(r) {
                    let i = choose|i: int| 0 <= i < self.mru.len() && self.mru[i] == r;
                    assert(self.mru[i].page == r.page);
                } else {
                    let i = choose|i: int| 0 <= i < self.mfu.len() && self.mfu[i] == r;
                    assert(self.mfu[i].page == r.page);
                }
            }
            let r0 = Resident { page, frame, evictable: false };
            lemma_insert_contains(self.mru, r0);
            lemma_insert_contains(self.mfu, r0);
            assert(after.mru == self.mru.insert(0, r0) || after.mfu == self.mfu.insert(0, r0));
            assert(after.tracks(Resident { page, frame, evictable: false }));
            assert forall|r: Resident| r.frame != frame implies (#[trigger] after.tracks(r)
                <==> self.tracks(r)) by {}
            assert forall|r: Resident| #[trigger] after.tracks(r) && r.frame == frame implies r.page
                == page by {
                if r != r0 {
                    assert(self.tracks(r));
                }
            }
        }
    }
}

} // verus!
