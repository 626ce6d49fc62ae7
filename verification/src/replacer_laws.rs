//! Which page the cache gives up, and where an accessed page goes, told by the order of the lists.
use vstd::prelude::*;

use crate::buffer_pool::CacheView;
use crate::replacer::{evictable_count, victim, ArcView, Resident};

verus! {

/// Entry `i` is the last of the list that may be evicted: the least recent one.
pub open spec fn is_least_recent(s: Seq<Resident>, i: int) -> bool {
    &&& 0 <= i < s.len()
    &&& s[i].evictable
    &&& forall|k: int| i < k < s.len() ==> !(#[trigger] s[k]).evictable
}

/// Nothing of the list may be evicted.
pub open spec fn is_stuck(s: Seq<Resident>) -> bool {
    forall|k: int| 0 <= k < s.len() ==> !(#[trigger] s[k]).evictable
}

/// The list without the entry at `i`; the others keep their order.
pub open spec fn is_without<A>(s: Seq<A>, i: int, t: Seq<A>) -> bool {
    &&& 0 <= i < s.len()
    &&& t.len() == s.len() - 1
    &&& forall|k: int|
        0 <= k < t.len() ==> #[trigger] t[k] == if k < i {
            s[k]
        } else {
            s[k + 1]
        }
}

/// The list with one more entry in front.
pub open spec fn is_in_front<A>(x: A, s: Seq<A>, t: Seq<A>) -> bool {
    &&& t.len() == s.len() + 1
    &&& t[0] == x
    &&& forall|k: int| 0 <= k < s.len() ==> #[trigger] t[k + 1] == s[k]
}

proof fn lemma_victim(s: Seq<Resident>)
    ensures
        victim(s) matches Some(i) ==> is_least_recent(s, i),
        victim(s) is None ==> is_stuck(s),
    decreases s.len(),
{
    if s.len() > 0 && !s.last().evictable {
        let t = s.drop_last();
        lemma_victim(t);
        assert forall|k: int| 0 <= k < t.len() implies t[k] == #[trigger] s[k] by {}
    }
}

/// The page at `i` of the first list went to the front of its ghost list, and nothing else moved.
pub open spec fn left_mru(a: ArcView, i: int, b: ArcView) -> bool {
    &&& is_without(a.mru, i, b.mru)
    &&& is_in_front(a.mru[i].page, a.ghost_mru, b.ghost_mru)
    &&& b.mfu == a.mfu
    &&& b.ghost_mfu == a.ghost_mfu
    &&& b.target == a.target
    &&& b.capacity == a.capacity
}

/// The page at `i` of the second list went to the front of its ghost list, and nothing else moved.
pub open spec fn left_mfu(a: ArcView, i: int, b: ArcView) -> bool {
    &&& is_without(a.mfu, i, b.mfu)
    &&& is_in_front(a.mfu[i].page, a.ghost_mfu, b.ghost_mfu)
    &&& b.mru == a.mru
    &&& b.ghost_mru == a.ghost_mru
    &&& b.target == a.target
    &&& b.capacity == a.capacity
}

/// The least recent page that may be evicted leaves: that of the first list where the list is at
/// least as long as its target, else that of the second. Where nothing of that list may be evicted
/// the other one gives its own.
pub open spec fn gives_up(a: ArcView, frame: usize, b: ArcView) -> bool {
    if !is_stuck(a.mru) && (a.mru.len() >= a.target || is_stuck(a.mfu)) {
        exists|i: int| #[trigger]
            is_least_recent(a.mru, i) && a.mru[i].frame == frame && left_mru(a, i, b)
    } else {
        exists|i: int| #[trigger]
            is_least_recent(a.mfu, i) && a.mfu[i].frame == frame && left_mfu(a, i, b)
    }
}

/// Which page the cache gives up.
pub proof fn law_evicts_least_recent(a: ArcView)
    ensures
        a.evicted() is None <==> is_stuck(a.mru) && is_stuck(a.mfu),
        a.evicted() matches Some((frame, b)) ==> gives_up(a, frame, b),
{
    lemma_victim(a.mru);
    lemma_victim(a.mfu);
    match victim(a.mru) {
        Some(i) => {
            assert(is_least_recent(a.mru, i) && left_mru(a, i, a.mru_evicted(i)));
        },
        None => {},
    }
    match victim(a.mfu) {
        Some(i) => {
            assert(is_least_recent(a.mfu, i) && left_mfu(a, i, a.mfu_evicted(i)));
        },
        None => {},
    }
}

/// A page that sits in a frame goes to the front of the second list when it is accessed, with its
/// mark, wherever it was. All others keep their order.
pub proof fn law_hit(a: ArcView, frame: usize, page: usize, i: int)
    requires
        a.valid(),
    ensures
        ({
            let b = a.accessed(frame, page);
            &&& 0 <= i < a.mru.len() && a.mru[i].page == page ==> {
                &&& is_without(a.mru, i, b.mru)
                &&& is_in_front(
                    Resident { page, frame, evictable: a.mru[i].evictable },
                    a.mfu,
                    b.mfu,
                )
                &&& b.ghost_mru == a.ghost_mru && b.ghost_mfu == a.ghost_mfu
                &&& b.target == a.target && b.capacity == a.capacity
            }
            &&& 0 <= i < a.mfu.len() && a.mfu[i].page == page ==> {
                &&& b.mru == a.mru
                &&& exists|rest: Seq<Resident>| #[trigger]
                    is_without(a.mfu, i, rest) && is_in_front(
                        Resident { page, frame, evictable: a.mfu[i].evictable },
                        rest,
                        b.mfu,
                    )
                &&& b.ghost_mru == a.ghost_mru && b.ghost_mfu == a.ghost_mfu
                &&& b.target == a.target && b.capacity == a.capacity
            }
        }),
{
    let b = a.accessed(frame, page);
    if 0 <= i < a.mru.len() && a.mru[i].page == page {
        let k = a.mru_slot(page)->0;
        assert(a.mru_slot(page) is Some);
        assert(a.resident()[i].page == page && a.resident()[k].page == page);
        assert(i == k);
    }
    if 0 <= i < a.mfu.len() && a.mfu[i].page == page {
        let n = a.mru.len() as int;
        assert(a.resident()[n + i].page == page);
        if a.mru_slot(page) is Some {
            let k = a.mru_slot(page)->0;
            assert(a.resident()[k].page == page);
        }
        let k = a.mfu_slot(page)->0;
        assert(a.mfu_slot(page) is Some);
        assert(a.resident()[n + k].page == page);
        assert(i == k);
        assert(is_without(a.mfu, i, a.mfu.remove(i)));
    }
}

/// By how much the target moves: by one, or by how many times longer the other ghost list is.
pub open spec fn is_step_of(own: nat, other: nat, d: int) -> bool {
    if other <= own {
        d == 1
    } else {
        d * own <= other < (d + 1) * own
    }
}

proof fn lemma_step(own: nat, other: nat)
    requires
        own > 0,
    ensures
        own >= other ==> is_step_of(own, other, 1),
        own < other ==> is_step_of(own, other, other as int / own as int),
{
    let d = other as int / own as int;
    assert(d * own <= other < (d + 1) * own) by (nonlinear_arith)
        requires
            d == other as int / own as int,
            own > 0,
    ;
}

/// A page that comes back from a ghost list: it leaves it and goes to the front of the second list,
/// and may not be evicted at first.
pub open spec fn comes_back(a: ArcView, frame: usize, page: usize, b: ArcView) -> bool {
    &&& is_in_front(Resident { page, frame, evictable: false }, a.mfu, b.mfu)
    &&& b.mru == a.mru
    &&& if a.ghost_mru.contains(page) {
        exists|i: int| #[trigger] is_without(a.ghost_mru, i, b.ghost_mru) && a.ghost_mru[i] == page
    } else {
        b.ghost_mru == a.ghost_mru
    }
    &&& if a.ghost_mfu.contains(page) {
        exists|i: int| #[trigger] is_without(a.ghost_mfu, i, b.ghost_mfu) && a.ghost_mfu[i] == page
    } else {
        b.ghost_mfu == a.ghost_mfu
    }
    &&& b.target == a.target
    &&& b.capacity == a.capacity
}

/// An evicted page was accessed, once the target has moved: where the cache is full another page
/// is given up first, and where none can be, nothing moves.
pub open spec fn is_ghost_hit(a: ArcView, frame: usize, page: usize, b: ArcView) -> bool {
    if a.mru.len() + a.mfu.len() < a.capacity {
        comes_back(a, frame, page, b)
    } else if is_stuck(a.mru) && is_stuck(a.mfu) {
        b == a
    } else {
        exists|f: usize, mid: ArcView| #[trigger]
            gives_up(a, f, mid) && comes_back(mid, frame, page, b)
    }
}

proof fn lemma_revived(a: ArcView, frame: usize, page: usize)
    ensures
        comes_back(a, frame, page, a.revived(frame, page)),
{
    let b = a.revived(frame, page);
    if a.ghost_mru.contains(page) {
        let i = a.ghost_mru.index_of(page);
        assert(a.ghost_mru[i] == page && 0 <= i < a.ghost_mru.len());
        assert(is_without(a.ghost_mru, i, b.ghost_mru));
    }
    if a.ghost_mfu.contains(page) {
        let i = a.ghost_mfu.index_of(page);
        assert(a.ghost_mfu[i] == page && 0 <= i < a.ghost_mfu.len());
        assert(is_without(a.ghost_mfu, i, b.ghost_mfu));
    }
}

proof fn lemma_ghost_hit(a: ArcView, frame: usize, page: usize)
    ensures
        is_ghost_hit(a, frame, page, a.ghost_hit(frame, page)),
{
    law_evicts_least_recent(a);
    lemma_revived(a, frame, page);
    match a.evicted() {
        Some((f, mid)) => {
            lemma_revived(mid, frame, page);
            assert(gives_up(a, f, mid));
        },
        None => {},
    }
}

/// No list of cached pages holds the page.
pub open spec fn is_out(a: ArcView, page: usize) -> bool {
    &&& forall|i: int| 0 <= i < a.mru.len() ==> (#[trigger] a.mru[i]).page != page
    &&& forall|i: int| 0 <= i < a.mfu.len() ==> (#[trigger] a.mfu[i]).page != page
}

/// The target grows where a page that was evicted from the first list is accessed, up to the
/// capacity, and shrinks where one that was evicted from the second is, down to zero. Then the page
/// comes back.
pub proof fn law_ghost_hit(a: ArcView, frame: usize, page: usize)
    requires
        a.valid(),
        is_out(a, page),
    ensures
        ({
            let b = a.accessed(frame, page);
            &&& a.ghost_mru.contains(page) ==> exists|d: int| #[trigger]
                is_step_of(a.ghost_mru.len(), a.ghost_mfu.len(), d) && is_ghost_hit(
                    ArcView {
                        target: if a.target + d < a.capacity {
                            a.target + d
                        } else {
                            a.capacity
                        },
                        ..a
                    },
                    frame,
                    page,
                    b,
                )
            &&& a.ghost_mfu.contains(page) ==> exists|d: int| #[trigger]
                is_step_of(a.ghost_mfu.len(), a.ghost_mru.len(), d) && is_ghost_hit(
                    ArcView {
                        target: if a.target - d > 0 {
                            a.target - d
                        } else {
                            0
                        },
                        ..a
                    },
                    frame,
                    page,
                    b,
                )
        }),
{
    let (x, y) = (a.ghost_mru.len(), a.ghost_mfu.len());
    if a.ghost_mru.contains(page) {
        lemma_step(x, y);
        let d = if x >= y {
            1
        } else {
            y as int / x as int
        };
        assert(is_step_of(x, y, d));
        lemma_ghost_hit(ArcView { target: a.target_up(), ..a }, frame, page);
    }
    if a.ghost_mfu.contains(page) {
        lemma_step(y, x);
        let d = if y >= x {
            1
        } else {
            x as int / y as int
        };
        assert(is_step_of(y, x, d));
        lemma_ghost_hit(ArcView { target: a.target_down(), ..a }, frame, page);
    }
}

/// The page is new at the front of the first list, and may not be evicted at first.
pub open spec fn is_new(a: ArcView, frame: usize, page: usize, b: ArcView) -> bool {
    &&& is_in_front(Resident { page, frame, evictable: false }, a.mru, b.mru)
    &&& b.mfu == a.mfu
    &&& b.target == a.target
    &&& b.capacity == a.capacity
}

/// A page that no list holds goes to the front of the first list. Where the first list and its
/// ghosts are as many as the cache can hold, the least recent of these ghosts is forgotten; else
/// where all four lists are as many as twice that, the least recent ghost of the second list is.
/// Where there is no such ghost the page is not tracked.
pub proof fn law_miss(a: ArcView, frame: usize, page: usize)
    requires
        a.valid(),
        is_out(a, page),
        !a.ghost_mru.contains(page),
        !a.ghost_mfu.contains(page),
    ensures
        ({
            let b = a.accessed(frame, page);
            let first = a.mru.len() + a.ghost_mru.len();
            let (x, y) = (a.ghost_mru.len() as int, a.ghost_mfu.len() as int);
            if first == a.capacity {
                if x == 0 {
                    b == a
                } else {
                    is_new(a, frame, page, b) && is_without(a.ghost_mru, x - 1, b.ghost_mru)
                        && b.ghost_mfu == a.ghost_mfu
                }
            } else if first + a.mfu.len() + y == 2 * a.capacity {
                if y == 0 {
                    b == a
                } else {
                    is_new(a, frame, page, b) && b.ghost_mru == a.ghost_mru && is_without(
                        a.ghost_mfu,
                        y - 1,
                        b.ghost_mfu,
                    )
                }
            } else {
                is_new(a, frame, page, b) && b.ghost_mru == a.ghost_mru && b.ghost_mfu
                    == a.ghost_mfu
            }
        }),
{
}

/// The next frame is the free one that came last. Only where none is free it is the one of the
/// page that the cache gives up.
pub proof fn law_next_frame(a: CacheView)
    ensures
        a.taken() is None <==> a.free.len() == 0 && is_stuck(a.replacer.mru) && is_stuck(
            a.replacer.mfu,
        ),
        a.taken() matches Some((frame, b)) ==> if a.free.len() > 0 {
            let n = a.free.len() - 1;
            frame == a.free[n] && is_without(a.free, n, b.free) && b.replacer == a.replacer
        } else {
            gives_up(a.replacer, frame, b.replacer) && b.free == a.free
        },
{
    law_evicts_least_recent(a.replacer);
}

/// A page that was accessed in a frame stands in front of its list with the mark that was set.
pub proof fn law_used(a: CacheView, frame: usize, page: usize, evictable: bool)
    requires
        a.replacer.valid(),
        a.replacer.fits(frame, page),
        a.replacer.resident().len() < a.replacer.capacity || !is_out(a.replacer, page),
    ensures
        ({
            let b = a.used(frame, page, evictable);
            &&& b.free == a.free
            &&& b.replacer.tracks(Resident { page, frame, evictable })
            &&& forall|r: Resident|
                r.frame != frame ==> (#[trigger] b.replacer.tracks(r) <==> a.replacer.tracks(r))
        }),
{
    let v = a.replacer;
    if !is_out(v, page) {
        if exists|i: int| 0 <= i < v.mru.len() && (#[trigger] v.mru[i]).page == page {
            let i = choose|i: int| 0 <= i < v.mru.len() && (#[trigger] v.mru[i]).page == page;
            assert(v.resident()[i] == v.mru[i]);
            assert(v.tracks(v.mru[i]));
        } else {
            let i = choose|i: int| 0 <= i < v.mfu.len() && (#[trigger] v.mfu[i]).page == page;
            assert(v.resident()[v.mru.len() + i] == v.mfu[i]);
            assert(v.tracks(v.mfu[i]));
        }
    }
    v.law_access(frame, page);
    let w = v.accessed(frame, page);
    let e = choose|e: bool|
        #[trigger] w.tracks(Resident { page, frame, evictable: e }) && (forall|r: Resident|
            #[trigger]
            v.tracks(r) && r.page == page ==> r.evictable == e);
    w.law_mark(frame, evictable);
    let r = Resident { page, frame, evictable };
    assert(w.tracks(Resident { evictable: e, ..r }));
}

/// How many pages may be evicted is how many of those in frames are marked so.
pub proof fn law_evictable_count(s: Seq<Resident>)
    ensures
        evictable_count(s) == s.filter(|r: Resident| r.evictable).len(),
    decreases s.len(),
{
    reveal(Seq::filter);
    if s.len() > 0 {
        law_evictable_count(s.drop_last());
    }
}

} // verus!
