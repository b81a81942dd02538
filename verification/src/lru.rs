//! Least Recently Used page replacement.
use vstd::prelude::*;

use crate::stats::AccessType;
use crate::{lemma_loaded_within_seen, replay, PageReplacer, ReplacementModel};

verus! {

/// Abstract state of an LRU replacer: each loaded page with the tick of its
/// latest access, the capacity, and the number of accesses so far.
pub struct LruState {
    pub frames: Seq<(u32, nat)>,
    pub capacity: nat,
    pub tick: nat,
}

/// Well-formed LRU states: no page is loaded twice, no two pages share an
/// access tick, no tick lies in the future, and the capacity is respected.
pub open spec fn lru_valid(s: LruState) -> bool {
    &&& s.frames.len() <= s.capacity
    &&& forall|i: int, j: int|
        0 <= i < s.frames.len() && 0 <= j < s.frames.len() && i != j ==> s.frames[i].0
            != s.frames[j].0
    &&& forall|i: int, j: int|
        0 <= i < s.frames.len() && 0 <= j < s.frames.len() && i != j ==> s.frames[i].1
            != s.frames[j].1
    &&& forall|i: int| 0 <= i < s.frames.len() ==> s.frames[i].1 <= s.tick
}

/// Whether `page` is loaded in `s`.
pub open spec fn lru_resident(s: LruState, page: u32) -> bool {
    exists|i: int| 0 <= i < s.frames.len() && s.frames[i].0 == page
}

/// The frame that holds `page` (meaningful when the page is loaded).
pub open spec fn lru_slot(s: LruState, page: u32) -> int {
    choose|i: int| 0 <= i < s.frames.len() && s.frames[i].0 == page
}

/// Frame `i` holds the least recently used page.
pub open spec fn is_oldest(frames: Seq<(u32, nat)>, i: int) -> bool {
    &&& 0 <= i < frames.len()
    &&& forall|j: int| 0 <= j < frames.len() ==> frames[i].1 <= frames[j].1
}

/// The frame holding the least recently used page (meaningful when some
/// frame is in use).
pub open spec fn lru_oldest(s: LruState) -> int {
    choose|i: int| is_oldest(s.frames, i)
}

/// One access under LRU. The access gets the next tick. A loaded page is a
/// hit and its tick is refreshed; otherwise, when the frames are full, the
/// least recently used page is replaced in place, else the page is appended.
pub open spec fn lru_step(s: LruState, page: u32) -> (LruState, AccessType) {
    let t = s.tick + 1;
    if lru_resident(s, page) {
        (
            LruState {
                frames: s.frames.update(lru_slot(s, page), (page, t)),
                capacity: s.capacity,
                tick: t,
            },
            AccessType::Hit,
        )
    } else if s.frames.len() >= s.capacity {
        (
            LruState {
                frames: s.frames.update(lru_oldest(s), (page, t)),
                capacity: s.capacity,
                tick: t,
            },
            AccessType::Miss,
        )
    } else {
        (
            LruState { frames: s.frames.push((page, t)), capacity: s.capacity, tick: t },
            AccessType::Miss,
        )
    }
}

/// LRU page replacer.
///
/// Evicts the page whose most recent access is the oldest.
/// Uses a timestamp counter for O(n) simulation.
#[derive(Debug)]
pub struct LruReplacer {
    frames: Vec<(u32, u64)>,  // (page, last_access_tick)
    capacity: usize,
    tick: u64,
}

/// The abstract view of one executable frame.
pub open spec fn lru_entry(e: (u32, u64)) -> (u32, nat) {
    (e.0, e.1 as nat)
}

impl View for LruReplacer {
    type V = LruState;

    closed spec fn view(&self) -> LruState {
        LruState {
            frames: self.frames@.map_values(|e: (u32, u64)| lru_entry(e)),
            capacity: self.capacity as nat,
            tick: self.tick as nat,
        }
    }
}

impl LruReplacer {
    pub fn new(capacity: usize) -> (r: Self)
        ensures
            r.inv(),
            r@ == (LruState { frames: Seq::empty(), capacity: capacity as nat, tick: 0 }),
    {
        let r = Self { frames: Vec::with_capacity(capacity), capacity, tick: 0 };
        proof {
            assert(r@.frames =~= Seq::<(u32, nat)>::empty());
        }
        r
    }
}

impl ReplacementModel for LruReplacer {
    open spec fn inv(&self) -> bool {
        lru_valid(self@)
    }

    open spec fn step(state: LruState, page: u32) -> (LruState, AccessType) {
        lru_step(state, page)
    }

    /// The tick counter must not overflow, and a replacer without frames
    /// cannot take any page.
    open spec fn can_step(state: LruState, page: u32) -> bool {
        state.capacity > 0 && state.tick < u64::MAX
    }

    open spec fn resident(state: LruState, page: u32) -> bool {
        lru_resident(state, page)
    }

    open spec fn frames_in_use(state: LruState) -> nat {
        state.frames.len()
    }

    open spec fn frame_limit(state: LruState) -> nat {
        state.capacity
    }
}

impl PageReplacer for LruReplacer {
    fn access(&mut self, page: u32) -> (result: AccessType) {
        let ghost s = self@;
        self.tick = self.tick + 1;
        let n = self.frames.len();
        let mut i: usize = 0;
        while i < n
            invariant
                self.frames@ == old(self).frames@,
                self.capacity == old(self).capacity,
                self.tick == old(self).tick + 1,
                s == old(self)@,
                lru_valid(s),
                s.capacity > 0,
                n == self.frames@.len(),
                0 <= i <= n,
                forall|j: int| 0 <= j < i ==> self.frames@[j].0 != page,
            decreases n - i,
        {
            if self.frames[i].0 == page {
                let t = self.tick;
                self.frames.set(i, (page, t));
                proof {
                    assert(s.frames[i as int].0 == page);
                    let k = lru_slot(s, page);
                    assert(k == i);
                    assert(self@.frames =~= s.frames.update(i as int, (page, s.tick + 1)));
                    lemma_lru_step(s, page);
                }
                return AccessType::Hit;
            }
            i = i + 1;
        }
        proof {
            assert(!lru_resident(s, page));
        }
        // Miss
        let t = self.tick;
        if n >= self.capacity {
            // Find LRU
            let mut best: usize = 0;
            let mut j: usize = 1;
            while j < n
                invariant
                    self.frames@ == old(self).frames@,
                    n == self.frames@.len(),
                    0 < n,
                    0 <= best < j <= n,
                    forall|k: int| 0 <= k < j ==> self.frames@[best as int].1 <= self.frames@[k].1,
                decreases n - j,
            {
                if self.frames[j].1 < self.frames[best].1 {
                    best = j;
                }
                j = j + 1;
            }
            self.frames.set(best, (page, t));
            proof {
                assert(is_oldest(s.frames, best as int));
                let c = lru_oldest(s);
                assert(is_oldest(s.frames, c));
                assert(s.frames[c].1 <= s.frames[best as int].1);
                assert(s.frames[best as int].1 <= s.frames[c].1);
                assert(c == best);
                assert(self@.frames =~= s.frames.update(best as int, (page, s.tick + 1)));
            }
        } else {
            self.frames.push((page, t));
            proof {
                assert(self@.frames =~= s.frames.push((page, s.tick + 1)));
            }
        }
        proof {
            lemma_lru_step(s, page);
        }
        AccessType::Miss
    }

    fn frame_count(&self) -> (count: usize) {
        self.frames.len()
    }

    fn capacity(&self) -> (cap: usize) {
        self.capacity
    }
}

/// Laws of one LRU access (on a replacer with at least one frame): a hit
/// exactly when the page is loaded; afterwards the page is loaded with the
/// newest tick; the state stays well formed; the number of frames in use
/// grows by one on a miss while there is room and is otherwise unchanged; and
/// a miss on full frames evicts the least recently used page, keeping every
/// other page.
pub proof fn lemma_lru_step(s: LruState, page: u32)
    requires
        lru_valid(s),
        s.capacity > 0,
    ensures
        lru_valid(lru_step(s, page).0),
        (lru_step(s, page).1 == AccessType::Hit) == lru_resident(s, page),
        lru_resident(lru_step(s, page).0, page),
        forall|q: u32| lru_resident(lru_step(s, page).0, q) ==> q == page || lru_resident(s, q),
        lru_step(s, page).1 == AccessType::Hit || s.frames.len() < s.capacity ==> forall|q: u32|
            lru_resident(s, q) ==> lru_resident(lru_step(s, page).0, q),
        lru_step(s, page).0.frames.contains((page, s.tick + 1)),
        lru_step(s, page).0.capacity == s.capacity,
        lru_step(s, page).0.tick == s.tick + 1,
        lru_step(s, page).1 == AccessType::Hit ==> lru_step(s, page).0.frames.len()
            == s.frames.len(),
        lru_step(s, page).1 == AccessType::Miss && s.frames.len() < s.capacity ==> lru_step(
            s,
            page,
        ).0.frames.len() == s.frames.len() + 1,
        lru_step(s, page).1 == AccessType::Miss && s.frames.len() >= s.capacity ==> {
            let victim = s.frames[lru_oldest(s)];
            &&& is_oldest(s.frames, lru_oldest(s))
            &&& lru_step(s, page).0.frames.len() == s.frames.len()
            &&& !lru_resident(lru_step(s, page).0, victim.0)
            &&& forall|e: (u32, nat)|
                s.frames.contains(e) && e != victim ==> lru_step(s, page).0.frames.contains(e)
        },
{
    let t = s.tick + 1;
    let next = lru_step(s, page).0;
    if lru_resident(s, page) {
        let k = lru_slot(s, page);
        assert(next.frames[k] == (page, t));
        assert forall|q: u32| lru_resident(next, q) implies q == page || lru_resident(s, q) by {
            let m = choose|m: int| 0 <= m < next.frames.len() && next.frames[m].0 == q;
            if m != k {
                assert(s.frames[m].0 == q);
            }
        }
        assert forall|q: u32| lru_resident(s, q) implies lru_resident(next, q) by {
            let m = choose|m: int| 0 <= m < s.frames.len() && s.frames[m].0 == q;
            if m != k {
                assert(next.frames[m].0 == q);
            } else {
                assert(next.frames[k].0 == q);
            }
        }
    } else if s.frames.len() >= s.capacity {
        lemma_oldest_exists(s.frames);
        let k = lru_oldest(s);
        assert(next.frames[k] == (page, t));
        assert forall|q: u32| lru_resident(next, q) implies q == page || lru_resident(s, q) by {
            let m = choose|m: int| 0 <= m < next.frames.len() && next.frames[m].0 == q;
            if m != k {
                assert(s.frames[m].0 == q);
            }
        }
        let victim = s.frames[k];
        assert forall|e: (u32, nat)| s.frames.contains(e) && e != victim implies next.frames.contains(
            e,
        ) by {
            let m = choose|m: int| 0 <= m < s.frames.len() && s.frames[m] == e;
            assert(m != k);
            assert(next.frames[m] == e);
        }
        if lru_resident(next, victim.0) {
            let m = choose|m: int| 0 <= m < next.frames.len() && next.frames[m].0 == victim.0;
            assert(m != k);
        }
    } else {
        let n = s.frames.len();
        assert(next.frames[n as int] == (page, t));
        assert forall|q: u32| lru_resident(next, q) implies q == page || lru_resident(s, q) by {
            let m = choose|m: int| 0 <= m < next.frames.len() && next.frames[m].0 == q;
            if m != n {
                assert(s.frames[m].0 == q);
            }
        }
        assert forall|q: u32| lru_resident(s, q) implies lru_resident(next, q) by {
            let m = choose|m: int| 0 <= m < n && s.frames[m].0 == q;
            assert(next.frames[m].0 == q);
        }
    }
}

/// What one LRU access (on a replacer with at least one frame) does to each
/// frame: the access gets the next tick; a hit refreshes the accessed page's
/// tick and leaves every other frame as it was; a miss with room appends the
/// page; a miss on full frames puts the page, with the new tick, in the frame
/// whose tick is the smallest, and leaves every other frame as it was.
pub proof fn lemma_lru_frames(s: LruState, page: u32)
    requires
        lru_valid(s),
        s.capacity > 0,
    ensures
        ({
            let next = lru_step(s, page).0;
            let n = s.frames.len();
            let t = s.tick + 1;
            &&& next.tick == t
            &&& next.capacity == s.capacity
            &&& lru_resident(s, page) ==> {
                &&& next.frames.len() == n
                &&& forall|i: int|
                    0 <= i < n ==> next.frames[i] == if s.frames[i].0 == page {
                        (page, t)
                    } else {
                        s.frames[i]
                    }
            }
            &&& !lru_resident(s, page) && n < s.capacity ==> next.frames == s.frames.push(
                (page, t),
            )
            &&& !lru_resident(s, page) && n >= s.capacity ==> {
                let v = lru_oldest(s);
                &&& 0 <= v < n
                &&& forall|j: int| 0 <= j < n ==> s.frames[v].1 <= s.frames[j].1
                &&& next.frames.len() == n
                &&& forall|i: int|
                    0 <= i < n ==> next.frames[i] == if i == v {
                        (page, t)
                    } else {
                        s.frames[i]
                    }
            }
        }),
{
    let next = lru_step(s, page).0;
    let n = s.frames.len();
    if lru_resident(s, page) {
        let k = lru_slot(s, page);
        assert forall|i: int| 0 <= i < n implies next.frames[i] == if s.frames[i].0 == page {
            (page, s.tick + 1)
        } else {
            s.frames[i]
        } by {
            if i != k && s.frames[i].0 == page {
                assert(s.frames[i].0 != s.frames[k].0);
            }
        }
    } else if n >= s.capacity {
        lemma_oldest_exists(s.frames);
    }
}

/// A non-empty sequence of frames has a least recently used one.
pub proof fn lemma_oldest_exists(frames: Seq<(u32, nat)>)
    requires
        frames.len() > 0,
    ensures
        exists|i: int| is_oldest(frames, i),
    decreases frames.len(),
{
    if frames.len() == 1 {
        assert(is_oldest(frames, 0));
    } else {
        let rest = frames.drop_last();
        lemma_oldest_exists(rest);
        let i = choose|i: int| is_oldest(rest, i);
        let last = frames.len() - 1;
        assert forall|j: int| 0 <= j < last implies frames[j] == rest[j] by {}
        if frames[i].1 <= frames[last].1 {
            assert forall|j: int| 0 <= j < frames.len() implies frames[i].1 <= frames[j].1 by {
                if j < last {
                    assert(rest[i].1 <= rest[j].1);
                }
            }
            assert(is_oldest(frames, i));
        } else {
            assert forall|j: int| 0 <= j < frames.len() implies frames[last].1 <= frames[j].1 by {
                if j < last {
                    assert(rest[i].1 <= rest[j].1);
                }
            }
            assert(is_oldest(frames, last));
        }
    }
}

/// The pages loaded in `s`, in frame order.
pub open spec fn lru_pages(s: LruState) -> Seq<u32> {
    s.frames.map_values(|e: (u32, nat)| e.0)
}

/// The loaded pages of a well-formed state, listed without repeats.
proof fn lemma_lru_pages(s: LruState)
    requires
        lru_valid(s),
    ensures
        lru_pages(s).no_duplicates(),
        lru_pages(s).len() == s.frames.len(),
        forall|q: u32| lru_pages(s).contains(q) <==> lru_resident(s, q),
{
    let ps = lru_pages(s);
    assert forall|q: u32| ps.contains(q) <==> lru_resident(s, q) by {
        if ps.contains(q) {
            let m = choose|m: int| 0 <= m < ps.len() && ps[m] == q;
            assert(s.frames[m].0 == q);
        }
        if lru_resident(s, q) {
            let m = choose|m: int| 0 <= m < s.frames.len() && s.frames[m].0 == q;
            assert(ps[m] == q);
        }
    }
}

/// Occupancy of LRU: starting empty with capacity `c >= 1`, after any
/// reference string the number of frames in use is the smaller of `c` and the
/// number of distinct pages referenced; only referenced pages are loaded, no
/// page twice; while no more distinct pages were referenced than fit, all of
/// them are loaded (nothing was evicted); and the next access to a page never
/// referenced before is a miss.
pub proof fn lemma_lru_occupancy(c: nat, refs: Seq<u32>)
    requires
        c > 0,
    ensures
        ({
            let end = replay::<LruReplacer>(
                LruState { frames: Seq::empty(), capacity: c, tick: 0 },
                refs,
            ).0;
            &&& lru_valid(end)
            &&& end.capacity == c
            &&& end.tick == refs.len()
            &&& end.frames.len() == if c <= refs.to_set().len() {
                c
            } else {
                refs.to_set().len()
            }
            &&& forall|p: u32| lru_resident(end, p) ==> refs.contains(p)
            &&& refs.to_set().len() <= c ==> forall|p: u32|
                refs.contains(p) ==> lru_resident(end, p)
            &&& forall|p: u32| !refs.contains(p) ==> lru_step(end, p).1 == AccessType::Miss
        }),
    decreases refs.len(),
{
    let start = LruState { frames: Seq::empty(), capacity: c, tick: 0 };
    let end = replay::<LruReplacer>(start, refs).0;
    if refs.len() == 0 {
        assert(refs.to_set() =~= Set::<u32>::empty());
    } else {
        let pre = refs.drop_last();
        let p = refs.last();
        lemma_lru_occupancy(c, pre);
        let s = replay::<LruReplacer>(start, pre).0;
        assert(refs =~= pre.push(p));
        pre.lemma_push_to_set_commute(p);
        let d = pre.to_set();
        let d2 = refs.to_set();
        assert(d2 =~= d.insert(p));
        vstd::seq_lib::seq_to_set_is_finite(pre);
        lemma_lru_step(s, p);
        lemma_lru_pages(s);
        lemma_loaded_within_seen(lru_pages(s), d);
        assert forall|q: u32| lru_resident(end, q) implies refs.contains(q) by {
            if q != p {
                assert(pre.contains(q));
                let j = choose|j: int| 0 <= j < pre.len() && pre[j] == q;
                assert(refs[j] == q);
            } else {
                assert(refs[refs.len() - 1] == p);
            }
        }
        if lru_resident(s, p) {
            assert(d.contains(p));
            assert(d2 =~= d);
            if d2.len() <= c {
                assert forall|q: u32| refs.contains(q) implies lru_resident(end, q) by {
                    assert(d2.contains(q));
                    assert(pre.contains(q));
                }
            }
        } else if s.frames.len() < c {
            assert(!d.contains(p));
            assert(d2.len() == d.len() + 1);
            assert forall|q: u32| refs.contains(q) implies lru_resident(end, q) by {
                assert(d2.contains(q));
                if q != p {
                    assert(d.contains(q));
                }
            }
        } else {
            assert(d2.len() >= d.len());
            if d2.len() <= c {
                assert(d.contains(p));
            }
        }
        assert forall|q: u32| !refs.contains(q) implies lru_step(end, q).1 == AccessType::Miss by {}
    }
}

} // verus!
