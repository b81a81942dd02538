//! First In, First Out page replacement.
use vstd::prelude::*;

use crate::stats::AccessType;
use crate::{lemma_loaded_within_seen, replay, PageReplacer, ReplacementModel};
use std::collections::VecDeque;

verus! {

/// Abstract state of a FIFO replacer: the loaded pages, oldest first.
pub struct FifoState {
    pub frames: Seq<u32>,
    pub capacity: nat,
}

/// Well-formed FIFO states: no page is loaded twice, and no more pages are
/// loaded than the capacity allows.
pub open spec fn fifo_valid(s: FifoState) -> bool {
    &&& s.frames.no_duplicates()
    &&& s.frames.len() <= s.capacity
}

/// One access under FIFO: a loaded page is a hit; a replacer without frames
/// loads nothing and misses; otherwise the oldest page leaves when the frames
/// are full, and the new page joins at the back.
pub open spec fn fifo_step(s: FifoState, page: u32) -> (FifoState, AccessType) {
    if s.frames.contains(page) {
        (s, AccessType::Hit)
    } else if s.capacity == 0 {
        (s, AccessType::Miss)
    } else {
        let kept = if s.frames.len() >= s.capacity {
            s.frames.drop_first()
        } else {
            s.frames
        };
        (FifoState { frames: kept.push(page), capacity: s.capacity }, AccessType::Miss)
    }
}

/// FIFO page replacer.
///
/// Evicts the page that has been in memory the longest.
#[derive(Debug)]
pub struct FifoReplacer {
    frames: VecDeque<u32>,
    capacity: usize,
}

impl View for FifoReplacer {
    type V = FifoState;

    closed spec fn view(&self) -> FifoState {
        FifoState { frames: self.frames@, capacity: self.capacity as nat }
    }
}

impl FifoReplacer {
    pub fn new(capacity: usize) -> (r: Self)
        ensures
            r.inv(),
            r@ == (FifoState { frames: Seq::empty(), capacity: capacity as nat }),
    {
        let r = Self { frames: VecDeque::with_capacity(capacity), capacity };
        proof {
            assert(r@.frames =~= Seq::<u32>::empty());
        }
        r
    }
}

impl ReplacementModel for FifoReplacer {
    open spec fn inv(&self) -> bool {
        fifo_valid(self@)
    }

    open spec fn step(state: FifoState, page: u32) -> (FifoState, AccessType) {
        fifo_step(state, page)
    }

    open spec fn can_step(state: FifoState, page: u32) -> bool {
        true
    }

    open spec fn resident(state: FifoState, page: u32) -> bool {
        state.frames.contains(page)
    }

    open spec fn frames_in_use(state: FifoState) -> nat {
        state.frames.len()
    }

    open spec fn frame_limit(state: FifoState) -> nat {
        state.capacity
    }
}

impl PageReplacer for FifoReplacer {
    fn access(&mut self, page: u32) -> (result: AccessType) {
        let n = self.frames.len();
        let mut i: usize = 0;
        while i < n
            invariant
                self.frames@ == old(self).frames@,
                self.capacity == old(self).capacity,
                fifo_valid(self@),
                n == self.frames@.len(),
                0 <= i <= n,
                forall|j: int| 0 <= j < i ==> self.frames@[j] != page,
            decreases n - i,
        {
            if self.frames[i] == page {
                proof {
                    assert(self.frames@[i as int] == page);
                }
                return AccessType::Hit;
            }
            i = i + 1;
        }
        // Miss: a replacer without frames cannot load the page
        if self.capacity == 0 {
            return AccessType::Miss;
        }
        // Miss: need to load
        if self.frames.len() >= self.capacity {
            let _ = self.frames.pop_front();
        }
        self.frames.push_back(page);
        proof {
            let s = old(self)@;
            let kept = if s.frames.len() >= s.capacity {
                s.frames.drop_first()
            } else {
                s.frames
            };
            assert(self.frames@ =~= kept.push(page));
            lemma_fifo_step(s, page);
        }
        AccessType::Miss
    }

    fn frame_count(&self) -> (count: usize) {
        self.frames.len()
    }

    fn capacity(&self) -> (cap: usize) {
        self.capacity
    }
}

/// Laws of one FIFO access: a hit exactly when the page is loaded; the state
/// stays well formed and within its capacity; a hit changes nothing; a
/// replacer without frames changes nothing and misses; otherwise the page is
/// loaded afterwards, and a miss loads one more frame while there is room and
/// otherwise keeps the frame count, evicting exactly the oldest page.
pub proof fn lemma_fifo_step(s: FifoState, page: u32)
    requires
        fifo_valid(s),
    ensures
        fifo_valid(fifo_step(s, page).0),
        (fifo_step(s, page).1 == AccessType::Hit) == s.frames.contains(page),
        fifo_step(s, page).0.capacity == s.capacity,
        fifo_step(s, page).0.frames.len() <= s.capacity,
        s.capacity > 0 ==> fifo_step(s, page).0.frames.contains(page),
        s.capacity == 0 ==> fifo_step(s, page) == (s, AccessType::Miss),
        fifo_step(s, page).1 == AccessType::Hit ==> fifo_step(s, page).0 == s,
        fifo_step(s, page).1 == AccessType::Miss && s.frames.len() < s.capacity
            ==> fifo_step(s, page).0.frames == s.frames.push(page),
        fifo_step(s, page).1 == AccessType::Miss && s.frames.len() >= s.capacity && s.capacity > 0
            ==> fifo_step(s, page).0.frames == s.frames.drop_first().push(page),
{
    let next = fifo_step(s, page).0;
    if !s.frames.contains(page) && s.capacity > 0 {
        assert(next.frames[next.frames.len() - 1] == page);
        let kept = if s.frames.len() >= s.capacity {
            s.frames.drop_first()
        } else {
            s.frames
        };
        assert forall|i: int, j: int|
            0 <= i < next.frames.len() && 0 <= j < next.frames.len() && i != j implies next.frames[i]
            != next.frames[j] by {
            if i < kept.len() && j < kept.len() {
                if kept == s.frames.drop_first() {
                    assert(kept[i] == s.frames[i + 1]);
                    assert(kept[j] == s.frames[j + 1]);
                }
            } else if i < kept.len() {
                if kept == s.frames.drop_first() {
                    assert(kept[i] == s.frames[i + 1]);
                }
                assert(s.frames.contains(kept[i]));
            } else if j < kept.len() {
                if kept == s.frames.drop_first() {
                    assert(kept[j] == s.frames[j + 1]);
                }
                assert(s.frames.contains(kept[j]));
            }
        }
    }
}

/// The smaller of `a` and `b`.
pub open spec fn min_nat(a: nat, b: nat) -> nat {
    if a <= b {
        a
    } else {
        b
    }
}

/// Occupancy of FIFO: starting empty with capacity `c >= 1`, after any
/// reference string the number of frames in use is the smaller of `c` and the
/// number of distinct pages referenced; only referenced pages are loaded, no
/// page twice; while no more distinct pages were referenced than fit, all of
/// them are loaded (nothing was evicted); and the next access to a page never
/// referenced before is a miss.
pub proof fn lemma_fifo_occupancy(c: nat, refs: Seq<u32>)
    requires
        c > 0,
    ensures
        ({
            let end = replay::<FifoReplacer>(FifoState { frames: Seq::empty(), capacity: c }, refs).0;
            &&& fifo_valid(end)
            &&& end.capacity == c
            &&& end.frames.len() == min_nat(c, refs.to_set().len())
            &&& forall|p: u32| end.frames.contains(p) ==> refs.contains(p)
            &&& refs.to_set().len() <= c ==> forall|p: u32|
                refs.contains(p) ==> end.frames.contains(p)
            &&& forall|p: u32| !refs.contains(p) ==> fifo_step(end, p).1 == AccessType::Miss
        }),
    decreases refs.len(),
{
    let start = FifoState { frames: Seq::empty(), capacity: c };
    let end = replay::<FifoReplacer>(start, refs).0;
    if refs.len() == 0 {
        assert(refs.to_set() =~= Set::<u32>::empty());
    } else {
        let pre = refs.drop_last();
        let p = refs.last();
        lemma_fifo_occupancy(c, pre);
        let s = replay::<FifoReplacer>(start, pre).0;
        assert(refs =~= pre.push(p));
        pre.lemma_push_to_set_commute(p);
        let d = pre.to_set();
        let d2 = refs.to_set();
        assert(d2 =~= d.insert(p));
        vstd::seq_lib::seq_to_set_is_finite(pre);
        lemma_fifo_step(s, p);
        lemma_loaded_within_seen(s.frames, d);
        assert forall|q: u32| end.frames.contains(q) implies refs.contains(q) by {
            if q != p {
                let k = choose|k: int| 0 <= k < end.frames.len() && end.frames[k] == q;
                if !s.frames.contains(p) && s.frames.len() >= c {
                    assert(s.frames.drop_first()[k] == s.frames[k + 1]);
                    assert(s.frames.contains(q));
                } else if !s.frames.contains(p) {
                    assert(s.frames[k] == q);
                }
                assert(pre.contains(q));
                let j = choose|j: int| 0 <= j < pre.len() && pre[j] == q;
                assert(refs[j] == q);
            } else {
                assert(refs[refs.len() - 1] == p);
            }
        }
        if s.frames.contains(p) {
            assert(d.contains(p));
            assert(d2 =~= d);
        } else if s.frames.len() < c {
            assert(!d.contains(p));
            assert(d2.len() == d.len() + 1);
            assert forall|q: u32| refs.contains(q) implies end.frames.contains(q) by {
                assert(d2.contains(q));
                if q != p {
                    assert(d.contains(q));
                    let k = choose|k: int| 0 <= k < s.frames.len() && s.frames[k] == q;
                    assert(end.frames[k] == q);
                } else {
                    assert(end.frames[end.frames.len() - 1] == p);
                }
            }
        } else {
            assert(d2.len() >= d.len());
            if d2.len() <= c {
                assert(d.contains(p));
            }
        }
        assert forall|q: u32| !refs.contains(q) implies fifo_step(end, q).1 == AccessType::Miss by {}
    }
}

} // verus!
