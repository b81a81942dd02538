//! Least Frequently Used page replacement.
use vstd::prelude::*;

use crate::stats::AccessType;
use crate::{lemma_loaded_within_seen, replay, PageReplacer, ReplacementModel};
use std::collections::HashMap;

verus! {

broadcast use vstd::std_specs::hash::group_hash_axioms;

/// Abstract state of an LFU replacer: the loaded pages in frame order, the
/// access frequency of each loaded page since it was loaded, the
/// capacity, and the number of accesses of every page ever accessed.
pub struct LfuState {
    pub frames: Seq<u32>,
    pub freq: Map<u32, nat>,
    pub capacity: nat,
    pub counts: Map<u32, nat>,
}

/// How often `page` has been accessed in total (0 if never).
pub open spec fn lfu_count(s: LfuState, page: u32) -> nat {
    if s.counts.contains_key(page) {
        s.counts[page]
    } else {
        0
    }
}

/// The frequency recorded for `page` (0 if none).
pub open spec fn lfu_freq(freq: Map<u32, nat>, page: u32) -> nat {
    if freq.contains_key(page) {
        freq[page]
    } else {
        0
    }
}

/// Well-formed LFU states: no page is loaded twice, the capacity is
/// respected, exactly the loaded pages have a frequency, and a frequency is at
/// least 1 and at most the page's total access count.
pub open spec fn lfu_valid(s: LfuState) -> bool {
    &&& s.frames.no_duplicates()
    &&& s.frames.len() <= s.capacity
    &&& forall|p: u32| #[trigger] s.freq.contains_key(p) <==> s.frames.contains(p)
    &&& forall|p: u32| #[trigger]
        s.freq.contains_key(p) ==> 1 <= s.freq[p] <= lfu_count(s, p)
}

/// Frame `i` holds the page to evict: its frequency is the lowest, and every
/// page in an earlier frame has a higher frequency.
pub open spec fn is_lfu_victim(frames: Seq<u32>, freq: Map<u32, nat>, i: int) -> bool {
    &&& 0 <= i < frames.len()
    &&& forall|j: int|
        0 <= j < frames.len() ==> lfu_freq(freq, frames[i]) <= lfu_freq(freq, #[trigger] frames[j])
    &&& forall|j: int|
        0 <= j < i ==> lfu_freq(freq, frames[i]) < lfu_freq(freq, #[trigger] frames[j])
}

/// The frame to evict (meaningful when some frame is in use).
pub open spec fn lfu_victim(s: LfuState) -> int {
    choose|i: int| is_lfu_victim(s.frames, s.freq, i)
}

/// One access under LFU. The page's total count goes up by one. A loaded page
/// is a hit and its frequency goes up by one; otherwise, when the frames are
/// full, the least frequently used page (the one in the earliest frame among
/// equals) leaves together with its frequency and the new page takes its
/// frame, else the new page takes a new frame; either way with frequency 1.
pub open spec fn lfu_step(s: LfuState, page: u32) -> (LfuState, AccessType) {
    let counts = s.counts.insert(page, lfu_count(s, page) + 1);
    if s.frames.contains(page) {
        (
            LfuState {
                frames: s.frames,
                freq: s.freq.insert(page, s.freq[page] + 1),
                capacity: s.capacity,
                counts,
            },
            AccessType::Hit,
        )
    } else if s.frames.len() >= s.capacity {
        let v = lfu_victim(s);
        (
            LfuState {
                frames: s.frames.update(v, page),
                freq: s.freq.remove(s.frames[v]).insert(page, 1),
                capacity: s.capacity,
                counts,
            },
            AccessType::Miss,
        )
    } else {
        (
            LfuState {
                frames: s.frames.push(page),
                freq: s.freq.insert(page, 1),
                capacity: s.capacity,
                counts,
            },
            AccessType::Miss,
        )
    }
}

/// LFU page replacer.
///
/// Evicts the page with the lowest access frequency.
/// Ties are broken by frame order (the page in the earliest frame is evicted
/// first); a newly loaded page takes the frame of the page it evicts.
#[derive(Debug)]
pub struct LfuReplacer {
    frames: Vec<u32>,
    freq: HashMap<u32, usize>,
    capacity: usize,
    /// Global frequency tracking for pages not in frames too
    access_count: HashMap<u32, usize>,
}

/// A map of machine counters seen as a map of natural numbers.
pub open spec fn nat_counters(m: Map<u32, usize>) -> Map<u32, nat> {
    m.map_values(|v: usize| v as nat)
}

impl View for LfuReplacer {
    type V = LfuState;

    closed spec fn view(&self) -> LfuState {
        LfuState {
            frames: self.frames@,
            freq: nat_counters(self.freq@),
            capacity: self.capacity as nat,
            counts: nat_counters(self.access_count@),
        }
    }
}

impl LfuReplacer {
    pub fn new(capacity: usize) -> (r: Self)
        ensures
            r.inv(),
            r@ == (LfuState {
                frames: Seq::empty(),
                freq: Map::empty(),
                capacity: capacity as nat,
                counts: Map::empty(),
            }),
    {
        let r = Self {
            frames: Vec::with_capacity(capacity),
            freq: HashMap::new(),
            capacity,
            access_count: HashMap::new(),
        };
        proof {
            assert(r@.frames =~= Seq::<u32>::empty());
            assert(r@.freq =~= Map::<u32, nat>::empty());
            assert(r@.counts =~= Map::<u32, nat>::empty());
        }
        r
    }

    /// Count one more access of `page`, in total and since it was loaded.
    fn inc_freq(&mut self, page: u32)
        requires
            lfu_count(old(self)@, page) < usize::MAX,
            lfu_freq(old(self)@.freq, page) <= lfu_count(old(self)@, page),
        ensures
            final(self).frames == old(self).frames,
            final(self).capacity == old(self).capacity,
            final(self)@.freq == old(self)@.freq.insert(
                page,
                lfu_freq(old(self)@.freq, page) + 1,
            ),
            final(self)@.counts == old(self)@.counts.insert(page, lfu_count(old(self)@, page) + 1),
    {
        let count = match self.access_count.get(&page) {
            Some(c) => *c,
            None => 0,
        };
        self.access_count.insert(page, count + 1);
        let f = self.freq_of(page);
        self.freq.insert(page, f + 1);
        proof {
            assert(self@.freq =~= old(self)@.freq.insert(page, lfu_freq(old(self)@.freq, page) + 1));
            assert(self@.counts =~= old(self)@.counts.insert(
                page,
                lfu_count(old(self)@, page) + 1,
            ));
        }
    }

    /// The recorded frequency of `page`, 0 if it has none.
    fn freq_of(&self, page: u32) -> (f: usize)
        ensures
            f == lfu_freq(self@.freq, page),
    {
        match self.freq.get(&page) {
            Some(f) => *f,
            None => 0,
        }
    }

    /// The access frequency of `page` since it was loaded, if it is loaded.
    pub fn frequency(&self, page: u32) -> (f: Option<usize>)
        ensures
            match f {
                Some(v) => self@.freq.contains_key(page) && v == self@.freq[page],
                None => !self@.freq.contains_key(page),
            },
    {
        match self.freq.get(&page) {
            Some(v) => Some(*v),
            None => None,
        }
    }
}

impl ReplacementModel for LfuReplacer {
    open spec fn inv(&self) -> bool {
        lfu_valid(self@)
    }

    open spec fn step(state: LfuState, page: u32) -> (LfuState, AccessType) {
        lfu_step(state, page)
    }

    /// The page's access counter must not overflow, and a replacer without
    /// frames cannot take any page.
    open spec fn can_step(state: LfuState, page: u32) -> bool {
        state.capacity > 0 && lfu_count(state, page) < usize::MAX
    }

    open spec fn resident(state: LfuState, page: u32) -> bool {
        state.frames.contains(page)
    }

    open spec fn frames_in_use(state: LfuState) -> nat {
        state.frames.len()
    }

    open spec fn frame_limit(state: LfuState) -> nat {
        state.capacity
    }
}

impl PageReplacer for LfuReplacer {
    fn access(&mut self, page: u32) -> (result: AccessType) {
        let ghost s = self@;
        let n = self.frames.len();
        let mut i: usize = 0;
        while i < n
            invariant
                self.frames@ == old(self).frames@,
                self.freq@ == old(self).freq@,
                self.access_count@ == old(self).access_count@,
                self.capacity == old(self).capacity,
                s == old(self)@,
                lfu_valid(s),
                s.capacity > 0,
                lfu_count(s, page) < usize::MAX,
                n == self.frames@.len(),
                0 <= i <= n,
                forall|j: int| 0 <= j < i ==> self.frames@[j] != page,
            decreases n - i,
        {
            if self.frames[i] == page {
                proof {
                    assert(s.frames[i as int] == page);
                    assert(s.frames.contains(page));
                }
                self.inc_freq(page);
                proof {
                    lemma_lfu_step(s, page);
                    assert(self@ == lfu_step(s, page).0);
                }
                return AccessType::Hit;
            }
            i = i + 1;
        }
        proof {
            assert(!s.frames.contains(page));
        }
        // Miss
        if n >= self.capacity {
            // Find the frame with lowest frequency
            let mut min_freq = self.freq_of(self.frames[0]);
            let ghost mut witness: int = 0;
            let mut j: usize = 1;
            while j < n
                invariant
                    self.frames@ == old(self).frames@,
                    self.freq@ == old(self).freq@,
                    self.access_count@ == old(self).access_count@,
                    self.capacity == old(self).capacity,
                    s == old(self)@,
                    n == self.frames@.len(),
                    0 < j <= n,
                    0 <= witness < j,
                    lfu_freq(s.freq, s.frames[witness]) == min_freq,
                    forall|k: int| 0 <= k < j ==> min_freq <= lfu_freq(s.freq, #[trigger] s.frames[k]),
                decreases n - j,
            {
                let f = self.freq_of(self.frames[j]);
                if f < min_freq {
                    min_freq = f;
                    proof {
                        witness = j as int;
                    }
                }
                j = j + 1;
            }
            let mut evict_idx: usize = 0;
            while self.freq_of(self.frames[evict_idx]) != min_freq
                invariant
                    self.frames@ == old(self).frames@,
                    self.freq@ == old(self).freq@,
                    s == old(self)@,
                    n == self.frames@.len(),
                    0 <= witness < n,
                    0 <= evict_idx <= witness,
                    lfu_freq(s.freq, s.frames[witness]) == min_freq,
                    forall|k: int| 0 <= k < n ==> min_freq <= lfu_freq(s.freq, #[trigger] s.frames[k]),
                    forall|k: int| 0 <= k < evict_idx ==> lfu_freq(s.freq, #[trigger] s.frames[k]) != min_freq,
                decreases witness - evict_idx,
            {
                evict_idx = evict_idx + 1;
            }
            let evicted = self.frames[evict_idx];
            let _ = self.freq.remove(&evicted);
            self.frames.set(evict_idx, page);
            proof {
                assert(is_lfu_victim(s.frames, s.freq, evict_idx as int));
                let c = lfu_victim(s);
                assert(is_lfu_victim(s.frames, s.freq, c));
                if c < evict_idx {
                    assert(lfu_freq(s.freq, s.frames[evict_idx as int]) < lfu_freq(s.freq, s.frames[c]));
                } else if c > evict_idx {
                    assert(lfu_freq(s.freq, s.frames[c]) < lfu_freq(s.freq, s.frames[evict_idx as int]));
                }
                assert(c == evict_idx);
                assert(self@.freq =~= s.freq.remove(evicted));
            }
        } else {
            self.frames.push(page);
        }
        self.inc_freq(page);
        proof {
            lemma_lfu_step(s, page);
            assert(self@ == lfu_step(s, page).0);
        }
        AccessType::Miss
    }

    fn frame_count(&self) -> (count: usize) {
        self.frames.len()
    }

    fn capacity(&self) -> (cap: usize) {
        self.capacity
    }
}

/// Laws of one LFU access (on a replacer with at least one frame): a hit
/// exactly when the page is loaded; afterwards the page is loaded; its total
/// count grows by one and its frequency grows by one on a hit and is 1 after a
/// miss; every other page keeps its total count, and every other loaded page
/// keeps its frequency; the state stays well formed; the number of frames in use grows by one
/// on a miss while there is room and is otherwise unchanged; and a miss on
/// full frames evicts a page of lowest frequency, the one in the earliest frame
/// among those, putting the new page in its frame and keeping every other page
/// and its frequency.
pub proof fn lemma_lfu_step(s: LfuState, page: u32)
    requires
        lfu_valid(s),
        s.capacity > 0,
    ensures
        lfu_valid(lfu_step(s, page).0),
        (lfu_step(s, page).1 == AccessType::Hit) == s.frames.contains(page),
        lfu_step(s, page).0.frames.contains(page),
        forall|q: u32| lfu_step(s, page).0.frames.contains(q) ==> q == page || s.frames.contains(q),
        lfu_step(s, page).1 == AccessType::Hit || s.frames.len() < s.capacity ==> forall|q: u32|
            s.frames.contains(q) ==> lfu_step(s, page).0.frames.contains(q),
        lfu_step(s, page).0.capacity == s.capacity,
        lfu_count(lfu_step(s, page).0, page) == lfu_count(s, page) + 1,
        forall|q: u32| q != page ==> lfu_count(lfu_step(s, page).0, q) == lfu_count(s, q),
        forall|q: u32|
            q != page && #[trigger] lfu_step(s, page).0.freq.contains_key(q) ==> s.freq.contains_key(
                q,
            ) && lfu_step(s, page).0.freq[q] == s.freq[q],
        lfu_step(s, page).0.freq[page] == if s.frames.contains(page) {
            s.freq[page] + 1
        } else {
            1
        },
        lfu_step(s, page).1 == AccessType::Hit ==> lfu_step(s, page).0.frames == s.frames,
        lfu_step(s, page).1 == AccessType::Miss && s.frames.len() < s.capacity ==> lfu_step(
            s,
            page,
        ).0.frames == s.frames.push(page),
        lfu_step(s, page).1 == AccessType::Miss && s.frames.len() >= s.capacity ==> {
            let v = lfu_victim(s);
            &&& is_lfu_victim(s.frames, s.freq, v)
            &&& 0 <= v < s.frames.len()
            &&& forall|j: int| 0 <= j < s.frames.len() ==> s.freq[s.frames[v]] <= s.freq[s.frames[j]]
            &&& forall|j: int| 0 <= j < v ==> s.freq[s.frames[v]] < s.freq[s.frames[j]]
            &&& lfu_step(s, page).0.frames == s.frames.update(v, page)
            &&& !lfu_step(s, page).0.frames.contains(s.frames[v])
            &&& forall|p: u32|
                s.frames.contains(p) && p != s.frames[v] ==> lfu_step(s, page).0.frames.contains(p)
                    && lfu_step(s, page).0.freq[p] == s.freq[p]
        },
{
    let next = lfu_step(s, page).0;
    let n = s.frames.len();
    assert(next.counts.contains_key(page));
    if s.frames.contains(page) {
        assert(s.freq.contains_key(page));
    } else if n >= s.capacity {
        lemma_victim_exists(s);
        let v = lfu_victim(s);
        let old_page = s.frames[v];
        assert(next.frames[v] == page);
        assert forall|q: u32| next.frames.contains(q) implies q == page || s.frames.contains(q) by {
            let m = choose|m: int| 0 <= m < n && next.frames[m] == q;
            if m != v {
                assert(s.frames[m] == q);
            }
        }
        assert forall|p: u32| #[trigger] next.freq.contains_key(p) <==> next.frames.contains(p) by {
            if next.frames.contains(p) && p != page {
                let k = choose|k: int| 0 <= k < n && next.frames[k] == p;
                assert(k != v);
                assert(s.frames[k] == p);
            }
            if next.freq.contains_key(p) && p != page {
                assert(s.frames.contains(p));
                let k = choose|k: int| 0 <= k < n && s.frames[k] == p;
                assert(k != v);
                assert(next.frames[k] == p);
            }
        }
        assert forall|i: int, j: int|
            0 <= i < n && 0 <= j < n && i != j implies next.frames[i] != next.frames[j] by {
            if i != v && j != v {
                assert(next.frames[i] == s.frames[i]);
                assert(next.frames[j] == s.frames[j]);
            } else if i == v {
                assert(next.frames[j] == s.frames[j]);
                assert(s.frames.contains(s.frames[j]));
            } else {
                assert(next.frames[i] == s.frames[i]);
                assert(s.frames.contains(s.frames[i]));
            }
        }
        assert forall|p: u32| s.frames.contains(p) && p != old_page implies next.frames.contains(p)
            && next.freq[p] == s.freq[p] by {
            let k = choose|k: int| 0 <= k < n && s.frames[k] == p;
            assert(k != v);
            assert(next.frames[k] == p);
            assert(p != page);
        }
        assert(!next.frames.contains(old_page)) by {
            if next.frames.contains(old_page) {
                let k = choose|k: int| 0 <= k < n && next.frames[k] == old_page;
                if k != v {
                    assert(s.frames[k] == old_page);
                }
            }
        }
    } else {
        assert(next.frames[n as int] == page);
        assert forall|p: u32| #[trigger] next.freq.contains_key(p) <==> next.frames.contains(p) by {
            if next.frames.contains(p) && p != page {
                let k = choose|k: int| 0 <= k < next.frames.len() && next.frames[k] == p;
                assert(s.frames[k] == p);
            }
            if s.frames.contains(p) {
                let k = choose|k: int| 0 <= k < n && s.frames[k] == p;
                assert(next.frames[k] == p);
            }
        }
        assert forall|q: u32| next.frames.contains(q) implies q == page || s.frames.contains(q) by {
            let m = choose|m: int| 0 <= m < next.frames.len() && next.frames[m] == q;
            if m != n {
                assert(s.frames[m] == q);
            }
        }
        assert forall|q: u32| s.frames.contains(q) implies next.frames.contains(q) by {
            let m = choose|m: int| 0 <= m < n && s.frames[m] == q;
            assert(next.frames[m] == q);
        }
    }
}

/// Non-empty frames have a page to evict.
proof fn lemma_victim_exists(s: LfuState)
    requires
        s.frames.len() > 0,
    ensures
        exists|i: int| is_lfu_victim(s.frames, s.freq, i),
{
    lemma_min_prefix(s.frames, s.freq, s.frames.len() as int);
    let i = choose|i: int| is_lfu_victim(s.frames.take(s.frames.len() as int), s.freq, i);
    assert(s.frames.take(s.frames.len() as int) =~= s.frames);
}

/// Every non-empty prefix of the frames has a page to evict.
proof fn lemma_min_prefix(frames: Seq<u32>, freq: Map<u32, nat>, m: int)
    requires
        0 < m <= frames.len(),
    ensures
        exists|i: int| is_lfu_victim(frames.take(m), freq, i),
    decreases m,
{
    let pre = frames.take(m);
    if m == 1 {
        assert(is_lfu_victim(pre, freq, 0));
    } else {
        lemma_min_prefix(frames, freq, m - 1);
        let shorter = frames.take(m - 1);
        let i = choose|i: int| is_lfu_victim(shorter, freq, i);
        assert forall|k: int| 0 <= k < m - 1 implies pre[k] == shorter[k] by {}
        if lfu_freq(freq, pre[i]) <= lfu_freq(freq, pre[m - 1]) {
            assert forall|j: int| 0 <= j < m implies lfu_freq(freq, pre[i]) <= lfu_freq(
                freq,
                #[trigger] pre[j],
            ) by {
                if j < m - 1 {
                    assert(lfu_freq(freq, shorter[i]) <= lfu_freq(freq, shorter[j]));
                }
            }
            assert forall|j: int| 0 <= j < i implies lfu_freq(freq, pre[i]) < lfu_freq(
                freq,
                #[trigger] pre[j],
            ) by {
                assert(lfu_freq(freq, shorter[i]) < lfu_freq(freq, shorter[j]));
            }
            assert(is_lfu_victim(pre, freq, i));
        } else {
            assert forall|j: int| 0 <= j < m implies lfu_freq(freq, pre[m - 1]) <= lfu_freq(
                freq,
                #[trigger] pre[j],
            ) by {
                if j < m - 1 {
                    assert(lfu_freq(freq, shorter[i]) <= lfu_freq(freq, shorter[j]));
                }
            }
            assert forall|j: int| 0 <= j < m - 1 implies lfu_freq(freq, pre[m - 1]) < lfu_freq(
                freq,
                #[trigger] pre[j],
            ) by {
                assert(lfu_freq(freq, shorter[i]) <= lfu_freq(freq, shorter[j]));
            }
            assert(is_lfu_victim(pre, freq, m - 1));
        }
    }
}

/// Occupancy of LFU: starting empty with capacity `c >= 1`, after any
/// reference string the number of frames in use is the smaller of `c` and the
/// number of distinct pages referenced; only referenced pages are loaded, no
/// page twice; while no more distinct pages were referenced than fit, all of
/// them are loaded (nothing was evicted); and the next access to a page never
/// referenced before is a miss.
pub proof fn lemma_lfu_occupancy(c: nat, refs: Seq<u32>)
    requires
        c > 0,
    ensures
        ({
            let end = replay::<LfuReplacer>(
                LfuState {
                    frames: Seq::empty(),
                    freq: Map::empty(),
                    capacity: c,
                    counts: Map::empty(),
                },
                refs,
            ).0;
            &&& lfu_valid(end)
            &&& end.capacity == c
            &&& end.frames.len() == if c <= refs.to_set().len() {
                c
            } else {
                refs.to_set().len()
            }
            &&& forall|p: u32| end.frames.contains(p) ==> refs.contains(p)
            &&& refs.to_set().len() <= c ==> forall|p: u32|
                refs.contains(p) ==> end.frames.contains(p)
            &&& forall|p: u32| !refs.contains(p) ==> lfu_step(end, p).1 == AccessType::Miss
        }),
    decreases refs.len(),
{
    let start = LfuState {
        frames: Seq::empty(),
        freq: Map::empty(),
        capacity: c,
        counts: Map::empty(),
    };
    let end = replay::<LfuReplacer>(start, refs).0;
    if refs.len() == 0 {
        assert(refs.to_set() =~= Set::<u32>::empty());
    } else {
        let pre = refs.drop_last();
        let p = refs.last();
        lemma_lfu_occupancy(c, pre);
        let s = replay::<LfuReplacer>(start, pre).0;
        assert(refs =~= pre.push(p));
        pre.lemma_push_to_set_commute(p);
        let d = pre.to_set();
        let d2 = refs.to_set();
        assert(d2 =~= d.insert(p));
        vstd::seq_lib::seq_to_set_is_finite(pre);
        lemma_lfu_step(s, p);
        lemma_loaded_within_seen(s.frames, d);
        assert forall|q: u32| end.frames.contains(q) implies refs.contains(q) by {
            if q != p {
                assert(pre.contains(q));
                let j = choose|j: int| 0 <= j < pre.len() && pre[j] == q;
                assert(refs[j] == q);
            } else {
                assert(refs[refs.len() - 1] == p);
            }
        }
        if s.frames.contains(p) {
            assert(d.contains(p));
            assert(d2 =~= d);
            if d2.len() <= c {
                assert forall|q: u32| refs.contains(q) implies end.frames.contains(q) by {
                    assert(d2.contains(q));
                    assert(pre.contains(q));
                }
            }
        } else if s.frames.len() < c {
            assert(!d.contains(p));
            assert(d2.len() == d.len() + 1);
            assert forall|q: u32| refs.contains(q) implies end.frames.contains(q) by {
                assert(d2.contains(q));
                if q != p {
                    assert(d.contains(q));
                }
            }
        } else {
            assert(d2.len() >= d.len());
            if d2.len() <= c {
                assert(d.contains(p));
            }
        }
        assert forall|q: u32| !refs.contains(q) implies lfu_step(end, q).1 == AccessType::Miss by {}
    }
}

} // verus!
