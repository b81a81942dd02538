//! Clock (second-chance) page replacement.
use vstd::prelude::*;

use crate::stats::AccessType;
use crate::{lemma_loaded_within_seen, replay, PageReplacer, ReplacementModel};

verus! {

/// Abstract state of a Clock replacer: the occupied slots in slot order (the
/// slots fill from the front and are never emptied), each with its page and
/// reference bit, the position of the clock hand, and the capacity.
pub struct ClockState {
    pub slots: Seq<(u32, bool)>,
    pub hand: nat,
    pub capacity: nat,
}

/// Well-formed Clock states: no page is loaded twice, the capacity is
/// respected, and the hand points at a slot.
pub open spec fn clock_valid(s: ClockState) -> bool {
    &&& s.slots.len() <= s.capacity
    &&& forall|i: int, j: int|
        0 <= i < s.slots.len() && 0 <= j < s.slots.len() && i != j ==> s.slots[i].0
            != s.slots[j].0
    &&& if s.capacity > 0 {
        s.hand < s.capacity
    } else {
        s.hand == 0
    }
}

/// Whether `page` is loaded in `s`.
pub open spec fn clock_resident(s: ClockState, page: u32) -> bool {
    exists|i: int| 0 <= i < s.slots.len() && s.slots[i].0 == page
}

/// The slot that holds `page` (meaningful when the page is loaded).
pub open spec fn clock_slot(s: ClockState, page: u32) -> int {
    choose|i: int| 0 <= i < s.slots.len() && s.slots[i].0 == page
}

/// The slot `k` places after `hand` on a ring of `n` slots (for `k <= n`).
pub open spec fn ring_pos(hand: nat, k: nat, n: nat) -> int {
    if hand + k < n {
        (hand + k) as int
    } else {
        hand + k - n
    }
}

/// How many places slot `i` lies after `hand` on a ring of `n` slots.
pub open spec fn ring_offset(hand: nat, i: int, n: nat) -> int {
    if i >= hand {
        i - hand
    } else {
        i + n - hand
    }
}

/// Starting `k` places after the hand, how many places the hand travels
/// before it meets a clear reference bit; the number of slots when every bit
/// from there on is set.
pub open spec fn first_clear_from(slots: Seq<(u32, bool)>, hand: nat, k: nat) -> nat
    decreases slots.len() - k,
{
    if k >= slots.len() {
        slots.len()
    } else if !slots[ring_pos(hand, k, slots.len())].1 {
        k
    } else {
        first_clear_from(slots, hand, k + 1)
    }
}

/// A full sweep of the clock to load `page`: the hand clears the set bits it
/// passes, replaces the first page whose bit is clear (the page under the hand
/// if every bit was set, after a full turn), and stops just past it.
pub open spec fn clock_sweep(s: ClockState, page: u32) -> ClockState {
    let n = s.slots.len();
    let k = first_clear_from(s.slots, s.hand, 0);
    let victim = ring_pos(s.hand, k, n);
    ClockState {
        slots: Seq::new(
            n,
            |i: int|
                if i == victim {
                    (page, true)
                } else if ring_offset(s.hand, i, n) < k {
                    (s.slots[i].0, false)
                } else {
                    s.slots[i]
                },
        ),
        hand: if victim + 1 < n {
            (victim + 1) as nat
        } else {
            0
        },
        capacity: s.capacity,
    }
}

/// One access under Clock: a loaded page is a hit and gets its reference bit
/// set; otherwise the page goes into the first free slot with its bit set, or,
/// when all slots are taken, the clock sweeps.
pub open spec fn clock_step(s: ClockState, page: u32) -> (ClockState, AccessType) {
    if clock_resident(s, page) {
        (
            ClockState {
                slots: s.slots.update(clock_slot(s, page), (page, true)),
                hand: s.hand,
                capacity: s.capacity,
            },
            AccessType::Hit,
        )
    } else if s.slots.len() < s.capacity {
        (
            ClockState { slots: s.slots.push((page, true)), hand: s.hand, capacity: s.capacity },
            AccessType::Miss,
        )
    } else {
        (clock_sweep(s, page), AccessType::Miss)
    }
}

/// Clock page replacer.
///
/// Uses a circular buffer with reference bits. On eviction, pages with
/// their reference bit set get a "second chance" (bit cleared).
#[derive(Debug)]
pub struct ClockReplacer {
    /// (page, reference_bit)
    frames: Vec<Option<(u32, bool)>>,
    capacity: usize,
    hand: usize,
    len: usize,
}

/// The content of an occupied frame.
pub open spec fn slot_value(o: Option<(u32, bool)>) -> (u32, bool) {
    match o {
        Some(x) => x,
        None => (0, false),
    }
}

impl View for ClockReplacer {
    type V = ClockState;

    closed spec fn view(&self) -> ClockState {
        ClockState {
            slots: Seq::new(self.len as nat, |i: int| slot_value(self.frames@[i])),
            hand: self.hand as nat,
            capacity: self.capacity as nat,
        }
    }
}

impl ClockReplacer {
    /// The frames vector has one entry per slot; the first `len` are occupied
    /// and the rest are empty.
    pub closed spec fn frames_wf(&self) -> bool {
        &&& self.frames@.len() == self.capacity
        &&& self.len <= self.capacity
        &&& forall|i: int| 0 <= i < self.len ==> self.frames@[i] is Some
        &&& forall|i: int| self.len <= i < self.capacity ==> self.frames@[i] is None
    }

    pub fn new(capacity: usize) -> (r: Self)
        ensures
            r.inv(),
            r@ == (ClockState { slots: Seq::empty(), hand: 0, capacity: capacity as nat }),
    {
        let r = Self { frames: vec![None; capacity], capacity, hand: 0, len: 0 };
        proof {
            assert(r@.slots =~= Seq::<(u32, bool)>::empty());
        }
        r
    }
}

/// `(x + 1) % n` steps a hand forward on a ring of `n` slots.
proof fn lemma_next_hand(x: usize, n: usize)
    requires
        x < n,
    ensures
        (x + 1) % (n as int) == if x + 1 < n {
            x + 1
        } else {
            0
        },
{
    if x + 1 < n {
        vstd::arithmetic::div_mod::lemma_small_mod((x + 1) as nat, n as nat);
    } else {
        vstd::arithmetic::div_mod::lemma_mod_self_0(n as int);
    }
}

/// What `first_clear_from` finds: every bit it passes is set, and it stops at
/// a clear bit unless it ran off the end.
pub proof fn lemma_first_clear(slots: Seq<(u32, bool)>, hand: nat, k: nat)
    requires
        k <= slots.len(),
    ensures
        k <= first_clear_from(slots, hand, k) <= slots.len(),
        forall|j: nat|
            k <= j < first_clear_from(slots, hand, k) ==> slots[ring_pos(hand, j, slots.len())].1,
        first_clear_from(slots, hand, k) < slots.len() ==> !slots[ring_pos(
            hand,
            first_clear_from(slots, hand, k),
            slots.len(),
        )].1,
    decreases slots.len() - k,
{
    if k < slots.len() && slots[ring_pos(hand, k, slots.len())].1 {
        lemma_first_clear(slots, hand, k + 1);
    }
}

impl ReplacementModel for ClockReplacer {
    open spec fn inv(&self) -> bool {
        self.frames_wf() && clock_valid(self@)
    }

    open spec fn step(state: ClockState, page: u32) -> (ClockState, AccessType) {
        clock_step(state, page)
    }

    /// A replacer without frames cannot take any page.
    open spec fn can_step(state: ClockState, page: u32) -> bool {
        state.capacity > 0
    }

    open spec fn resident(state: ClockState, page: u32) -> bool {
        clock_resident(state, page)
    }

    open spec fn frames_in_use(state: ClockState) -> nat {
        state.slots.len()
    }

    open spec fn frame_limit(state: ClockState) -> nat {
        state.capacity
    }
}

impl PageReplacer for ClockReplacer {
    fn access(&mut self, page: u32) -> (result: AccessType) {
        let ghost s = self@;
        proof {
            lemma_clock_step(s, page);
        }
        // Check if page is already loaded
        let n = self.frames.len();
        let mut i: usize = 0;
        while i < n
            invariant
                self.frames@ == old(self).frames@,
                self.capacity == old(self).capacity,
                self.hand == old(self).hand,
                self.len == old(self).len,
                s == old(self)@,
                self.inv(),
                n == self.frames@.len(),
                0 <= i <= n,
                forall|j: int| 0 <= j < i && j < self.len ==> s.slots[j].0 != page,
            decreases n - i,
        {
            match self.frames[i] {
                Some((p, _)) => {
                    if p == page {
                        self.frames.set(i, Some((page, true)));
                        proof {
                            assert(s.slots[i as int].0 == page);
                            let k = clock_slot(s, page);
                            assert(k == i);
                            assert(self@.slots =~= s.slots.update(i as int, (page, true)));
                            lemma_clock_step(s, page);
                        }
                        return AccessType::Hit;
                    }
                },
                None => {},
            }
            i = i + 1;
        }
        proof {
            assert(!clock_resident(s, page));
        }
        // Miss — need to insert
        if self.len < self.capacity {
            // Find empty slot
            let mut j: usize = 0;
            while self.frames[j].is_some()
                invariant
                    self.frames@ == old(self).frames@,
                    self.len == old(self).len,
                    self.capacity == old(self).capacity,
                    self.len < self.capacity,
                    self.inv(),
                    0 <= j <= self.len,
                decreases self.len - j,
            {
                j = j + 1;
            }
            self.frames.set(j, Some((page, true)));
            self.len = self.len + 1;
            proof {
                assert(self@.slots =~= s.slots.push((page, true)));
            }
            return AccessType::Miss;
        }
        // Evict: advance hand, give second chances
        let ghost h0 = s.hand;
        let ghost first = first_clear_from(s.slots, h0, 0);
        let ghost mut steps: nat = 0;
        proof {
            assert(self.len == self.capacity);
            assert(n == self.capacity);
            lemma_first_clear(s.slots, h0, 0);
        }
        loop
            invariant
                s == old(self)@,
                clock_valid(s),
                s.slots.len() == n,
                n == self.capacity,
                n > 0,
                s.capacity == n,
                !clock_resident(s, page),
                self.capacity == old(self).capacity,
                h0 == s.hand,
                h0 < n,
                self.len == n,
                self.frames@.len() == n,
                forall|i: int| 0 <= i < n ==> self.frames@[i] is Some,
                steps <= n,
                self.hand == ring_pos(h0, steps, n as nat),
                forall|k: nat| k < steps ==> s.slots[ring_pos(h0, k, n as nat)].1,
                first == first_clear_from(s.slots, h0, 0),
                first == first_clear_from(s.slots, h0, steps),
                forall|i: int|
                    0 <= i < n ==> slot_value(self.frames@[i]) == if ring_offset(h0, i, n as nat)
                        < steps {
                        (s.slots[i].0, false)
                    } else {
                        s.slots[i]
                    },
            decreases n - steps,
        {
            let hand = self.hand;
            let (q, bit) = self.frames[hand].unwrap();
            proof {
                lemma_next_hand(hand, n);
                if steps < n {
                    assert(ring_offset(h0, hand as int, n as nat) == steps);
                } else {
                    assert(ring_offset(h0, hand as int, n as nat) == 0);
                }
            }
            if bit {
                self.frames.set(hand, Some((q, false)));
                self.hand = (hand + 1) % self.capacity;
                proof {
                    assert(steps < n);
                    assert(s.slots[hand as int].1);
                    steps = steps + 1;
                    assert forall|i: int| 0 <= i < n implies slot_value(self.frames@[i]) == if ring_offset(
                        h0,
                        i,
                        n as nat,
                    ) < steps {
                        (s.slots[i].0, false)
                    } else {
                        s.slots[i]
                    } by {
                        if i != hand {
                            assert(ring_offset(h0, i, n as nat) != (steps - 1));
                        }
                    }
                }
            } else {
                self.frames.set(hand, Some((page, true)));
                self.hand = (hand + 1) % self.capacity;
                proof {
                    if steps < n {
                        assert(!s.slots[hand as int].1);
                        assert(first == steps);
                    } else {
                        lemma_first_clear(s.slots, h0, steps);
                        assert(first == n);
                    }
                    let next = clock_sweep(s, page);
                    assert(ring_pos(h0, first, n as nat) == hand);
                    assert(self@.slots =~= next.slots);
                    assert(self@ == next);
                    lemma_clock_step(s, page);
                }
                return AccessType::Miss;
            }
        }
    }

    fn frame_count(&self) -> (count: usize) {
        self.len
    }

    fn capacity(&self) -> (cap: usize) {
        self.capacity
    }
}

/// Laws of one Clock access (on a replacer with at least one frame): a hit
/// exactly when the page is loaded; afterwards the page is loaded with its
/// reference bit set; the state stays well formed; the number of frames in use
/// grows by one on a miss while there is room and is otherwise unchanged; and
/// a miss on full frames evicts a page whose reference bit was set only when
/// every reference bit was set (second chance).
pub proof fn lemma_clock_step(s: ClockState, page: u32)
    requires
        clock_valid(s),
        s.capacity > 0,
    ensures
        clock_valid(clock_step(s, page).0),
        (clock_step(s, page).1 == AccessType::Hit) == clock_resident(s, page),
        clock_step(s, page).0.slots.contains((page, true)),
        clock_resident(clock_step(s, page).0, page),
        forall|q: u32|
            clock_resident(clock_step(s, page).0, q) ==> q == page || clock_resident(s, q),
        clock_step(s, page).1 == AccessType::Hit || s.slots.len() < s.capacity ==> forall|q: u32|
            clock_resident(s, q) ==> clock_resident(clock_step(s, page).0, q),
        clock_step(s, page).0.capacity == s.capacity,
        clock_step(s, page).1 == AccessType::Hit ==> clock_step(s, page).0.slots.len()
            == s.slots.len(),
        clock_step(s, page).1 == AccessType::Miss && s.slots.len() < s.capacity ==> clock_step(
            s,
            page,
        ).0.slots.len() == s.slots.len() + 1,
        clock_step(s, page).1 == AccessType::Miss && s.slots.len() >= s.capacity ==> {
            let victim = ring_pos(s.hand, first_clear_from(s.slots, s.hand, 0), s.slots.len());
            &&& 0 <= victim < s.slots.len()
            &&& clock_step(s, page).0.slots.len() == s.slots.len()
            &&& clock_step(s, page).0.slots[victim] == (page, true)
            &&& forall|i: int|
                0 <= i < s.slots.len() && i != victim ==> clock_step(s, page).0.slots[i].0
                    == s.slots[i].0
            &&& s.slots[victim].1 ==> forall|i: int| 0 <= i < s.slots.len() ==> s.slots[i].1
        },
{
    let next = clock_step(s, page).0;
    let n = s.slots.len();
    if clock_resident(s, page) {
        let k = clock_slot(s, page);
        assert(next.slots[k] == (page, true));
        assert(next.slots[k].0 == page);
        assert forall|q: u32| clock_resident(next, q) implies q == page || clock_resident(s, q) by {
            let m = choose|m: int| 0 <= m < next.slots.len() && next.slots[m].0 == q;
            if m != k {
                assert(s.slots[m].0 == q);
            }
        }
        assert forall|q: u32| clock_resident(s, q) implies clock_resident(next, q) by {
            let m = choose|m: int| 0 <= m < n && s.slots[m].0 == q;
            if m != k {
                assert(next.slots[m].0 == q);
            } else {
                assert(next.slots[k].0 == q);
            }
        }
    } else if s.slots.len() < s.capacity {
        assert(next.slots[n as int] == (page, true));
        assert(next.slots[n as int].0 == page);
        assert forall|q: u32| clock_resident(next, q) implies q == page || clock_resident(s, q) by {
            let m = choose|m: int| 0 <= m < next.slots.len() && next.slots[m].0 == q;
            if m != n {
                assert(s.slots[m].0 == q);
            }
        }
        assert forall|q: u32| clock_resident(s, q) implies clock_resident(next, q) by {
            let m = choose|m: int| 0 <= m < n && s.slots[m].0 == q;
            assert(next.slots[m].0 == q);
        }
    } else {
        let h = s.hand;
        lemma_first_clear(s.slots, h, 0);
        let k = first_clear_from(s.slots, h, 0);
        let victim = ring_pos(h, k, n);
        assert(next.slots[victim] == (page, true));
        assert(next.slots[victim].0 == page);
        if s.slots[victim].1 {
            assert(k == n);
            assert forall|i: int| 0 <= i < n implies s.slots[i].1 by {
                let j = ring_offset(h, i, n) as nat;
                assert(ring_pos(h, j, n) == i);
            }
        }
        assert forall|i: int, j: int|
            0 <= i < n && 0 <= j < n && i != j implies next.slots[i].0 != next.slots[j].0 by {
            if i != victim && j != victim {
                assert(next.slots[i].0 == s.slots[i].0);
                assert(next.slots[j].0 == s.slots[j].0);
            } else if i == victim {
                assert(next.slots[j].0 == s.slots[j].0);
            } else {
                assert(next.slots[i].0 == s.slots[i].0);
            }
        }
        assert forall|q: u32| clock_resident(next, q) implies q == page || clock_resident(s, q) by {
            let m = choose|m: int| 0 <= m < next.slots.len() && next.slots[m].0 == q;
            if m != victim {
                assert(s.slots[m].0 == q);
            }
        }
    }
}

/// What one Clock access (on a replacer with at least one frame) does to each
/// slot and to the hand, slot by slot:
/// - a hit sets the reference bit of the accessed page's slot and leaves every
///   other slot (page and bit) and the hand as they were;
/// - a miss with a free slot appends the page with its bit set, the hand stays;
/// - a miss with every slot taken replaces the victim `v`: either `v` is the
///   first slot at or after the hand whose bit is clear (all slots the hand
///   passes before it had their bit set), or every bit was set and `v` is the
///   slot under the hand after a full turn. Every slot the hand passed keeps its
///   page with its bit cleared (all of them after a full turn), every slot it
///   did not reach is unchanged, and the hand stops just past `v`.
pub proof fn lemma_clock_slots(s: ClockState, page: u32)
    requires
        clock_valid(s),
        s.capacity > 0,
    ensures
        ({
            let next = clock_step(s, page).0;
            let n = s.slots.len();
            let h = s.hand;
            &&& clock_resident(s, page) ==> {
                &&& next.hand == h
                &&& next.slots.len() == n
                &&& forall|i: int|
                    0 <= i < n ==> next.slots[i] == if s.slots[i].0 == page {
                        (page, true)
                    } else {
                        s.slots[i]
                    }
            }
            &&& !clock_resident(s, page) && n < s.capacity ==> {
                &&& next.hand == h
                &&& next.slots == s.slots.push((page, true))
            }
            &&& !clock_resident(s, page) && n >= s.capacity ==> {
                let v = ring_pos(h, first_clear_from(s.slots, h, 0), n);
                &&& 0 <= v < n
                &&& next.slots.len() == n
                &&& next.slots[v] == (page, true)
                &&& forall|i: int|
                    0 <= i < n && ring_offset(h, i, n) < ring_offset(h, v, n) ==> s.slots[i].1
                &&& !s.slots[v].1 || (v == h && forall|i: int| 0 <= i < n ==> s.slots[i].1)
                &&& forall|i: int|
                    0 <= i < n && i != v ==> next.slots[i] == if s.slots[v].1 || ring_offset(
                        h,
                        i,
                        n,
                    ) < ring_offset(h, v, n) {
                        (s.slots[i].0, false)
                    } else {
                        s.slots[i]
                    }
                &&& next.hand == if v + 1 < n {
                    v + 1
                } else {
                    0
                }
            }
        }),
{
    let next = clock_step(s, page).0;
    let n = s.slots.len();
    let h = s.hand;
    if clock_resident(s, page) {
        let k = clock_slot(s, page);
        assert forall|i: int| 0 <= i < n implies next.slots[i] == if s.slots[i].0 == page {
            (page, true)
        } else {
            s.slots[i]
        } by {
            if i != k && s.slots[i].0 == page {
                assert(s.slots[i].0 != s.slots[k].0);
            }
        }
    } else if n >= s.capacity {
        lemma_first_clear(s.slots, h, 0);
        let k = first_clear_from(s.slots, h, 0);
        let v = ring_pos(h, k, n);
        if k < n {
            assert(ring_offset(h, v, n) == k);
            assert forall|i: int|
                0 <= i < n && ring_offset(h, i, n) < ring_offset(h, v, n) implies s.slots[i].1 by {
                let j = ring_offset(h, i, n) as nat;
                assert(ring_pos(h, j, n) == i);
            }
        } else {
            assert(v == h);
            assert(ring_offset(h, v, n) == 0);
            assert forall|i: int| 0 <= i < n implies s.slots[i].1 by {
                let j = ring_offset(h, i, n) as nat;
                assert(ring_pos(h, j, n) == i);
            }
        }
    }
}

/// The pages loaded in `s`, in slot order.
pub open spec fn clock_pages(s: ClockState) -> Seq<u32> {
    s.slots.map_values(|x: (u32, bool)| x.0)
}

/// The loaded pages of a well-formed state, listed without repeats.
proof fn lemma_clock_pages(s: ClockState)
    requires
        clock_valid(s),
    ensures
        clock_pages(s).no_duplicates(),
        clock_pages(s).len() == s.slots.len(),
        forall|q: u32| clock_pages(s).contains(q) <==> clock_resident(s, q),
{
    let ps = clock_pages(s);
    assert forall|q: u32| ps.contains(q) <==> clock_resident(s, q) by {
        if ps.contains(q) {
            let m = choose|m: int| 0 <= m < ps.len() && ps[m] == q;
            assert(s.slots[m].0 == q);
        }
        if clock_resident(s, q) {
            let m = choose|m: int| 0 <= m < s.slots.len() && s.slots[m].0 == q;
            assert(ps[m] == q);
        }
    }
}

/// Occupancy of Clock: starting empty with capacity `c >= 1`, after any
/// reference string the number of frames in use is the smaller of `c` and the
/// number of distinct pages referenced; only referenced pages are loaded, no
/// page in two slots; while no more distinct pages were referenced than fit,
/// all of them are loaded (nothing was evicted); and the next access to a page
/// never referenced before is a miss.
pub proof fn lemma_clock_occupancy(c: nat, refs: Seq<u32>)
    requires
        c > 0,
    ensures
        ({
            let end = replay::<ClockReplacer>(
                ClockState { slots: Seq::empty(), hand: 0, capacity: c },
                refs,
            ).0;
            &&& clock_valid(end)
            &&& end.capacity == c
            &&& end.slots.len() == if c <= refs.to_set().len() {
                c
            } else {
                refs.to_set().len()
            }
            &&& forall|p: u32| clock_resident(end, p) ==> refs.contains(p)
            &&& refs.to_set().len() <= c ==> forall|p: u32|
                refs.contains(p) ==> clock_resident(end, p)
            &&& forall|p: u32| !refs.contains(p) ==> clock_step(end, p).1 == AccessType::Miss
        }),
    decreases refs.len(),
{
    let start = ClockState { slots: Seq::empty(), hand: 0, capacity: c };
    let end = replay::<ClockReplacer>(start, refs).0;
    if refs.len() == 0 {
        assert(refs.to_set() =~= Set::<u32>::empty());
    } else {
        let pre = refs.drop_last();
        let p = refs.last();
        lemma_clock_occupancy(c, pre);
        let s = replay::<ClockReplacer>(start, pre).0;
        assert(refs =~= pre.push(p));
        pre.lemma_push_to_set_commute(p);
        let d = pre.to_set();
        let d2 = refs.to_set();
        assert(d2 =~= d.insert(p));
        vstd::seq_lib::seq_to_set_is_finite(pre);
        lemma_clock_step(s, p);
        lemma_clock_pages(s);
        lemma_loaded_within_seen(clock_pages(s), d);
        assert forall|q: u32| clock_resident(end, q) implies refs.contains(q) by {
            if q != p {
                assert(pre.contains(q));
                let j = choose|j: int| 0 <= j < pre.len() && pre[j] == q;
                assert(refs[j] == q);
            } else {
                assert(refs[refs.len() - 1] == p);
            }
        }
        if clock_resident(s, p) {
            assert(d.contains(p));
            assert(d2 =~= d);
            if d2.len() <= c {
                assert forall|q: u32| refs.contains(q) implies clock_resident(end, q) by {
                    assert(d2.contains(q));
                    assert(pre.contains(q));
                }
            }
        } else if s.slots.len() < c {
            assert(!d.contains(p));
            assert(d2.len() == d.len() + 1);
            assert forall|q: u32| refs.contains(q) implies clock_resident(end, q) by {
                assert(d2.contains(q));
                if q != p {
                    assert(d.contains(q));
                }
            }
        } else {
            assert(d2.len() >= d.len());
            if d2.len() <= c {
                assert(d.contains(p));
            }
        }
        assert forall|q: u32| !refs.contains(q) implies clock_step(end, q).1 == AccessType::Miss by {}
    }
}

} // verus!
