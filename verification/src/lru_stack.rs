//! LRU is a stack algorithm: with more frames, the pages it holds are a
//! superset of what it holds with fewer, so it never misses more often
//! (no Belady anomaly).
use vstd::prelude::*;

use crate::lru::{is_oldest, lemma_lru_step, lemma_oldest_exists, lru_oldest, lru_resident, lru_slot, lru_step, lru_valid, LruReplacer, LruState};
use crate::stats::{count_misses, AccessType};
use crate::replay;

verus! {

/// `small` and `big` are LRU states of the same history with capacities
/// `small.capacity <= big.capacity`: every frame of `small` is a frame of
/// `big`, the frames only `big` holds are older than all frames of `small`,
/// and while `small` has room both hold the same frames.
pub open spec fn lru_nested(small: LruState, big: LruState) -> bool {
    &&& lru_valid(small)
    &&& lru_valid(big)
    &&& 0 < small.capacity <= big.capacity
    &&& small.tick == big.tick
    &&& forall|e: (u32, nat)| small.frames.contains(e) ==> big.frames.contains(e)
    &&& forall|e: (u32, nat), f: (u32, nat)|
        big.frames.contains(e) && !small.frames.contains(e) && small.frames.contains(f) ==> e.1
            < f.1
    &&& small.frames.len() < small.capacity ==> forall|e: (u32, nat)|
        big.frames.contains(e) ==> small.frames.contains(e)
}

/// Facts about the frames of a well-formed LRU state, stated over membership.
proof fn lemma_entries(s: LruState)
    requires
        lru_valid(s),
    ensures
        forall|e: (u32, nat), f: (u32, nat)|
            s.frames.contains(e) && s.frames.contains(f) && e.0 == f.0 ==> e == f,
        forall|e: (u32, nat), f: (u32, nat)|
            s.frames.contains(e) && s.frames.contains(f) && e.1 == f.1 ==> e == f,
        forall|e: (u32, nat)| s.frames.contains(e) ==> e.1 <= s.tick,
        s.frames.no_duplicates(),
{
    assert forall|e: (u32, nat), f: (u32, nat)|
        s.frames.contains(e) && s.frames.contains(f) && e.0 == f.0 implies e == f by {
        let i = choose|i: int| 0 <= i < s.frames.len() && s.frames[i] == e;
        let j = choose|j: int| 0 <= j < s.frames.len() && s.frames[j] == f;
        if i != j {
            assert(s.frames[i].0 != s.frames[j].0);
        }
    }
    assert forall|e: (u32, nat), f: (u32, nat)|
        s.frames.contains(e) && s.frames.contains(f) && e.1 == f.1 implies e == f by {
        let i = choose|i: int| 0 <= i < s.frames.len() && s.frames[i] == e;
        let j = choose|j: int| 0 <= j < s.frames.len() && s.frames[j] == f;
        if i != j {
            assert(s.frames[i].1 != s.frames[j].1);
        }
    }
    assert forall|e: (u32, nat)| s.frames.contains(e) implies e.1 <= s.tick by {
        let i = choose|i: int| 0 <= i < s.frames.len() && s.frames[i] == e;
    }
    assert forall|i: int, j: int|
        0 <= i < s.frames.len() && 0 <= j < s.frames.len() && i != j implies s.frames[i]
        != s.frames[j] by {
        assert(s.frames[i].0 != s.frames[j].0);
    }
}

/// Membership after replacing frame `k` of a well-formed state.
proof fn lemma_contains_update(s: LruState, k: int, x: (u32, nat))
    requires
        lru_valid(s),
        0 <= k < s.frames.len(),
    ensures
        forall|e: (u32, nat)|
            #[trigger] s.frames.update(k, x).contains(e) <==> (e == x || (s.frames.contains(e)
                && e != s.frames[k])),
{
    let u = s.frames.update(k, x);
    assert forall|e: (u32, nat)| #[trigger]
        u.contains(e) <==> (e == x || (s.frames.contains(e) && e != s.frames[k])) by {
        if u.contains(e) {
            let m = choose|m: int| 0 <= m < u.len() && u[m] == e;
            if m != k {
                assert(s.frames[m] == e);
                assert(s.frames[m].0 != s.frames[k].0);
            }
        }
        if e == x {
            assert(u[k] == e);
        } else if s.frames.contains(e) && e != s.frames[k] {
            let m = choose|m: int| 0 <= m < s.frames.len() && s.frames[m] == e;
            assert(m != k);
            assert(u[m] == e);
        }
    }
}

/// Membership after appending a frame.
proof fn lemma_contains_push(frames: Seq<(u32, nat)>, x: (u32, nat))
    ensures
        forall|e: (u32, nat)| #[trigger]
            frames.push(x).contains(e) <==> (frames.contains(e) || e == x),
{
    let u = frames.push(x);
    assert forall|e: (u32, nat)| #[trigger] u.contains(e) <==> (frames.contains(e) || e == x) by {
        if u.contains(e) {
            let m = choose|m: int| 0 <= m < u.len() && u[m] == e;
            if m < frames.len() {
                assert(frames[m] == e);
            }
        }
        if frames.contains(e) {
            let m = choose|m: int| 0 <= m < frames.len() && frames[m] == e;
            assert(u[m] == e);
        }
        if e == x {
            assert(u[frames.len() as int] == e);
        }
    }
}

/// The least recently used frame is no newer than any frame.
proof fn lemma_oldest_is_min(s: LruState)
    requires
        lru_valid(s),
        s.frames.len() > 0,
    ensures
        is_oldest(s.frames, lru_oldest(s)),
        forall|f: (u32, nat)| s.frames.contains(f) ==> s.frames[lru_oldest(s)].1 <= f.1,
{
    lemma_oldest_exists(s.frames);
    let k = lru_oldest(s);
    assert forall|f: (u32, nat)| s.frames.contains(f) implies s.frames[k].1 <= f.1 by {
        let m = choose|m: int| 0 <= m < s.frames.len() && s.frames[m] == f;
    }
}

/// Two sequences without duplicates and with the same members have the same length.
proof fn lemma_same_members_same_len(a: Seq<(u32, nat)>, b: Seq<(u32, nat)>)
    requires
        a.no_duplicates(),
        b.no_duplicates(),
        forall|e: (u32, nat)| a.contains(e) <==> b.contains(e),
    ensures
        a.len() == b.len(),
{
    a.unique_seq_to_set();
    b.unique_seq_to_set();
    assert(a.to_set() =~= b.to_set());
}

/// One access preserves the nesting, and a miss with more frames is a miss
/// with fewer frames.
proof fn lemma_nested_step(small: LruState, big: LruState, page: u32)
    requires
        lru_nested(small, big),
    ensures
        lru_nested(lru_step(small, page).0, lru_step(big, page).0),
        lru_step(big, page).1 == AccessType::Miss ==> lru_step(small, page).1 == AccessType::Miss,
{
    let t = small.tick + 1;
    let x = (page, t);
    let a = small.frames;
    let b = big.frames;
    let a2 = lru_step(small, page).0.frames;
    let b2 = lru_step(big, page).0.frames;
    lemma_lru_step(small, page);
    lemma_lru_step(big, page);
    lemma_entries(small);
    lemma_entries(big);
    assert(!a.contains(x));
    assert(!b.contains(x));
    if lru_resident(small, page) {
        let k1 = lru_slot(small, page);
        let e1 = a[k1];
        assert(a.contains(e1));
        assert(b.contains(e1));
        let m = choose|m: int| 0 <= m < b.len() && b[m] == e1;
        assert(lru_resident(big, page)) by {
            assert(b[m].0 == page);
        }
        let k2 = lru_slot(big, page);
        assert(b.contains(b[k2]));
        assert(b[k2] == e1);
        lemma_contains_update(small, k1, x);
        lemma_contains_update(big, k2, x);
        assert(lru_nested(lru_step(small, page).0, lru_step(big, page).0));
    } else if lru_resident(big, page) {
        let k2 = lru_slot(big, page);
        let e2 = b[k2];
        assert(b.contains(e2));
        assert(!a.contains(e2));
        assert(a.len() >= small.capacity);
        lemma_oldest_is_min(small);
        let k1 = lru_oldest(small);
        let v1 = a[k1];
        assert(a.contains(v1));
        lemma_contains_update(small, k1, x);
        lemma_contains_update(big, k2, x);
        assert forall|e: (u32, nat), f: (u32, nat)|
            b2.contains(e) && !a2.contains(e) && a2.contains(f) implies e.1 < f.1 by {
            if f != x {
                assert(a.contains(f) && f != v1);
                if e == v1 {
                    assert(v1.1 <= f.1);
                }
            }
        }
        assert(lru_nested(lru_step(small, page).0, lru_step(big, page).0));
    } else if a.len() < small.capacity {
        lemma_same_members_same_len(a, b);
        lemma_contains_push(a, x);
        lemma_contains_push(b, x);
        assert(lru_nested(lru_step(small, page).0, lru_step(big, page).0));
    } else {
        lemma_oldest_is_min(small);
        let k1 = lru_oldest(small);
        let v1 = a[k1];
        assert(a.contains(v1));
        lemma_contains_update(small, k1, x);
        if b.len() < big.capacity {
            lemma_contains_push(b, x);
            assert forall|e: (u32, nat), f: (u32, nat)|
                b2.contains(e) && !a2.contains(e) && a2.contains(f) implies e.1 < f.1 by {
                if f != x {
                    assert(a.contains(f) && f != v1);
                    if e == v1 {
                        assert(v1.1 <= f.1);
                    }
                }
            }
            assert(lru_nested(lru_step(small, page).0, lru_step(big, page).0));
        } else {
            lemma_oldest_is_min(big);
            let k2 = lru_oldest(big);
            let v2 = b[k2];
            assert(b.contains(v2));
            lemma_contains_update(big, k2, x);
            if exists|g: (u32, nat)| b.contains(g) && !a.contains(g) {
                let g = choose|g: (u32, nat)| b.contains(g) && !a.contains(g);
                assert(v2.1 <= g.1);
                assert(!a.contains(v2));
            } else {
                assert(b.contains(v1));
                assert(a.contains(v2));
                assert(v1.1 <= v2.1);
                assert(v2.1 <= v1.1);
                assert(v1 == v2);
            }
            assert forall|e: (u32, nat), f: (u32, nat)|
                b2.contains(e) && !a2.contains(e) && a2.contains(f) implies e.1 < f.1 by {
                if f != x {
                    assert(a.contains(f) && f != v1);
                    if e == v1 {
                        assert(v1.1 <= f.1);
                    }
                }
            }
            assert(lru_nested(lru_step(small, page).0, lru_step(big, page).0));
        }
    }
}

/// Replaying the same references keeps two nested states nested, and the
/// larger one never misses more often.
proof fn lemma_nested_replay(small: LruState, big: LruState, refs: Seq<u32>)
    requires
        lru_nested(small, big),
    ensures
        lru_nested(
            replay::<LruReplacer>(small, refs).0,
            replay::<LruReplacer>(big, refs).0,
        ),
        count_misses(replay::<LruReplacer>(big, refs).1) <= count_misses(
            replay::<LruReplacer>(small, refs).1,
        ),
    decreases refs.len(),
{
    if refs.len() > 0 {
        lemma_nested_replay(small, big, refs.drop_last());
        let s1 = replay::<LruReplacer>(small, refs.drop_last()).0;
        let s2 = replay::<LruReplacer>(big, refs.drop_last()).0;
        lemma_nested_step(s1, s2, refs.last());
        let o1 = replay::<LruReplacer>(small, refs).1;
        let o2 = replay::<LruReplacer>(big, refs).1;
        assert(o1.drop_last() =~= replay::<LruReplacer>(small, refs.drop_last()).1);
        assert(o2.drop_last() =~= replay::<LruReplacer>(big, refs.drop_last()).1);
    }
}

/// LRU has no Belady anomaly: on any reference string, a replacer with at
/// least as many frames misses at most as often, and at every point holds
/// every page that the smaller one holds.
pub proof fn lemma_lru_no_belady(refs: Seq<u32>, small_capacity: nat, big_capacity: nat)
    requires
        0 < small_capacity <= big_capacity,
    ensures
        ({
            let small = LruState { frames: Seq::empty(), capacity: small_capacity, tick: 0 };
            let big = LruState { frames: Seq::empty(), capacity: big_capacity, tick: 0 };
            &&& count_misses(replay::<LruReplacer>(big, refs).1) <= count_misses(
                replay::<LruReplacer>(small, refs).1,
            )
            &&& forall|page: u32|
                lru_resident(replay::<LruReplacer>(small, refs).0, page) ==> lru_resident(
                    replay::<LruReplacer>(big, refs).0,
                    page,
                )
        }),
{
    let small = LruState { frames: Seq::empty(), capacity: small_capacity, tick: 0 };
    let big = LruState { frames: Seq::empty(), capacity: big_capacity, tick: 0 };
    assert(lru_nested(small, big));
    lemma_nested_replay(small, big, refs);
    let s1 = replay::<LruReplacer>(small, refs).0;
    let s2 = replay::<LruReplacer>(big, refs).0;
    assert forall|page: u32| lru_resident(s1, page) implies lru_resident(s2, page) by {
        let i = choose|i: int| 0 <= i < s1.frames.len() && s1.frames[i].0 == page;
        assert(s1.frames.contains(s1.frames[i]));
        assert(s2.frames.contains(s1.frames[i]));
        let j = choose|j: int| 0 <= j < s2.frames.len() && s2.frames[j] == s1.frames[i];
        assert(s2.frames[j].0 == page);
    }
}

} // verus!
