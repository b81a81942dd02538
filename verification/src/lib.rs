//! Virtual memory page replacement algorithms.
//!
//! Provides FIFO, LRU, Clock, and LFU page replacement strategies
//! with hit-rate tracking and detailed access logs.
//!
//! Each replacer is described by an abstract state (its view) and a
//! transition function on that state; the executable `access` is proved to
//! follow the transition exactly, and `run` to follow the transition over a
//! whole reference string.
use vstd::prelude::*;

pub mod stats;
pub mod fifo;
pub mod lru;
pub mod lru_stack;
pub mod clock;
pub mod lfu;

pub use stats::{AccessRecord, AccessType, PageStats};
use stats::{count_hits, count_misses, outcomes_of};

verus! {

/// The abstract behaviour of a page replacement algorithm: its states (the
/// view of a replacer) and how one access transforms them.
pub trait ReplacementModel: View + Sized {
    /// Well-formedness of the executable state.
    spec fn inv(&self) -> bool;

    /// The abstract effect of accessing `page` in state `state`: the next state
    /// and whether the access was a hit.
    spec fn step(state: Self::V, page: u32) -> (Self::V, AccessType);

    /// Whether accessing `page` in `state` completes without panicking.
    spec fn can_step(state: Self::V, page: u32) -> bool;

    /// Whether `page` is loaded in some frame of `state`.
    spec fn resident(state: Self::V, page: u32) -> bool;

    /// Number of frames in use in `state`.
    spec fn frames_in_use(state: Self::V) -> nat;

    /// The frame capacity the replacer was created with.
    spec fn frame_limit(state: Self::V) -> nat;
}

/// Trait for page replacement algorithms.
pub trait PageReplacer: ReplacementModel {
    /// Access a page, returning whether it was a hit.
    ///
    /// Whatever the algorithm, the access is a hit exactly when the page was
    /// loaded, the capacity does not change, no more frames are in use than the
    /// capacity, and (for a positive capacity) the page is loaded afterwards.
    fn access(&mut self, page: u32) -> (result: AccessType)
        requires
            old(self).inv(),
            Self::can_step(old(self)@, page),
        ensures
            final(self).inv(),
            (final(self)@, result) == Self::step(old(self)@, page),
            (result == AccessType::Hit) == Self::resident(old(self)@, page),
            Self::frame_limit(old(self)@) > 0 ==> Self::resident(final(self)@, page),
            Self::frame_limit(final(self)@) == Self::frame_limit(old(self)@),
            Self::frames_in_use(final(self)@) <= Self::frame_limit(final(self)@),
    ;

    /// Run a full reference string and return statistics.
    fn run(&mut self, references: &[u32]) -> (stats: PageStats)
        requires
            old(self).inv(),
            can_replay::<Self>(old(self)@, references@),
        ensures
            final(self).inv(),
            final(self)@ == replay::<Self>(old(self)@, references@).0,
            stats.log@.len() == references@.len(),
            forall|i: int|
                #![trigger stats.log@[i]]
                0 <= i < references@.len() ==> stats.log@[i].page == references@[i]
                    && stats.log@[i].access_type == replay::<Self>(
                    old(self)@,
                    references@,
                ).1[i],
            stats.hits == count_hits(replay::<Self>(old(self)@, references@).1),
            stats.misses == count_misses(replay::<Self>(old(self)@, references@).1),
            stats.hits + stats.misses == references@.len(),
    {
        let ghost start = self@;
        let n = references.len();
        let mut log: Vec<AccessRecord> = Vec::with_capacity(n);
        let mut i: usize = 0;
        proof {
            lemma_replay_len::<Self>(start, references@);
        }
        while i < n
            invariant
                n == references@.len(),
                0 <= i <= n,
                self.inv(),
                can_replay::<Self>(start, references@),
                replay::<Self>(start, references@).1.len() == n,
                self@ == replay::<Self>(start, references@.take(i as int)).0,
                log@.len() == i,
                forall|j: int|
                    #![trigger log@[j]]
                    0 <= j < i ==> log@[j].page == references@[j] && log@[j].access_type
                        == replay::<Self>(start, references@).1[j],
            decreases n - i,
        {
            let page = references[i];
            proof {
                lemma_can_replay_prefix::<Self>(start, references@, i + 1);
                assert(references@.take(i + 1).drop_last() =~= references@.take(i as int));
                lemma_replay_prefix::<Self>(start, references@, i + 1);
                lemma_replay_len::<Self>(start, references@.take(i as int));
            }
            let ghost before = self@;
            let access_type = self.access(page);
            proof {
                let prefix = references@.take(i + 1);
                assert(prefix.last() == page);
                assert(replay::<Self>(start, prefix).1 == replay::<Self>(
                    start,
                    references@.take(i as int),
                ).1.push(access_type));
                assert(replay::<Self>(start, references@).1[i as int] == replay::<Self>(
                    start,
                    prefix,
                ).1[i as int]);
            }
            log.push(AccessRecord { page, access_type });
            i = i + 1;
        }
        proof {
            assert(references@.take(n as int) =~= references@);
        }
        let stats = PageStats::from_log(&log);
        proof {
            assert(outcomes_of(log@) =~= replay::<Self>(start, references@).1);
        }
        stats
    }

    /// Current number of frames in use.
    fn frame_count(&self) -> (count: usize)
        requires
            self.inv(),
        ensures
            count == Self::frames_in_use(self@),
    ;

    /// Maximum frame capacity.
    fn capacity(&self) -> (cap: usize)
        requires
            self.inv(),
        ensures
            cap == Self::frame_limit(self@),
    ;
}

/// The state reached and the outcomes produced by accessing the pages of
/// `refs` in order, starting from `start`.
pub open spec fn replay<R: ReplacementModel>(start: R::V, refs: Seq<u32>) -> (R::V, Seq<AccessType>)
    decreases refs.len(),
{
    if refs.len() == 0 {
        (start, Seq::empty())
    } else {
        let (mid, outcomes) = replay::<R>(start, refs.drop_last());
        let (end, outcome) = R::step(mid, refs.last());
        (end, outcomes.push(outcome))
    }
}

/// Every access of `refs`, replayed from `start`, completes without panicking.
pub open spec fn can_replay<R: ReplacementModel>(start: R::V, refs: Seq<u32>) -> bool
    decreases refs.len(),
{
    refs.len() == 0 || (can_replay::<R>(start, refs.drop_last()) && R::can_step(
        replay::<R>(start, refs.drop_last()).0,
        refs.last(),
    ))
}

/// Replaying produces one outcome per reference.
pub proof fn lemma_replay_len<R: ReplacementModel>(start: R::V, refs: Seq<u32>)
    ensures
        replay::<R>(start, refs).1.len() == refs.len(),
    decreases refs.len(),
{
    if refs.len() > 0 {
        lemma_replay_len::<R>(start, refs.drop_last());
    }
}

/// The outcomes of a prefix are a prefix of the outcomes.
pub proof fn lemma_replay_prefix<R: ReplacementModel>(start: R::V, refs: Seq<u32>, k: int)
    requires
        0 <= k <= refs.len(),
    ensures
        replay::<R>(start, refs.take(k)).1 == replay::<R>(start, refs).1.take(k),
    decreases refs.len(),
{
    lemma_replay_len::<R>(start, refs);
    lemma_replay_len::<R>(start, refs.take(k));
    if k < refs.len() {
        assert(refs.drop_last().take(k) =~= refs.take(k));
        lemma_replay_prefix::<R>(start, refs.drop_last(), k);
        lemma_replay_len::<R>(start, refs.drop_last());
        assert(replay::<R>(start, refs).1.take(k) =~= replay::<R>(start, refs.drop_last()).1.take(
            k,
        ));
    } else {
        assert(refs.take(k) =~= refs);
        assert(replay::<R>(start, refs).1.take(k) =~= replay::<R>(start, refs).1);
    }
}

/// A reference string that can be replayed can be replayed up to any prefix.
pub proof fn lemma_can_replay_prefix<R: ReplacementModel>(start: R::V, refs: Seq<u32>, k: int)
    requires
        0 <= k <= refs.len(),
        can_replay::<R>(start, refs),
    ensures
        can_replay::<R>(start, refs.take(k)),
    decreases refs.len(),
{
    if k < refs.len() {
        assert(refs.drop_last().take(k) =~= refs.take(k));
        lemma_can_replay_prefix::<R>(start, refs.drop_last(), k);
    } else {
        assert(refs.take(k) =~= refs);
    }
}


/// Replaying `a + b` from `start` is replaying `a` and then replaying `b` from
/// the state `a` left: the final states agree, the outcomes of `a + b` are
/// those of `a` followed by those of `b`, and `a + b` can be replayed exactly
/// when `a` can, and then `b` can from there.
pub proof fn lemma_replay_concat<R: ReplacementModel>(start: R::V, a: Seq<u32>, b: Seq<u32>)
    ensures
        replay::<R>(start, a + b).0 == replay::<R>(replay::<R>(start, a).0, b).0,
        replay::<R>(start, a + b).1 == replay::<R>(start, a).1 + replay::<R>(
            replay::<R>(start, a).0,
            b,
        ).1,
        can_replay::<R>(start, a + b) == (can_replay::<R>(start, a) && can_replay::<R>(
            replay::<R>(start, a).0,
            b,
        )),
    decreases b.len(),
{
    let mid = replay::<R>(start, a).0;
    if b.len() == 0 {
        assert(a + b =~= a);
        assert(replay::<R>(start, a).1 + replay::<R>(mid, b).1 =~= replay::<R>(start, a).1);
    } else {
        lemma_replay_concat::<R>(start, a, b.drop_last());
        assert((a + b).drop_last() =~= a + b.drop_last());
        assert((a + b).last() == b.last());
        let oa = replay::<R>(start, a).1;
        let ob = replay::<R>(mid, b.drop_last()).1;
        let x = R::step(replay::<R>(mid, b.drop_last()).0, b.last()).1;
        assert((oa + ob).push(x) =~= oa + ob.push(x));
    }
}

/// Replaying nothing changes nothing, and replaying one reference is one step.
pub proof fn lemma_replay_single<R: ReplacementModel>(start: R::V, page: u32)
    ensures
        replay::<R>(start, Seq::empty()) == (start, Seq::<AccessType>::empty()),
        replay::<R>(start, seq![page]) == (R::step(start, page).0, seq![R::step(start, page).1]),
        can_replay::<R>(start, Seq::empty()),
        can_replay::<R>(start, seq![page]) == R::can_step(start, page),
{
    let one = seq![page];
    assert(one.drop_last() =~= Seq::<u32>::empty());
    assert(one.last() == page);
    assert(Seq::<AccessType>::empty().push(R::step(start, page).1) =~= seq![R::step(start, page).1]);
}

/// Pages loaded without repeats, each taken from the finite set `seen`, are
/// at most as many as `seen`, and when they are as many they cover `seen`.
pub proof fn lemma_loaded_within_seen(loaded: Seq<u32>, seen: Set<u32>)
    requires
        loaded.no_duplicates(),
        seen.finite(),
        forall|p: u32| loaded.contains(p) ==> seen.contains(p),
    ensures
        loaded.len() <= seen.len(),
        loaded.len() == seen.len() ==> forall|p: u32| seen.contains(p) ==> loaded.contains(p),
{
    loaded.unique_seq_to_set();
    assert(loaded.to_set().subset_of(seen));
    vstd::set_lib::lemma_len_subset(loaded.to_set(), seen);
    if loaded.len() == seen.len() {
        vstd::set_lib::lemma_subset_equality(loaded.to_set(), seen);
        assert forall|p: u32| seen.contains(p) implies loaded.contains(p) by {
            assert(loaded.to_set().contains(p));
        }
    }
}

} // verus!
