//! Statistics and access logging for page replacement.
use vstd::prelude::*;

verus! {

/// Whether a page access resulted in a hit or miss.
#[derive(Debug, Clone, Copy, PartialEq, Eq, Structural)]
pub enum AccessType {
    Hit,
    Miss,
}

/// A single access event in the reference string.
#[derive(Debug, Clone, Copy, PartialEq, Eq, Structural)]
pub struct AccessRecord {
    pub page: u32,
    pub access_type: AccessType,
}

/// Aggregated statistics from a page replacement simulation.
#[derive(Debug, Clone, PartialEq, Eq)]
pub struct PageStats {
    pub hits: usize,
    pub misses: usize,
    pub log: Vec<AccessRecord>,
}

/// Number of hits among the outcomes `outcomes`.
pub open spec fn count_hits(outcomes: Seq<AccessType>) -> nat
    decreases outcomes.len(),
{
    if outcomes.len() == 0 {
        0
    } else {
        count_hits(outcomes.drop_last()) + if outcomes.last() == AccessType::Hit {
            1nat
        } else {
            0nat
        }
    }
}

/// Number of misses among the outcomes `outcomes`.
pub open spec fn count_misses(outcomes: Seq<AccessType>) -> nat
    decreases outcomes.len(),
{
    if outcomes.len() == 0 {
        0
    } else {
        count_misses(outcomes.drop_last()) + if outcomes.last() == AccessType::Miss {
            1nat
        } else {
            0nat
        }
    }
}

/// The outcome column of an access log.
pub open spec fn outcomes_of(log: Seq<AccessRecord>) -> Seq<AccessType> {
    log.map_values(|r: AccessRecord| r.access_type)
}

/// Every access is either a hit or a miss, so the two counts add up to the length.
pub proof fn lemma_hits_plus_misses(outcomes: Seq<AccessType>)
    ensures
        count_hits(outcomes) + count_misses(outcomes) == outcomes.len(),
    decreases outcomes.len(),
{
    if outcomes.len() > 0 {
        lemma_hits_plus_misses(outcomes.drop_last());
    }
}

/// Counting is additive over concatenation, and a single outcome counts as one
/// hit or one miss according to its kind; together these fix the counts of
/// every sequence of outcomes.
pub proof fn lemma_count_laws(a: Seq<AccessType>, b: Seq<AccessType>, x: AccessType)
    ensures
        count_hits(a + b) == count_hits(a) + count_hits(b),
        count_misses(a + b) == count_misses(a) + count_misses(b),
        count_hits(seq![x]) == if x == AccessType::Hit {
            1nat
        } else {
            0nat
        },
        count_misses(seq![x]) == if x == AccessType::Miss {
            1nat
        } else {
            0nat
        },
        count_hits(Seq::<AccessType>::empty()) == 0,
        count_misses(Seq::<AccessType>::empty()) == 0,
    decreases b.len(),
{
    let one = seq![x];
    assert(one.drop_last() =~= Seq::<AccessType>::empty());
    assert(one.last() == x);
    assert(count_hits(one.drop_last()) == 0);
    assert(count_misses(one.drop_last()) == 0);
    if b.len() == 0 {
        assert(a + b =~= a);
    } else {
        lemma_count_laws(a, b.drop_last(), x);
        assert((a + b).drop_last() =~= a + b.drop_last());
        assert((a + b).last() == b.last());
    }
}

impl PageStats {
    /// Build stats from an access log.
    pub fn from_log(log: &[AccessRecord]) -> (stats: Self)
        ensures
            stats.hits == count_hits(outcomes_of(log@)),
            stats.misses == count_misses(outcomes_of(log@)),
            stats.hits + stats.misses == log@.len(),
            stats.log@ == log@,
    {
        let mut hits: usize = 0;
        let mut copy: Vec<AccessRecord> = Vec::with_capacity(log.len());
        let n = log.len();
        let mut i: usize = 0;
        while i < n
            invariant
                n == log@.len(),
                0 <= i <= n,
                copy@ == log@.take(i as int),
                hits == count_hits(outcomes_of(log@.take(i as int))),
                hits <= i,
            decreases n - i,
        {
            let rec = log[i];
            proof {
                assert(outcomes_of(log@.take(i + 1)).drop_last() =~= outcomes_of(
                    log@.take(i as int),
                ));
            }
            if rec.access_type == AccessType::Hit {
                hits = hits + 1;
            }
            copy.push(rec);
            i = i + 1;
            proof {
                assert(copy@ =~= log@.take(i as int));
            }
        }
        proof {
            assert(log@.take(n as int) =~= log@);
            lemma_hits_plus_misses(outcomes_of(log@));
        }
        let misses = n - hits;
        PageStats { hits, misses, log: copy }
    }

    /// Total number of accesses.
    pub fn total_accesses(&self) -> (total: usize)
        requires
            self.hits + self.misses <= usize::MAX,
        ensures
            total == self.hits + self.misses,
    {
        self.hits + self.misses
    }
}

} // verus!
