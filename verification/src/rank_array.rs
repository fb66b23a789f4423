//! Rank arrays: the per-gram count ranks of one order, stored plainly or
//! gap-coded.

use vstd::prelude::*;

use crate::error::LmError;
use crate::sequence_collection::seq_view;
use crate::specs::{lemma_sum_seq_prefix_le, sum_seq};
use crate::succinct::{efl_from_slice, efl_get, efl_len, efl_seq};

verus! {

/// Trait for a data structure storing one order's count ranks.
pub trait RankArray: Sized {
    /// The stored ranks, in gram position order.
    spec fn ranks(&self) -> Seq<int>;

    spec fn wf(&self) -> bool;

    /// On which rank sequences `build` succeeds.
    spec fn build_ok(count_ranks: Seq<int>) -> bool;

    /// Builds a [`RankArray`] from a sequence of count ranks.
    fn build(count_ranks: Vec<usize>) -> (r: Result<Self, LmError>)
        ensures
            r is Ok <==> Self::build_ok(seq_view(count_ranks@)),
            r matches Ok(a) ==> a.wf() && a.ranks() == seq_view(count_ranks@),
            r matches Err(e) ==> e == LmError::TooLarge,
    ;

    /// Gets the `i`-th count rank.
    fn get(&self, i: usize) -> (r: usize)
        requires
            self.wf(),
            0 <= i < self.ranks().len(),
        ensures
            r as int == self.ranks()[i as int],
    ;

    /// Gets the number of count ranks stored.
    fn len(&self) -> (r: usize)
        requires
            self.wf(),
        ensures
            r as int == self.ranks().len(),
    ;

    /// Checks if the data structure is empty.
    fn is_empty(&self) -> (r: bool)
        requires
            self.wf(),
        ensures
            r <==> self.ranks().len() == 0,
    ;
}

/// Simple implementation of [`RankArray`] with a plain vector.
pub struct SimpleRankArray {
    count_ranks: Vec<usize>,
}

impl RankArray for SimpleRankArray {
    closed spec fn ranks(&self) -> Seq<int> {
        seq_view(self.count_ranks@)
    }

    closed spec fn wf(&self) -> bool {
        true
    }

    open spec fn build_ok(count_ranks: Seq<int>) -> bool {
        true
    }

    fn build(count_ranks: Vec<usize>) -> (r: Result<Self, LmError>) {
        Ok(Self { count_ranks })
    }

    fn get(&self, i: usize) -> (r: usize) {
        self.count_ranks[i]
    }

    fn len(&self) -> (r: usize) {
        self.count_ranks.len()
    }

    fn is_empty(&self) -> (r: bool) {
        self.count_ranks.len() == 0
    }
}

/// Space-efficient implementation of [`RankArray`] with gap-coded Elias-Fano
/// storage.
pub struct EliasFanoRankArray {
    count_ranks: Option<sucds::EliasFanoList>,
}

impl RankArray for EliasFanoRankArray {
    closed spec fn ranks(&self) -> Seq<int> {
        match self.count_ranks {
            Some(l) => efl_seq(l),
            None => Seq::<int>::empty(),
        }
    }

    closed spec fn wf(&self) -> bool {
        true
    }

    open spec fn build_ok(count_ranks: Seq<int>) -> bool {
        count_ranks.len() <= usize::MAX / 4 && sum_seq(count_ranks) <= (usize::MAX / 4) as int
    }

    fn build(count_ranks: Vec<usize>) -> (r: Result<Self, LmError>) {
        if count_ranks.len() == 0 {
            let r = Self { count_ranks: None };
            proof {
                assert(r.ranks() =~= seq_view(count_ranks@));
            }
            return Ok(r);
        }
        // Bound the gap-coded prefix sums before handing the list over.
        let n = count_ranks.len();
        let mut total: usize = 0;
        let mut i: usize = 0;
        let limit = usize::MAX / 4;
        while i < n
            invariant
                0 <= i <= n,
                n == count_ranks@.len(),
                total as int == sum_seq(seq_view(count_ranks@.subrange(0, i as int))),
                total <= usize::MAX / 4,
                limit == usize::MAX / 4,
            decreases n - i,
        {
            proof {
                assert(seq_view(count_ranks@.subrange(0, i + 1)).drop_last() =~= seq_view(
                    count_ranks@.subrange(0, i as int),
                ));
            }
            let v = count_ranks[i];
            if v > limit - total {
                // The prefix already overruns the bound, so the whole sum does.
                proof {
                    let s = seq_view(count_ranks@);
                    assert(s.subrange(0, i as int) =~= seq_view(
                        count_ranks@.subrange(0, i as int),
                    ));
                    assert(s.subrange(0, i + 1).drop_last() =~= s.subrange(0, i as int));
                    assert(s.subrange(0, i + 1).last() == v as int);
                    assert(sum_seq(s.subrange(0, i + 1)) > (usize::MAX / 4) as int);
                    lemma_sum_seq_prefix_le(s, i + 1);
                }
                return Err(LmError::TooLarge);
            }
            total += v;
            i += 1;
        }
        proof {
            assert(count_ranks@.subrange(0, n as int) =~= count_ranks@);
        }
        if n > usize::MAX / 4 {
            return Err(LmError::TooLarge);
        }
        let list = efl_from_slice(&count_ranks);
        proof {
            assert(seq_view(count_ranks@).len() <= usize::MAX / 4);
        }
        Ok(Self { count_ranks: Some(list) })
    }

    fn get(&self, i: usize) -> (r: usize) {
        match &self.count_ranks {
            Some(l) => efl_get(l, i),
            None => 0,
        }
    }

    fn len(&self) -> (r: usize) {
        match &self.count_ranks {
            Some(l) => efl_len(l),
            None => 0,
        }
    }

    fn is_empty(&self) -> (r: bool) {
        self.len() == 0
    }
}

} // verus!
