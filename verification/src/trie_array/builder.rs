//! A transient accumulator for one trie layer's raw vectors.

use vstd::prelude::*;

use crate::sequence_collection::seq_view;
use crate::sorted_array::SimpleSortedArray;
use crate::grams_sequence::SimpleGramsSequence;

verus! {

/// Accumulates a layer's token identifiers and count ranks before freezing.
pub struct TrieLayerBuilder {
    token_ids: Vec<usize>,
    count_ranks: Vec<usize>,
}

impl TrieLayerBuilder {
    /// The accumulated token identifiers.
    pub closed spec fn spec_token_ids(&self) -> Seq<int> {
        seq_view(self.token_ids@)
    }

    /// The accumulated count ranks.
    pub closed spec fn spec_count_ranks(&self) -> Seq<int> {
        seq_view(self.count_ranks@)
    }

    /// Creates an empty builder; the capacity hints carry no contract.
    pub fn new(
        num_grams: usize,
        max_gram_id: usize,
        max_count_rank: usize,
        quantization_bits: usize,
    ) -> (r: Self)
        ensures
            r.spec_token_ids() == Seq::<int>::empty(),
            r.spec_count_ranks() == Seq::<int>::empty(),
    {
        let r = Self {
            token_ids: Vec::with_capacity(num_grams),
            count_ranks: Vec::with_capacity(num_grams),
        };
        proof {
            assert(r.spec_token_ids() =~= Seq::<int>::empty());
            assert(r.spec_count_ranks() =~= Seq::<int>::empty());
        }
        r
    }

    /// Appends one gram's token identifier and count rank.
    pub fn add(&mut self, token_id: usize, count_rank: usize)
        ensures
            final(self).spec_token_ids() == old(self).spec_token_ids().push(token_id as int),
            final(self).spec_count_ranks() == old(self).spec_count_ranks().push(count_rank as int),
    {
        self.token_ids.push(token_id);
        self.count_ranks.push(count_rank);
        proof {
            assert(self.spec_token_ids() =~= old(self).spec_token_ids().push(token_id as int));
            assert(self.spec_count_ranks() =~= old(self).spec_count_ranks().push(
                count_rank as int,
            ));
        }
    }

    /// Appends one count rank alone.
    pub fn add_count_rank(&mut self, rank: usize)
        ensures
            final(self).spec_token_ids() == old(self).spec_token_ids(),
            final(self).spec_count_ranks() == old(self).spec_count_ranks().push(rank as int),
    {
        self.count_ranks.push(rank);
        proof {
            assert(self.spec_count_ranks() =~= old(self).spec_count_ranks().push(rank as int));
        }
    }

    /// Freezes the layer with its pointers.
    pub fn release(self, pointers: Vec<usize>) -> (r: SimpleSortedArray)
        ensures
            r.token_ids.ids() == self.spec_token_ids(),
            seq_view(r.count_ranks@) == self.spec_count_ranks(),
            r.pointers@ == pointers@,
    {
        let token_ids = SimpleGramsSequence::new(self.token_ids.as_slice());
        SimpleSortedArray { token_ids, count_ranks: self.count_ranks, pointers }
    }

    /// Freezes the count ranks alone, as the order-one layer does.
    pub fn release_counts_ranks(self) -> (r: SimpleSortedArray)
        ensures
            r.token_ids.ids() == Seq::<int>::empty(),
            seq_view(r.count_ranks@) == self.spec_count_ranks(),
            r.pointers@ == Seq::<usize>::empty(),
    {
        let empty: Vec<usize> = Vec::new();
        let token_ids = SimpleGramsSequence::new(empty.as_slice());
        let r = SimpleSortedArray { token_ids, count_ranks: self.count_ranks, pointers: Vec::new() };
        proof {
            assert(r.token_ids.ids() =~= Seq::<int>::empty());
        }
        r
    }
}

} // verus!
