//! A plain sequence of token identifiers with ranged search.

use vstd::prelude::*;

use crate::sequence_collection::seq_view;
use crate::trie_count_lm::{find_in_range, lemma_find_in_range_at, lemma_find_in_range_none};

verus! {

/// Simple storage of a layer's token identifiers.
pub struct SimpleGramsSequence {
    token_ids: Vec<usize>,
}

impl SimpleGramsSequence {
    /// The stored identifiers.
    pub closed spec fn ids(&self) -> Seq<int> {
        seq_view(self.token_ids@)
    }

    /// Copies a slice of token identifiers.
    pub fn new(token_ids: &[usize]) -> (r: Self)
        ensures
            r.ids() == seq_view(token_ids@),
    {
        Self { token_ids: vstd::slice::slice_to_vec(token_ids) }
    }

    /// Gets the token identifier at a given slot.
    pub fn get(&self, i: usize) -> (r: usize)
        requires
            0 <= i < self.ids().len(),
        ensures
            r as int == self.ids()[i as int],
    {
        self.token_ids[i]
    }

    /// Finds the first slot within `rng` holding `id`.
    pub fn position(&self, rng: (usize, usize), id: usize) -> (r: Option<usize>)
        requires
            rng.0 <= rng.1 <= self.ids().len(),
        ensures
            match r {
                Some(i) => rng.0 <= i < rng.1 && find_in_range(
                    self.ids(),
                    rng.0 as int,
                    rng.1 as int,
                    id as int,
                ) == Some(i as int),
                None => find_in_range(self.ids(), rng.0 as int, rng.1 as int, id as int) is None,
            },
    {
        let mut a: usize = rng.0;
        while a < rng.1
            invariant
                rng.0 <= a <= rng.1 <= self.ids().len(),
                forall|x: int| rng.0 <= x < a ==> #[trigger] self.ids()[x] != id as int,
            decreases rng.1 - a,
        {
            if self.token_ids[a] == id {
                proof {
                    lemma_find_in_range_at(
                        self.ids(),
                        rng.0 as int,
                        rng.1 as int,
                        id as int,
                        a as int,
                    );
                }
                return Some(a);
            }
            a += 1;
        }
        proof {
            lemma_find_in_range_none(self.ids(), rng.0 as int, rng.1 as int, id as int);
        }
        None
    }
}

} // verus!
