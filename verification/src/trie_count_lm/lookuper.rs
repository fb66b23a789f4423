//! The lookup engine: walks the trie downward for one query gram.

use vstd::prelude::*;
use vstd::string::StringSliceAdditionalSpecFns;

use crate::gram::{split_bytes, Gram};
use crate::mappers::{all_known, ids_of, SortedArrayMapper};
use crate::rank_array::RankArray;
use crate::trie_array::{lemma_range_pairwise, TrieArray};
use crate::trie_count_lm::{lemma_find_in_range_at, lemma_find_in_range_none, TrieCountLm};
use crate::vocabulary::Vocabulary;
use crate::MAX_ORDER;

verus! {

/// Lookuper for [`TrieCountLm`]: holds the model and a scratch buffer for
/// the mapped identifiers.
pub struct TrieCountLmLookuper<'a, T, V, A> {
    trie: &'a TrieCountLm<T, V, A>,
    mapper: SortedArrayMapper,
}

impl<'a, T: TrieArray, V: Vocabulary, A: RankArray> TrieCountLmLookuper<'a, T, V, A> {
    /// The model being queried.
    pub closed spec fn trie(&self) -> TrieCountLm<T, V, A> {
        *self.trie
    }

    /// Creates a [`TrieCountLmLookuper`] for a model.
    pub fn new(trie: &'a TrieCountLm<T, V, A>) -> (r: Self)
        ensures
            r.trie() == *trie,
    {
        TrieCountLmLookuper { trie, mapper: SortedArrayMapper::default() }
    }

    /// Looks up a gram, returning its count.
    pub fn run(&mut self, gram: Gram<'_>) -> (r: Option<usize>)
        requires
            old(self).trie().wf(),
        ensures
            final(self).trie() == old(self).trie(),
            match r {
                Some(c) => old(self).trie().spec_lookup(gram@) == Some(c as int),
                None => old(self).trie().spec_lookup(gram@) is None,
            },
    {
        let ghost toks = split_bytes(gram@);
        if !self.mapper.from_gram(gram, &self.trie.vocab) {
            return None;
        }
        let len = self.mapper.len();
        proof {
            assert(toks.len() >= 1);
            assert(self.trie.spec_ids(toks) == Some(ids_of(self.trie.vocab.tokens(), toks)));
        }
        if len > self.trie.count_ranks.len() {
            return None;
        }
        let ghost ids = self.mapper.ids();
        let order = len - 1;
        let mut pos = self.mapper.id_at(0);
        proof {
            crate::vocabulary::lemma_token_index(self.trie.vocab.tokens(), toks[0]);
        }
        let mut j: usize = 1;
        while j < len
            invariant
                1 <= j <= len,
                len as int == ids.len(),
                ids.len() == toks.len(),
                self.trie().wf(),
                len as int <= self.trie().spec_num_orders(),
                ids == self.mapper.ids(),
                self.trie().spec_walk(ids, 1, ids[0]) == self.trie().spec_walk(
                    ids,
                    j as int,
                    pos as int,
                ),
                (pos as int) < (if j == 1 {
                    self.trie().vocab.tokens().len() as int
                } else {
                    self.trie().arrays@[j - 2].token_ids().len() as int
                }),
                toks == split_bytes(gram@),
                1 <= toks.len() <= MAX_ORDER as int,
                self.trie().spec_ids(toks) == Some(ids),
                self.trie == old(self).trie,
            decreases len - j,
        {
            let t = &self.trie.arrays[j - 1];
            proof {
                assert(self.trie().arrays@[j - 1].wf());
            }
            if t.num_tokens() == 0 {
                return None;
            }
            proof {
                t.lemma_wf();
                assert(pos as int + 1 < t.pointers().len());
            }
            let id = self.mapper.id_at(j);
            match t.find_token(pos, id) {
                Some(np) => {
                    proof {
                        let tt = self.trie().arrays@[j - 1];
                        assert(*t == tt);
                        // The found slot is the unique child with this token.
                        assert(tt.pointers()[pos as int] <= np as int && (np as int)
                            < tt.pointers()[pos as int + 1]);
                        assert(tt.token_ids()[np as int] == id as int);
                        assert(TrieCountLm::<T, V, A>::spec_child(tt, pos as int, id as int)
                            == Some(np as int)) by {
                            assert forall|x: int|
                                tt.pointers()[pos as int] <= x < np as int implies #[trigger]
                            tt.token_ids()[x] != id as int by {
                                lemma_range_pairwise(
                                    tt.token_ids(),
                                    tt.pointers(),
                                    pos as int,
                                    x,
                                    np as int,
                                );
                            }
                            lemma_find_in_range_at(
                                tt.token_ids(),
                                tt.pointers()[pos as int],
                                tt.pointers()[pos as int + 1],
                                id as int,
                                np as int,
                            );
                        }
                        assert((np as int) < tt.token_ids().len()) by {
                            assert(tt.pointers()[pos as int + 1] <= tt.pointers()[tt.pointers().len() - 1]);
                        }
                    }
                    pos = np;
                },
                None => {
                    proof {
                        let tt = self.trie().arrays@[j - 1];
                        assert(*t == tt);
                        assert(TrieCountLm::<T, V, A>::spec_child(tt, pos as int, id as int)
                            is None) by {
                            lemma_find_in_range_none(
                                tt.token_ids(),
                                tt.pointers()[pos as int],
                                tt.pointers()[pos as int + 1],
                                id as int,
                            );
                        }
                    }
                    return None;
                },
            }
            j += 1;
        }
        proof {
            assert(self.trie().spec_walk(ids, len as int, pos as int) == Some(pos as int));
        }
        let rank = self.trie.count_ranks[order].get(pos);
        let count = self.trie.counts[order].get(rank);
        Some(count)
    }

    /// Looks up a gram written as a space-separated string.
    pub fn with_str(&mut self, gram: &str) -> (r: Option<usize>)
        requires
            old(self).trie().wf(),
        ensures
            final(self).trie() == old(self).trie(),
            match r {
                Some(c) => old(self).trie().spec_lookup(gram.spec_bytes()) == Some(c as int),
                None => old(self).trie().spec_lookup(gram.spec_bytes()) is None,
            },
    {
        self.run(Gram::from_str(gram))
    }
}

impl<T: TrieArray, V: Vocabulary, A: RankArray> TrieCountLm<T, V, A> {
    /// Makes the lookuper.
    pub fn lookuper(&self) -> (r: TrieCountLmLookuper<'_, T, V, A>)
        ensures
            r.trie() == *self,
    {
        TrieCountLmLookuper::new(self)
    }
}

} // verus!
