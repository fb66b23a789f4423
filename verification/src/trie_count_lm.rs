//! The Elias-Fano trie count model: a frozen N-gram set with frequency
//! counts, queried by exact match.

pub mod builder;
pub mod lookuper;

use vstd::prelude::*;
use vstd::string::StringSliceAdditionalSpecFns;

use crate::gram::{first_sep_idx, last_sep_idx, split_bytes};
use crate::rank_array::RankArray;
use crate::sequence_collection::seq_view;
use crate::succinct::{cv_get, cv_len, cv_new, cv_push, cv_seq, cv_width};
use crate::trie_array::{lemma_range_pairwise, TrieArray};
use crate::vocabulary::{token_index, Vocabulary};
use crate::error::LmError;
use crate::MAX_ORDER;

verus! {

/// A frozen list of count values in rank order, packed at fixed width.
pub struct CountsList {
    cv: Option<sucds::CompactVector>,
}

impl CountsList {
    /// The stored count values, in rank order.
    pub closed spec fn counts(&self) -> Seq<int> {
        match self.cv {
            Some(c) => cv_seq(c),
            None => Seq::<int>::empty(),
        }
    }

    pub closed spec fn wf(&self) -> bool {
        match self.cv {
            Some(c) => 1 <= cv_width(c) <= 64,
            None => true,
        }
    }

    /// Packs the values at the width of the machine word.
    pub fn build(values: &Vec<usize>) -> (r: Self)
        requires
            values@.len() < usize::MAX / 64,
        ensures
            r.wf(),
            r.counts() == seq_view(values@),
    {
        if values.len() == 0 {
            let r = Self { cv: None };
            proof {
                assert(r.counts() =~= seq_view(values@));
            }
            return r;
        }
        let mut cv = cv_new(64);
        let n = values.len();
        let mut i: usize = 0;
        while i < n
            invariant
                0 <= i <= n,
                n == values@.len(),
                n < usize::MAX / 64,
                cv_width(cv) == 64,
                cv_seq(cv) == seq_view(values@.subrange(0, i as int)),
            decreases n - i,
        {
            proof {
                vstd::arithmetic::power2::lemma2_to64();
                assert((values@[i as int] as int) < vstd::arithmetic::power2::pow2(64));
                assert(cv_seq(cv).len() == i);
            }
            cv_push(&mut cv, values[i]);
            proof {
                assert(seq_view(values@.subrange(0, i + 1)) =~= seq_view(
                    values@.subrange(0, i as int),
                ).push(values@[i as int] as int));
            }
            i += 1;
        }
        proof {
            assert(values@.subrange(0, n as int) =~= values@);
        }
        Self { cv: Some(cv) }
    }

    /// Gets the count value at rank `i`.
    pub fn get(&self, i: usize) -> (r: usize)
        requires
            self.wf(),
            0 <= i < self.counts().len(),
        ensures
            r as int == self.counts()[i as int],
    {
        match &self.cv {
            Some(c) => cv_get(c, i),
            None => 0,
        }
    }

    /// Gets the number of stored values.
    pub fn len(&self) -> (r: usize)
        requires
            self.wf(),
        ensures
            r as int == self.counts().len(),
    {
        match &self.cv {
            Some(c) => cv_len(c),
            None => 0,
        }
    }
}

/// Elias-Fano trie for indexing N-grams with their frequency counts.
pub struct TrieCountLm<T, V, A> {
    pub vocab: V,
    pub arrays: Vec<T>,
    pub count_ranks: Vec<A>,
    pub counts: Vec<CountsList>,
}

impl<T: TrieArray, V: Vocabulary, A: RankArray> TrieCountLm<T, V, A> {
    /// The number of stored orders.
    pub open spec fn spec_num_orders(&self) -> int {
        self.count_ranks@.len() as int
    }

    /// The layer holding the grams of order `k + 1`.
    pub open spec fn spec_layer(&self, k: int) -> T {
        self.arrays@[k - 1]
    }

    pub open spec fn wf(&self) -> bool {
        &&& self.vocab.wf()
        &&& self.count_ranks@.len() == self.arrays@.len() + 1
        &&& self.counts@.len() == self.count_ranks@.len()
        &&& self.count_ranks@.len() <= MAX_ORDER
        &&& forall|k: int| 0 <= k < self.arrays@.len() ==> (#[trigger] self.arrays@[k]).wf()
        &&& forall|k: int| 0 <= k < self.count_ranks@.len() ==> (
        #[trigger] self.count_ranks@[k]).wf()
        &&& forall|k: int| 0 <= k < self.counts@.len() ==> (#[trigger] self.counts@[k]).wf()
        &&& self.count_ranks@[0].ranks().len() == self.vocab.tokens().len()
        &&& forall|k: int| 1 <= k < self.count_ranks@.len() ==> (
        #[trigger] self.count_ranks@[k]).ranks().len() == self.arrays@[k - 1].token_ids().len()
        &&& forall|k: int, i: int|
            0 <= k < self.count_ranks@.len() && 0 <= i < self.count_ranks@[k].ranks().len() ==> 0
                <= #[trigger] self.count_ranks@[k].ranks()[i] < self.counts@[k].counts().len()
        &&& forall|k: int| 0 <= k < self.arrays@.len() && (#[trigger] self.arrays@[
        k]).token_ids().len() > 0 ==> self.arrays@[k].pointers().len() == (if k == 0 {
            self.vocab.tokens().len()
        } else {
            self.arrays@[k - 1].token_ids().len()
        }) + 1
    }

    /// The model is the one the builder assembles from these per-order
    /// texts: every order parses, the vocabulary holds exactly the order-one
    /// grams, every layer slot holds the identifier of its record's last
    /// token inside its parent's child range, and every rank reads the
    /// record's count back from the dictionary.
    pub open spec fn built_from(&self, texts: Seq<Seq<u8>>) -> bool {
        &&& self.wf()
        &&& self.spec_num_orders() == texts.len()
        &&& forall|k: int| 0 <= k < texts.len() ==> #[trigger] crate::util::spec_records(
            texts[k],
        ) is Some
        &&& self.vocab.tokens() == crate::trie_count_lm::builder::gram_parts(
            crate::util::spec_records(texts[0]).unwrap(),
        )
        &&& crate::vocabulary::all_valid_tokens(self.vocab.tokens())
        &&& crate::vocabulary::distinct_seqs(self.vocab.tokens())
        &&& forall|k: int| #![trigger self.arrays@[k]] 0 <= k < self.arrays@.len()
            ==> crate::trie_count_lm::builder::layer_from_records(
            self.arrays@[k],
            self.vocab,
            crate::util::spec_records(texts[k + 1]).unwrap(),
        ) && crate::trie_count_lm::builder::layer_parents_from_records(
            self.arrays@[k],
            crate::util::spec_records(texts[k]).unwrap(),
            crate::util::spec_records(texts[k + 1]).unwrap(),
        )
        &&& forall|k: int| #![trigger self.count_ranks@[k]] 0 <= k < self.count_ranks@.len()
            ==> crate::trie_count_lm::builder::ranks_from_records(
            self.count_ranks@[k].ranks(),
            self.counts@[k].counts(),
            crate::util::spec_records(texts[k]).unwrap(),
        )
    }

    /// The token identifiers of the query, or nothing if one is unknown.
    pub open spec fn spec_ids(&self, toks: Seq<Seq<u8>>) -> Option<Seq<int>> {
        if forall|i: int|
            0 <= i < toks.len() ==> #[trigger] token_index(self.vocab.tokens(), toks[i]) is Some {
            Some(
                Seq::new(
                    toks.len(),
                    |i: int| token_index(self.vocab.tokens(), toks[i]).unwrap(),
                ),
            )
        } else {
            None
        }
    }

    /// The position of token `id` among parent `pos`'s children in layer
    /// `k + 1`, if stored.
    pub open spec fn spec_child(t: T, pos: int, id: int) -> Option<int> {
        find_in_range(t.token_ids(), t.pointers()[pos], t.pointers()[pos + 1], id)
    }

    /// The downward walk: from position `pos` at depth `j`, follow the
    /// remaining identifiers and yield the final position.
    pub open spec fn spec_walk(&self, ids: Seq<int>, j: int, pos: int) -> Option<int>
        decreases ids.len() - j,
        when 1 <= j <= ids.len()
    {
        if j >= ids.len() {
            Some(pos)
        } else {
            let t = self.arrays@[j - 1];
            if t.token_ids().len() == 0 {
                None
            } else {
                match Self::spec_child(t, pos, ids[j]) {
                    Some(np) => self.spec_walk(ids, j + 1, np),
                    None => None,
                }
            }
        }
    }

    /// What a lookup of the gram bytes `s` returns: the count of the gram if
    /// it is stored, nothing otherwise.
    pub open spec fn spec_lookup(&self, s: Seq<u8>) -> Option<int> {
        let toks = split_bytes(s);
        if toks.len() < 1 || toks.len() > MAX_ORDER as int || toks.len() > self.spec_num_orders() {
            None
        } else {
            match self.spec_ids(toks) {
                Some(ids) => match self.spec_walk(ids, 1, ids[0]) {
                    Some(pos) => {
                        let k = toks.len() - 1;
                        Some(self.counts@[k].counts()[self.count_ranks@[k].ranks()[pos]])
                    },
                    None => None,
                },
                None => None,
            }
        }
    }

    /// Builds the model from in-memory gram-count texts, one per order.
    pub fn from_texts(texts: Vec<&str>) -> (r: Result<Self, LmError>)
        ensures
            r matches Ok(m) ==> m.built_from(texts@.map_values(|t: &str| t.spec_bytes())),
            r matches Err(e) ==> ({
                let ts = texts@.map_values(|t: &str| t.spec_bytes());
                ||| (e == LmError::TooManyOrders && ts.len() > MAX_ORDER as int)
                ||| (e == LmError::NoOrders && ts.len() == 0)
                ||| ((e == LmError::InvalidHeader || e == LmError::InvalidLine || e
                    == LmError::InvalidCount || e == LmError::CountMismatch) && exists|k: int|
                    0 <= k < ts.len() && (#[trigger] crate::util::spec_records(ts[k])) is None)
                ||| ((e == LmError::DuplicateToken || e == LmError::InvalidToken)
                    && crate::util::spec_records(ts[0]) is Some && !V::build_ok(
                    crate::trie_count_lm::builder::gram_parts(
                        crate::util::spec_records(ts[0]).unwrap(),
                    ),
                ))
                ||| (e == LmError::UnknownToken
                    && crate::trie_count_lm::builder::has_unknown_token(ts))
                ||| e == LmError::MissingParent
                ||| e == LmError::UnsortedInput
                ||| e == LmError::TooLarge
            }),
    {
        let ghost ts = texts@.map_values(|t: &str| t.spec_bytes());
        let mut owned: Vec<Vec<u8>> = Vec::new();
        let n = texts.len();
        let mut i: usize = 0;
        while i < n
            invariant
                0 <= i <= n,
                n == texts@.len(),
                ts == texts@.map_values(|t: &str| t.spec_bytes()),
                owned@.len() == i,
                forall|j: int| 0 <= j < i ==> (#[trigger] owned@[j])@ == ts[j],
            decreases n - i,
        {
            owned.push(vstd::slice::slice_to_vec(texts[i].as_bytes()));
            i += 1;
        }
        proof {
            assert(owned@.map_values(|t: Vec<u8>| t@) =~= ts);
        }
        let b = match crate::trie_count_lm::builder::TrieCountLmBuilder::<T, V, A>::new(owned) {
            Ok(b) => b,
            Err(e) => {
                return Err(e);
            },
        };
        b.build()
    }

    /// Every token of a stored gram is in the vocabulary: a query holding an
    /// unknown token always misses.
    pub proof fn lemma_lookup_unknown_token(&self, s: Seq<u8>, i: int)
        requires
            self.wf(),
            0 <= i < split_bytes(s).len(),
            token_index(self.vocab.tokens(), split_bytes(s)[i]) is None,
        ensures
            self.spec_lookup(s) is None,
    {
        let toks = split_bytes(s);
        assert(self.spec_ids(toks) is None);
    }

    /// A query holding a token that is not among the input unigrams always
    /// misses on a model built from those inputs.
    pub proof fn lemma_lookup_unknown_input_token(&self, texts: Seq<Seq<u8>>, s: Seq<u8>, i: int)
        requires
            self.built_from(texts),
            0 <= i < split_bytes(s).len(),
            forall|j: int|
                0 <= j < crate::util::spec_records(texts[0]).unwrap().len() ==> (
                #[trigger] crate::util::spec_records(texts[0]).unwrap()[j]).0 != split_bytes(s)[i],
        ensures
            self.spec_lookup(s) is None,
    {
        let t = split_bytes(s)[i];
        crate::vocabulary::lemma_token_index(self.vocab.tokens(), t);
        if token_index(self.vocab.tokens(), t) is Some {
            let idx = token_index(self.vocab.tokens(), t).unwrap();
            assert(self.vocab.tokens()[idx] == t);
            assert(crate::util::spec_records(texts[0]).unwrap()[idx].0 == t);
        }
        self.lemma_lookup_unknown_token(s, i);
    }

    /// Extending the identifiers by one token adds one step to the walk.
    pub proof fn lemma_walk_snoc(&self, ids: Seq<int>, x: int, j: int, pos: int)
        requires
            1 <= j <= ids.len(),
        ensures
            self.spec_walk(ids.push(x), j, pos) == (match self.spec_walk(ids, j, pos) {
                Some(q) => ({
                    let t = self.arrays@[ids.len() - 1];
                    if t.token_ids().len() == 0 {
                        None
                    } else {
                        Self::spec_child(t, q, x)
                    }
                }),
                None => None::<int>,
            }),
        decreases ids.len() - j,
    {
        let e = ids.push(x);
        assert(e.len() == ids.len() + 1);
        if j >= ids.len() {
            assert(e[j] == x);
            let t = self.arrays@[ids.len() - 1];
            if t.token_ids().len() != 0 {
                match Self::spec_child(t, pos, x) {
                    Some(np) => {
                        assert(self.spec_walk(e, j + 1, np) == Some(np));
                    },
                    None => {
                    },
                }
            }
        } else {
            assert(e[j] == ids[j]);
            let t = self.arrays@[j - 1];
            if t.token_ids().len() != 0 {
                match Self::spec_child(t, pos, ids[j]) {
                    Some(np) => {
                        self.lemma_walk_snoc(ids, x, j + 1, np);
                    },
                    None => {
                    },
                }
            }
        }
    }

    /// A model built from per-order record lists holds every record: the walk
    /// of a record's gram lands at the record's own slot, and its lookup
    /// yields the record's count.
    pub proof fn lemma_lookup_stored_record(&self, texts: Seq<Seq<u8>>, k: int, i: int)
        requires
            self.built_from(texts),
            1 <= k <= texts.len(),
            0 <= i < crate::util::spec_records(texts[k - 1]).unwrap().len(),
        ensures
            ({
                let recs = crate::util::spec_records(texts[k - 1]).unwrap();
                let toks = split_bytes(recs[i].0);
                &&& toks.len() == k
                &&& self.spec_ids(toks) is Some
                &&& self.spec_walk(self.spec_ids(toks).unwrap(), 1, self.spec_ids(toks).unwrap()[0])
                    == Some(i)
                &&& self.spec_lookup(recs[i].0) == Some(recs[i].1)
            }),
        decreases k,
    {
        let recs = crate::util::spec_records(texts[k - 1]).unwrap();
        let g = recs[i].0;
        let toks = split_bytes(g);
        if k == 1 {
            assert(g == self.vocab.tokens()[i]);
            assert(crate::vocabulary::valid_token(g));
            crate::gram::lemma_no_sep_split(g);
            assert(toks =~= seq![g]);
            assert forall|j: int| 0 <= j < i implies self.vocab.tokens()[j] != g by {}
            crate::vocabulary::lemma_token_index_at(self.vocab.tokens(), g, i);
            assert(self.spec_ids(toks) is Some) by {
                assert forall|j: int| 0 <= j < toks.len() implies #[trigger] token_index(
                    self.vocab.tokens(),
                    toks[j],
                ) is Some by {
                    assert(toks[j] == g);
                }
            }
            let ids = self.spec_ids(toks).unwrap();
            assert(ids[0] == i);
            assert(self.spec_walk(ids, 1, i) == Some(i));
            assert(self.spec_lookup(g) == Some(recs[i].1)) by {
                assert(crate::trie_count_lm::builder::ranks_from_records(
                    self.count_ranks@[0].ranks(),
                    self.counts@[0].counts(),
                    recs,
                ));
            }
        } else {
            let prev = crate::util::spec_records(texts[k - 2]).unwrap();
            let t = self.arrays@[k - 2];
            assert(crate::trie_count_lm::builder::layer_parents_from_records(t, prev, recs));
            assert(crate::trie_count_lm::builder::parent_covers(t, prev, recs, i));
            assert(crate::trie_count_lm::builder::layer_from_records(t, self.vocab, recs));
            let p = choose|p: int|
                0 <= p < prev.len() && (#[trigger] prev[p]).0 == crate::gram::gram_prefix(recs[i].0)
                    && t.pointers()[p] <= i < t.pointers()[p + 1];
            self.lemma_lookup_stored_record(texts, k - 1, p);
            crate::gram::lemma_split_last(g);
            let pfx = crate::gram::gram_prefix(g);
            let lt = crate::gram::last_token(g);
            assert(pfx == prev[p].0);
            let ptoks = split_bytes(pfx);
            assert(toks == ptoks + seq![lt]);
            assert(toks.len() == k);
            assert(token_index(self.vocab.tokens(), lt) == Some(t.token_ids()[i]));
            // Every piece of the query maps, so its identifiers exist.
            assert(self.spec_ids(toks) is Some) by {
                assert forall|j: int| 0 <= j < toks.len() implies #[trigger] token_index(
                    self.vocab.tokens(),
                    toks[j],
                ) is Some by {
                    if j < k - 1 {
                        assert(toks[j] == ptoks[j]);
                    } else {
                        assert(toks[j] == lt);
                    }
                }
            }
            let ids = self.spec_ids(toks).unwrap();
            let pids = self.spec_ids(ptoks).unwrap();
            assert(ids =~= pids.push(t.token_ids()[i])) by {
                assert forall|j: int| 0 <= j < ids.len() implies ids[j] == pids.push(
                    t.token_ids()[i],
                )[j] by {
                    if j < k - 1 {
                        assert(toks[j] == ptoks[j]);
                    } else {
                        assert(toks[j] == lt);
                    }
                }
            }
            // The walk of the prefix lands at the parent; one more step lands
            // at this record's slot.
            self.lemma_walk_snoc(pids, t.token_ids()[i], 1, pids[0]);
            assert(ids[0] == pids[0]);
            assert(t.token_ids().len() == recs.len());
            t.lemma_wf();
            assert(Self::spec_child(t, p, t.token_ids()[i]) == Some(i)) by {
                let lo = t.pointers()[p];
                let hi = t.pointers()[p + 1];
                assert(hi <= t.pointers()[t.pointers().len() - 1]) by {
                    assert(p + 1 < t.pointers().len()) by {
                        assert(t.pointers().len() == (if k - 2 == 0 {
                            self.vocab.tokens().len() as int
                        } else {
                            self.arrays@[k - 3].token_ids().len() as int
                        }) + 1);
                        if k - 2 == 0 {
                            assert(prev.len() == self.vocab.tokens().len());
                        } else {
                            assert(crate::trie_count_lm::builder::layer_from_records(
                                self.arrays@[k - 3],
                                self.vocab,
                                prev,
                            ));
                        }
                    }
                }
                assert forall|x: int| lo <= x < i implies #[trigger] t.token_ids()[x]
                    != t.token_ids()[i] by {
                    lemma_range_pairwise(t.token_ids(), t.pointers(), p, x, i);
                }
                lemma_find_in_range_at(t.token_ids(), lo, hi, t.token_ids()[i], i);
            }
            assert(self.spec_walk(ids, 1, ids[0]) == Some(i));
            assert(self.spec_lookup(g) == Some(recs[i].1)) by {
                assert(crate::trie_count_lm::builder::ranks_from_records(
                    self.count_ranks@[k - 1].ranks(),
                    self.counts@[k - 1].counts(),
                    recs,
                ));
            }
        }
    }

    /// A successful walk only ever lands on a stored record: the slot the
    /// walk yields holds a record whose gram is the query itself.
    pub proof fn lemma_walk_finds_record(&self, texts: Seq<Seq<u8>>, k: int, g: Seq<u8>)
        requires
            self.built_from(texts),
            1 <= k <= texts.len(),
            split_bytes(g).len() == k,
            self.spec_ids(split_bytes(g)) is Some,
            self.spec_walk(
                self.spec_ids(split_bytes(g)).unwrap(),
                1,
                self.spec_ids(split_bytes(g)).unwrap()[0],
            ) is Some,
        ensures
            ({
                let recs = crate::util::spec_records(texts[k - 1]).unwrap();
                let pos = self.spec_walk(
                    self.spec_ids(split_bytes(g)).unwrap(),
                    1,
                    self.spec_ids(split_bytes(g)).unwrap()[0],
                ).unwrap();
                0 <= pos < recs.len() && recs[pos].0 == g
            }),
        decreases k,
    {
        let recs = crate::util::spec_records(texts[k - 1]).unwrap();
        let toks = split_bytes(g);
        let ids = self.spec_ids(toks).unwrap();
        let pos = self.spec_walk(ids, 1, ids[0]).unwrap();
        crate::gram::lemma_first_sep_idx(g);
        if k == 1 {
            // One token: the walk stays at the vocabulary slot itself.
            assert(toks == seq![g]) by {
                if first_sep_idx(g) is Some {
                    assert(toks.len() >= 2) by {
                        let f = first_sep_idx(g).unwrap();
                        assert(split_bytes(g) == seq![g.subrange(0, f)] + split_bytes(
                            g.subrange(f + 1, g.len() as int),
                        ));
                        assert(split_bytes(g.subrange(f + 1, g.len() as int)).len() >= 1);
                    }
                }
                crate::gram::lemma_no_sep_split(g);
            }
            assert(pos == ids[0]);
            assert(toks[0] == g);
            crate::vocabulary::lemma_token_index(self.vocab.tokens(), g);
            let idx = token_index(self.vocab.tokens(), g).unwrap();
            assert(self.vocab.tokens()[idx] == g);
            assert(recs[idx].0 == g);
            assert(pos == idx);
        } else {
            // Split the query at its last separator and walk the prefix.
            assert(last_sep_idx(g) >= 0) by {
                crate::gram::lemma_last_sep_idx(g);
                if forall|x: int| 0 <= x < g.len() ==> g[x] != crate::TOKEN_SEPARATOR {
                    crate::gram::lemma_no_sep_split(g);
                }
            }
            crate::gram::lemma_split_last(g);
            let pfx = crate::gram::gram_prefix(g);
            let lt = crate::gram::last_token(g);
            let ptoks = split_bytes(pfx);
            assert(toks == ptoks + seq![lt]);
            assert(self.spec_ids(ptoks) is Some) by {
                assert forall|j: int| 0 <= j < ptoks.len() implies #[trigger] token_index(
                    self.vocab.tokens(),
                    ptoks[j],
                ) is Some by {
                    assert(ptoks[j] == toks[j]);
                    assert(token_index(self.vocab.tokens(), toks[j]) is Some);
                }
            }
            let pids = self.spec_ids(ptoks).unwrap();
            assert(token_index(self.vocab.tokens(), lt) is Some) by {
                assert(toks[k - 1] == lt);
                assert(token_index(self.vocab.tokens(), toks[k - 1]) is Some);
            }
            let x = token_index(self.vocab.tokens(), lt).unwrap();
            assert(ids =~= pids.push(x)) by {
                assert forall|j: int| 0 <= j < ids.len() implies ids[j] == pids.push(x)[j] by {
                    if j < k - 1 {
                        assert(toks[j] == ptoks[j]);
                    } else {
                        assert(toks[j] == lt);
                    }
                }
            }
            self.lemma_walk_snoc(pids, x, 1, pids[0]);
            assert(ids[0] == pids[0]);
            let t = self.arrays@[k - 2];
            let q = self.spec_walk(pids, 1, pids[0]).unwrap();
            assert(Self::spec_child(t, q, x) == Some(pos));
            self.lemma_walk_finds_record(texts, k - 1, pfx);
            let prev = crate::util::spec_records(texts[k - 2]).unwrap();
            assert(0 <= q < prev.len() && prev[q].0 == pfx);
            assert(crate::trie_count_lm::builder::layer_from_records(t, self.vocab, recs));
            assert(crate::trie_count_lm::builder::layer_parents_from_records(t, prev, recs));
            t.lemma_wf();
            assert(q + 1 < t.pointers().len()) by {
                assert(t.pointers().len() == (if k - 2 == 0 {
                    self.vocab.tokens().len() as int
                } else {
                    self.arrays@[k - 3].token_ids().len() as int
                }) + 1);
                if k - 2 == 0 {
                    assert(prev.len() == self.vocab.tokens().len());
                } else {
                    assert(crate::trie_count_lm::builder::layer_from_records(
                        self.arrays@[k - 3],
                        self.vocab,
                        prev,
                    ));
                }
            }
            lemma_find_in_range_some(t.token_ids(), t.pointers()[q], t.pointers()[q + 1], x);
            assert(t.pointers()[q] <= pos < t.pointers()[q + 1]);
            assert(t.token_ids()[pos] == x);
            assert(0 <= pos < recs.len()) by {
                assert(t.pointers()[q + 1] <= t.pointers()[t.pointers().len() - 1]);
                assert(t.token_ids().len() == recs.len());
            }
            assert(crate::trie_count_lm::builder::parent_covers(t, prev, recs, pos));
            let p2 = choose|p2: int|
                0 <= p2 < prev.len() && (#[trigger] prev[p2]).0 == crate::gram::gram_prefix(
                    recs[pos].0,
                ) && t.pointers()[p2] <= pos < t.pointers()[p2 + 1];
            // Both parent ranges hold this slot, so they are one parent.
            assert(q == p2) by {
                if p2 < q {
                    assert(t.pointers()[p2 + 1] <= t.pointers()[q]);
                }
                if q < p2 {
                    assert(t.pointers()[q + 1] <= t.pointers()[p2]);
                }
            }
            assert(crate::gram::gram_prefix(recs[pos].0) == pfx);
            // Equal identifiers name equal tokens.
            assert(token_index(self.vocab.tokens(), crate::gram::last_token(recs[pos].0)) == Some(
                t.token_ids()[pos],
            ));
            crate::vocabulary::lemma_token_index(
                self.vocab.tokens(),
                crate::gram::last_token(recs[pos].0),
            );
            crate::vocabulary::lemma_token_index(self.vocab.tokens(), lt);
            assert(crate::gram::last_token(recs[pos].0) == lt);
            // The record's gram reassembles to the query.
            assert(last_sep_idx(recs[pos].0) >= 0);
            assert(recs[pos].0 =~= g) by {
                let l1 = last_sep_idx(recs[pos].0);
                let l2 = last_sep_idx(g);
                crate::gram::lemma_last_sep_idx(recs[pos].0);
                crate::gram::lemma_last_sep_idx(g);
                assert(exists|x2: int|
                    0 <= x2 < recs[pos].0.len() && recs[pos].0[x2] == crate::TOKEN_SEPARATOR) by {
                    if forall|x2: int|
                        0 <= x2 < recs[pos].0.len() ==> recs[pos].0[x2] != crate::TOKEN_SEPARATOR {
                        assert(last_sep_idx(recs[pos].0) == -1);
                    }
                }
                assert(exists|x2: int| 0 <= x2 < g.len() && g[x2] == crate::TOKEN_SEPARATOR) by {
                    if forall|x2: int| 0 <= x2 < g.len() ==> g[x2] != crate::TOKEN_SEPARATOR {
                        assert(last_sep_idx(g) == -1);
                    }
                }
                assert(l1 == pfx.len());
                assert(l2 == pfx.len());
                assert(recs[pos].0.len() == pfx.len() + 1 + lt.len());
                assert forall|x2: int| 0 <= x2 < g.len() implies recs[pos].0[x2] == g[x2] by {
                    if x2 < pfx.len() {
                        assert(recs[pos].0[x2] == crate::gram::gram_prefix(recs[pos].0)[x2]);
                        assert(g[x2] == crate::gram::gram_prefix(g)[x2]);
                    } else if x2 == pfx.len() {
                        assert(recs[pos].0[x2] == crate::TOKEN_SEPARATOR);
                        assert(g[x2] == crate::TOKEN_SEPARATOR);
                    } else {
                        assert(recs[pos].0[x2] == crate::gram::last_token(recs[pos].0)[x2 - pfx.len()
                            - 1]);
                        assert(g[x2] == lt[x2 - pfx.len() - 1]);
                    }
                }
            }
        }
    }

    /// A gram of order `k` that is not among the order-`k` records is never
    /// found, whether or not its tokens are in the vocabulary.
    pub proof fn lemma_lookup_absent(&self, texts: Seq<Seq<u8>>, k: int, g: Seq<u8>)
        requires
            self.built_from(texts),
            1 <= k <= texts.len(),
            split_bytes(g).len() == k,
            forall|i: int|
                0 <= i < crate::util::spec_records(texts[k - 1]).unwrap().len()
                    ==> (#[trigger] crate::util::spec_records(texts[k - 1]).unwrap()[i]).0 != g,
        ensures
            self.spec_lookup(g) is None,
    {
        let toks = split_bytes(g);
        if self.spec_ids(toks) is Some {
            let ids = self.spec_ids(toks).unwrap();
            if self.spec_walk(ids, 1, ids[0]) is Some {
                self.lemma_walk_finds_record(texts, k, g);
                let recs = crate::util::spec_records(texts[k - 1]).unwrap();
                let pos = self.spec_walk(ids, 1, ids[0]).unwrap();
                assert(recs[pos].0 != g);
                assert(false);
            }
        }
    }

    /// Gets the number of orders stored.
    pub fn num_orders(&self) -> (r: usize)
        ensures
            r as int == self.spec_num_orders(),
    {
        self.count_ranks.len()
    }

    /// Gets the number of stored grams over all orders, or nothing when the
    /// sum does not fit the machine.
    pub fn num_grams(&self) -> (r: Option<usize>)
        requires
            self.wf(),
        ensures
            ({
                let lens = self.count_ranks@.map_values(|a: A| a.ranks().len() as int);
                let full = spec_total_grams(lens, self.count_ranks@.len() as int);
                &&& (r matches Some(n) ==> n as int == full)
                &&& (r is None <==> full > usize::MAX as int)
            }),
    {
        let ghost lens = self.count_ranks@.map_values(|a: A| a.ranks().len() as int);
        let mut total: usize = 0;
        let m = self.count_ranks.len();
        let mut k: usize = 0;
        while k < m
            invariant
                0 <= k <= m,
                m == self.count_ranks@.len(),
                self.wf(),
                total as int == spec_total_grams(
                    self.count_ranks@.map_values(|a: A| a.ranks().len() as int),
                    k as int,
                ),
            decreases m - k,
        {
            let l = self.count_ranks[k].len();
            if l > usize::MAX - total {
                // The running sum already overruns, so the full sum does.
                proof {
                    let lens = self.count_ranks@.map_values(|a: A| a.ranks().len() as int);
                    assert(spec_total_grams(lens, k + 1) > usize::MAX as int);
                    lemma_total_grams_mono(lens, k + 1, lens.len() as int);
                }
                return None;
            }
            total += l;
            k += 1;
        }
        Some(total)
    }
}

/// The first slot in `lo .. hi` whose token is `id`, if any.
pub open spec fn find_in_range(toks: Seq<int>, lo: int, hi: int, id: int) -> Option<int>
    decreases hi - lo,
{
    if lo >= hi {
        None
    } else if toks[lo] == id {
        Some(lo)
    } else {
        find_in_range(toks, lo + 1, hi, id)
    }
}

/// A matching slot with no earlier match pins `find_in_range` to it.
pub proof fn lemma_find_in_range_at(toks: Seq<int>, lo: int, hi: int, id: int, np: int)
    requires
        lo <= np < hi,
        toks[np] == id,
        forall|x: int| lo <= x < np ==> #[trigger] toks[x] != id,
    ensures
        find_in_range(toks, lo, hi, id) == Some(np),
    decreases np - lo,
{
    if lo < np {
        lemma_find_in_range_at(toks, lo + 1, hi, id, np);
    }
}

/// A found slot lies in the range and holds the token.
pub proof fn lemma_find_in_range_some(toks: Seq<int>, lo: int, hi: int, id: int)
    requires
        find_in_range(toks, lo, hi, id) is Some,
    ensures
        ({
            let r = find_in_range(toks, lo, hi, id).unwrap();
            lo <= r < hi && toks[r] == id
        }),
    decreases hi - lo,
{
    if lo < hi && toks[lo] != id {
        lemma_find_in_range_some(toks, lo + 1, hi, id);
    }
}

/// Without any matching slot, `find_in_range` yields nothing.
pub proof fn lemma_find_in_range_none(toks: Seq<int>, lo: int, hi: int, id: int)
    requires
        forall|x: int| lo <= x < hi ==> #[trigger] toks[x] != id,
    ensures
        find_in_range(toks, lo, hi, id) is None,
    decreases hi - lo,
{
    if lo < hi {
        lemma_find_in_range_none(toks, lo + 1, hi, id);
    }
}

/// The sum of the first `k` per-order gram counts.
pub open spec fn spec_total_grams(lens: Seq<int>, k: int) -> int
    decreases k,
{
    if k <= 0 {
        0
    } else {
        spec_total_grams(lens, k - 1) + lens[k - 1]
    }
}

/// Taking more orders never shrinks a sum of non-negative lengths.
pub proof fn lemma_total_grams_mono(lens: Seq<int>, k1: int, k2: int)
    requires
        0 <= k1 <= k2 <= lens.len(),
        forall|i: int| 0 <= i < lens.len() ==> 0 <= #[trigger] lens[i],
    ensures
        spec_total_grams(lens, k1) <= spec_total_grams(lens, k2),
    decreases k2 - k1,
{
    if k1 < k2 {
        lemma_total_grams_mono(lens, k1, k2 - 1);
    }
}

} // verus!
