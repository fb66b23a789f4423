//! The streaming builder: assembles the vocabulary, the count-rank
//! dictionaries and the trie layers from per-order sorted record lists.

use vstd::prelude::*;

use crate::error::LmError;
use crate::gram::{gram_prefix, last_sep_idx, last_token, Gram};
use crate::rank_array::RankArray;
use crate::record::CountRecord;
use crate::sequence_collection::{
    is_rank_seq, lemma_member_count_occ, rank_has, rank_sort, seq_view, table_eat, table_ok,
};
use crate::specs::monotone;
use crate::trie_array::{layer_wf, range_step, TrieArray};
use crate::trie_count_lm::{CountsList, TrieCountLm};
use crate::util::load_records;
use crate::vocabulary::{token_index, Vocabulary};
use crate::MAX_ORDER;

verus! {

/// The count values of a record list, in order.
pub open spec fn counts_of(recs: Seq<CountRecord>) -> Seq<int> {
    Seq::new(recs.len(), |i: int| recs[i]@.1)
}

/// The gram byte strings of parsed records, in order.
pub open spec fn gram_parts(recs: Seq<(Seq<u8>, int)>) -> Seq<Seq<u8>> {
    recs.map_values(|rc: (Seq<u8>, int)| rc.0)
}

/// The layer stores, slot by slot, the vocabulary identifier of each
/// record's last token.
pub open spec fn layer_from_records<T: TrieArray, V: Vocabulary>(
    t: T,
    vocab: V,
    recs: Seq<(Seq<u8>, int)>,
) -> bool {
    &&& t.token_ids().len() == recs.len()
    &&& forall|i: int| 0 <= i < recs.len() ==> token_index(
        vocab.tokens(),
        last_token((#[trigger] recs[i]).0),
    ) == Some(t.token_ids()[i])
}

/// Record `i` sits inside the child range of a parent whose gram is the
/// record's prefix.
pub open spec fn parent_covers<T: TrieArray>(
    t: T,
    prev: Seq<(Seq<u8>, int)>,
    curr: Seq<(Seq<u8>, int)>,
    i: int,
) -> bool {
    &&& last_sep_idx(curr[i].0) >= 0
    &&& exists|p: int|
        0 <= p < prev.len() && (#[trigger] prev[p]).0 == gram_prefix(curr[i].0) && t.pointers()[p]
            <= i < t.pointers()[p + 1]
}

/// Each record sits inside the child range of a parent whose gram is the
/// record's prefix.
pub open spec fn layer_parents_from_records<T: TrieArray>(
    t: T,
    prev: Seq<(Seq<u8>, int)>,
    curr: Seq<(Seq<u8>, int)>,
) -> bool {
    forall|i: int| 0 <= i < curr.len() ==> #[trigger] parent_covers(t, prev, curr, i)
}

/// Some record at a higher order carries a last token that is not among the
/// order-one grams.
pub open spec fn has_unknown_token(texts: Seq<Seq<u8>>) -> bool {
    exists|k: int, i: int|
        1 <= k < texts.len() && 0 <= i < crate::util::spec_records(texts[k]).unwrap().len() && (
        #[trigger] token_index(
            gram_parts(crate::util::spec_records(texts[0]).unwrap()),
            last_token(crate::util::spec_records(texts[k]).unwrap()[i].0),
        )) is None
}

/// The rank array points each record at its own count inside the dictionary:
/// reading the dictionary back at a record's rank yields the record's count.
pub open spec fn ranks_from_records(
    ranks: Seq<int>,
    dict: Seq<int>,
    recs: Seq<(Seq<u8>, int)>,
) -> bool {
    &&& ranks.len() == recs.len()
    &&& forall|i: int| 0 <= i < recs.len() ==> 0 <= ranks[i] < dict.len() && dict[ranks[i]] == (
    #[trigger] recs[i]).1
}

/// Accumulates the count values of each order and freezes them as rank
/// sequences with their packed inverse lists.
pub struct CountsBuilder {
    v2f: Vec<(usize, usize)>,
    eaten: Ghost<Seq<int>>,
    rank_vecs: Vec<Vec<usize>>,
    sorted_sequences: Vec<CountsList>,
    history: Ghost<Seq<Seq<int>>>,
}

impl CountsBuilder {
    /// The values eaten since the last frozen order.
    pub closed spec fn spec_eaten(&self) -> Seq<int> {
        self.eaten@
    }

    /// The values eaten for each frozen order.
    pub closed spec fn spec_orders(&self) -> Seq<Seq<int>> {
        self.history@
    }

    /// The frozen rank sequences.
    pub closed spec fn spec_seqs(&self) -> Seq<Seq<int>> {
        self.rank_vecs@.map_values(|v: Vec<usize>| seq_view(v@))
    }

    pub closed spec fn wf(&self) -> bool {
        &&& table_ok(self.v2f@, self.eaten@)
        &&& self.v2f@.len() <= self.eaten@.len()
        &&& self.rank_vecs@.len() == self.history@.len()
        &&& self.sorted_sequences@.len() == self.history@.len()
        &&& forall|k: int| 0 <= k < self.history@.len() ==> is_rank_seq(
            seq_view(#[trigger] self.rank_vecs@[k]@),
            self.history@[k],
        )
        &&& forall|k: int| 0 <= k < self.history@.len() ==> (
        #[trigger] self.sorted_sequences@[k]).counts() == seq_view(self.rank_vecs@[k]@)
        &&& forall|k: int| 0 <= k < self.history@.len() ==> (
        #[trigger] self.sorted_sequences@[k]).wf()
    }

    /// Creates an empty builder.
    pub fn new() -> (r: Self)
        ensures
            r.wf(),
            r.spec_eaten() == Seq::<int>::empty(),
            r.spec_orders() == Seq::<Seq<int>>::empty(),
            r.spec_seqs() == Seq::<Seq<int>>::empty(),
    {
        let r = Self {
            v2f: Vec::new(),
            eaten: Ghost(Seq::empty()),
            rank_vecs: Vec::new(),
            sorted_sequences: Vec::new(),
            history: Ghost(Seq::empty()),
        };
        proof {
            assert(r.spec_seqs() =~= Seq::<Seq<int>>::empty());
        }
        r
    }

    /// Feeds one count value of the current order.
    pub fn eat_value(&mut self, x: usize)
        requires
            old(self).wf(),
            old(self).spec_eaten().len() < usize::MAX,
        ensures
            final(self).wf(),
            final(self).spec_eaten() == old(self).spec_eaten().push(x as int),
            final(self).spec_orders() == old(self).spec_orders(),
            final(self).spec_seqs() == old(self).spec_seqs(),
            final(self).spec_counts_lists() == old(self).spec_counts_lists(),
    {
        let ghost eaten = self.eaten@;
        table_eat(&mut self.v2f, x, Ghost(eaten));
        proof {
            self.eaten@ = eaten.push(x as int);
        }
    }

    /// The frozen packed count lists, one per order.
    pub closed spec fn spec_counts_lists(&self) -> Seq<Seq<int>> {
        self.sorted_sequences@.map_values(|c: CountsList| c.counts())
    }

    /// Freezes the current order's rank sequence and packed list.
    pub fn build_sequence(&mut self)
        requires
            old(self).wf(),
            old(self).spec_eaten().len() < usize::MAX / 64,
        ensures
            final(self).wf(),
            final(self).spec_eaten() == Seq::<int>::empty(),
            final(self).spec_orders() == old(self).spec_orders().push(old(self).spec_eaten()),
            final(self).spec_seqs().len() == old(self).spec_seqs().len() + 1,
            is_rank_seq(final(self).spec_seqs().last(), old(self).spec_eaten()),
    {
        let ghost eaten = self.eaten@;
        let values = rank_sort(&self.v2f, Ghost(eaten));
        let list = CountsList::build(&values);
        self.rank_vecs.push(values);
        self.sorted_sequences.push(list);
        self.v2f.clear();
        proof {
            self.eaten@ = Seq::<int>::empty();
            self.history@ = self.history@.push(eaten);
            assert(table_ok(self.v2f@, self.eaten@));
            assert(self.spec_seqs() =~= old(self).spec_seqs().push(seq_view(values@)));
            assert(self.spec_counts_lists() =~= old(self).spec_counts_lists().push(list.counts()));
        }
    }

    /// The rank of `value` at a frozen order, if the value occurred there.
    pub fn rank(&self, order: usize, value: usize) -> (r: Option<usize>)
        requires
            self.wf(),
            0 <= order < self.spec_seqs().len(),
        ensures
            match r {
                Some(i) => 0 <= i < self.spec_seqs()[order as int].len()
                    && self.spec_seqs()[order as int][i as int] == value as int,
                None => forall|i: int|
                    0 <= i < self.spec_seqs()[order as int].len()
                        ==> #[trigger] self.spec_seqs()[order as int][i] != value as int,
            },
    {
        let seq = &self.rank_vecs[order];
        let n = seq.len();
        let mut i: usize = 0;
        while i < n
            invariant
                0 <= i <= n,
                n == seq@.len(),
                seq@ == self.rank_vecs@[order as int]@,
                0 <= order < self.rank_vecs@.len(),
                self.spec_seqs()[order as int] == seq_view(seq@),
                forall|j: int| 0 <= j < i ==> #[trigger] seq@[j] != value,
            decreases n - i,
        {
            if seq[i] == value {
                return Some(i);
            }
            i += 1;
        }
        None
    }

    /// The packed lists mirror the rank sequences, order for order.
    pub proof fn lemma_lists_len(&self)
        requires
            self.wf(),
        ensures
            self.spec_counts_lists().len() == self.spec_orders().len(),
            self.spec_seqs().len() == self.spec_orders().len(),
            forall|k: int| 0 <= k < self.spec_orders().len()
                ==> (#[trigger] self.spec_counts_lists()[k]).len() == self.spec_seqs()[k].len(),
    {
        assert forall|k: int| 0 <= k < self.spec_orders().len() implies (
        #[trigger] self.spec_counts_lists()[k]).len() == self.spec_seqs()[k].len() by {
            assert(self.sorted_sequences@[k].counts() == seq_view(self.rank_vecs@[k]@));
        }
    }

    /// Hands the packed count lists out. Under the builder invariant, list
    /// `k` holds exactly rank sequence `k`: reading a value back at its rank
    /// recovers the value.
    pub fn release(self) -> (r: Vec<CountsList>)
        ensures
            r@.map_values(|c: CountsList| c.counts()) == self.spec_counts_lists(),
            forall|k: int| 0 <= k < r@.len() ==> (#[trigger] r@[k]).counts()
                == self.spec_counts_lists()[k],
            self.wf() ==> forall|k: int| 0 <= k < r@.len() ==> (#[trigger] r@[k]).wf(),
            self.wf() ==> r@.len() == self.spec_seqs().len(),
            self.wf() ==> forall|k: int| 0 <= k < r@.len() ==> (#[trigger] r@[k]).counts()
                == self.spec_seqs()[k],
    {
        let CountsBuilder { sorted_sequences, .. } = self;
        let r = sorted_sequences;
        proof {
            if self.wf() {
                assert forall|k: int| 0 <= k < r@.len() implies (#[trigger] r@[k]).counts()
                    == self.spec_seqs()[k] by {
                    assert(self.sorted_sequences@[k].counts() == seq_view(self.rank_vecs@[k]@));
                }
            }
        }
        r
    }
}

/// A well-formed layer whose identifiers fit the vocabulary bound.
pub open spec fn layer_ok(token_ids: Seq<int>, pointers: Seq<int>) -> bool {
    &&& layer_wf(token_ids, pointers)
    &&& forall|i: int| 0 <= i < token_ids.len() ==> #[trigger] token_ids[i] < 0x8000_0000
}

/// Checks that raw token identifiers and pointers form a well-formed layer
/// whose identifiers fit the vocabulary bound; it accepts exactly those.
pub fn check_layer(token_ids: &Vec<usize>, pointers: &Vec<usize>) -> (r: bool)
    ensures
        r <==> layer_ok(seq_view(token_ids@), seq_view(pointers@)),
{
    let ghost toks = seq_view(token_ids@);
    let ghost ptrs = seq_view(pointers@);
    let n = token_ids.len();
    let m = pointers.len();
    if m == 0 || pointers[0] != 0 {
        return false;
    }
    // Monotone pointers ending at the token count.
    let mut p: usize = 0;
    while p < m - 1
        invariant
            0 <= p <= m - 1,
            m == pointers@.len(),
            toks == seq_view(token_ids@),
            ptrs == seq_view(pointers@),
            forall|j: int| 0 <= j < p ==> (#[trigger] pointers@[j]) <= pointers@[j + 1],
        decreases m - 1 - p,
    {
        if pointers[p] > pointers[p + 1] {
            proof {
                assert(ptrs[p as int] > ptrs[p as int + 1]);
                assert(!monotone(ptrs));
            }
            return false;
        }
        p += 1;
    }
    if pointers[m - 1] != n {
        return false;
    }
    proof {
        let ptrs = seq_view(pointers@);
        assert forall|i: int, j: int| 0 <= i <= j < ptrs.len() implies #[trigger] ptrs[i]
            <= #[trigger] ptrs[j] by {
            lemma_mono_chain(pointers@, i, j);
        }
    }
    // Token identifiers below the bound.
    let mut i: usize = 0;
    while i < n
        invariant
            0 <= i <= n,
            n == token_ids@.len(),
            toks == seq_view(token_ids@),
            forall|j: int| 0 <= j < i ==> (#[trigger] token_ids@[j]) < 0x8000_0000,
        decreases n - i,
    {
        if token_ids[i] >= 0x8000_0000 {
            proof {
                assert(toks[i as int] >= 0x8000_0000);
            }
            return false;
        }
        i += 1;
    }
    // Strict ascent inside every parent range.
    let mut p: usize = 0;
    while p < m - 1
        invariant
            0 <= p <= m - 1,
            m == pointers@.len(),
            n == token_ids@.len(),
            toks == seq_view(token_ids@),
            ptrs == seq_view(pointers@),
            monotone(seq_view(pointers@)),
            seq_view(pointers@)[0] == 0,
            seq_view(pointers@).last() == n,
            forall|p2: int, a: int|
                0 <= p2 < p && seq_view(pointers@)[p2] <= a && a + 1 < seq_view(pointers@)[p2 + 1]
                    ==> #[trigger] range_step(seq_view(token_ids@), p2, a),
        decreases m - 1 - p,
    {
        let b = pointers[p];
        let e = pointers[p + 1];
        proof {
            assert(seq_view(pointers@)[p as int] <= seq_view(pointers@)[p as int + 1]);
            assert(seq_view(pointers@)[p as int + 1] <= seq_view(pointers@)[m - 1]);
        }
        if b < e {
            let mut a: usize = b;
            while a + 1 < e
                invariant
                    b <= a,
                    a + 1 <= e,
                    e <= n,
                    n == token_ids@.len(),
                    m == pointers@.len(),
                    toks == seq_view(token_ids@),
                    ptrs == seq_view(pointers@),
                    0 <= p < m - 1,
                    b as int == ptrs[p as int],
                    e as int == ptrs[p as int + 1],
                    forall|x: int| b <= x && x + 1 < a + 1 ==> (#[trigger] token_ids@[x])
                        < token_ids@[x + 1],
                decreases e - a,
            {
                if token_ids[a] >= token_ids[a + 1] {
                    // A flat or falling step inside this parent's range.
                    proof {
                        assert(!range_step(toks, p as int, a as int));
                        assert(!layer_wf(toks, ptrs));
                    }
                    return false;
                }
                a += 1;
            }
            proof {
                assert forall|p2: int, a2: int|
                    0 <= p2 < p + 1 && seq_view(pointers@)[p2] <= a2 && a2 + 1 < seq_view(
                        pointers@,
                    )[p2 + 1] implies #[trigger] range_step(seq_view(token_ids@), p2, a2) by {
                    if p2 == p {
                        assert(token_ids@[a2] < token_ids@[a2 + 1]);
                    }
                }
            }
        } else {
            proof {
                assert forall|p2: int, a2: int|
                    0 <= p2 < p + 1 && seq_view(pointers@)[p2] <= a2 && a2 + 1 < seq_view(
                        pointers@,
                    )[p2 + 1] implies #[trigger] range_step(seq_view(token_ids@), p2, a2) by {}
            }
        }
        p += 1;
    }
    true
}

/// Pointer entries that never decrease step by step never decrease at all.
proof fn lemma_mono_chain(s: Seq<usize>, i: int, j: int)
    requires
        0 <= i <= j < s.len(),
        forall|k: int| 0 <= k < s.len() - 1 ==> (#[trigger] s[k]) <= s[k + 1],
    ensures
        seq_view(s)[i] <= seq_view(s)[j],
    decreases j - i,
{
    if i < j {
        lemma_mono_chain(s, i + 1, j);
    }
}

/// Builder of [`TrieCountLm`] from per-order gram-count texts.
pub struct TrieCountLmBuilder<T, V, A> {
    texts: Vec<Vec<u8>>,
    marker: core::marker::PhantomData<(T, V, A)>,
}

impl<T: TrieArray, V: Vocabulary, A: RankArray> TrieCountLmBuilder<T, V, A> {
    /// The input texts, one per order.
    pub closed spec fn spec_texts(&self) -> Seq<Seq<u8>> {
        self.texts@.map_values(|t: Vec<u8>| t@)
    }

    /// Creates a builder over one text per order; more than `MAX_ORDER`
    /// streams or none at all are rejected at setup.
    pub fn new(texts: Vec<Vec<u8>>) -> (r: Result<Self, LmError>)
        ensures
            match r {
                Ok(b) => 1 <= texts@.len() <= MAX_ORDER && b.spec_texts() == texts@.map_values(
                    |t: Vec<u8>| t@,
                ),
                Err(e) => (e == LmError::TooManyOrders && texts@.len() > MAX_ORDER) || (e
                    == LmError::NoOrders && texts@.len() == 0),
            },
    {
        if texts.len() > MAX_ORDER {
            return Err(LmError::TooManyOrders);
        }
        if texts.len() == 0 {
            return Err(LmError::NoOrders);
        }
        Ok(Self { texts, marker: core::marker::PhantomData })
    }

    /// Builds the frozen model: one pass per order for the count-rank
    /// dictionaries, one for the vocabulary, and a joint walk over each pair
    /// of adjacent orders for the trie layers. On success the model provably
    /// holds the parsed records (`built_from`); on failure the error names
    /// what the input broke.
    pub fn build(self) -> (r: Result<TrieCountLm<T, V, A>, LmError>)
        requires
            1 <= self.spec_texts().len() <= MAX_ORDER,
        ensures
            r matches Ok(m) ==> m.built_from(self.spec_texts()),
            r matches Err(e) ==> ({
                let texts = self.spec_texts();
                ||| ((e == LmError::InvalidHeader || e == LmError::InvalidLine || e
                    == LmError::InvalidCount || e == LmError::CountMismatch) && exists|k: int|
                    0 <= k < texts.len() && (#[trigger] crate::util::spec_records(texts[k]))
                        is None)
                ||| ((e == LmError::DuplicateToken || e == LmError::InvalidToken)
                    && crate::util::spec_records(texts[0]) is Some && !V::build_ok(
                    gram_parts(crate::util::spec_records(texts[0]).unwrap()),
                ))
                ||| (e == LmError::UnknownToken && has_unknown_token(texts))
                ||| e == LmError::MissingParent
                ||| e == LmError::UnsortedInput
                ||| e == LmError::TooLarge
            }),
    {
        let ghost texts = self.spec_texts();
        let num_orders = self.texts.len();
        // Parse every order once.
        let mut all_records: Vec<Vec<CountRecord>> = Vec::new();
        let mut k: usize = 0;
        while k < num_orders
            invariant
                0 <= k <= num_orders,
                num_orders == self.texts@.len(),
                texts == self.spec_texts(),
                all_records@.len() == k,
                forall|k2: int| 0 <= k2 < k ==> #[trigger] crate::util::spec_records(texts[k2])
                    is Some,
                forall|k2: int| 0 <= k2 < k ==> (#[trigger] all_records@[k2])@.map_values(
                    |rec: CountRecord| rec@,
                ) == crate::util::spec_records(texts[k2]).unwrap(),
            decreases num_orders - k,
        {
            match load_records(self.texts[k].as_slice()) {
                Ok(recs) => {
                    proof {
                        assert(texts[k as int] == self.texts@[k as int]@);
                    }
                    all_records.push(recs);
                },
                Err(e) => {
                    proof {
                        assert(texts[k as int] == self.texts@[k as int]@);
                        assert(crate::util::spec_records(texts[k as int]) is None);
                    }
                    return Err(e);
                },
            }
            k += 1;
        }
        // Stage one: the per-order count-rank dictionaries.
        let mut cb = CountsBuilder::new();
        let limit = usize::MAX / 64;
        let mut k: usize = 0;
        while k < num_orders
            invariant
                0 <= k <= num_orders,
                num_orders == all_records@.len(),
                texts == self.spec_texts(),
                num_orders == texts.len(),
                forall|k2: int| 0 <= k2 < num_orders ==> #[trigger] crate::util::spec_records(
                    texts[k2],
                ) is Some,
                forall|k2: int| 0 <= k2 < num_orders ==> (#[trigger] all_records@[k2])@.map_values(
                    |rec: CountRecord| rec@,
                ) == crate::util::spec_records(texts[k2]).unwrap(),
                cb.wf(),
                limit == usize::MAX / 64,
                cb.spec_eaten() == Seq::<int>::empty(),
                cb.spec_orders().len() == k,
                cb.spec_seqs().len() == k,
                forall|k2: int| 0 <= k2 < k ==> #[trigger] cb.spec_orders()[k2] == counts_of(
                    all_records@[k2]@,
                ),
            decreases num_orders - k,
        {
            let recs = &all_records[k];
            let n = recs.len();
            if n >= limit {
                return Err(LmError::TooLarge);
            }
            let mut i: usize = 0;
            while i < n
                invariant
                    0 <= i <= n,
                    n == recs@.len(),
                    recs@ == all_records@[k as int]@,
                    0 <= k < all_records@.len(),
                    cb.wf(),
                    cb.spec_orders().len() == k,
                    cb.spec_seqs().len() == k,
                    forall|k2: int| 0 <= k2 < k ==> #[trigger] cb.spec_orders()[k2] == counts_of(
                        all_records@[k2]@,
                    ),
                    cb.spec_eaten() == counts_of(recs@.subrange(0, i as int)),
                    n < usize::MAX / 64,
                decreases n - i,
            {
                proof {
                    assert(counts_of(recs@.subrange(0, i + 1)) =~= counts_of(
                        recs@.subrange(0, i as int),
                    ).push(recs@[i as int]@.1));
                    assert(cb.spec_eaten().len() == i);
                }
                cb.eat_value(recs[i].count());
                i += 1;
            }
            proof {
                assert(recs@.subrange(0, n as int) =~= recs@);
            }
            cb.build_sequence();
            k += 1;
        }
        // Stage two: the vocabulary and the order-one rank array.
        let recs0 = &all_records[0];
        let mut grams: Vec<Gram<'_>> = Vec::new();
        let n0 = recs0.len();
        let mut i: usize = 0;
        while i < n0
            invariant
                0 <= i <= n0,
                n0 == recs0@.len(),
                grams@.len() == i,
                forall|j: int| 0 <= j < i ==> (#[trigger] grams@[j])@ == recs0@[j]@.0,
            decreases n0 - i,
        {
            grams.push(recs0[i].gram());
            i += 1;
        }
        proof {
            let recs0v = all_records@[0]@.map_values(|rec: CountRecord| rec@);
            assert(recs0v == crate::util::spec_records(texts[0]).unwrap());
            assert(grams@.map_values(|g: Gram<'_>| g@) =~= gram_parts(recs0v)) by {
                assert forall|j: int| 0 <= j < n0 implies grams@.map_values(|g: Gram<'_>| g@)[j]
                    == gram_parts(recs0v)[j] by {
                    assert(grams@[j]@ == recs0@[j]@.0);
                }
            }
        }
        let vocab = match V::build(&grams) {
            Ok(v) => v,
            Err(e) => {
                return Err(e);
            },
        };
        let ranks0 = match collect_ranks(&cb, recs0, 0) {
            Ok(v) => v,
            Err(e) => {
                return Err(e);
            },
        };
        let cr0 = match A::build(ranks0) {
            Ok(a) => a,
            Err(e) => {
                return Err(e);
            },
        };
        let mut arrays: Vec<T> = Vec::new();
        let mut count_ranks: Vec<A> = Vec::new();
        count_ranks.push(cr0);
        proof {
            let recs0v = all_records@[0]@.map_values(|rec: CountRecord| rec@);
            assert(ranks_from_records(cr0.ranks(), cb.spec_seqs()[0], recs0v)) by {
                assert forall|i: int| 0 <= i < recs0v.len() implies 0 <= cr0.ranks()[i]
                    < cb.spec_seqs()[0].len() && cb.spec_seqs()[0][cr0.ranks()[i]] == (
                #[trigger] recs0v[i]).1 by {
                    assert(cr0.ranks()[i] == ranks0@[i] as int);
                    assert(recs0v[i].1 == recs0@[i]@.1);
                }
            }
        }
        // Stage three: one trie layer per higher order.
        let mut k: usize = 1;
        while k < num_orders
            invariant
                1 <= k <= num_orders,
                num_orders == all_records@.len(),
                num_orders <= MAX_ORDER,
                texts == self.spec_texts(),
                num_orders == texts.len(),
                forall|k2: int| 0 <= k2 < num_orders ==> #[trigger] crate::util::spec_records(
                    texts[k2],
                ) is Some,
                forall|k2: int| 0 <= k2 < num_orders ==> (#[trigger] all_records@[k2])@.map_values(
                    |rec: CountRecord| rec@,
                ) == crate::util::spec_records(texts[k2]).unwrap(),
                vocab.tokens() == gram_parts(crate::util::spec_records(texts[0]).unwrap()),
                crate::vocabulary::all_valid_tokens(vocab.tokens()),
                crate::vocabulary::distinct_seqs(vocab.tokens()),
                forall|j: int| #![trigger arrays@[j]] 0 <= j < k - 1 ==> layer_from_records(
                    arrays@[j],
                    vocab,
                    crate::util::spec_records(texts[j + 1]).unwrap(),
                ) && layer_parents_from_records(
                    arrays@[j],
                    crate::util::spec_records(texts[j]).unwrap(),
                    crate::util::spec_records(texts[j + 1]).unwrap(),
                ),
                forall|j: int| #![trigger count_ranks@[j]] 0 <= j < k ==> ranks_from_records(
                    count_ranks@[j].ranks(),
                    cb.spec_seqs()[j],
                    crate::util::spec_records(texts[j]).unwrap(),
                ),
                cb.wf(),
                cb.spec_orders().len() == num_orders,
                cb.spec_seqs().len() == num_orders,
                forall|k2: int| 0 <= k2 < num_orders ==> #[trigger] cb.spec_orders()[k2]
                    == counts_of(all_records@[k2]@),
                vocab.wf(),
                arrays@.len() == k - 1,
                count_ranks@.len() == k,
                forall|j: int| 0 <= j < k - 1 ==> (#[trigger] arrays@[j]).wf(),
                forall|j: int| 0 <= j < k ==> (#[trigger] count_ranks@[j]).wf(),
                count_ranks@[0].ranks().len() == vocab.tokens().len(),
                vocab.tokens().len() == all_records@[0]@.len(),
                forall|j: int| 0 <= j < k - 1 ==> (#[trigger] arrays@[j]).token_ids().len()
                    == all_records@[j + 1]@.len(),
                forall|j: int| 1 <= j < k ==> (#[trigger] count_ranks@[j]).ranks().len()
                    == all_records@[j]@.len(),
                forall|j: int, i2: int|
                    0 <= j < k && 0 <= i2 < count_ranks@[j].ranks().len() ==> 0 <= #[trigger]
                    count_ranks@[j].ranks()[i2] < cb.spec_seqs()[j].len(),
                forall|j: int| 0 <= j < k - 1 && (#[trigger] arrays@[j]).token_ids().len() > 0
                    ==> arrays@[j].pointers().len() == (if j == 0 {
                    vocab.tokens().len() as int
                } else {
                    all_records@[j]@.len() as int
                }) + 1,
            decreases num_orders - k,
        {
            let (layer, ranks) = match build_layer::<T, V>(
                &vocab,
                &all_records[k - 1],
                &all_records[k],
                &cb,
                k,
            ) {
                Ok(x) => x,
                Err(e) => {
                    proof {
                        if e == LmError::UnknownToken {
                            let curr = all_records@[k as int]@;
                            let i = choose|i: int|
                                0 <= i < curr.len() && (#[trigger] token_index(
                                    vocab.tokens(),
                                    last_token(curr[i]@.0),
                                )) is None;
                            let recsv = curr.map_values(|rec: CountRecord| rec@);
                            assert(recsv == crate::util::spec_records(texts[k as int]).unwrap());
                            assert(recsv[i].0 == curr[i]@.0);
                            assert(token_index(
                                gram_parts(crate::util::spec_records(texts[0]).unwrap()),
                                last_token(
                                    crate::util::spec_records(texts[k as int]).unwrap()[i].0,
                                ),
                            ) is None);
                            assert(has_unknown_token(texts));
                        }
                    }
                    return Err(e);
                },
            };
            let cr = match A::build(ranks) {
                Ok(a) => a,
                Err(e) => {
                    return Err(e);
                },
            };
            proof {
                let recsv = all_records@[k as int]@.map_values(|rec: CountRecord| rec@);
                assert(recsv == crate::util::spec_records(texts[k as int]).unwrap());
                assert(ranks_from_records(cr.ranks(), cb.spec_seqs()[k as int], recsv)) by {
                    assert(cr.ranks() == seq_view(ranks@));
                }
            }
            let ghost old_arrays = arrays@;
            arrays.push(layer);
            count_ranks.push(cr);
            proof {
                assert forall|j: int| #![trigger arrays@[j]] 0 <= j < k implies layer_from_records(
                    arrays@[j],
                    vocab,
                    crate::util::spec_records(texts[j + 1]).unwrap(),
                ) && layer_parents_from_records(
                    arrays@[j],
                    crate::util::spec_records(texts[j]).unwrap(),
                    crate::util::spec_records(texts[j + 1]).unwrap(),
                ) by {
                    if j < k - 1 {
                        assert(arrays@[j] == old_arrays[j]);
                        assert(layer_from_records(
                            old_arrays[j],
                            vocab,
                            crate::util::spec_records(texts[j + 1]).unwrap(),
                        ));
                        assert(layer_parents_from_records(
                            old_arrays[j],
                            crate::util::spec_records(texts[j]).unwrap(),
                            crate::util::spec_records(texts[j + 1]).unwrap(),
                        ));
                    } else {
                        assert(arrays@[j] == layer);
                        assert(all_records@[k as int]@.map_values(|rec: CountRecord| rec@)
                            == crate::util::spec_records(texts[j + 1]).unwrap());
                        assert(all_records@[k - 1]@.map_values(|rec: CountRecord| rec@)
                            == crate::util::spec_records(texts[j]).unwrap());
                    }
                }
            }
            k += 1;
        }
        let ghost cb_lists = cb.spec_counts_lists();
        let ghost cb_seqs = cb.spec_seqs();
        proof {
            cb.lemma_lists_len();
        }
        let counts = cb.release();
        let m = TrieCountLm { vocab, arrays, count_ranks, counts };
        proof {
            assert(m.counts@.len() == cb_lists.len());
            assert(m.counts@.len() == num_orders);
            assert forall|j: int, i2: int|
                0 <= j < m.count_ranks@.len() && 0 <= i2 < m.count_ranks@[j].ranks().len()
                    implies 0 <= #[trigger] m.count_ranks@[j].ranks()[i2]
                < m.counts@[j].counts().len() by {
                assert(m.counts@[j].counts() == cb.spec_counts_lists()[j]);
                assert(cb.spec_counts_lists()[j].len() == cb.spec_seqs()[j].len());
            }
            // The released count lists are the rank dictionaries, so every
            // rank array reads its records' counts back.
            assert forall|j: int| #![trigger m.count_ranks@[j]] 0 <= j < m.count_ranks@.len()
                implies ranks_from_records(
                m.count_ranks@[j].ranks(),
                m.counts@[j].counts(),
                crate::util::spec_records(texts[j]).unwrap(),
            ) by {
                assert(ranks_from_records(
                    m.count_ranks@[j].ranks(),
                    cb.spec_seqs()[j],
                    crate::util::spec_records(texts[j]).unwrap(),
                ));
                assert(m.counts@[j].counts() == cb.spec_seqs()[j]);
            }
        }
        Ok(m)
    }
}

/// Collects the count rank of every record at `order`; every count was eaten
/// at that order, so each rank exists.
fn collect_ranks(cb: &CountsBuilder, recs: &Vec<CountRecord>, order: usize) -> (r: Result<
    Vec<usize>,
    LmError,
>)
    requires
        cb.wf(),
        0 <= order < cb.spec_seqs().len(),
        cb.spec_orders().len() == cb.spec_seqs().len(),
        cb.spec_orders()[order as int] == counts_of(recs@),
        is_rank_seq(cb.spec_seqs()[order as int], cb.spec_orders()[order as int]),
    ensures
        r is Ok,
        r matches Ok(v) ==> v@.len() == recs@.len() && forall|i: int|
            0 <= i < v@.len() ==> 0 <= (#[trigger] v@[i] as int) < cb.spec_seqs()[order as int].len()
                && cb.spec_seqs()[order as int][v@[i] as int] == recs@[i]@.1,
{
    let n = recs.len();
    let mut out: Vec<usize> = Vec::new();
    let mut i: usize = 0;
    while i < n
        invariant
            0 <= i <= n,
            n == recs@.len(),
            cb.wf(),
            0 <= order < cb.spec_seqs().len(),
            cb.spec_orders().len() == cb.spec_seqs().len(),
            cb.spec_orders()[order as int] == counts_of(recs@),
            is_rank_seq(cb.spec_seqs()[order as int], cb.spec_orders()[order as int]),
            out@.len() == i,
            forall|j: int| 0 <= j < i ==> 0 <= (#[trigger] out@[j] as int) < cb.spec_seqs()[
                order as int].len() && cb.spec_seqs()[order as int][out@[j] as int] == recs@[j]@.1,
        decreases n - i,
    {
        let c = recs[i].count();
        proof {
            let eaten = cb.spec_orders()[order as int];
            assert(eaten[i as int] == c as int);
            lemma_member_count_occ(eaten, i as int);
            assert(rank_has(cb.spec_seqs()[order as int], c as int));
        }
        match cb.rank(order, c) {
            Some(rk) => {
                out.push(rk);
            },
            None => {
                proof {
                    let s = cb.spec_seqs()[order as int];
                    let w = choose|w: int| 0 <= w < s.len() && #[trigger] s[w] == c as int;
                    assert(false);
                }
                return Err(LmError::UnsortedInput);
            },
        }
        i += 1;
    }
    Ok(out)
}

/// Builds the layer of order `k + 1`: walks the order-`k` and order-`k + 1`
/// records in lockstep, mapping each record's last token and wiring each
/// parent to its child range.
#[verifier::rlimit(100)]
fn build_layer<T: TrieArray, V: Vocabulary>(
    vocab: &V,
    prev: &Vec<CountRecord>,
    curr: &Vec<CountRecord>,
    cb: &CountsBuilder,
    order: usize,
) -> (r: Result<(T, Vec<usize>), LmError>)
    requires
        vocab.wf(),
        cb.wf(),
        0 <= order < cb.spec_seqs().len(),
        cb.spec_orders().len() == cb.spec_seqs().len(),
        cb.spec_orders()[order as int] == counts_of(curr@),
        is_rank_seq(cb.spec_seqs()[order as int], cb.spec_orders()[order as int]),
    ensures
        r matches Ok((t, ranks)) ==> {
            &&& t.wf()
            &&& t.token_ids().len() == curr@.len()
            &&& ranks@.len() == curr@.len()
            &&& forall|i: int| 0 <= i < ranks@.len() ==> 0 <= (#[trigger] ranks@[i] as int)
                < cb.spec_seqs()[order as int].len()
            &&& curr@.len() > 0 ==> t.pointers().len() == prev@.len() + 1
            &&& layer_from_records(t, *vocab, curr@.map_values(|rec: CountRecord| rec@))
            &&& layer_parents_from_records(
                t,
                prev@.map_values(|rec: CountRecord| rec@),
                curr@.map_values(|rec: CountRecord| rec@),
            )
            &&& ranks_from_records(
                seq_view(ranks@),
                cb.spec_seqs()[order as int],
                curr@.map_values(|rec: CountRecord| rec@),
            )
        },
        r matches Err(e) ==> ({
            ||| (e == LmError::UnknownToken && exists|i: int|
                0 <= i < curr@.len() && (#[trigger] token_index(
                    vocab.tokens(),
                    last_token(curr@[i]@.0),
                )) is None)
            ||| e == LmError::MissingParent
            ||| e == LmError::UnsortedInput
            ||| e == LmError::TooLarge
        }),
{
    let np = prev.len();
    let nc = curr.len();
    if nc > 0 && np == 0 {
        return Err(LmError::MissingParent);
    }
    let mut token_ids: Vec<usize> = Vec::new();
    let mut pointers: Vec<usize> = Vec::new();
    pointers.push(0);
    let mut pointer: usize = 0;
    let mut pi: usize = 0;
    let mut ci: usize = 0;
    let ghost mut parents = Seq::<int>::empty();
    while ci < nc
        invariant
            0 <= ci <= nc,
            0 <= pi,
            nc > 0 ==> pi < np,
            nc == curr@.len(),
            np == prev@.len(),
            nc == 0 ==> pi == 0,
            vocab.wf(),
            token_ids@.len() == ci,
            pointer == ci,
            pointers@.len() == pi + 1,
            forall|i: int| 0 <= i < token_ids@.len() ==> (#[trigger] token_ids@[i] as int)
                < vocab.tokens().len(),
            forall|i: int| 0 <= i < ci ==> token_index(
                vocab.tokens(),
                last_token((#[trigger] curr@[i])@.0),
            ) == Some(token_ids@[i] as int),
            parents.len() == ci,
            forall|j: int| 0 <= j < ci ==> 0 <= #[trigger] parents[j] <= pi as int,
            forall|j: int| 0 <= j < ci ==> prev@[#[trigger] parents[j]]@.0 == gram_prefix(
                curr@[j]@.0,
            ) && last_sep_idx(curr@[j]@.0) >= 0,
            forall|j: int| 0 <= j < ci ==> pointers@[#[trigger] parents[j]] <= j,
            forall|j: int| 0 <= j < ci && #[trigger] parents[j] + 1 < pointers@.len() ==> j
                < pointers@[parents[j] + 1],
            forall|q: int| 0 <= q < pointers@.len() ==> (#[trigger] pointers@[q]) <= ci,
        decreases nc - ci,
    {
        let rec = &curr[ci];
        let g = rec.gram();
        let (pattern, last) = match g.pop_token() {
            Some(x) => x,
            None => {
                // A one-token gram at this order has no parent prefix.
                return Err(LmError::MissingParent);
            },
        };
        // Advance the parent stream until it matches the prefix.
        while !crate::gram::bytes_eq(pattern.raw(), prev[pi].gram().raw())
            invariant
                0 <= pi < np,
                np == prev@.len(),
                pointers@.len() == pi + 1,
                pointer == ci,
                0 <= ci < nc,
                nc == curr@.len(),
                parents.len() == ci,
                forall|j: int| 0 <= j < ci ==> 0 <= #[trigger] parents[j] <= pi as int,
                forall|j: int| 0 <= j < ci ==> pointers@[#[trigger] parents[j]] <= j,
                forall|j: int| 0 <= j < ci && #[trigger] parents[j] + 1 < pointers@.len() ==> j
                    < pointers@[parents[j] + 1],
                forall|q: int| 0 <= q < pointers@.len() ==> (#[trigger] pointers@[q]) <= ci,
            decreases np - pi,
        {
            if pi + 1 == np {
                return Err(LmError::MissingParent);
            }
            pointers.push(pointer);
            pi += 1;
        }
        proof {
            assert(prev@[pi as int]@.0 == pattern@);
            assert(pattern@ == gram_prefix(curr@[ci as int]@.0));
            parents = parents.push(pi as int);
        }
        pointer += 1;
        let token_id = match vocab.get(last) {
            Some(id) => id,
            None => {
                proof {
                    crate::vocabulary::lemma_token_index(vocab.tokens(), last@);
                    assert(last@ == last_token(curr@[ci as int]@.0));
                    assert(token_index(vocab.tokens(), last_token(curr@[ci as int]@.0)) is None);
                }
                return Err(LmError::UnknownToken);
            },
        };
        proof {
            crate::vocabulary::lemma_token_index(vocab.tokens(), last@);
            assert(last@ == last_token(curr@[ci as int]@.0));
        }
        token_ids.push(token_id);
        ci += 1;
    }
    // Close the remaining parents and seal the pointer array.
    while pi + 1 < np
        invariant
            0 <= pi,
            np > 0 ==> pi < np,
            np == 0 ==> pi == 0,
            pointers@.len() == pi + 1,
            pointer == nc,
            nc == curr@.len(),
            np == prev@.len(),
            token_ids@.len() == nc,
            vocab.wf(),
            forall|i: int| 0 <= i < token_ids@.len() ==> (#[trigger] token_ids@[i] as int)
                < vocab.tokens().len(),
            forall|i: int| 0 <= i < nc ==> token_index(
                vocab.tokens(),
                last_token((#[trigger] curr@[i])@.0),
            ) == Some(token_ids@[i] as int),
            parents.len() == nc,
            forall|j: int| 0 <= j < nc ==> 0 <= #[trigger] parents[j] <= pi as int,
            forall|j: int| 0 <= j < nc ==> prev@[#[trigger] parents[j]]@.0 == gram_prefix(
                curr@[j]@.0,
            ) && last_sep_idx(curr@[j]@.0) >= 0,
            forall|j: int| 0 <= j < nc ==> pointers@[#[trigger] parents[j]] <= j,
            forall|j: int| 0 <= j < nc && #[trigger] parents[j] + 1 < pointers@.len() ==> j
                < pointers@[parents[j] + 1],
            forall|q: int| 0 <= q < pointers@.len() ==> (#[trigger] pointers@[q]) <= nc,
        decreases np - pi,
    {
        pointers.push(pointer);
        pi += 1;
    }
    let ghost parents_final = parents;
    pointers.push(pointer);
    proof {
        assert forall|j: int| 0 <= j < nc implies {
            &&& 0 <= parents_final[j] < np as int
            &&& pointers@[parents_final[j]] <= j
            &&& j < pointers@[parents_final[j] + 1]
        } by {
            assert(parents_final[j] <= pi as int);
            assert(pointers@.len() == pi + 2);
            if parents_final[j] + 1 < pointers@.len() - 1 {
            } else {
                assert(pointers@[parents_final[j] + 1] == pointer as int);
            }
        }
    }
    // The canonical order demands a well-formed layer; anything else is
    // unsorted input.
    if !check_layer(&token_ids, &pointers) {
        return Err(LmError::UnsortedInput);
    }
    let ranks = match collect_ranks(cb, curr, order) {
        Ok(v) => v,
        Err(e) => {
            return Err(e);
        },
    };
    let layer = match T::build(token_ids, pointers) {
        Ok(t) => t,
        Err(e) => {
            return Err(e);
        },
    };
    proof {
        let recs = curr@.map_values(|rec: CountRecord| rec@);
        let prevs = prev@.map_values(|rec: CountRecord| rec@);
        assert forall|i: int| 0 <= i < recs.len() implies token_index(
            vocab.tokens(),
            last_token((#[trigger] recs[i]).0),
        ) == Some(layer.token_ids()[i]) by {
            assert(recs[i].0 == curr@[i]@.0);
            assert(layer.token_ids()[i] == token_ids@[i] as int);
        }
        assert forall|i: int| 0 <= i < recs.len() implies #[trigger] parent_covers(
            layer,
            prevs,
            recs,
            i,
        ) by {
            let p = parents_final[i];
            assert(curr@.len() > 0);
            assert(last_sep_idx(curr@[i]@.0) >= 0);
            assert(last_sep_idx(recs[i].0) >= 0);
            assert(0 <= p < prevs.len());
            assert(prev@[p]@.0 == gram_prefix(curr@[i]@.0));
            assert(prevs[p].0 == prev@[p]@.0);
            assert(recs[i].0 == curr@[i]@.0);
            assert(prevs[p].0 == gram_prefix(recs[i].0));
            assert(layer.pointers() == seq_view(pointers@));
            assert(layer.pointers()[p] == pointers@[p] as int);
            assert(layer.pointers()[p + 1] == pointers@[p + 1] as int);
            assert(pointers@[p] <= i);
            assert(i < pointers@[p + 1]);
        }
        assert forall|i: int| 0 <= i < recs.len() implies 0 <= seq_view(ranks@)[i] < cb.spec_seqs()[
            order as int].len() && cb.spec_seqs()[order as int][seq_view(ranks@)[i]] == (
        #[trigger] recs[i]).1 by {
            assert(seq_view(ranks@)[i] == ranks@[i] as int);
            assert(recs[i].1 == curr@[i]@.1);
        }
    }
    Ok((layer, ranks))
}

} // verus!
