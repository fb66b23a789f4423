//! Trie layers: for one order, the token identifiers of every gram and the
//! pointer array mapping each parent position to its half-open child range.

pub mod builder;

use vstd::prelude::*;

use crate::error::LmError;
use crate::sequence_collection::seq_view;
use crate::specs::{count_below, monotone};
use crate::succinct::{ef_build, ef_has_rank, ef_len, ef_rank, ef_select, ef_seq};

verus! {

/// A well-formed layer: pointers start at zero, never decrease, and end at
/// the token count; within each parent's range the token identifiers rise
/// strictly.
pub open spec fn layer_wf(token_ids: Seq<int>, pointers: Seq<int>) -> bool {
    &&& pointers.len() >= 1
    &&& pointers[0] == 0
    &&& monotone(pointers)
    &&& pointers.last() == token_ids.len()
    &&& forall|i: int| 0 <= i < token_ids.len() ==> 0 <= #[trigger] token_ids[i]
    &&& forall|p: int, a: int|
        0 <= p < pointers.len() - 1 && pointers[p] <= a && a + 1 < pointers[p + 1]
            ==> #[trigger] range_step(token_ids, p, a)
}

/// Adjacent token identifiers inside parent `p`'s range rise strictly.
pub open spec fn range_step(token_ids: Seq<int>, p: int, a: int) -> bool {
    token_ids[a] < token_ids[a + 1]
}

/// The parent position of layer slot `i`: the last pointer entry at or below
/// `i`.
pub open spec fn spec_parent(pointers: Seq<int>, i: int) -> int {
    count_below(pointers, i + 1) - 1
}

/// Where `count_below` splits a sorted sequence: everything before is below
/// `v`, everything after is not.
pub proof fn lemma_count_below_split(s: Seq<int>, v: int)
    requires
        monotone(s),
    ensures
        0 <= count_below(s, v) <= s.len(),
        forall|j: int| 0 <= j < count_below(s, v) ==> #[trigger] s[j] < v,
        forall|j: int| count_below(s, v) <= j < s.len() ==> #[trigger] s[j] >= v,
    decreases s.len(),
{
    if s.len() > 0 {
        let t = s.drop_last();
        assert(monotone(t));
        lemma_count_below_split(t, v);
        if s.last() < v {
            assert forall|j: int| 0 <= j < s.len() - 1 implies #[trigger] s[j] < v by {
                if j < count_below(t, v) {
                    assert(t[j] < v);
                } else {
                    assert(s[j] <= s[s.len() - 1]);
                }
            }
            assert(count_below(s, v) == count_below(t, v) + 1);
            assert(count_below(t, v) == t.len()) by {
                if count_below(t, v) < t.len() {
                    assert(t[count_below(t, v)] >= v);
                    assert(s[count_below(t, v)] < v);
                }
            }
        } else {
            assert forall|j: int| 0 <= j < count_below(s, v) implies #[trigger] s[j] < v by {
                assert(t[j] < v);
            }
            assert forall|j: int| count_below(s, v) <= j < s.len() implies #[trigger] s[j] >= v by {
                if j < s.len() - 1 {
                    assert(t[j] >= v);
                }
            }
        }
    }
}

/// Every layer slot has a parent whose range holds it.
pub proof fn lemma_parent_range(pointers: Seq<int>, i: int)
    requires
        pointers.len() >= 1,
        pointers[0] == 0,
        monotone(pointers),
        0 <= i < pointers.last(),
    ensures
        ({
            let p = spec_parent(pointers, i);
            &&& 0 <= p < pointers.len() - 1
            &&& pointers[p] <= i
            &&& i < pointers[p + 1]
        }),
{
    lemma_count_below_split(pointers, i + 1);
    let c = count_below(pointers, i + 1);
    assert(c >= 1) by {
        if c == 0 {
            assert(pointers[0] >= i + 1);
        }
    }
    assert(c <= pointers.len() - 1) by {
        if c == pointers.len() {
            assert(pointers[pointers.len() - 1] < i + 1);
        }
    }
    assert(pointers[c - 1] < i + 1);
    assert(pointers[c] >= i + 1);
}

/// A slot inside parent `p`'s range has `p` as its parent.
pub proof fn lemma_parent_unique(pointers: Seq<int>, p: int, i: int)
    requires
        pointers.len() >= 1,
        pointers[0] == 0,
        monotone(pointers),
        0 <= p < pointers.len() - 1,
        pointers[p] <= i < pointers[p + 1],
        0 <= i < pointers.last(),
    ensures
        spec_parent(pointers, i) == p,
{
    lemma_parent_range(pointers, i);
    let q = spec_parent(pointers, i);
    if q < p {
        assert(pointers[q + 1] <= pointers[p]);
    }
    if q > p {
        assert(pointers[p + 1] <= pointers[q]);
    }
}

/// The prefixed value stored at slot `i`: the token identifier plus the
/// running base, which is the previous stored value at the parent's start.
pub open spec fn pref_at(token_ids: Seq<int>, pointers: Seq<int>, i: int) -> int
    decreases i,
    when 0 <= i < token_ids.len() && layer_wf(token_ids, pointers)
    via pref_at_dec
{
    let b = pointers[spec_parent(pointers, i)];
    token_ids[i] + if b <= 0 {
        0
    } else {
        pref_at(token_ids, pointers, b - 1)
    }
}

#[via_fn]
proof fn pref_at_dec(token_ids: Seq<int>, pointers: Seq<int>, i: int) {
    lemma_parent_range(pointers, i);
}

/// `pref_at` recurses downward: the parent's start is at or below `i`.
pub proof fn lemma_pref_at_unfold(token_ids: Seq<int>, pointers: Seq<int>, i: int)
    requires
        layer_wf(token_ids, pointers),
        0 <= i < token_ids.len(),
    ensures
        ({
            let p = spec_parent(pointers, i);
            let b = pointers[p];
            &&& 0 <= p < pointers.len() - 1
            &&& 0 <= b <= i < pointers[p + 1]
            &&& pref_at(token_ids, pointers, i) == token_ids[i] + if b == 0 {
                0
            } else {
                pref_at(token_ids, pointers, b - 1)
            }
        }),
{
    lemma_parent_range(pointers, i);
    assert(pointers[0] <= pointers[spec_parent(pointers, i)]);
}

/// Whether the Elias-Fano form can hold the layer: every prefixed value and
/// both lengths stay inside the machine bounds the encoder needs.
pub open spec fn ef_layer_fits(toks: Seq<int>, ptrs: Seq<int>) -> bool {
    toks.len() == 0 || {
        &&& forall|a: int| 0 <= a < toks.len() ==> #[trigger] pref_at(toks, ptrs, a) < (
        usize::MAX / 8) as int
        &&& toks.len() < usize::MAX / 4
        &&& ptrs.len() <= usize::MAX / 4
    }
}

/// Trait for a data structure holding one trie layer.
pub trait TrieArray: Sized {
    /// The token identifier stored at each layer slot.
    spec fn token_ids(&self) -> Seq<int>;

    /// The pointer array: parent `p`'s children sit in
    /// `pointers()[p] .. pointers()[p + 1]`.
    spec fn pointers(&self) -> Seq<int>;

    spec fn wf(&self) -> bool;

    /// On which layers `build` succeeds.
    spec fn build_ok(token_ids: Seq<int>, pointers: Seq<int>) -> bool;

    /// Builds a layer from its token identifiers and pointers.
    fn build(token_ids: Vec<usize>, pointers: Vec<usize>) -> (r: Result<Self, LmError>)
        requires
            crate::trie_count_lm::builder::layer_ok(seq_view(token_ids@), seq_view(pointers@)),
        ensures
            r is Ok <==> Self::build_ok(seq_view(token_ids@), seq_view(pointers@)),
            r matches Ok(t) ==> {
                &&& t.wf()
                &&& t.token_ids() == seq_view(token_ids@)
                &&& (token_ids@.len() > 0 ==> t.pointers() == seq_view(pointers@))
                &&& (token_ids@.len() == 0 ==> t.pointers().len() == 0 || t.pointers()
                    == seq_view(pointers@))
            },
            r matches Err(e) ==> e == LmError::TooLarge,
    ;

    /// Gets the token identifier at layer slot `i`.
    fn token_id(&self, i: usize) -> (r: usize)
        requires
            self.wf(),
            0 <= i < self.token_ids().len(),
        ensures
            r as int == self.token_ids()[i as int],
    ;

    /// Gets the child range `pointers()[pos] .. pointers()[pos + 1]`.
    fn range(&self, pos: usize) -> (r: (usize, usize))
        requires
            self.wf(),
            0 <= pos,
            pos + 1 < self.pointers().len(),
        ensures
            r.0 as int == self.pointers()[pos as int],
            r.1 as int == self.pointers()[pos as int + 1],
    ;

    /// Finds the slot of token `id` within parent `pos`'s range.
    fn find_token(&self, pos: usize, id: usize) -> (r: Option<usize>)
        requires
            self.wf(),
            0 <= pos,
            pos + 1 < self.pointers().len(),
        ensures
            match r {
                Some(i) => self.pointers()[pos as int] <= i as int
                    && (i as int) < self.pointers()[pos as int + 1] && self.token_ids()[i as int]
                    == id as int,
                None => forall|a: int|
                    self.pointers()[pos as int] <= a < self.pointers()[pos as int + 1]
                        ==> #[trigger] self.token_ids()[a] != id as int,
            },
    ;

    /// Gets the number of stored token identifiers.
    fn num_tokens(&self) -> (r: usize)
        requires
            self.wf(),
        ensures
            r as int == self.token_ids().len(),
    ;

    /// Gets the number of stored pointers.
    fn num_pointers(&self) -> (r: usize)
        requires
            self.wf(),
        ensures
            r as int == self.pointers().len(),
    ;

    /// The pointer value at position `j`.
    fn pointer_at(&self, j: usize) -> (r: usize)
        requires
            self.wf(),
            0 <= j < self.pointers().len(),
        ensures
            r as int == self.pointers()[j as int],
    ;

    /// A well-formed non-empty layer meets the layer invariant.
    proof fn lemma_wf(&self)
        requires
            self.wf(),
        ensures
            self.token_ids().len() > 0 ==> layer_wf(self.token_ids(), self.pointers()),
    ;
}

/// The pointer array of a built layer never decreases, starts at zero and
/// ends at the token count.
pub proof fn lemma_layer_pointers<T: TrieArray>(t: &T)
    requires
        t.wf(),
        t.token_ids().len() > 0,
    ensures
        monotone(t.pointers()),
        t.pointers().len() >= 1,
        t.pointers()[0] == 0,
        t.pointers().last() == t.token_ids().len(),
{
    t.lemma_wf();
}

/// Within any parent's child range, the decoded tokens rise strictly.
pub proof fn lemma_layer_strict<T: TrieArray>(t: &T, p: int, a: int, b: int)
    requires
        t.wf(),
        t.token_ids().len() > 0,
        0 <= p < t.pointers().len() - 1,
        t.pointers()[p] <= a < b < t.pointers()[p + 1],
    ensures
        t.token_ids()[a] < t.token_ids()[b],
{
    t.lemma_wf();
    lemma_range_pairwise(t.token_ids(), t.pointers(), p, a, b);
}

/// Distinct slots of one parent's range hold strictly rising tokens.
pub proof fn lemma_range_pairwise(toks: Seq<int>, ptrs: Seq<int>, p: int, i: int, j: int)
    requires
        layer_wf(toks, ptrs),
        0 <= p < ptrs.len() - 1,
        ptrs[p] <= i < j < ptrs[p + 1],
    ensures
        toks[i] < toks[j],
{
    assert(ptrs[p + 1] <= ptrs[ptrs.len() - 1]);
    assert(range_step(toks, p, i));
    lemma_range_ascend(toks, ptrs, p, i + 1, j);
}

/// Simple implementation of [`TrieArray`] with plain vectors.
pub struct SimpleTrieArray {
    token_ids: Vec<usize>,
    pointers: Vec<usize>,
}

impl TrieArray for SimpleTrieArray {
    closed spec fn token_ids(&self) -> Seq<int> {
        seq_view(self.token_ids@)
    }

    closed spec fn pointers(&self) -> Seq<int> {
        seq_view(self.pointers@)
    }

    closed spec fn wf(&self) -> bool {
        layer_wf(self.token_ids(), self.pointers())
    }

    open spec fn build_ok(token_ids: Seq<int>, pointers: Seq<int>) -> bool {
        true
    }

    fn build(token_ids: Vec<usize>, pointers: Vec<usize>) -> (r: Result<Self, LmError>) {
        Ok(Self { token_ids, pointers })
    }

    fn token_id(&self, i: usize) -> (r: usize) {
        self.token_ids[i]
    }

    fn range(&self, pos: usize) -> (r: (usize, usize)) {
        // Binding the length keeps the position arithmetic in machine range.
        let m = self.pointers.len();
        (self.pointers[pos], self.pointers[pos + 1])
    }

    fn find_token(&self, pos: usize, id: usize) -> (r: Option<usize>) {
        // Binding the length keeps the position arithmetic in machine range.
        let m = self.pointers.len();
        let b = self.pointers[pos];
        let e = self.pointers[pos + 1];
        proof {
            assert(self.pointers()[pos as int] <= self.pointers()[pos as int + 1]);
            assert(self.pointers()[pos as int + 1] <= self.pointers()[self.pointers().len() - 1]);
        }
        let mut a: usize = b;
        while a < e
            invariant
                b <= a <= e,
                e as int <= self.token_ids().len(),
                e as int == self.pointers()[pos as int + 1],
                b as int == self.pointers()[pos as int],
                self.token_ids() == seq_view(self.token_ids@),
                forall|x: int| b <= x < a ==> #[trigger] self.token_ids()[x] != id as int,
            decreases e - a,
        {
            if self.token_ids[a] == id {
                return Some(a);
            }
            a += 1;
        }
        None
    }

    fn num_tokens(&self) -> (r: usize) {
        self.token_ids.len()
    }

    fn num_pointers(&self) -> (r: usize) {
        self.pointers.len()
    }

    fn pointer_at(&self, j: usize) -> (r: usize) {
        self.pointers[j]
    }

    proof fn lemma_wf(&self) {
    }
}

/// Space-efficient implementation of [`TrieArray`]: the prefixed token
/// sequence and the pointers, both in Elias-Fano form. An empty layer stores
/// nothing.
pub struct EliasFanoTrieArray {
    token_ids: Option<sucds::EliasFano>,
    pointers: Option<sucds::EliasFano>,
    orig: Ghost<(Seq<int>, Seq<int>)>,
}

impl TrieArray for EliasFanoTrieArray {
    closed spec fn token_ids(&self) -> Seq<int> {
        self.orig@.0
    }

    closed spec fn pointers(&self) -> Seq<int> {
        self.orig@.1
    }

    closed spec fn wf(&self) -> bool {
        match (self.token_ids, self.pointers) {
            (Option::None, Option::None) => self.orig@.0.len() == 0 && self.orig@.1.len() == 0,
            (Option::Some(te), Option::Some(pe)) => {
                let toks = self.orig@.0;
                let ptrs = self.orig@.1;
                &&& layer_wf(toks, ptrs)
                &&& toks.len() > 0
                &&& ef_seq(te) == Seq::new(toks.len(), |i: int| pref_at(toks, ptrs, i))
                &&& monotone(ef_seq(te))
                &&& ef_seq(pe) == ptrs
                &&& ef_has_rank(pe)
                &&& monotone(ptrs)
            },
            _ => false,
        }
    }

    open spec fn build_ok(token_ids: Seq<int>, pointers: Seq<int>) -> bool {
        ef_layer_fits(token_ids, pointers)
    }

    fn build(token_ids: Vec<usize>, pointers: Vec<usize>) -> (r: Result<Self, LmError>) {
        let ghost toks = seq_view(token_ids@);
        let ghost ptrs = seq_view(pointers@);
        proof {
            assert forall|i: int| 0 <= i < token_ids@.len() implies (
            #[trigger] token_ids@[i] as int) < 0x8000_0000 by {
                assert(toks[i] < 0x8000_0000);
            }
        }
        if token_ids.len() == 0 {
            let r = Self {
                token_ids: None,
                pointers: None,
                orig: Ghost((Seq::empty(), Seq::empty())),
            };
            proof {
                assert(r.token_ids() =~= seq_view(token_ids@));
            }
            return Ok(r);
        }
        let n = token_ids.len();
        let m = pointers.len();
        // Add the running per-parent base so that the sequence never falls.
        let mut pref: Vec<usize> = Vec::new();
        let mut base: usize = 0;
        let mut p: usize = 0;
        while p < m - 1
            invariant
                0 <= p <= m - 1,
                n == token_ids@.len(),
                m == pointers@.len(),
                toks == seq_view(token_ids@),
                ptrs == seq_view(pointers@),
                layer_wf(toks, ptrs),
                forall|i: int| 0 <= i < n ==> (#[trigger] token_ids@[i] as int) < 0x8000_0000,
                pref@.len() == ptrs[p as int],
                forall|i: int| 0 <= i < pref@.len() ==> (#[trigger] pref@[i] as int) == pref_at(
                    toks,
                    ptrs,
                    i,
                ),
                base as int == if ptrs[p as int] == 0 {
                    0int
                } else {
                    pref_at(toks, ptrs, ptrs[p as int] - 1)
                },
                base <= usize::MAX / 8,
                forall|i: int, j: int| 0 <= i <= j < pref@.len() ==> (#[trigger] pref@[i] as int)
                    <= (#[trigger] pref@[j] as int),
                forall|i: int| 0 <= i < pref@.len() ==> (#[trigger] pref@[i]) < usize::MAX / 8,
            decreases m - 1 - p,
        {
            let b = pointers[p];
            let e = pointers[p + 1];
            proof {
                assert(ptrs[p as int] <= ptrs[p as int + 1]);
                assert(ptrs[p as int + 1] <= ptrs[m - 1]) by {
                    assert(monotone(ptrs));
                }
            }
            let mut a: usize = b;
            while a < e
                invariant
                    b <= a <= e,
                    0 <= p < m - 1,
                    n == token_ids@.len(),
                    m == pointers@.len(),
                    toks == seq_view(token_ids@),
                    ptrs == seq_view(pointers@),
                    layer_wf(toks, ptrs),
                    forall|i: int| 0 <= i < n ==> (#[trigger] token_ids@[i] as int) < 0x8000_0000,
                    b as int == ptrs[p as int],
                    e as int == ptrs[p as int + 1],
                    e <= n,
                    pref@.len() == a,
                    forall|i: int| 0 <= i < pref@.len() ==> (#[trigger] pref@[i] as int) == pref_at(
                        toks,
                        ptrs,
                        i,
                    ),
                    base as int == if ptrs[p as int] == 0 {
                        0int
                    } else {
                        pref_at(toks, ptrs, ptrs[p as int] - 1)
                    },
                    base <= usize::MAX / 8,
                    forall|i: int, j: int| 0 <= i <= j < pref@.len() ==> (
                    #[trigger] pref@[i] as int) <= (#[trigger] pref@[j] as int),
                    forall|i: int| 0 <= i < pref@.len() ==> (#[trigger] pref@[i]) < usize::MAX / 8,
                decreases e - a,
            {
                let t = token_ids[a];
                proof {
                    assert(a < ptrs.last()) by {
                        assert(ptrs[p as int + 1] <= ptrs[m - 1]);
                    }
                    lemma_parent_unique(ptrs, p as int, a as int);
                    lemma_pref_at_unfold(toks, ptrs, a as int);
                    assert(pref_at(toks, ptrs, a as int) == base as int + t as int);
                }
                if t >= usize::MAX / 8 - base {
                    // This slot's prefixed value overruns the encoder bound.
                    proof {
                        assert(pref_at(toks, ptrs, a as int) >= (usize::MAX / 8) as int);
                        assert(!ef_layer_fits(toks, ptrs));
                    }
                    return Err(LmError::TooLarge);
                }
                let v = base + t;
                proof {
                    assert(v as int == pref_at(toks, ptrs, a as int));
                    // The new value extends the non-decreasing prefix.
                    if a > 0 {
                        assert(pref@[a - 1] as int <= v as int) by {
                            if a as int == ptrs[p as int] {
                                assert(base as int == pref_at(toks, ptrs, a - 1));
                                assert(pref@[a - 1] as int == pref_at(toks, ptrs, a - 1));
                            } else {
                                lemma_parent_unique(ptrs, p as int, a - 1);
                                lemma_pref_at_unfold(toks, ptrs, a - 1);
                                assert(range_step(toks, p as int, a - 1));
                                assert(toks[a - 1] < toks[a as int]);
                                assert(pref@[a - 1] as int == pref_at(toks, ptrs, a - 1));
                            }
                        }
                    }
                }
                pref.push(v);
                a += 1;
            }
            proof {
                assert(pref@.len() == ptrs[p as int + 1]);
            }
            if e > 0 {
                base = pref[e - 1];
            }
            p += 1;
        }
        proof {
            assert(pref@.len() == ptrs[m - 1]);
            assert(ptrs[m - 1] == toks.len());
            assert(pref@.len() == n);
        }
        // Freeze both sequences in Elias-Fano form.
        if n > usize::MAX / 4 || m > usize::MAX / 4 {
            proof {
                assert(!ef_layer_fits(toks, ptrs));
            }
            return Err(LmError::TooLarge);
        }
        let last = pref[n - 1];
        let plast = pointers[m - 1];
        if plast >= usize::MAX / 4 {
            proof {
                assert(ptrs[m - 1] == toks.len());
                assert(!ef_layer_fits(toks, ptrs));
            }
            return Err(LmError::TooLarge);
        }
        proof {
            assert(ef_layer_fits(toks, ptrs)) by {
                assert forall|a2: int| 0 <= a2 < toks.len() implies #[trigger] pref_at(
                    toks,
                    ptrs,
                    a2,
                ) < (usize::MAX / 8) as int by {
                    assert(pref@[a2] as int == pref_at(toks, ptrs, a2));
                    assert(pref@[a2] < usize::MAX / 8);
                }
                assert(ptrs[m - 1] == toks.len());
            }
        }
        proof {
            assert forall|i: int| 0 <= i < pref@.len() implies (#[trigger] pref@[i] as int)
                <= last as int by {
                assert(pref@[i] as int <= pref@[n - 1] as int);
            }
            assert forall|i: int, j: int| 0 <= i <= j < seq_view(pref@).len() implies
                #[trigger] seq_view(pref@)[i] <= #[trigger] seq_view(pref@)[j] by {
                assert(pref@[i] as int <= pref@[j] as int);
            }
            assert forall|i: int, j: int| 0 <= i <= j < seq_view(pointers@).len() implies
                #[trigger] seq_view(pointers@)[i] <= #[trigger] seq_view(pointers@)[j] by {
                assert(ptrs[i] <= ptrs[j]);
            }
            assert forall|i: int| 0 <= i < pointers@.len() implies (#[trigger] pointers@[i] as int)
                <= plast as int by {
                assert(ptrs[i] <= ptrs[m - 1]);
            }
        }
        let te = ef_build(&pref, last + 1, false);
        let pe = ef_build(&pointers, plast + 1, true);
        let r = Self { token_ids: Some(te), pointers: Some(pe), orig: Ghost((toks, ptrs)) };
        proof {
            assert(ef_seq(te) =~= Seq::new(toks.len(), |i: int| pref_at(toks, ptrs, i)));
            assert(ef_seq(pe) =~= ptrs);
            assert(monotone(ef_seq(te)));
        }
        Ok(r)
    }

    fn token_id(&self, i: usize) -> (r: usize) {
        let te = self.token_ids.as_ref().unwrap();
        let pe = self.pointers.as_ref().unwrap();
        let ghost toks = self.orig@.0;
        let ghost ptrs = self.orig@.1;
        // Binding the length keeps the position arithmetic in machine range.
        let nt = ef_len(te);
        proof {
            lemma_parent_range(ptrs, i as int);
            lemma_pref_at_unfold(toks, ptrs, i as int);
        }
        let pos = ef_rank(pe, i + 1) - 1;
        let b = ef_select(pe, pos);
        let base = if b == 0 {
            0
        } else {
            proof {
                lemma_pref_at_unfold(toks, ptrs, b - 1);
                assert(pref_at(toks, ptrs, b - 1) <= pref_at(toks, ptrs, i as int)) by {
                    assert(monotone(ef_seq(*te)));
                    assert(ef_seq(*te)[b - 1] <= ef_seq(*te)[i as int]);
                }
            }
            ef_select(te, b - 1)
        };
        let v = ef_select(te, i);
        v - base
    }

    fn range(&self, pos: usize) -> (r: (usize, usize)) {
        let pe = self.pointers.as_ref().unwrap();
        // Binding the length keeps the position arithmetic in machine range.
        let np = ef_len(pe);
        (ef_select(pe, pos), ef_select(pe, pos + 1))
    }

    fn find_token(&self, pos: usize, id: usize) -> (r: Option<usize>) {
        let te = self.token_ids.as_ref().unwrap();
        let pe = self.pointers.as_ref().unwrap();
        let ghost toks = self.orig@.0;
        let ghost ptrs = self.orig@.1;
        // Binding the length keeps the position arithmetic in machine range.
        let np = ef_len(pe);
        let b = ef_select(pe, pos);
        let e = ef_select(pe, pos + 1);
        proof {
            assert(ptrs[pos as int] <= ptrs[pos as int + 1] && ptrs[pos as int + 1] <= ptrs[
                ptrs.len() - 1]) by {
                assert(monotone(ptrs));
            }
        }
        if b >= e {
            proof {
                assert forall|a: int| ptrs[pos as int] <= a < ptrs[pos as int + 1] implies
                    #[trigger] toks[a] != id as int by {}
            }
            return None;
        }
        let base = if b == 0 {
            0
        } else {
            proof {
                lemma_pref_at_unfold(toks, ptrs, b - 1);
            }
            ef_select(te, b - 1)
        };
        let mut a: usize = b;
        while a < e
            invariant
                b <= a <= e,
                self.wf(),
                toks == self.orig@.0,
                ptrs == self.orig@.1,
                self.token_ids == Some(*te),
                0 <= pos,
                pos + 1 < ptrs.len(),
                b as int == ptrs[pos as int],
                e as int == ptrs[pos as int + 1],
                e as int <= toks.len(),
                base as int == if b == 0 {
                    0int
                } else {
                    pref_at(toks, ptrs, b - 1)
                },
                forall|x: int| b <= x < a ==> #[trigger] toks[x] != id as int,
            decreases e - a,
        {
            proof {
                assert(spec_parent(ptrs, a as int) == pos) by {
                    lemma_parent_range(ptrs, a as int);
                    let q = spec_parent(ptrs, a as int);
                    if q < pos {
                        assert(ptrs[q + 1] <= ptrs[pos as int]) by {
                            assert(monotone(ptrs));
                        }
                    }
                    if q > pos {
                        assert(ptrs[pos as int + 1] <= ptrs[q]) by {
                            assert(monotone(ptrs));
                        }
                    }
                }
                lemma_pref_at_unfold(toks, ptrs, a as int);
                if b > 0 {
                    assert(pref_at(toks, ptrs, b - 1) <= pref_at(toks, ptrs, a as int)) by {
                        assert(monotone(ef_seq(*te)));
                        assert(ef_seq(*te)[b - 1] <= ef_seq(*te)[a as int]);
                    }
                }
            }
            let v = ef_select(te, a);
            let token = v - base;
            proof {
                assert(token as int == toks[a as int]);
            }
            if token == id {
                return Some(a);
            }
            if token > id {
                // Tokens rise strictly inside the range: nothing later fits.
                proof {
                    assert forall|x: int| b <= x < e implies #[trigger] toks[x] != id as int by {
                        if x < a {
                        } else {
                            lemma_range_ascend(toks, ptrs, pos as int, a as int, x);
                        }
                    }
                }
                return None;
            }
            a += 1;
        }
        None
    }

    fn num_tokens(&self) -> (r: usize) {
        match &self.token_ids {
            Some(te) => ef_len(te),
            None => 0,
        }
    }

    fn num_pointers(&self) -> (r: usize) {
        match &self.pointers {
            Some(pe) => ef_len(pe),
            None => 0,
        }
    }

    fn pointer_at(&self, j: usize) -> (r: usize) {
        match &self.pointers {
            Some(pe) => ef_select(pe, j),
            None => 0,
        }
    }

    proof fn lemma_wf(&self) {
    }
}

/// Inside one parent's range, later tokens are at least as large as the
/// strict ascent from `a` demands.
proof fn lemma_range_ascend(toks: Seq<int>, ptrs: Seq<int>, p: int, a: int, x: int)
    requires
        layer_wf(toks, ptrs),
        0 <= p < ptrs.len() - 1,
        ptrs[p] <= a <= x,
        x < ptrs[p + 1],
        ptrs[p + 1] <= toks.len(),
    ensures
        toks[a] <= toks[x],
    decreases x - a,
{
    if a < x {
        lemma_range_ascend(toks, ptrs, p, a + 1, x);
        assert(range_step(toks, p, a));
    }
}

} // verus!
