//! Count-rank dictionaries: per-order sequences of the distinct count values,
//! sorted by descending frequency of the value with ties broken by ascending
//! value. A value's rank is its index in that sequence.

use vstd::prelude::*;

verus! {

/// How many times `v` occurs in `s`.
pub open spec fn count_occ(s: Seq<int>, v: int) -> int
    decreases s.len(),
{
    if s.len() == 0 {
        0
    } else {
        count_occ(s.drop_last(), v) + if s.last() == v {
            1int
        } else {
            0int
        }
    }
}

pub proof fn lemma_count_occ_push(s: Seq<int>, x: int, v: int)
    ensures
        count_occ(s.push(x), v) == count_occ(s, v) + if x == v {
            1int
        } else {
            0int
        },
{
    assert(s.push(x).drop_last() =~= s);
}

pub proof fn lemma_count_occ_nonneg(s: Seq<int>, v: int)
    ensures
        0 <= count_occ(s, v) <= s.len(),
    decreases s.len(),
{
    if s.len() > 0 {
        lemma_count_occ_nonneg(s.drop_last(), v);
    }
}

/// A member of the list has a positive occurrence count.
pub proof fn lemma_member_count_occ(s: Seq<int>, i: int)
    requires
        0 <= i < s.len(),
    ensures
        count_occ(s, s[i]) > 0,
    decreases s.len(),
{
    if i < s.len() - 1 {
        lemma_member_count_occ(s.drop_last(), i);
        lemma_count_occ_nonneg(s.drop_last(), s[i]);
    } else {
        lemma_count_occ_nonneg(s.drop_last(), s[i]);
    }
}

/// `v1` ranks before `v2` under the eaten values: it is more frequent, or as
/// frequent and smaller.
pub open spec fn rank_before(eaten: Seq<int>, v1: int, v2: int) -> bool {
    ||| count_occ(eaten, v1) > count_occ(eaten, v2)
    ||| (count_occ(eaten, v1) == count_occ(eaten, v2) && v1 < v2)
}

/// The rank sequence holds value `v` somewhere.
pub open spec fn rank_has(s: Seq<int>, v: int) -> bool {
    exists|i: int| 0 <= i < s.len() && #[trigger] s[i] == v
}

/// `s` is the rank sequence of the eaten values: strictly ordered by
/// `rank_before` and holding exactly the values that occur.
pub open spec fn is_rank_seq(s: Seq<int>, eaten: Seq<int>) -> bool {
    &&& forall|i: int, j: int| 0 <= i < j < s.len() ==> rank_before(eaten, s[i], s[j])
    &&& forall|i: int| 0 <= i < s.len() ==> count_occ(eaten, #[trigger] s[i]) > 0
    &&& forall|v: int| #![trigger rank_has(s, v)] count_occ(eaten, v) > 0 ==> rank_has(s, v)
}

/// The distinct values in a rank sequence are pairwise different.
pub proof fn lemma_rank_seq_distinct(s: Seq<int>, eaten: Seq<int>, i: int, j: int)
    requires
        is_rank_seq(s, eaten),
        0 <= i < j < s.len(),
    ensures
        s[i] != s[j],
{
    assert(rank_before(eaten, s[i], s[j]));
}

/// Rank consistency: every count value that occurred at an order has exactly
/// one rank, and the value read back at that rank is the count itself.
pub proof fn lemma_rank_roundtrip(s: Seq<int>, eaten: Seq<int>, c: int)
    requires
        is_rank_seq(s, eaten),
        count_occ(eaten, c) > 0,
    ensures
        rank_has(s, c),
        forall|i: int, j: int| 0 <= i < j < s.len() && s[i] == c ==> s[j] != c,
{
    assert(rank_has(s, c));
    assert forall|i: int, j: int| 0 <= i < j < s.len() && s[i] == c implies s[j] != c by {
        lemma_rank_seq_distinct(s, eaten, i, j);
    }
}

/// The integer view of a machine-word vector.
pub open spec fn seq_view(v: Seq<usize>) -> Seq<int> {
    v.map_values(|x: usize| x as int)
}

/// The table holds an entry for value `v`.
pub open spec fn in_table(tab: Seq<(usize, usize)>, v: int) -> bool {
    exists|j: int| 0 <= j < tab.len() && (#[trigger] tab[j]).0 as int == v
}

/// A frequency table for the values eaten so far: distinct values, each with
/// its exact occurrence count, covering every eaten value.
pub open spec fn table_ok(tab: Seq<(usize, usize)>, eaten: Seq<int>) -> bool {
    &&& forall|j: int| 0 <= j < tab.len() ==> (#[trigger] tab[j]).1 as int == count_occ(
        eaten,
        tab[j].0 as int,
    ) && tab[j].1 >= 1
    &&& forall|j: int, k: int| 0 <= j < k < tab.len() ==> tab[j].0 != tab[k].0
    &&& forall|v: int| #![trigger in_table(tab, v)] count_occ(eaten, v) > 0 ==> in_table(tab, v)
}

/// Feeds one value into a frequency table.
#[verifier::spinoff_prover]
pub fn table_eat(tab: &mut Vec<(usize, usize)>, x: usize, Ghost(eaten): Ghost<Seq<int>>)
    requires
        table_ok(old(tab)@, eaten),
        eaten.len() < usize::MAX,
    ensures
        table_ok(final(tab)@, eaten.push(x as int)),
        final(tab)@.len() <= old(tab)@.len() + 1,
{
    let ghost eaten2 = eaten.push(x as int);
    proof {
        assert forall|v: int| #![trigger count_occ(eaten2, v)] true implies count_occ(eaten2, v)
            == count_occ(eaten, v) + if v == x as int {
            1int
        } else {
            0int
        } by {
            lemma_count_occ_push(eaten, x as int, v);
        }
        lemma_count_occ_nonneg(eaten, x as int);
    }
    let n = tab.len();
    let mut j: usize = 0;
    while j < n
        invariant
            0 <= j <= n,
            n == tab@.len(),
            table_ok(tab@, eaten),
            tab@ == old(tab)@,
            forall|k: int| 0 <= k < j ==> (#[trigger] tab@[k]).0 != x,
            eaten.len() < usize::MAX,
            eaten2 == eaten.push(x as int),
            forall|v: int| #![trigger count_occ(eaten2, v)] count_occ(eaten2, v) == count_occ(
                eaten,
                v,
            ) + if v == x as int {
                1int
            } else {
                0int
            },
        decreases n - j,
    {
        if tab[j].0 == x {
            let f = tab[j].1;
            proof {
                lemma_count_occ_nonneg(eaten, x as int);
            }
            let ghost tab0 = tab@;
            tab[j] = (x, f + 1);
            proof {
                assert forall|k: int| 0 <= k < tab@.len() implies (#[trigger] tab@[k]).1 as int
                    == count_occ(eaten2, tab@[k].0 as int) && tab@[k].1 >= 1 by {
                    if k == j {
                        assert(tab@[k] == (x, (f + 1) as usize));
                    } else {
                        assert(tab@[k] == tab0[k]);
                        assert(tab0[k].0 != x);
                    }
                }
                assert forall|v: int| #![trigger in_table(tab@, v)] count_occ(eaten2, v)
                    > 0 implies in_table(tab@, v) by {
                    if v == x as int {
                        assert(tab@[j as int].0 as int == v);
                    } else {
                        assert(count_occ(eaten, v) > 0);
                        assert(in_table(tab0, v));
                        let k = choose|k: int|
                            0 <= k < tab0.len() && (#[trigger] tab0[k]).0 as int == v;
                        assert(tab@[k].0 as int == v);
                    }
                }
            }
            return ;
        }
        j += 1;
    }
    let ghost tab0 = tab@;
    tab.push((x, 1));
    proof {
        assert(tab@[n as int] == (x, 1usize));
        assert(count_occ(eaten, x as int) == 0) by {
            if count_occ(eaten, x as int) > 0 {
                assert(in_table(tab0, x as int));
                let k = choose|k: int|
                    0 <= k < tab0.len() && (#[trigger] tab0[k]).0 as int == x as int;
            }
        }
        assert forall|k: int| 0 <= k < tab@.len() implies (#[trigger] tab@[k]).1 as int
            == count_occ(eaten2, tab@[k].0 as int) && tab@[k].1 >= 1 by {
            if k < n {
                assert(tab@[k] == tab0[k]);
                assert(tab0[k].0 != x);
            }
        }
        assert forall|v: int| #![trigger in_table(tab@, v)] count_occ(eaten2, v) > 0 implies
            in_table(tab@, v) by {
            if v == x as int {
                assert(tab@[n as int].0 as int == v);
            } else {
                assert(count_occ(eaten, v) > 0);
                assert(in_table(tab0, v));
                let k = choose|k: int|
                    0 <= k < tab0.len() && (#[trigger] tab0[k]).0 as int == v;
                assert(tab@[k].0 as int == v);
            }
        }
    }
}

/// `a` sorts before `b`: higher frequency first, then smaller value.
pub open spec fn pair_before(a: (usize, usize), b: (usize, usize)) -> bool {
    a.1 > b.1 || (a.1 == b.1 && a.0 < b.0)
}

/// Index `j` appears among the first `m` slots of the permutation.
pub open spec fn perm_covers(perm: Seq<int>, m: int, j: int) -> bool {
    exists|k: int| 0 <= k < m && #[trigger] perm[k] == j
}

/// The sorted rows are the table's rows, rearranged by the permutation.
pub open spec fn perm_ok(
    out: Seq<(usize, usize)>,
    tab: Seq<(usize, usize)>,
    perm: Seq<int>,
    m: int,
) -> bool {
    &&& out.len() == m
    &&& perm.len() == m
    &&& forall|k: int| 0 <= k < m ==> 0 <= #[trigger] perm[k] < m
    &&& forall|k: int| 0 <= k < m ==> out[k] == tab[#[trigger] perm[k]]
    &&& forall|j: int| 0 <= j < m ==> #[trigger] perm_covers(perm, m, j)
}

/// What one sorted insertion preserves: the permutation relation and the
/// sort order.
proof fn lemma_rank_insert(
    tab: Seq<(usize, usize)>,
    old_out: Seq<(usize, usize)>,
    new_out: Seq<(usize, usize)>,
    old_perm: Seq<int>,
    new_perm: Seq<int>,
    p: int,
    i: int,
)
    requires
        0 <= i < tab.len(),
        0 <= p <= i,
        new_out == old_out.insert(p, tab[i]),
        new_perm == old_perm.insert(p, i),
        forall|j: int, k: int| 0 <= j < k < tab.len() ==> tab[j].0 != tab[k].0,
        perm_ok(old_out, tab, old_perm, i),
        forall|k: int, l: int| 0 <= k < l < old_out.len() ==> pair_before(old_out[k], old_out[l]),
        forall|k: int| 0 <= k < p ==> pair_before(#[trigger] old_out[k], tab[i]),
        p < i ==> !pair_before(old_out[p], tab[i]),
    ensures
        perm_ok(new_out, tab, new_perm, i + 1),
        forall|k: int, l: int| 0 <= k < l < new_out.len() ==> pair_before(new_out[k], new_out[l]),
{
    let entry = tab[i];
    assert forall|k: int| 0 <= k < i + 1 implies 0 <= #[trigger] new_perm[k] < i + 1 && new_out[k]
        == tab[new_perm[k]] by {
        if k < p {
            assert(new_out[k] == old_out[k] && new_perm[k] == old_perm[k]);
        } else if k == p {
        } else {
            assert(new_out[k] == old_out[k - 1] && new_perm[k] == old_perm[k - 1]);
        }
    }
    assert forall|j: int| 0 <= j < i + 1 implies #[trigger] perm_covers(new_perm, i + 1, j) by {
        if j == i {
            assert(new_perm[p] == j);
        } else {
            assert(perm_covers(old_perm, i, j));
            let k = choose|k: int| 0 <= k < i && #[trigger] old_perm[k] == j;
            if k < p {
                assert(new_perm[k] == j);
            } else {
                assert(new_perm[k + 1] == j);
            }
        }
    }
    // The new entry differs in value from everything inserted so far.
    assert forall|k: int| 0 <= k < old_out.len() implies (#[trigger] old_out[k]).0 != entry.0 by {
        assert(old_out[k] == tab[old_perm[k]]);
        assert(tab[old_perm[k]].0 != tab[i].0);
    }
    if p < i {
        assert(pair_before(entry, old_out[p]));
    }
    assert forall|k: int, l: int| 0 <= k < l < new_out.len() implies pair_before(
        new_out[k],
        new_out[l],
    ) by {
        if l < p {
            assert(new_out[k] == old_out[k] && new_out[l] == old_out[l]);
        } else if l == p {
            assert(new_out[k] == old_out[k]);
        } else if k == p {
            assert(new_out[l] == old_out[l - 1]);
            if l - 1 == p {
            } else {
                assert(pair_before(old_out[p], old_out[l - 1]));
            }
        } else if k < p {
            assert(new_out[k] == old_out[k] && new_out[l] == old_out[l - 1]);
            if k == l - 1 {
                assert(false);
            }
        } else {
            assert(new_out[k] == old_out[k - 1] && new_out[l] == old_out[l - 1]);
        }
    }
}

/// Sorts a frequency table into its rank sequence: most frequent first,
/// ties broken by ascending value.
#[verifier::spinoff_prover]
pub fn rank_sort(tab: &Vec<(usize, usize)>, Ghost(eaten): Ghost<Seq<int>>) -> (values: Vec<usize>)
    requires
        table_ok(tab@, eaten),
    ensures
        is_rank_seq(seq_view(values@), eaten),
        values@.len() == tab@.len(),
{
    let n = tab.len();
    let mut out: Vec<(usize, usize)> = Vec::new();
    let ghost mut perm = Seq::<int>::empty();
    let mut i: usize = 0;
    while i < n
        invariant
            0 <= i <= n,
            n == tab@.len(),
            forall|j: int, k: int| 0 <= j < k < n ==> tab@[j].0 != tab@[k].0,
            perm_ok(out@, tab@, perm, i as int),
            forall|k: int, l: int| 0 <= k < l < out@.len() ==> pair_before(out@[k], out@[l]),
        decreases n - i,
    {
        let entry = tab[i];
        let mut p: usize = 0;
        while p < i && (out[p].1 > entry.1 || (out[p].1 == entry.1 && out[p].0 < entry.0))
            invariant
                0 <= p <= i,
                out@.len() == i,
                forall|k: int| 0 <= k < p ==> pair_before(#[trigger] out@[k], entry),
            decreases i - p,
        {
            p += 1;
        }
        let ghost old_out = out@;
        let ghost old_perm = perm;
        out.insert(p, entry);
        proof {
            perm = perm.insert(p as int, i as int);
            lemma_rank_insert(tab@, old_out, out@, old_perm, perm, p as int, i as int);
        }
        i += 1;
    }
    // Project the sorted rows onto their values.
    let mut values: Vec<usize> = Vec::new();
    let mut k: usize = 0;
    while k < n
        invariant
            0 <= k <= n,
            n == tab@.len() == out@.len(),
            values@.len() == k,
            forall|l: int| 0 <= l < k ==> #[trigger] values@[l] == out@[l].0,
        decreases n - k,
    {
        values.push(out[k].0);
        k += 1;
    }
    proof {
        let s = seq_view(values@);
        assert forall|l: int| 0 <= l < s.len() implies count_occ(eaten, #[trigger] s[l]) > 0 by {
            assert(out@[l] == tab@[perm[l]]);
        }
        assert forall|k2: int, l: int| 0 <= k2 < l < s.len() implies rank_before(
            eaten,
            s[k2],
            s[l],
        ) by {
            assert(pair_before(out@[k2], out@[l]));
            assert(out@[k2] == tab@[perm[k2]]);
            assert(out@[l] == tab@[perm[l]]);
        }
        assert forall|v: int| #![trigger rank_has(s, v)] count_occ(eaten, v) > 0 implies rank_has(
            s,
            v,
        ) by {
            assert(in_table(tab@, v));
            let j = choose|j: int| 0 <= j < tab@.len() && (#[trigger] tab@[j]).0 as int == v;
            assert(perm_covers(perm, n as int, j));
            let k2 = choose|k2: int| 0 <= k2 < n && #[trigger] perm[k2] == j;
            assert(out@[k2] == tab@[j]);
            assert(s[k2] == v);
        }
    }
    values
}

/// The frozen per-order rank sequences.
pub struct SequenceCollection {
    sorted_sequences: Vec<Vec<usize>>,
}

/// Accumulates the count values of each order and freezes their rank
/// sequences.
pub struct SequenceCollectionBuilder {
    v2f: Vec<(usize, usize)>,
    eaten: Ghost<Seq<int>>,
    sorted_sequences: Vec<Vec<usize>>,
    history: Ghost<Seq<Seq<int>>>,
}

impl SequenceCollectionBuilder {
    /// The values eaten since the last frozen order.
    pub closed spec fn spec_eaten(&self) -> Seq<int> {
        self.eaten@
    }

    /// The values eaten for each frozen order.
    pub closed spec fn spec_orders(&self) -> Seq<Seq<int>> {
        self.history@
    }

    /// The frozen rank sequences.
    pub closed spec fn spec_seqs(&self) -> Seq<Seq<int>> {
        self.sorted_sequences@.map_values(|v: Vec<usize>| seq_view(v@))
    }

    pub closed spec fn wf(&self) -> bool {
        &&& table_ok(self.v2f@, self.eaten@)
        &&& self.sorted_sequences@.len() == self.history@.len()
        &&& forall|k: int| 0 <= k < self.history@.len() ==> is_rank_seq(
            seq_view(#[trigger] self.sorted_sequences@[k]@),
            self.history@[k],
        )
    }

    /// Whether order `k` was frozen as the rank sequence of its values.
    pub open spec fn order_ok(&self, k: int) -> bool {
        &&& 0 <= k < self.spec_orders().len()
        &&& self.spec_orders().len() == self.spec_seqs().len()
        &&& is_rank_seq(self.spec_seqs()[k], self.spec_orders()[k])
    }

    /// Every frozen order holds its rank sequence.
    pub proof fn lemma_orders_ok(&self)
        requires
            self.wf(),
        ensures
            forall|k: int| 0 <= k < self.spec_orders().len() ==> #[trigger] self.order_ok(k),
            self.spec_orders().len() == self.spec_seqs().len(),
    {
        assert forall|k: int| 0 <= k < self.spec_orders().len() implies #[trigger] self.order_ok(
            k,
        ) by {
            assert(is_rank_seq(seq_view(self.sorted_sequences@[k]@), self.history@[k]));
        }
    }

    /// Feeds one count value of the current order.
    pub fn eat_value(&mut self, x: usize)
        requires
            old(self).wf(),
            old(self).spec_eaten().len() < usize::MAX,
        ensures
            final(self).wf(),
            final(self).spec_eaten() == old(self).spec_eaten().push(x as int),
            final(self).spec_orders() == old(self).spec_orders(),
            final(self).spec_seqs() == old(self).spec_seqs(),
    {
        let ghost eaten = self.eaten@;
        table_eat(&mut self.v2f, x, Ghost(eaten));
        proof {
            self.eaten@ = eaten.push(x as int);
        }
    }

    /// Freezes the current order's rank sequence.
    pub fn build_sequence(&mut self)
        requires
            old(self).wf(),
        ensures
            final(self).wf(),
            final(self).spec_eaten() == Seq::<int>::empty(),
            final(self).spec_orders() == old(self).spec_orders().push(old(self).spec_eaten()),
            final(self).spec_seqs().len() == old(self).spec_seqs().len() + 1,
            final(self).spec_seqs() == old(self).spec_seqs().push(final(self).spec_seqs().last()),
            is_rank_seq(final(self).spec_seqs().last(), old(self).spec_eaten()),
    {
        let ghost eaten = self.eaten@;
        let values = rank_sort(&self.v2f, Ghost(eaten));
        self.sorted_sequences.push(values);
        self.v2f.clear();
        proof {
            self.eaten@ = Seq::<int>::empty();
            self.history@ = self.history@.push(eaten);
            assert(self.spec_seqs() =~= old(self).spec_seqs().push(seq_view(values@)));
            assert(table_ok(self.v2f@, self.eaten@));
        }
    }

    /// The rank of `value` at a frozen order, if the value occurred there.
    pub fn rank(&self, order: usize, value: usize) -> (r: Option<usize>)
        requires
            self.wf(),
            0 <= order < self.spec_seqs().len(),
        ensures
            match r {
                Some(i) => 0 <= i < self.spec_seqs()[order as int].len()
                    && self.spec_seqs()[order as int][i as int] == value as int,
                None => forall|i: int|
                    0 <= i < self.spec_seqs()[order as int].len()
                        ==> #[trigger] self.spec_seqs()[order as int][i] != value as int,
            },
    {
        let seq = &self.sorted_sequences[order];
        let n = seq.len();
        let mut i: usize = 0;
        while i < n
            invariant
                0 <= i <= n,
                n == seq@.len(),
                seq@ == self.sorted_sequences@[order as int]@,
                0 <= order < self.sorted_sequences@.len(),
                self.spec_seqs()[order as int] == seq_view(seq@),
                forall|j: int| 0 <= j < i ==> #[trigger] seq@[j] != value,
            decreases n - i,
        {
            if seq[i] == value {
                return Some(i);
            }
            i += 1;
        }
        None
    }
}

impl Default for SequenceCollectionBuilder {
    fn default() -> (r: Self)
        ensures
            r.wf(),
            r.spec_eaten() == Seq::<int>::empty(),
            r.spec_orders() == Seq::<Seq<int>>::empty(),
            r.spec_seqs() == Seq::<Seq<int>>::empty(),
    {
        let r = Self {
            v2f: Vec::new(),
            eaten: Ghost(Seq::empty()),
            sorted_sequences: Vec::new(),
            history: Ghost(Seq::empty()),
        };
        proof {
            assert(r.spec_seqs() =~= Seq::<Seq<int>>::empty());
        }
        r
    }
}

impl SequenceCollection {
    /// The frozen rank sequences.
    pub closed spec fn spec_seqs(&self) -> Seq<Seq<int>> {
        self.sorted_sequences@.map_values(|v: Vec<usize>| seq_view(v@))
    }

    /// Freezes a builder's sequences.
    pub fn new(b: SequenceCollectionBuilder) -> (r: Self)
        ensures
            r.spec_seqs() == b.spec_seqs(),
    {
        let SequenceCollectionBuilder { sorted_sequences, .. } = b;
        let r = Self { sorted_sequences };
        proof {
            assert(r.spec_seqs() =~= b.spec_seqs());
        }
        r
    }

    /// Gets the `i`-th value of order `order` in rank order.
    pub fn access(&self, order: usize, i: usize) -> (r: usize)
        requires
            0 <= order < self.spec_seqs().len(),
            0 <= i < self.spec_seqs()[order as int].len(),
        ensures
            r as int == self.spec_seqs()[order as int][i as int],
    {
        self.sorted_sequences[order][i]
    }
}

} // verus!
