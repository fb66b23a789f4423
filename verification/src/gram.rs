//! Grams: token sequences held as byte slices with single-space separators.

use vstd::prelude::*;
use vstd::string::StringSliceAdditionalSpecFns;

use crate::TOKEN_SEPARATOR;

verus! {

/// The index of the first separator byte in `s`, if any.
pub open spec fn first_sep_idx(s: Seq<u8>) -> Option<int>
    decreases s.len(),
{
    if s.len() == 0 {
        None
    } else if s[0] == TOKEN_SEPARATOR {
        Some(0int)
    } else {
        match first_sep_idx(s.skip(1)) {
            Some(i) => Some(i + 1),
            None => None,
        }
    }
}

/// The index of the last separator byte in `s`, or -1 if there is none.
pub open spec fn last_sep_idx(s: Seq<u8>) -> int
    decreases s.len(),
{
    if s.len() == 0 {
        -1
    } else if s[s.len() - 1] == TOKEN_SEPARATOR {
        s.len() - 1
    } else {
        last_sep_idx(s.drop_last())
    }
}

/// The pieces of `s` between separator bytes, in order; empty pieces included.
pub open spec fn split_bytes(s: Seq<u8>) -> Seq<Seq<u8>>
    decreases s.len(),
    via split_bytes_dec
{
    match first_sep_idx(s) {
        None => seq![s],
        Some(i) => seq![s.subrange(0, i)] + split_bytes(s.subrange(i + 1, s.len() as int)),
    }
}

#[via_fn]
proof fn split_bytes_dec(s: Seq<u8>) {
    lemma_first_sep_idx(s);
}

/// The last token of a gram: everything after the last separator, or the
/// whole gram when it has no separator.
pub open spec fn last_token(g: Seq<u8>) -> Seq<u8> {
    g.subrange(last_sep_idx(g) + 1, g.len() as int)
}

/// The parent prefix of a gram: everything before the last separator.
pub open spec fn gram_prefix(g: Seq<u8>) -> Seq<u8> {
    g.subrange(0, last_sep_idx(g))
}

/// A token is a non-empty byte string without the separator byte.
pub open spec fn is_token(s: Seq<u8>) -> bool {
    s.len() > 0 && forall|i: int| 0 <= i < s.len() ==> s[i] != TOKEN_SEPARATOR
}

pub proof fn lemma_first_sep_idx(s: Seq<u8>)
    ensures
        match first_sep_idx(s) {
            Some(i) => 0 <= i < s.len() && s[i] == TOKEN_SEPARATOR && forall|j: int|
                0 <= j < i ==> s[j] != TOKEN_SEPARATOR,
            None => forall|j: int| 0 <= j < s.len() ==> s[j] != TOKEN_SEPARATOR,
        },
    decreases s.len(),
{
    if s.len() > 0 && s[0] != TOKEN_SEPARATOR {
        lemma_first_sep_idx(s.skip(1));
        match first_sep_idx(s.skip(1)) {
            Some(i) => {
                assert(s[i + 1] == s.skip(1)[i]);
                assert forall|j: int| 0 <= j < i + 1 implies s[j] != TOKEN_SEPARATOR by {
                    if j > 0 {
                        assert(s.skip(1)[j - 1] != TOKEN_SEPARATOR);
                    }
                }
            },
            None => {
                assert forall|j: int| 0 <= j < s.len() implies s[j] != TOKEN_SEPARATOR by {
                    if j > 0 {
                        assert(s.skip(1)[j - 1] != TOKEN_SEPARATOR);
                    }
                }
            },
        }
    }
}

/// A separator at `i` with none before it pins `first_sep_idx` to `i`.
pub proof fn lemma_first_sep_idx_at(s: Seq<u8>, i: int)
    requires
        0 <= i < s.len(),
        s[i] == TOKEN_SEPARATOR,
        forall|j: int| 0 <= j < i ==> s[j] != TOKEN_SEPARATOR,
    ensures
        first_sep_idx(s) == Some(i),
    decreases s.len(),
{
    if i > 0 {
        lemma_first_sep_idx_at(s.skip(1), i - 1);
    }
}

/// Without any separator, `first_sep_idx` is `None` and `split_bytes` is one piece.
pub proof fn lemma_no_sep_split(s: Seq<u8>)
    requires
        forall|j: int| 0 <= j < s.len() ==> s[j] != TOKEN_SEPARATOR,
    ensures
        first_sep_idx(s) is None,
        split_bytes(s) == seq![s],
    decreases s.len(),
{
    if s.len() > 0 {
        assert(s.skip(1) =~= s.subrange(1, s.len() as int));
        lemma_no_sep_split(s.skip(1));
    }
}

/// The last separator position is within bounds whenever one exists at all.
pub proof fn lemma_last_sep_idx(s: Seq<u8>)
    ensures
        if exists|i: int| 0 <= i < s.len() && s[i] == TOKEN_SEPARATOR {
            {
                let l = last_sep_idx(s);
                &&& 0 <= l < s.len()
                &&& s[l] == TOKEN_SEPARATOR
                &&& forall|j: int| l < j < s.len() ==> s[j] != TOKEN_SEPARATOR
            }
        } else {
            last_sep_idx(s) == -1
        },
    decreases s.len(),
{
    if s.len() > 0 && s[s.len() - 1] != TOKEN_SEPARATOR {
        lemma_last_sep_idx(s.drop_last());
        if exists|i: int| 0 <= i < s.len() && s[i] == TOKEN_SEPARATOR {
            let i = choose|i: int| 0 <= i < s.len() && s[i] == TOKEN_SEPARATOR;
            assert(s.drop_last()[i] == TOKEN_SEPARATOR);
            let l = last_sep_idx(s);
            assert(s[l] == s.drop_last()[l]);
            assert forall|j: int| l < j < s.len() implies s[j] != TOKEN_SEPARATOR by {
                if j < s.len() - 1 {
                    assert(s.drop_last()[j] != TOKEN_SEPARATOR);
                }
            }
        }
    }
}

/// A separator at `x` with none after it is the last separator.
pub proof fn lemma_last_sep_at(s: Seq<u8>, x: int)
    requires
        0 <= x < s.len(),
        s[x] == TOKEN_SEPARATOR,
        forall|j: int| x < j < s.len() ==> s[j] != TOKEN_SEPARATOR,
    ensures
        last_sep_idx(s) == x,
    decreases s.len(),
{
    if x < s.len() - 1 {
        lemma_last_sep_at(s.drop_last(), x);
    }
}

/// Splitting a gram with a separator splits its prefix and appends the last
/// token.
pub proof fn lemma_split_last(g: Seq<u8>)
    requires
        last_sep_idx(g) >= 0,
    ensures
        0 <= last_sep_idx(g) < g.len(),
        g[last_sep_idx(g)] == TOKEN_SEPARATOR,
        split_bytes(g) == split_bytes(gram_prefix(g)) + seq![last_token(g)],
    decreases g.len(),
{
    lemma_last_sep_idx(g);
    assert(exists|i: int| 0 <= i < g.len() && g[i] == TOKEN_SEPARATOR) by {
        if forall|i: int| 0 <= i < g.len() ==> g[i] != TOKEN_SEPARATOR {
            assert(last_sep_idx(g) == -1);
        }
    }
    let l = last_sep_idx(g);
    lemma_first_sep_idx(g);
    match first_sep_idx(g) {
        None => {
            assert(g[l] != TOKEN_SEPARATOR);
        },
        Some(f) => {
            assert(f <= l) by {
                if f > l {
                    assert(g[f] != TOKEN_SEPARATOR);
                }
            }
            let tail = g.subrange(f + 1, g.len() as int);
            if f == l {
                // The one and only separator: the prefix and the tail are
                // both single pieces.
                assert forall|j: int| 0 <= j < tail.len() implies #[trigger] tail[j]
                    != TOKEN_SEPARATOR by {
                    assert(tail[j] == g[f + 1 + j]);
                }
                lemma_no_sep_split(tail);
                let pfx = gram_prefix(g);
                assert forall|j: int| 0 <= j < pfx.len() implies #[trigger] pfx[j]
                    != TOKEN_SEPARATOR by {
                    assert(pfx[j] == g[j]);
                }
                lemma_no_sep_split(pfx);
                assert(tail =~= last_token(g));
                assert(split_bytes(g) =~= split_bytes(gram_prefix(g)) + seq![last_token(g)]);
            } else {
                // The last separator sits inside the tail; recurse there.
                assert(tail[l - f - 1] == g[l]);
                assert forall|j: int| l - f - 1 < j < tail.len() implies #[trigger] tail[j]
                    != TOKEN_SEPARATOR by {
                    assert(tail[j] == g[f + 1 + j]);
                }
                lemma_last_sep_at(tail, l - f - 1);
                lemma_split_last(tail);
                // The prefix splits at the same first separator.
                let pfx = gram_prefix(g);
                assert(pfx[f] == g[f]);
                assert forall|j: int| 0 <= j < f implies #[trigger] pfx[j] != TOKEN_SEPARATOR by {
                    assert(pfx[j] == g[j]);
                }
                lemma_first_sep_idx_at(pfx, f);
                assert(gram_prefix(tail) =~= pfx.subrange(f + 1, pfx.len() as int));
                assert(last_token(tail) =~= last_token(g));
                assert(g.subrange(0, f) =~= pfx.subrange(0, f));
                assert(split_bytes(g) == seq![g.subrange(0, f)] + split_bytes(tail));
                assert(split_bytes(pfx) == seq![pfx.subrange(0, f)] + split_bytes(
                    pfx.subrange(f + 1, pfx.len() as int),
                ));
                assert(split_bytes(tail) == split_bytes(gram_prefix(tail)) + seq![
                    last_token(tail),
                ]);
                assert(seq![g.subrange(0, f)] + (split_bytes(gram_prefix(tail)) + seq![
                    last_token(g),
                ]) =~= (seq![pfx.subrange(0, f)] + split_bytes(gram_prefix(tail))) + seq![
                    last_token(g),
                ]);
                assert(split_bytes(g) =~= split_bytes(gram_prefix(g)) + seq![last_token(g)]);
            }
        },
    }
}

/// Byte-for-byte equality of two slices.
pub fn bytes_eq(a: &[u8], b: &[u8]) -> (r: bool)
    ensures
        r <==> a@ == b@,
{
    if a.len() != b.len() {
        assert(a@ != b@);
        return false;
    }
    let n = a.len();
    let mut i: usize = 0;
    while i < n
        invariant
            0 <= i <= n,
            n == a@.len() == b@.len(),
            forall|j: int| 0 <= j < i ==> a@[j] == b@[j],
        decreases n - i,
    {
        if a[i] != b[i] {
            return false;
        }
        i += 1;
    }
    assert(a@ =~= b@);
    true
}

/// Handler of a gram: a view onto the bytes of a token sequence.
#[derive(Clone, Copy)]
pub struct Gram<'a> {
    data: &'a [u8],
}

impl<'a> View for Gram<'a> {
    type V = Seq<u8>;

    closed spec fn view(&self) -> Seq<u8> {
        self.data@
    }
}

impl<'a> Gram<'a> {
    /// Creates a [`Gram`] from a byte slice.
    pub fn new(data: &'a [u8]) -> (g: Self)
        ensures
            g@ == data@,
    {
        Self { data }
    }

    /// Creates a [`Gram`] from a string.
    pub fn from_str(data: &'a str) -> (g: Self)
        ensures
            g@ == data.spec_bytes(),
    {
        Self { data: data.as_bytes() }
    }

    /// Copies the gram's bytes into a new `Vec`.
    pub fn to_vec(self) -> (v: Vec<u8>)
        ensures
            v@ == self@,
    {
        vstd::slice::slice_to_vec(self.data)
    }

    /// Gets the reference to the byte slice.
    pub fn raw(&self) -> (r: &'a [u8])
        ensures
            r@ == self@,
    {
        self.data
    }

    /// Splits off the last token: the part before the last separator and the
    /// part after it. A gram without a separator has nothing to pop.
    pub fn pop_token(&self) -> (r: Option<(Self, Self)>)
        ensures
            match r {
                Some((pfx, last)) => {
                    let l = last_sep_idx(self@);
                    &&& 0 <= l < self@.len()
                    &&& self@[l] == TOKEN_SEPARATOR
                    &&& pfx@ == self@.subrange(0, l)
                    &&& last@ == self@.subrange(l + 1, self@.len() as int)
                },
                None => forall|i: int| 0 <= i < self@.len() ==> self@[i] != TOKEN_SEPARATOR,
            },
    {
        let n = self.data.len();
        let mut i: usize = n;
        while i > 0
            invariant
                0 <= i <= n,
                n == self@.len(),
                forall|j: int| i <= j < n ==> self@[j] != TOKEN_SEPARATOR,
            decreases i,
        {
            let c = *vstd::slice::slice_index_get(self.data, i - 1);
            if c == TOKEN_SEPARATOR {
                proof {
                    lemma_last_sep_idx(self@);
                    assert(0 <= i - 1 < n && self@[i - 1] == TOKEN_SEPARATOR);
                    assert(exists|k: int| 0 <= k < self@.len() && self@[k] == TOKEN_SEPARATOR);
                    let l = last_sep_idx(self@);
                    assert(l >= i - 1) by {
                        if l < i - 1 {
                            assert(self@[i - 1] != TOKEN_SEPARATOR);
                        }
                    }
                    assert(l == i - 1);
                }
                let pfx = vstd::slice::slice_subrange(self.data, 0, i - 1);
                let sfx = vstd::slice::slice_subrange(self.data, i, n);
                return Some((Self { data: pfx }, Self { data: sfx }));
            }
            i -= 1;
        }
        None
    }

    /// Splits the gram into its tokens: the pieces between separator bytes.
    pub fn split_to_tokens(&self) -> (toks: Vec<Gram<'a>>)
        ensures
            toks@.map_values(|g: Gram<'a>| g@) == split_bytes(self@),
            toks@.len() >= 1,
    {
        let n = self.data.len();
        let mut toks: Vec<Gram<'a>> = Vec::new();
        let mut start: usize = 0;
        let mut i: usize = 0;
        proof {
            assert(self@.subrange(0, n as int) =~= self@);
            assert(toks@.map_values(|g: Gram<'a>| g@) =~= Seq::<Seq<u8>>::empty());
            assert(Seq::<Seq<u8>>::empty() + split_bytes(self@) =~= split_bytes(self@));
        }
        while i < n
            invariant
                0 <= start <= i <= n,
                n == self@.len(),
                forall|j: int| start <= j < i ==> self@[j] != TOKEN_SEPARATOR,
                split_bytes(self@) == toks@.map_values(|g: Gram<'a>| g@) + split_bytes(
                    self@.subrange(start as int, n as int),
                ),
            decreases n - i,
        {
            let c = *vstd::slice::slice_index_get(self.data, i);
            if c == TOKEN_SEPARATOR {
                let piece = vstd::slice::slice_subrange(self.data, start, i);
                proof {
                    let rest = self@.subrange(start as int, n as int);
                    lemma_first_sep_idx_at(rest, i - start);
                    assert(rest.subrange(0, i - start) =~= piece@);
                    assert(rest.subrange(i - start + 1, rest.len() as int) =~= self@.subrange(
                        i + 1,
                        n as int,
                    ));
                    let old_map = toks@.map_values(|g: Gram<'a>| g@);
                    assert((toks@ + seq![Self { data: piece }]).map_values(|g: Gram<'a>| g@)
                        =~= old_map + seq![piece@]);
                    assert(old_map + (seq![piece@] + split_bytes(self@.subrange(i + 1, n as int)))
                        =~= (old_map + seq![piece@]) + split_bytes(self@.subrange(i + 1, n as int)));
                }
                toks.push(Self { data: piece });
                start = i + 1;
            }
            i += 1;
        }
        let piece = vstd::slice::slice_subrange(self.data, start, n);
        proof {
            let rest = self@.subrange(start as int, n as int);
            lemma_no_sep_split(rest);
            assert(rest =~= piece@);
            assert((toks@ + seq![Self { data: piece }]).map_values(|g: Gram<'a>| g@)
                =~= toks@.map_values(|g: Gram<'a>| g@) + seq![piece@]);
        }
        toks.push(Self { data: piece });
        toks
    }
}

impl<'a> PartialEq for Gram<'a> {
    fn eq(&self, other: &Self) -> (r: bool) {
        bytes_eq(self.data, other.data)
    }
}

impl<'a> Eq for Gram<'a> {

}

impl<'a> vstd::std_specs::cmp::PartialEqSpecImpl for Gram<'a> {
    open spec fn obeys_eq_spec() -> bool {
        true
    }

    open spec fn eq_spec(&self, other: &Self) -> bool {
        self@ == other@
    }
}

} // verus!
