//! Vocabularies: mapping each token's byte string to its dense identifier,
//! assigned by position in the order-1 input.

use vstd::prelude::*;

use crate::double_array::{
    da_build, da_exact_match_search, da_key, da_keyset_bytes, da_search, da_valid,
};
use crate::error::LmError;
use crate::gram::{bytes_eq, Gram};
use crate::specs::{lemma_lex_asym, lemma_lex_total, lemma_lex_trans, lex_less, lex_lt};
use crate::TOKEN_SEPARATOR;

verus! {

/// The identifier of the first occurrence of `t` in `tokens`, if any.
pub open spec fn token_index(tokens: Seq<Seq<u8>>, t: Seq<u8>) -> Option<int>
    decreases tokens.len(),
{
    if tokens.len() == 0 {
        None
    } else if tokens[0] == t {
        Some(0int)
    } else {
        match token_index(tokens.skip(1), t) {
            Some(i) => Some(i + 1),
            None => None,
        }
    }
}

pub proof fn lemma_token_index(tokens: Seq<Seq<u8>>, t: Seq<u8>)
    ensures
        match token_index(tokens, t) {
            Some(i) => 0 <= i < tokens.len() && tokens[i] == t && forall|j: int|
                0 <= j < i ==> tokens[j] != t,
            None => forall|j: int| 0 <= j < tokens.len() ==> tokens[j] != t,
        },
    decreases tokens.len(),
{
    if tokens.len() > 0 && tokens[0] != t {
        lemma_token_index(tokens.skip(1), t);
        match token_index(tokens.skip(1), t) {
            Some(i) => {
                assert(tokens[i + 1] == tokens.skip(1)[i]);
                assert forall|j: int| 0 <= j < i + 1 implies tokens[j] != t by {
                    if j > 0 {
                        assert(tokens.skip(1)[j - 1] != t);
                    }
                }
            },
            None => {
                assert forall|j: int| 0 <= j < tokens.len() implies tokens[j] != t by {
                    if j > 0 {
                        assert(tokens.skip(1)[j - 1] != t);
                    }
                }
            },
        }
    }
}

/// An occurrence at `i` with none before it pins `token_index` to `i`.
pub proof fn lemma_token_index_at(tokens: Seq<Seq<u8>>, t: Seq<u8>, i: int)
    requires
        0 <= i < tokens.len(),
        tokens[i] == t,
        forall|j: int| 0 <= j < i ==> tokens[j] != t,
    ensures
        token_index(tokens, t) == Some(i),
    decreases tokens.len(),
{
    if i > 0 {
        lemma_token_index_at(tokens.skip(1), t, i - 1);
    }
}

/// A token the vocabulary can store: non-empty bytes without the token
/// separator and without the NUL byte the automaton reserves.
pub open spec fn valid_token(t: Seq<u8>) -> bool {
    &&& t.len() > 0
    &&& forall|i: int| 0 <= i < t.len() ==> #[trigger] t[i] != TOKEN_SEPARATOR
    &&& forall|i: int| 0 <= i < t.len() ==> #[trigger] t[i] != 0u8
}

pub open spec fn all_valid_tokens(ts: Seq<Seq<u8>>) -> bool {
    forall|i: int| 0 <= i < ts.len() ==> valid_token(#[trigger] ts[i])
}

/// No byte string occurs twice.
pub open spec fn distinct_seqs(ts: Seq<Seq<u8>>) -> bool {
    forall|i: int, j: int| 0 <= i < j < ts.len() ==> ts[i] != ts[j]
}

/// The total byte length of a token list.
pub open spec fn tokens_total_bytes(ts: Seq<Seq<u8>>) -> int
    decreases ts.len(),
{
    if ts.len() == 0 {
        0
    } else {
        tokens_total_bytes(ts.drop_last()) + ts.last().len()
    }
}

pub proof fn lemma_tokens_total_bytes_nonneg(ts: Seq<Seq<u8>>)
    ensures
        tokens_total_bytes(ts) >= 0,
    decreases ts.len(),
{
    if ts.len() > 0 {
        lemma_tokens_total_bytes_nonneg(ts.drop_last());
    }
}

/// A prefix never holds more bytes than the whole list.
pub proof fn lemma_tokens_total_bytes_prefix(ts: Seq<Seq<u8>>, m: int)
    requires
        0 <= m <= ts.len(),
    ensures
        tokens_total_bytes(ts.subrange(0, m)) <= tokens_total_bytes(ts),
    decreases ts.len() - m,
{
    if m == ts.len() {
        assert(ts.subrange(0, m) =~= ts);
    } else {
        assert(ts.subrange(0, m + 1).drop_last() =~= ts.subrange(0, m));
        lemma_tokens_total_bytes_prefix(ts, m + 1);
    }
}

proof fn lemma_da_keyset_bytes_concat(a: Seq<(Seq<u8>, u32)>, b: Seq<(Seq<u8>, u32)>)
    ensures
        da_keyset_bytes(a + b) == da_keyset_bytes(a) + da_keyset_bytes(b),
    decreases b.len(),
{
    if b.len() == 0 {
        assert(a + b =~= a);
    } else {
        assert((a + b).drop_last() =~= a + b.drop_last());
        lemma_da_keyset_bytes_concat(a, b.drop_last());
    }
}

/// Inserting a key adds exactly its length to the keyset's byte total.
proof fn lemma_da_keyset_bytes_insert(ks: Seq<(Seq<u8>, u32)>, p: int, kv: (Seq<u8>, u32))
    requires
        0 <= p <= ks.len(),
    ensures
        da_keyset_bytes(ks.insert(p, kv)) == da_keyset_bytes(ks) + kv.0.len(),
{
    let a = ks.subrange(0, p);
    let b = ks.subrange(p, ks.len() as int);
    assert(ks.insert(p, kv) =~= a + (seq![kv] + b));
    lemma_da_keyset_bytes_concat(a, seq![kv] + b);
    lemma_da_keyset_bytes_concat(seq![kv], b);
    assert(seq![kv].drop_last() =~= Seq::<(Seq<u8>, u32)>::empty());
    assert(da_keyset_bytes(Seq::<(Seq<u8>, u32)>::empty()) == 0);
    assert(seq![kv].last() == kv);
    assert(da_keyset_bytes(seq![kv]) == kv.0.len());
    assert(ks =~= a + b);
    lemma_da_keyset_bytes_concat(a, b);
}

/// Checks one token's bytes.
fn check_token(t: &[u8]) -> (r: bool)
    ensures
        r == valid_token(t@),
{
    if t.len() == 0 {
        return false;
    }
    let n = t.len();
    let mut i: usize = 0;
    while i < n
        invariant
            0 <= i <= n,
            n == t@.len(),
            forall|j: int| 0 <= j < i ==> #[trigger] t@[j] != TOKEN_SEPARATOR && t@[j] != 0u8,
        decreases n - i,
    {
        let b = *vstd::slice::slice_index_get(t, i);
        if b == TOKEN_SEPARATOR || b == 0 {
            return false;
        }
        i += 1;
    }
    true
}

/// Trait for a data structure mapping tokens to dense identifiers.
pub trait Vocabulary: Sized {
    /// The stored tokens, in identifier order.
    spec fn tokens(&self) -> Seq<Seq<u8>>;

    /// The structure is consistent with its token list.
    spec fn wf(&self) -> bool;

    /// On which token lists `build` succeeds.
    spec fn build_ok(tokens: Seq<Seq<u8>>) -> bool;

    /// Creates an empty vocabulary.
    fn new() -> (r: Self)
        ensures
            r.wf(),
            r.tokens() == Seq::<Seq<u8>>::empty(),
    ;

    /// Builds a vocabulary that assigns each gram its position as identifier.
    fn build<'a>(grams: &Vec<Gram<'a>>) -> (r: Result<Self, LmError>)
        ensures
            ({
                let ts = grams@.map_values(|g: Gram<'a>| g@);
                &&& (r matches Ok(v) ==> v.wf() && v.tokens() == ts && all_valid_tokens(ts)
                    && distinct_seqs(ts))
                &&& (r is Ok <==> Self::build_ok(ts))
                &&& (r matches Err(e) ==> ((e == LmError::InvalidToken && !all_valid_tokens(ts))
                    || (e == LmError::DuplicateToken && all_valid_tokens(ts) && !distinct_seqs(ts))
                    || (e == LmError::TooLarge && all_valid_tokens(ts))))
            }),
    ;

    /// The number of stored tokens.
    fn num_tokens(&self) -> (r: usize)
        requires
            self.wf(),
        ensures
            r as int == self.tokens().len(),
    ;

    /// The bytes of the token with identifier `i`.
    fn token_at<'a>(&'a self, i: usize) -> (r: &'a [u8])
        requires
            self.wf(),
            0 <= i < self.tokens().len(),
        ensures
            r@ == self.tokens()[i as int],
    ;

    /// Looks a token up, returning its identifier.
    fn get<'a>(&self, token: Gram<'a>) -> (r: Option<usize>)
        requires
            self.wf(),
        ensures
            match token_index(self.tokens(), token@) {
                Some(i) => 0 <= i <= usize::MAX as int && r == Some(i as usize),
                None => r is None,
            },
    ;
}

/// Simple implementation of [`Vocabulary`] that scans a plain token list.
pub struct SimpleVocabulary {
    tokens: Vec<Vec<u8>>,
}

impl Vocabulary for SimpleVocabulary {
    closed spec fn tokens(&self) -> Seq<Seq<u8>> {
        self.tokens@.map_values(|t: Vec<u8>| t@)
    }

    closed spec fn wf(&self) -> bool {
        true
    }

    open spec fn build_ok(tokens: Seq<Seq<u8>>) -> bool {
        all_valid_tokens(tokens) && distinct_seqs(tokens)
    }

    fn new() -> (r: Self)
        ensures
            r.wf(),
            r.tokens() == Seq::<Seq<u8>>::empty(),
    {
        let r = Self { tokens: Vec::new() };
        proof {
            assert(r.tokens() =~= Seq::<Seq<u8>>::empty());
        }
        r
    }

    fn build<'a>(grams: &Vec<Gram<'a>>) -> (r: Result<Self, LmError>) {
        let ghost ts = grams@.map_values(|g: Gram<'a>| g@);
        let mut tokens: Vec<Vec<u8>> = Vec::new();
        let n = grams.len();
        let mut i: usize = 0;
        while i < n
            invariant
                0 <= i <= n,
                n == grams@.len(),
                ts == grams@.map_values(|g: Gram<'a>| g@),
                tokens@.len() == i,
                forall|j: int| 0 <= j < i ==> #[trigger] tokens@[j]@ == ts[j],
                forall|j: int| 0 <= j < i ==> valid_token(#[trigger] ts[j]),
            decreases n - i,
        {
            let g = grams[i];
            if !check_token(g.raw()) {
                proof {
                    assert(ts[i as int] == g@);
                    assert(!all_valid_tokens(ts));
                }
                return Err(LmError::InvalidToken);
            }
            tokens.push(g.to_vec());
            i += 1;
        }
        // Reject any token that repeats an earlier one.
        let mut a: usize = 0;
        while a < n
            invariant
                0 <= a <= n,
                n == tokens@.len(),
                ts == grams@.map_values(|g: Gram<'a>| g@),
                forall|j: int| 0 <= j < n ==> #[trigger] tokens@[j]@ == ts[j],
                forall|j: int| 0 <= j < n ==> valid_token(#[trigger] ts[j]),
                ts.len() == n,
                forall|i2: int, j2: int| 0 <= i2 < j2 < n && i2 < a ==> ts[i2] != ts[j2],
            decreases n - a,
        {
            let mut b: usize = a + 1;
            while b < n
                invariant
                    0 <= a < b <= n,
                    n == tokens@.len(),
                    ts == grams@.map_values(|g: Gram<'a>| g@),
                    forall|j: int| 0 <= j < n ==> #[trigger] tokens@[j]@ == ts[j],
                    forall|j: int| 0 <= j < n ==> valid_token(#[trigger] ts[j]),
                    ts.len() == n,
                    forall|j2: int| a < j2 < b ==> ts[a as int] != ts[j2],
                decreases n - b,
            {
                if bytes_eq(tokens[a].as_slice(), tokens[b].as_slice()) {
                    proof {
                        assert(ts[a as int] == ts[b as int]);
                        assert(!distinct_seqs(ts));
                    }
                    return Err(LmError::DuplicateToken);
                }
                b += 1;
            }
            a += 1;
        }
        let r = Self { tokens };
        proof {
            assert(r.tokens() =~= ts);
        }
        Ok(r)
    }

    fn num_tokens(&self) -> (r: usize) {
        self.tokens.len()
    }

    fn token_at<'a>(&'a self, i: usize) -> (r: &'a [u8]) {
        self.tokens[i].as_slice()
    }

    fn get<'a>(&self, token: Gram<'a>) -> (r: Option<usize>) {
        let n = self.tokens.len();
        let mut i: usize = 0;
        while i < n
            invariant
                0 <= i <= n,
                n == self.tokens@.len(),
                self.tokens().len() == n,
                forall|j: int| 0 <= j < i ==> self.tokens()[j] != token@,
            decreases n - i,
        {
            if bytes_eq(self.tokens[i].as_slice(), token.raw()) {
                proof {
                    assert(self.tokens()[i as int] == token@);
                    lemma_token_index_at(self.tokens(), token@, i as int);
                }
                return Some(i);
            }
            proof {
                assert(self.tokens()[i as int] != token@);
            }
            i += 1;
        }
        proof {
            lemma_token_index(self.tokens(), token@);
            if token_index(self.tokens(), token@) is Some {
                let k = token_index(self.tokens(), token@).unwrap();
                assert(self.tokens()[k] == token@);
            }
        }
        None
    }
}

/// Strictly sorted adjacent keys in a keyset.
pub open spec fn keyset_sorted(ks: Seq<(Seq<u8>, u32)>) -> bool {
    forall|i: int| 0 <= i < ks.len() - 1 ==> lex_lt(#[trigger] ks[i].0, ks[i + 1].0)
}

/// Adjacent strict sortedness gives pairwise strict order.
proof fn lemma_keyset_sorted_pairwise(ks: Seq<(Seq<u8>, u32)>, i: int, j: int)
    requires
        keyset_sorted(ks),
        0 <= i < j < ks.len(),
    ensures
        lex_lt(ks[i].0, ks[j].0),
    decreases j - i,
{
    if i + 1 == j {
    } else {
        lemma_keyset_sorted_pairwise(ks, i + 1, j);
        lemma_lex_trans(ks[i].0, ks[i + 1].0, ks[j].0);
    }
}

/// The keyset holds identifier `v` with its token.
pub open spec fn covered(keyset: Seq<(Vec<u8>, u32)>, ts: Seq<Seq<u8>>, v: int) -> bool {
    exists|j: int| 0 <= j < keyset.len() && (#[trigger] keyset[j]).1 as int == v && keyset[j].0@
        == ts[v]
}

/// Compact double-array implementation of [`Vocabulary`]: the token list and
/// the automaton bytes built from it.
pub struct DoubleArrayVocabulary {
    tokens: Vec<Vec<u8>>,
    data: Vec<u8>,
}

impl DoubleArrayVocabulary {
    /// Gets the automaton's size in bytes.
    pub fn data_len(&self) -> usize {
        self.data.len()
    }
}

impl Vocabulary for DoubleArrayVocabulary {
    closed spec fn tokens(&self) -> Seq<Seq<u8>> {
        self.tokens@.map_values(|t: Vec<u8>| t@)
    }

    closed spec fn wf(&self) -> bool {
        ||| (self.tokens@.len() == 0 && self.data@.len() == 0)
        ||| {
            &&& all_valid_tokens(self.tokens())
            &&& distinct_seqs(self.tokens())
            &&& self.tokens@.len() < 0x8000_0000
            &&& da_valid(self.data@)
            &&& forall|k: Seq<u8>|
                da_key(k) ==> #[trigger] da_search(self.data@, k) == (match token_index(
                    self.tokens(),
                    k,
                ) {
                    Some(i) => Some(i as u32),
                    None => None::<u32>,
                })
        }
    }

    open spec fn build_ok(tokens: Seq<Seq<u8>>) -> bool {
        &&& all_valid_tokens(tokens)
        &&& distinct_seqs(tokens)
        &&& tokens.len() + tokens_total_bytes(tokens) < 0x0800_0000
    }

    fn new() -> (r: Self)
        ensures
            r.wf(),
            r.tokens() == Seq::<Seq<u8>>::empty(),
    {
        let r = Self { tokens: Vec::new(), data: Vec::new() };
        proof {
            assert(r.tokens() =~= Seq::<Seq<u8>>::empty());
        }
        r
    }

    #[verifier::rlimit(100)]
    fn build<'a>(grams: &Vec<Gram<'a>>) -> (r: Result<Self, LmError>) {
        let ghost ts = grams@.map_values(|g: Gram<'a>| g@);
        let n = grams.len();
        if n == 0 {
            let r = Self { tokens: Vec::new(), data: Vec::new() };
            proof {
                assert(r.tokens() =~= ts);
            }
            return Ok(r);
        }
        // Copy the tokens, rejecting any byte the automaton cannot store.
        let mut tokens: Vec<Vec<u8>> = Vec::new();
        let mut i: usize = 0;
        while i < n
            invariant
                0 <= i <= n,
                n == grams@.len(),
                ts == grams@.map_values(|g: Gram<'a>| g@),
                tokens@.len() == i,
                forall|j: int| 0 <= j < i ==> #[trigger] tokens@[j]@ == ts[j],
                forall|j: int| 0 <= j < i ==> valid_token(#[trigger] ts[j]),
            decreases n - i,
        {
            let g = grams[i];
            if !check_token(g.raw()) {
                proof {
                    assert(ts[i as int] == g@);
                    assert(!all_valid_tokens(ts));
                }
                return Err(LmError::InvalidToken);
            }
            tokens.push(g.to_vec());
            i += 1;
        }
        // Bound what the automaton would have to hold.
        if n >= 0x0800_0000 {
            proof {
                lemma_tokens_total_bytes_nonneg(ts);
            }
            return Err(LmError::TooLarge);
        }
        let mut total: usize = n;
        let mut i: usize = 0;
        while i < n
            invariant
                0 <= i <= n,
                n == tokens@.len() == ts.len(),
                ts == grams@.map_values(|g: Gram<'a>| g@),
                forall|j: int| 0 <= j < n ==> #[trigger] tokens@[j]@ == ts[j],
                forall|j: int| 0 <= j < n ==> valid_token(#[trigger] ts[j]),
                total as int == n + tokens_total_bytes(ts.subrange(0, i as int)),
                total < 0x0800_0000,
            decreases n - i,
        {
            proof {
                assert(ts.subrange(0, i + 1).drop_last() =~= ts.subrange(0, i as int));
            }
            let l = tokens[i].len();
            if l >= 0x0800_0000 - total {
                proof {
                    lemma_tokens_total_bytes_prefix(ts, i + 1);
                }
                return Err(LmError::TooLarge);
            }
            total += l;
            i += 1;
        }
        proof {
            assert(ts.subrange(0, n as int) =~= ts);
        }
        // Insert each (token, id) pair at its sorted slot, spotting duplicates.
        let mut keyset: Vec<(Vec<u8>, u32)> = Vec::new();
        let mut i: usize = 0;
        while i < n
            invariant
                0 <= i <= n,
                n == tokens@.len() == ts.len(),
                n < 0x0800_0000,
                n + tokens_total_bytes(ts) < 0x0800_0000,
                ts == grams@.map_values(|g: Gram<'a>| g@),
                forall|j: int| 0 <= j < n ==> #[trigger] tokens@[j]@ == ts[j],
                forall|j: int| 0 <= j < n ==> valid_token(#[trigger] ts[j]),
                keyset@.len() == i,
                keyset_sorted(keyset@.map_values(|kv: (Vec<u8>, u32)| (kv.0@, kv.1))),
                da_keyset_bytes(keyset@.map_values(|kv: (Vec<u8>, u32)| (kv.0@, kv.1)))
                    == tokens_total_bytes(ts.subrange(0, i as int)),
                forall|j: int| 0 <= j < i ==> {
                    let v = (#[trigger] keyset@[j]).1 as int;
                    0 <= v < i && keyset@[j].0@ == ts[v]
                },
                forall|v: int| 0 <= v < i ==> covered(keyset@, ts, v),
                forall|i2: int, j2: int| 0 <= i2 < j2 < i ==> ts[i2] != ts[j2],
            decreases n - i,
        {
            let key = &tokens[i];
            let mut p: usize = 0;
            while p < i && lex_less(keyset[p].0.as_slice(), key.as_slice())
                invariant
                    0 <= p <= i,
                    keyset@.len() == i,
                    n == tokens@.len() == ts.len(),
                    0 <= i < n,
                    key@ == tokens@[i as int]@,
                    forall|j: int| 0 <= j < p ==> lex_lt(#[trigger] keyset@[j].0@, key@),
                decreases i - p,
            {
                p += 1;
            }
            if p < i && bytes_eq(keyset[p].0.as_slice(), key.as_slice()) {
                proof {
                    let v = keyset@[p as int].1 as int;
                    assert(ts[v] == ts[i as int]);
                    assert(!distinct_seqs(ts));
                }
                return Err(LmError::DuplicateToken);
            }
            proof {
                let ks = keyset@.map_values(|kv: (Vec<u8>, u32)| (kv.0@, kv.1));
                if p < i {
                    lemma_lex_total(keyset@[p as int].0@, key@);
                    lemma_lex_asym(keyset@[p as int].0@, key@);
                    assert(lex_lt(key@, ks[p as int].0));
                }
                // The new token differs from every earlier one.
                assert forall|v: int| 0 <= v < i implies ts[v] != ts[i as int] by {
                    assert(covered(keyset@, ts, v));
                    let j = choose|j: int|
                        0 <= j < keyset@.len() && (#[trigger] keyset@[j]).1 as int == v
                            && keyset@[j].0@ == ts[v];
                    if j < p {
                        lemma_lex_asym(ks[j].0, key@);
                    } else if j == p {
                    } else {
                        if p < i {
                            lemma_keyset_sorted_pairwise(ks, p as int, j);
                            lemma_lex_trans(key@, ks[p as int].0, ks[j].0);
                            lemma_lex_asym(key@, ks[j].0);
                        }
                    }
                }
            }
            let ghost old_keyset = keyset@;
            let kcopy = vstd::slice::slice_to_vec(key.as_slice());
            keyset.insert(p, (kcopy, i as u32));
            proof {
                let ks = keyset@.map_values(|kv: (Vec<u8>, u32)| (kv.0@, kv.1));
                let oks = old_keyset.map_values(|kv: (Vec<u8>, u32)| (kv.0@, kv.1));
                assert(keyset@ == old_keyset.insert(p as int, (kcopy, i as u32)));
                assert(ks =~= oks.insert(p as int, (kcopy@, i as u32)));
                lemma_da_keyset_bytes_insert(oks, p as int, (kcopy@, i as u32));
                assert(ts.subrange(0, i + 1).drop_last() =~= ts.subrange(0, i as int));
                assert forall|j: int| 0 <= j < ks.len() - 1 implies lex_lt(
                    #[trigger] ks[j].0,
                    ks[j + 1].0,
                ) by {
                    if j + 1 < p {
                        assert(ks[j] == oks[j] && ks[j + 1] == oks[j + 1]);
                    } else if j + 1 == p {
                        assert(ks[j] == oks[j] && ks[j + 1].0 == key@);
                    } else if j == p {
                        assert(ks[j].0 == key@ && ks[j + 1] == oks[j]);
                    } else {
                        assert(ks[j] == oks[j - 1] && ks[j + 1] == oks[j]);
                    }
                }
                assert forall|j: int| 0 <= j < keyset@.len() implies {
                    let v = (#[trigger] keyset@[j]).1 as int;
                    0 <= v < i + 1 && keyset@[j].0@ == ts[v]
                } by {
                    if j < p {
                        assert(keyset@[j] == old_keyset[j]);
                    } else if j == p {
                        assert(keyset@[j] == (kcopy, i as u32));
                    } else {
                        assert(keyset@[j] == old_keyset[j - 1]);
                    }
                }
                assert forall|v: int| 0 <= v < i + 1 implies covered(keyset@, ts, v) by {
                    if v == i {
                        assert(keyset@[p as int].1 as int == v && keyset@[p as int].0@ == ts[v]);
                    } else {
                        assert(covered(old_keyset, ts, v));
                        let j = choose|j: int|
                            0 <= j < old_keyset.len() && (#[trigger] old_keyset[j]).1 as int == v
                                && old_keyset[j].0@ == ts[v];
                        if j < p {
                            assert(keyset@[j].1 as int == v && keyset@[j].0@ == ts[v]);
                        } else {
                            assert(keyset@[j + 1].1 as int == v && keyset@[j + 1].0@ == ts[v]);
                        }
                    }
                }
            }
            i += 1;
        }
        proof {
            assert(ts.subrange(0, n as int) =~= ts);
        }
        let data = da_build(&keyset);
        let r = Self { tokens, data };
        proof {
            assert(r.tokens() =~= ts);
            let ks = keyset@.map_values(|kv: (Vec<u8>, u32)| (kv.0@, kv.1));
            assert forall|k: Seq<u8>| da_key(k) implies #[trigger] da_search(r.data@, k) == (
            match token_index(r.tokens(), k) {
                Some(idx) => Some(idx as u32),
                None => None::<u32>,
            }) by {
                lemma_token_index(r.tokens(), k);
                match token_index(r.tokens(), k) {
                    Some(idx) => {
                        assert(covered(keyset@, ts, idx));
                        let j = choose|j: int|
                            0 <= j < keyset@.len() && (#[trigger] keyset@[j]).1 as int == idx
                                && keyset@[j].0@ == ts[idx];
                        assert(keyset@[j].0@ == k);
                        assert(da_search(r.data@, keyset@[j].0@) == Some(keyset@[j].1));
                    },
                    None => {
                        assert forall|j: int| 0 <= j < keyset@.len() implies #[trigger] keyset@[j].0@
                            != k by {
                            let v = keyset@[j].1 as int;
                            assert(keyset@[j].0@ == ts[v]);
                            assert(r.tokens()[v] != k);
                        }
                    },
                }
            }
        }
        Ok(r)
    }

    fn num_tokens(&self) -> (r: usize) {
        self.tokens.len()
    }

    fn token_at<'a>(&'a self, i: usize) -> (r: &'a [u8]) {
        self.tokens[i].as_slice()
    }

    fn get<'a>(&self, token: Gram<'a>) -> (r: Option<usize>) {
        proof {
            lemma_token_index(self.tokens(), token@);
        }
        if self.tokens.len() == 0 {
            return None;
        }
        if !check_token(token.raw()) {
            // An invalid byte string can never be a stored token.
            proof {
                if token_index(self.tokens(), token@) is Some {
                    let i = token_index(self.tokens(), token@).unwrap();
                    assert(valid_token(self.tokens()[i]));
                }
            }
            return None;
        }
        match da_exact_match_search(&self.data, token.raw()) {
            Some(v) => {
                proof {
                    assert(da_search(self.data@, token@) == Some(v));
                }
                Some(v as usize)
            },
            None => None,
        }
    }
}

} // verus!
