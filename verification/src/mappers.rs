//! Mapping a query gram onto its token identifiers.

use vstd::prelude::*;
use vstd::string::StringSliceAdditionalSpecFns;

use crate::gram::{split_bytes, Gram};
use crate::sequence_collection::seq_view;
use crate::vocabulary::{token_index, Vocabulary};
use crate::MAX_ORDER;

verus! {

/// Whether every piece of the query is a known token.
pub open spec fn all_known(tokens: Seq<Seq<u8>>, toks: Seq<Seq<u8>>) -> bool {
    forall|i: int| 0 <= i < toks.len() ==> #[trigger] token_index(tokens, toks[i]) is Some
}

/// The identifiers of the query pieces.
pub open spec fn ids_of(tokens: Seq<Seq<u8>>, toks: Seq<Seq<u8>>) -> Seq<int> {
    Seq::new(toks.len(), |i: int| token_index(tokens, toks[i]).unwrap())
}

/// Maps the tokens of a query gram onto their identifiers, rejecting grams
/// that are too long or hold an unknown token.
pub struct SortedArrayMapper {
    mapped: Vec<usize>,
}

impl SortedArrayMapper {
    /// The identifiers of the last successfully mapped query.
    pub closed spec fn ids(&self) -> Seq<int> {
        seq_view(self.mapped@)
    }

    /// Maps a gram's tokens, reporting whether all of them are known.
    pub fn from_gram<'a, V: Vocabulary>(&mut self, gram: Gram<'a>, vocab: &V) -> (r: bool)
        requires
            vocab.wf(),
        ensures
            ({
                let toks = split_bytes(gram@);
                &&& r <==> (toks.len() <= MAX_ORDER as int && all_known(vocab.tokens(), toks))
                &&& r ==> final(self).ids() == ids_of(vocab.tokens(), toks)
            }),
    {
        let toks = gram.split_to_tokens();
        let ghost tokseq = split_bytes(gram@);
        if toks.len() > MAX_ORDER {
            return false;
        }
        self.mapped.clear();
        let n = toks.len();
        let mut i: usize = 0;
        while i < n
            invariant
                0 <= i <= n,
                n == toks@.len(),
                vocab.wf(),
                tokseq == toks@.map_values(|g: Gram<'a>| g@),
                tokseq == split_bytes(gram@),
                self.mapped@.len() == i,
                forall|j: int| 0 <= j < i ==> #[trigger] token_index(vocab.tokens(), tokseq[j])
                    is Some,
                forall|j: int| 0 <= j < i ==> (#[trigger] self.mapped@[j] as int) == token_index(
                    vocab.tokens(),
                    tokseq[j],
                ).unwrap(),
            decreases n - i,
        {
            proof {
                assert(tokseq[i as int] == toks@[i as int]@);
            }
            match vocab.get(toks[i]) {
                Some(id) => {
                    self.mapped.push(id);
                },
                None => {
                    proof {
                        assert(token_index(vocab.tokens(), tokseq[i as int]) is None);
                    }
                    return false;
                },
            }
            i += 1;
        }
        proof {
            assert(self.ids() =~= ids_of(vocab.tokens(), tokseq));
        }
        true
    }

    /// Maps a list of token strings, reporting whether all of them are known.
    pub fn from_tokens<'a, V: Vocabulary>(&mut self, tokens: &Vec<&'a str>, vocab: &V) -> (r: bool)
        requires
            vocab.wf(),
        ensures
            ({
                let toks = tokens@.map_values(|t: &str| t.spec_bytes());
                &&& r <==> (toks.len() <= MAX_ORDER as int && all_known(vocab.tokens(), toks))
                &&& r ==> final(self).ids() == ids_of(vocab.tokens(), toks)
            }),
    {
        let ghost tokseq = tokens@.map_values(|t: &str| t.spec_bytes());
        if tokens.len() > MAX_ORDER {
            return false;
        }
        self.mapped.clear();
        let n = tokens.len();
        let mut i: usize = 0;
        while i < n
            invariant
                0 <= i <= n,
                n == tokens@.len(),
                vocab.wf(),
                tokseq == tokens@.map_values(|t: &str| t.spec_bytes()),
                self.mapped@.len() == i,
                forall|j: int| 0 <= j < i ==> #[trigger] token_index(vocab.tokens(), tokseq[j])
                    is Some,
                forall|j: int| 0 <= j < i ==> (#[trigger] self.mapped@[j] as int) == token_index(
                    vocab.tokens(),
                    tokseq[j],
                ).unwrap(),
            decreases n - i,
        {
            let g = Gram::from_str(tokens[i]);
            proof {
                assert(tokseq[i as int] == tokens@[i as int].spec_bytes());
            }
            match vocab.get(g) {
                Some(id) => {
                    self.mapped.push(id);
                },
                None => {
                    proof {
                        assert(token_index(vocab.tokens(), tokseq[i as int]) is None);
                    }
                    return false;
                },
            }
            i += 1;
        }
        proof {
            assert(self.ids() =~= ids_of(vocab.tokens(), tokseq));
        }
        true
    }

    /// Gets the mapped identifiers.
    pub fn get(&self) -> (r: &[usize])
        ensures
            seq_view(r@) == self.ids(),
    {
        self.mapped.as_slice()
    }

    /// The number of mapped identifiers.
    pub fn len(&self) -> (r: usize)
        ensures
            r as int == self.ids().len(),
    {
        self.mapped.len()
    }

    /// The mapped identifier at position `i`.
    pub fn id_at(&self, i: usize) -> (r: usize)
        requires
            0 <= i < self.ids().len(),
        ensures
            r as int == self.ids()[i as int],
    {
        self.mapped[i]
    }
}

impl Default for SortedArrayMapper {
    fn default() -> (r: Self)
        ensures
            r.ids() == Seq::<int>::empty(),
    {
        let r = Self { mapped: Vec::new() };
        proof {
            assert(r.ids() =~= Seq::<int>::empty());
        }
        r
    }
}

} // verus!
