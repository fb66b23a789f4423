//! Trusted declarations of the `yada` double-array trie: the automaton bytes
//! that map token byte strings to dense values.

use vstd::prelude::*;

use crate::specs::lex_lt;

verus! {

/// What `yada::DoubleArray::exact_match_search` returns on the automaton
/// bytes `data` for `key`; the result depends on those bytes alone.
pub uninterp spec fn da_search(data: Seq<u8>, key: Seq<u8>) -> Option<u32>;

/// Whether `data` is the byte image of a successful `yada` build; searching
/// anything else may abort, so the search wrapper asks for it.
pub uninterp spec fn da_valid(data: Seq<u8>) -> bool;

/// A key the automaton can store: non-empty bytes without the NUL byte that
/// `yada` uses as its terminator.
pub open spec fn da_key(k: Seq<u8>) -> bool {
    k.len() > 0 && forall|i: int| 0 <= i < k.len() ==> k[i] != 0u8
}

/// A keyset `yada` accepts: strictly sorted keys and values below `2^31`.
pub open spec fn da_keyset(keyset: Seq<(Seq<u8>, u32)>) -> bool {
    &&& forall|i: int| 0 <= i < keyset.len() ==> da_key(#[trigger] keyset[i].0)
    &&& forall|i: int| 0 <= i < keyset.len() - 1 ==> lex_lt(
        #[trigger] keyset[i].0,
        keyset[i + 1].0,
    )
    &&& forall|i: int| 0 <= i < keyset.len() ==> (#[trigger] keyset[i].1 as int) < 0x8000_0000
}

/// The sum of the key lengths of a keyset.
pub open spec fn da_keyset_bytes(keyset: Seq<(Seq<u8>, u32)>) -> int
    decreases keyset.len(),
{
    if keyset.len() == 0 {
        0
    } else {
        da_keyset_bytes(keyset.drop_last()) + keyset.last().0.len()
    }
}

/// Relies on `yada::builder::DoubleArrayBuilder::build`: on a sorted keyset
/// of distinct, non-empty, NUL-free keys it builds an automaton whose exact
/// search finds each key's value and nothing else.
#[verifier::external_body]
pub fn da_build(keyset: &Vec<(Vec<u8>, u32)>) -> (r: Vec<u8>)
    requires
        keyset@.len() > 0,
        da_keyset(keyset@.map_values(|kv: (Vec<u8>, u32)| (kv.0@, kv.1))),
        keyset@.len() + da_keyset_bytes(keyset@.map_values(|kv: (Vec<u8>, u32)| (kv.0@, kv.1)))
            < 0x0800_0000,
    ensures
        da_valid(r@),
        forall|i: int| 0 <= i < keyset@.len() ==> da_search(r@, #[trigger] keyset@[i].0@)
            == Some(keyset@[i].1),
        forall|k: Seq<u8>| da_key(k) && (forall|i: int|
            0 <= i < keyset@.len() ==> #[trigger] keyset@[i].0@ != k) ==> #[trigger] da_search(
            r@,
            k,
        ) is None,
{
    let mut ks: Vec<(&[u8], u32)> = Vec::with_capacity(keyset.len());
    for kv in keyset.iter() {
        ks.push((kv.0.as_slice(), kv.1));
    }
    yada::builder::DoubleArrayBuilder::build(&ks[..]).unwrap()
}

/// Relies on `yada::DoubleArray::exact_match_search`: deterministic traversal
/// of a well-built automaton.
#[verifier::external_body]
pub fn da_exact_match_search(data: &Vec<u8>, key: &[u8]) -> (r: Option<u32>)
    requires
        da_valid(data@),
        da_key(key@),
    ensures
        r == da_search(data@, key@),
{
    let da = yada::DoubleArray::new(data.as_slice());
    da.exact_match_search(key)
}

} // verus!
