//! Indexing of large N-gram count collections in compressed space.
//!
//! The crate stores a set of N-grams together with their frequency counts in
//! an Elias-Fano-encoded trie and answers exact-match count queries over it.
//! Models are built once from per-order sorted text streams, then frozen,
//! serialized and queried read-only.

use vstd::prelude::*;

pub mod codec;
pub mod double_array;
pub mod error;
pub mod gram;
pub mod grams_sequence;
pub mod loader;
pub mod mappers;
pub mod parser;
pub mod rank_array;
pub mod record;
pub mod sequence_collection;
pub mod serial;
pub mod sorted_array;
pub mod specs;
pub mod succinct;
pub mod trie_array;
pub mod trie_count_lm;
pub mod util;
pub mod vocabulary;

verus! {

/// The maximum order of N-grams (i.e., `1 <= N <= 8`).
pub const MAX_ORDER: usize = 8;

/// The separator between the tokens of a gram.
pub const TOKEN_SEPARATOR: u8 = 32;

/// The separator between a gram and its count.
pub const GRAM_COUNT_SEPARATOR: u8 = 9;

/// Simple configuration of [`TrieCountLm`], for small models and checks.
pub type SimpleTrieCountLm = TrieCountLm<
    trie_array::SimpleTrieArray,
    vocabulary::SimpleVocabulary,
    rank_array::SimpleRankArray,
>;

/// Elias-Fano trie configuration of [`TrieCountLm`]: the compressed form.
pub type EliasFanoTrieCountLm = TrieCountLm<
    trie_array::EliasFanoTrieArray,
    vocabulary::DoubleArrayVocabulary,
    rank_array::EliasFanoRankArray,
>;

} // verus!

pub use gram::Gram;
pub use loader::GramsFileFormats;
pub use loader::GramsTextLoader;
pub use parser::GramsParser;
pub use record::CountRecord;
pub use trie_count_lm::TrieCountLm;
pub use vocabulary::Vocabulary;
