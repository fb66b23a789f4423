use tongrams::gram::Gram;
use tongrams::grams_sequence::SimpleGramsSequence;
use tongrams::sorted_array::SortedArrayBuilder;
use tongrams::trie_array::builder::TrieLayerBuilder;
use tongrams::mappers::SortedArrayMapper;
use tongrams::trie_count_lm::builder::CountsBuilder;
use tongrams::rank_array::{EliasFanoRankArray, RankArray, SimpleRankArray};
use tongrams::sequence_collection::{SequenceCollection, SequenceCollectionBuilder};
use tongrams::trie_array::{EliasFanoTrieArray, SimpleTrieArray, TrieArray};
use tongrams::vocabulary::{DoubleArrayVocabulary, SimpleVocabulary, Vocabulary};

fn rank_array_case<A: RankArray>() {
    let count_ranks = vec![3, 0, 0, 0, 1, 2, 0, 1, 1];
    let ra = A::build(count_ranks.clone()).unwrap();
    for (i, &x) in count_ranks.iter().enumerate() {
        assert_eq!(ra.get(i), x);
    }
    assert_eq!(ra.len(), count_ranks.len());
    assert!(!ra.is_empty());
}

#[test]
fn rank_array_test_basic_simple() {
    rank_array_case::<SimpleRankArray>();
}

#[test]
fn rank_array_test_basic_ef() {
    rank_array_case::<EliasFanoRankArray>();
}

#[test]
fn sequence_collection_test_basic() {
    let seqs = vec![vec![2, 2, 1, 2, 4, 2, 1, 2, 1], vec![2, 1, 2, 1, 1, 1]];

    let mut scb = SequenceCollectionBuilder::default();
    for seq in &seqs {
        for &x in seq {
            scb.eat_value(x);
        }
        scb.build_sequence();
    }

    assert_eq!(scb.rank(0, 1), Some(1));
    assert_eq!(scb.rank(0, 2), Some(0));
    assert_eq!(scb.rank(0, 3), None);
    assert_eq!(scb.rank(0, 4), Some(2));
    assert_eq!(scb.rank(1, 1), Some(0));
    assert_eq!(scb.rank(1, 2), Some(1));

    let sc = SequenceCollection::new(scb);
    assert_eq!(sc.access(0, 0), 2);
    assert_eq!(sc.access(0, 1), 1);
    assert_eq!(sc.access(0, 2), 4);
    assert_eq!(sc.access(1, 0), 1);
    assert_eq!(sc.access(1, 1), 2);
}

fn trie_array_case_1<T: TrieArray>() {
    let token_ids = vec![0, 2, 1, 2, 3, 0, 3, 1, 3];
    let pointers = vec![0, 2, 5, 7, 9];
    let ta = T::build(token_ids.clone(), pointers.clone()).unwrap();

    for (i, &x) in token_ids.iter().enumerate() {
        assert_eq!(ta.token_id(i), x);
    }
    for i in 0..pointers.len() - 1 {
        assert_eq!(ta.range(i), (pointers[i], pointers[i + 1]));
    }

    assert_eq!(ta.find_token(1, 3), Some(4));
    assert_eq!(ta.find_token(1, 1), Some(2));
    assert_eq!(ta.find_token(1, 4), None);

    assert_eq!(ta.num_tokens(), 9);
    assert_eq!(ta.num_pointers(), 5);
}

fn trie_array_case_2<T: TrieArray>() {
    let token_ids = vec![2, 2, 3, 3, 1, 2, 3];
    let pointers = vec![0, 1, 1, 3, 4, 4, 4, 4, 6, 7];
    let ta = T::build(token_ids.clone(), pointers.clone()).unwrap();

    for (i, &x) in token_ids.iter().enumerate() {
        assert_eq!(ta.token_id(i), x);
    }
    for i in 0..pointers.len() - 1 {
        assert_eq!(ta.range(i), (pointers[i], pointers[i + 1]));
    }

    assert_eq!(ta.find_token(2, 2), Some(1));
    assert_eq!(ta.find_token(2, 3), Some(2));
    assert_eq!(ta.find_token(2, 4), None);

    assert_eq!(ta.num_tokens(), 7);
    assert_eq!(ta.num_pointers(), 10);
}

#[test]
fn trie_array_test_basic_simple() {
    trie_array_case_1::<SimpleTrieArray>();
    trie_array_case_2::<SimpleTrieArray>();
}

#[test]
fn test_basic_ef() {
    trie_array_case_1::<EliasFanoTrieArray>();
    trie_array_case_2::<EliasFanoTrieArray>();
}

#[test]
fn vocabulary_test_basic() {
    let grams = vec![
        Gram::from_str("A"),
        Gram::from_str("D"),
        Gram::from_str("B"),
    ];

    let vocab = SimpleVocabulary::build(&grams).unwrap();
    assert_eq!(vocab.get(Gram::from_str("A")), Some(0));
    assert_eq!(vocab.get(Gram::from_str("B")), Some(2));
    assert_eq!(vocab.get(Gram::from_str("C")), None);
    assert_eq!(vocab.get(Gram::from_str("D")), Some(1));

    let vocab = DoubleArrayVocabulary::build(&grams).unwrap();
    assert_eq!(vocab.get(Gram::from_str("A")), Some(0));
    assert_eq!(vocab.get(Gram::from_str("B")), Some(2));
    assert_eq!(vocab.get(Gram::from_str("C")), None);
    assert_eq!(vocab.get(Gram::from_str("D")), Some(1));
}

#[test]
fn vocabulary_rejects_duplicates() {
    let grams = vec![Gram::from_str("A"), Gram::from_str("A")];
    assert!(matches!(
        DoubleArrayVocabulary::build(&grams),
        Err(tongrams::error::LmError::DuplicateToken)
    ));
    assert!(matches!(
        SimpleVocabulary::build(&grams),
        Err(tongrams::error::LmError::DuplicateToken)
    ));
}

#[test]
fn mappers_test_basic() {
    let grams = vec![
        Gram::from_str("A"),
        Gram::from_str("D"),
        Gram::from_str("B"),
    ];
    let vocab = SimpleVocabulary::build(&grams).unwrap();
    let mut mapper = SortedArrayMapper::default();

    assert_eq!(mapper.from_gram(Gram::from_str("A B D"), &vocab), true);
    assert_eq!(mapper.get(), &[0, 2, 1][..]);
    assert_eq!(mapper.from_gram(Gram::from_str("E B"), &vocab), false);

    assert_eq!(mapper.from_tokens(&vec!["A", "B", "D"], &vocab), true);
    assert_eq!(mapper.get(), &[0, 2, 1][..]);
    assert_eq!(mapper.from_tokens(&vec!["E", "B"], &vocab), false);
}

#[test]
fn builder_test_basic() {
    let seqs = vec![vec![2, 2, 1, 2, 4, 2, 1, 2, 1], vec![2, 1, 2, 1, 1, 1]];

    let mut scb = CountsBuilder::new();
    for seq in &seqs {
        for &x in seq {
            scb.eat_value(x);
        }
        scb.build_sequence();
    }

    assert_eq!(scb.rank(0, 1), Some(1));
    assert_eq!(scb.rank(0, 2), Some(0));
    assert_eq!(scb.rank(0, 3), None);
    assert_eq!(scb.rank(0, 4), Some(2));
    assert_eq!(scb.rank(1, 1), Some(0));
    assert_eq!(scb.rank(1, 2), Some(1));

    let counts = scb.release();
    assert_eq!(counts[0].get(0), 2);
    assert_eq!(counts[0].get(1), 1);
    assert_eq!(counts[0].get(2), 4);
    assert_eq!(counts[1].get(0), 1);
    assert_eq!(counts[1].get(1), 2);
}

#[test]
fn grams_sequence_basic() {
    let token_ids = vec![4, 1, 2, 4, 3, 2, 2, 4];
    let seq = SimpleGramsSequence::new(&token_ids);
    assert_eq!(seq.get(1), 1);
    assert_eq!(seq.get(3), 4);
    assert_eq!(seq.position((1, 4), 2), Some(2));
    assert_eq!(seq.position((1, 4), 3), None);
}

#[test]
fn sorted_array_builder_basic() {
    let mut b = SortedArrayBuilder::new(3, 0, 0, 0);
    b.add(5, 1);
    b.add(7, 0);
    b.add(9, 2);
    let sa = b.release(vec![0, 1, 3]);
    assert_eq!(sa.token_id(0), 5);
    assert_eq!(sa.token_id(2), 9);
    assert_eq!(sa.count_rank(1), 0);
    assert_eq!(sa.range(1), (1, 3));
    assert_eq!(sa.position((1, 3), 9), Some(2));
    assert_eq!(sa.position((1, 3), 5), None);
}

#[test]
fn trie_layer_builder_basic() {
    let mut b = TrieLayerBuilder::new(2, 0, 0, 0);
    b.add(3, 0);
    b.add_count_rank(1);
    let sa = b.release(vec![0, 1]);
    assert_eq!(sa.token_id(0), 3);
    assert_eq!(sa.count_rank(0), 0);
    assert_eq!(sa.count_rank(1), 1);
}

#[test]
fn no_orders_rejected() {
    let r = tongrams::EliasFanoTrieCountLm::from_texts(vec![]);
    assert!(matches!(r, Err(tongrams::error::LmError::NoOrders)));
}
