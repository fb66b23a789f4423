use tongrams::error::LmError;
use tongrams::trie_count_lm::builder::CountsBuilder;
use tongrams::rank_array::RankArray;
use tongrams::trie_array::TrieArray;
use tongrams::vocabulary::Vocabulary;
use tongrams::{EliasFanoTrieCountLm, Gram, GramsParser, SimpleTrieCountLm};

const GRAMS_1: &'static str = "4
A\t10
B\t7
C\t1
D\t1
";

const GRAMS_2: &'static str = "9
A A\t5
A C\t2
B B\t2
B C\t2
B D\t1
C A\t3
C D\t2
D B\t1
D D\t1
";

const GRAMS_3: &'static str = "7
A A C\t4
B B C\t2
B B D\t1
B C D\t1
D B B\t2
D B C\t1
D D D\t1
";

const A: usize = 0;
const B: usize = 1;
const C: usize = 2;
const D: usize = 3;

fn test_vocabulary<V: Vocabulary>(vocab: &V) {
    assert_eq!(vocab.get(Gram::from_str("A")), Some(A));
    assert_eq!(vocab.get(Gram::from_str("B")), Some(B));
    assert_eq!(vocab.get(Gram::from_str("C")), Some(C));
    assert_eq!(vocab.get(Gram::from_str("D")), Some(D));
}

fn test_unigrams<A2: RankArray>(ra: &A2) {
    for (i, &count_rank) in [2, 1, 0, 0].iter().enumerate() {
        assert_eq!(ra.get(i), count_rank);
    }
}

fn test_bigrams<T: TrieArray, A2: RankArray>(ta: &T, ra: &A2) {
    for (i, &token_id) in [A, C, B, C, D, A, D, B, D].iter().enumerate() {
        assert_eq!(ta.token_id(i), token_id);
    }
    for (i, &range) in [(0, 2), (2, 5), (5, 7), (7, 9)].iter().enumerate() {
        assert_eq!(ta.range(i), range);
    }
    for (i, &count_rank) in [3, 0, 0, 0, 1, 2, 0, 1, 1].iter().enumerate() {
        assert_eq!(ra.get(i), count_rank);
    }
}

fn test_trigrams<T: TrieArray, A2: RankArray>(ta: &T, ra: &A2) {
    for (i, &token_id) in [C, C, D, D, B, C, D].iter().enumerate() {
        assert_eq!(ta.token_id(i), token_id);
    }
    for (i, &range) in [
        (0, 1),
        (1, 1),
        (1, 3),
        (3, 4),
        (4, 4),
        (4, 4),
        (4, 4),
        (4, 6),
        (6, 7),
    ]
    .iter()
    .enumerate()
    {
        assert_eq!(ta.range(i), range);
    }
    for (i, &count_rank) in [2, 1, 0, 0, 1, 0, 0].iter().enumerate() {
        assert_eq!(ra.get(i), count_rank);
    }
}

#[test]
fn trie_count_lm_test_simple_components() {
    let lm = SimpleTrieCountLm::from_texts(vec![GRAMS_1, GRAMS_2, GRAMS_3]).unwrap();
    test_vocabulary(&lm.vocab);
    test_unigrams(&lm.count_ranks[0]);
    test_bigrams(&lm.arrays[0], &lm.count_ranks[1]);
    test_trigrams(&lm.arrays[1], &lm.count_ranks[2]);
}

#[test]
fn test_ef_components() {
    let lm = EliasFanoTrieCountLm::from_texts(vec![GRAMS_1, GRAMS_2, GRAMS_3]).unwrap();
    test_vocabulary(&lm.vocab);
    test_unigrams(&lm.count_ranks[0]);
    test_bigrams(&lm.arrays[0], &lm.count_ranks[1]);
    test_trigrams(&lm.arrays[1], &lm.count_ranks[2]);
}

#[test]
fn test_simple_lookup() {
    let lm = SimpleTrieCountLm::from_texts(vec![GRAMS_1, GRAMS_2, GRAMS_3]).unwrap();
    let mut lookuper = lm.lookuper();

    for text in [GRAMS_1, GRAMS_2, GRAMS_3] {
        let mut gp = GramsParser::new(text.as_bytes()).unwrap();
        while let Some(rec) = gp.next_count_record() {
            let rec = rec.unwrap();
            assert_eq!(lookuper.run(rec.gram()), Some(rec.count()));
        }
    }

    assert_eq!(lookuper.run(Gram::from_str("E")), None);
    assert_eq!(lookuper.run(Gram::from_str("B A")), None);
    assert_eq!(lookuper.run(Gram::from_str("B B A")), None);
}

#[test]
fn test_ef_lookup() {
    let lm = EliasFanoTrieCountLm::from_texts(vec![GRAMS_1, GRAMS_2, GRAMS_3]).unwrap();
    let mut lookuper = lm.lookuper();

    for text in [GRAMS_1, GRAMS_2, GRAMS_3] {
        let mut gp = GramsParser::new(text.as_bytes()).unwrap();
        while let Some(rec) = gp.next_count_record() {
            let rec = rec.unwrap();
            assert_eq!(lookuper.run(rec.gram()), Some(rec.count()));
        }
    }

    assert_eq!(lookuper.run(Gram::from_str("E")), None);
    assert_eq!(lookuper.run(Gram::from_str("B A")), None);
    assert_eq!(lookuper.run(Gram::from_str("B B A")), None);
}

#[test]
fn test_lookup_by_order() {
    let lm = EliasFanoTrieCountLm::from_texts(vec![GRAMS_1, GRAMS_2, GRAMS_3]).unwrap();
    let mut lookuper = lm.lookuper();
    assert_eq!(lookuper.with_str("A"), Some(10));
    assert_eq!(lookuper.with_str("D"), Some(1));
    assert_eq!(lookuper.with_str("E"), None);
    assert_eq!(lookuper.with_str("A A"), Some(5));
    assert_eq!(lookuper.with_str("B A"), None);
    assert_eq!(lookuper.with_str("B B D"), Some(1));
    assert_eq!(lookuper.with_str("B B A"), None);
    assert_eq!(lookuper.with_str("D D D"), Some(1));
}

#[test]
fn test_order2_rank_dictionary() {
    let mut cb = CountsBuilder::new();
    for c in [5, 2, 2, 2, 1, 3, 2, 1, 1] {
        cb.eat_value(c);
    }
    cb.build_sequence();
    assert_eq!(cb.rank(0, 2), Some(0));
    assert_eq!(cb.rank(0, 1), Some(1));
    assert_eq!(cb.rank(0, 3), Some(2));
    assert_eq!(cb.rank(0, 5), Some(3));
    let counts = cb.release();
    for c in [5, 2, 1, 3] {
        let rank = match c {
            2 => 0,
            1 => 1,
            3 => 2,
            _ => 3,
        };
        assert_eq!(counts[0].get(rank), c);
    }
}

#[test]
fn test_max_order_build() {
    let mut texts: Vec<String> = vec!["1\nA\t1\n".to_string()];
    let mut gram = "A".to_string();
    for _ in 2..=8 {
        gram.push_str(" A");
        texts.push(format!("1\n{}\t1\n", gram));
    }
    let refs: Vec<&str> = texts.iter().map(|s| s.as_str()).collect();
    let lm = EliasFanoTrieCountLm::from_texts(refs).unwrap();
    assert_eq!(lm.num_orders(), 8);
    let mut lookuper = lm.lookuper();
    assert_eq!(lookuper.with_str("A A A A A A A A"), Some(1));

    let mut texts9 = texts.clone();
    texts9.push("1\nA A A A A A A A A\t1\n".to_string());
    let refs9: Vec<&str> = texts9.iter().map(|s| s.as_str()).collect();
    assert!(matches!(
        EliasFanoTrieCountLm::from_texts(refs9),
        Err(LmError::TooManyOrders)
    ));
}

#[test]
fn test_single_token_vocabulary() {
    let lm = EliasFanoTrieCountLm::from_texts(vec!["1\nZ\t42\n"]).unwrap();
    let mut lookuper = lm.lookuper();
    assert_eq!(lookuper.with_str("Z"), Some(42));
    assert_eq!(lookuper.with_str("Y"), None);
}

#[test]
fn test_missing_parent_rejected() {
    let r = EliasFanoTrieCountLm::from_texts(vec!["1\nA\t1\n", "0\n", "1\nA A A\t1\n"]);
    assert!(matches!(r, Err(LmError::MissingParent)));
}

#[test]
fn test_separator_in_token_rejected() {
    let r = EliasFanoTrieCountLm::from_texts(vec!["1\nA B\t1\n"]);
    assert!(matches!(r, Err(LmError::InvalidToken)));
}

#[test]
fn test_unknown_token_rejected() {
    let r = EliasFanoTrieCountLm::from_texts(vec!["1\nA\t1\n", "1\nA X\t1\n"]);
    assert!(matches!(r, Err(LmError::UnknownToken)));
}

#[test]
fn test_unsorted_input_rejected() {
    let r = EliasFanoTrieCountLm::from_texts(vec![
        "2\nA\t1\nB\t1\n",
        "2\nA B\t1\nA A\t1\n",
    ]);
    assert!(matches!(r, Err(LmError::UnsortedInput)));
}

#[test]
fn test_count_mismatch_rejected() {
    let r = EliasFanoTrieCountLm::from_texts(vec!["1\nA\t1\nB\t1\n"]);
    assert!(matches!(r, Err(LmError::CountMismatch)));
}

#[test]
fn test_serialization() {
    let lm = EliasFanoTrieCountLm::from_texts(vec![GRAMS_1, GRAMS_2, GRAMS_3]).unwrap();

    let mut data = vec![];
    lm.serialize_into(&mut data);
    assert_eq!(lm.size_in_bytes(), data.len());

    let other = EliasFanoTrieCountLm::deserialize_from(&data[..]).unwrap();
    assert_eq!(lm.num_orders(), other.num_orders());
    assert_eq!(lm.num_grams(), other.num_grams());

    let mut a = lm.lookuper();
    let mut b = other.lookuper();
    for text in [GRAMS_1, GRAMS_2, GRAMS_3] {
        let mut gp = GramsParser::new(text.as_bytes()).unwrap();
        while let Some(rec) = gp.next_count_record() {
            let rec = rec.unwrap();
            assert_eq!(a.run(rec.gram()), b.run(rec.gram()));
        }
    }
    for q in ["E", "B A", "B B A", "A C", "D B C", "C", "A A C"] {
        assert_eq!(a.with_str(q), b.with_str(q));
    }
}

#[test]
fn test_serialization_simple() {
    let lm = SimpleTrieCountLm::from_texts(vec![GRAMS_1, GRAMS_2]).unwrap();
    let mut data = vec![];
    lm.serialize_into(&mut data);
    let other = SimpleTrieCountLm::deserialize_from(&data[..]).unwrap();
    let mut b = other.lookuper();
    assert_eq!(b.with_str("A A"), Some(5));
    assert_eq!(b.with_str("B A"), None);
}

#[test]
fn test_deserialize_rejects_corrupt() {
    let r = EliasFanoTrieCountLm::deserialize_from(&[1, 2, 3, 4, 5][..]);
    assert!(matches!(r, Err(LmError::Corrupt)));

    let lm = EliasFanoTrieCountLm::from_texts(vec![GRAMS_1]).unwrap();
    let mut data = vec![];
    lm.serialize_into(&mut data);
    let n = data.len();
    let r = EliasFanoTrieCountLm::deserialize_from(&data[..n - 1]);
    assert!(matches!(r, Err(LmError::Corrupt)));
}

#[test]
fn test_layer_pointers_monotone() {
    let lm = EliasFanoTrieCountLm::from_texts(vec![GRAMS_1, GRAMS_2, GRAMS_3]).unwrap();
    for t in &lm.arrays {
        let m = t.num_pointers();
        let mut prev = 0;
        for p in 0..m - 1 {
            let (lo, hi) = t.range(p);
            assert!(prev <= lo);
            assert!(lo <= hi);
            prev = hi;
            // Tokens rise strictly inside every parent range.
            for a in lo..hi {
                if a + 1 < hi {
                    assert!(t.token_id(a) < t.token_id(a + 1));
                }
            }
        }
        assert_eq!(prev, t.num_tokens());
    }
}

#[test]
fn test_serialization_empty_top_layer() {
    let lm = EliasFanoTrieCountLm::from_texts(vec!["1\nA\t1\n", "0\n"]).unwrap();
    let mut data = vec![];
    lm.serialize_into(&mut data);
    let other = EliasFanoTrieCountLm::deserialize_from(&data[..]).unwrap();
    let mut b = other.lookuper();
    assert_eq!(b.with_str("A"), Some(1));
    assert_eq!(b.with_str("A A"), None);
}
