use tongrams::record::CountRecord;
use tongrams::GramsParser;

const COUNT_GRAMS_1: &'static str = "4
A\t10
B\t7
C\t4
D\t1
";

const COUNT_GRAMS_2: &'static str = "4
A A\t1
A C\t2
B B\t3
D C\t1
";

const COUNT_GRAMS_3: &'static str = "3
A A C\t2
B B C\t1
D D D\t1
";

#[test]
fn test_count_grams_1() {
    let mut gp = GramsParser::new(COUNT_GRAMS_1.as_bytes()).unwrap();
    assert_eq!(gp.num_grams(), 4);
    for (gram, count) in [("A", 10), ("B", 7), ("C", 4), ("D", 1)] {
        let gram = gram.to_string();
        assert_eq!(
            gp.next_count_record().unwrap().unwrap(),
            CountRecord::new(gram, count)
        );
    }
    assert!(gp.next_count_record().is_none());
}

#[test]
fn test_count_grams_2() {
    let mut gp = GramsParser::new(COUNT_GRAMS_2.as_bytes()).unwrap();
    assert_eq!(gp.num_grams(), 4);
    for (gram, count) in [("A A", 1), ("A C", 2), ("B B", 3), ("D C", 1)] {
        let gram = gram.to_string();
        assert_eq!(
            gp.next_count_record().unwrap().unwrap(),
            CountRecord::new(gram, count)
        );
    }
    assert!(gp.next_count_record().is_none());
}

#[test]
fn test_count_grams_3() {
    let mut gp = GramsParser::new(COUNT_GRAMS_3.as_bytes()).unwrap();
    assert_eq!(gp.num_grams(), 3);
    for (gram, count) in [("A A C", 2), ("B B C", 1), ("D D D", 1)] {
        let gram = gram.to_string();
        assert_eq!(
            gp.next_count_record().unwrap().unwrap(),
            CountRecord::new(gram, count)
        );
    }
    assert!(gp.next_count_record().is_none());
}

#[test]
fn test_parser_bad_header() {
    assert!(GramsParser::new("x\nA\t1\n".as_bytes()).is_err());
}

#[test]
fn test_parser_bad_line() {
    let mut gp = GramsParser::new("1\nA 1\n".as_bytes()).unwrap();
    assert_eq!(
        gp.next_count_record().unwrap(),
        Err(tongrams::error::LmError::InvalidLine)
    );
}

#[test]
fn test_parser_bad_count() {
    let mut gp = GramsParser::new("1\nA\tx\n".as_bytes()).unwrap();
    assert_eq!(
        gp.next_count_record().unwrap(),
        Err(tongrams::error::LmError::InvalidCount)
    );
}

#[test]
fn test_gram_ops() {
    let tokens = "abc de f";
    let gram = tongrams::Gram::from_str(tokens);

    let (gram, last) = gram.pop_token().unwrap();
    assert_eq!(gram.raw(), "abc de".as_bytes());
    assert_eq!(last.raw(), "f".as_bytes());

    let (gram, last) = gram.pop_token().unwrap();
    assert_eq!(gram.raw(), "abc".as_bytes());
    assert_eq!(last.raw(), "de".as_bytes());

    assert!(gram.pop_token().is_none());

    let gram = tongrams::Gram::from_str(tokens);
    let toks = gram.split_to_tokens();
    assert_eq!(toks.len(), 3);
    assert_eq!(toks[0].raw(), "abc".as_bytes());
    assert_eq!(toks[1].raw(), "de".as_bytes());
    assert_eq!(toks[2].raw(), "f".as_bytes());
}

#[test]
fn test_parser_trailing_whitespace() {
    let mut gp = GramsParser::new(" 2 \nA\t3\r\nB\t4  \n".as_bytes()).unwrap();
    assert_eq!(gp.num_grams(), 2);
    let a = gp.next_count_record().unwrap().unwrap();
    assert_eq!(a.gram().raw(), "A".as_bytes());
    assert_eq!(a.count(), 3);
    let b = gp.next_count_record().unwrap().unwrap();
    assert_eq!(b.gram().raw(), "B".as_bytes());
    assert_eq!(b.count(), 4);
    assert!(gp.next_count_record().is_none());
}

#[test]
fn test_nul_token_rejected() {
    let text = b"1\nA\x00B\t1\n";
    let r = tongrams::EliasFanoTrieCountLm::deserialize_from(&[][..]);
    assert!(r.is_err());
    let mut texts: Vec<&str> = Vec::new();
    let s = std::str::from_utf8(text).unwrap();
    texts.push(s);
    let built = tongrams::EliasFanoTrieCountLm::from_texts(texts);
    assert!(matches!(built, Err(tongrams::error::LmError::InvalidToken)));
}
