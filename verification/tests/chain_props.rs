use mcd::chain::Chain;
use mcd::codec::{decode, encode};
use mcd::error::ChainError;
use mcd::token::{tokenize, Tok};

fn word(s: &str) -> Tok {
    Tok::Word(s.as_bytes().to_vec())
}

#[test]
fn fresh_chain_is_empty() {
    let c = Chain::new_empty();
    assert!(c.is_empty());
}

#[test]
fn feed_makes_nonempty() {
    let mut c = Chain::new_empty();
    c.feed(b"some text here");
    assert!(!c.is_empty());
}

#[test]
fn feed_empty_text_makes_nonempty() {
    let mut c = Chain::new_empty();
    c.feed(b"");
    assert!(!c.is_empty());
    assert_eq!(c.count_of(&Tok::Start, &Tok::End), 1);
}

#[test]
fn generate_on_empty_fails_with_empty_chain() {
    let c = Chain::new_empty();
    match c.generate(100) {
        Err(ChainError::EmptyChain) => {}
        other => panic!("expected EmptyChain, got {:?}", other.map(|_| ())),
    }
}

#[test]
fn tokenize_splits_on_whitespace_discarding_empties() {
    let words = tokenize(b"  the \t cat \n\r sat  ");
    let expected: Vec<Vec<u8>> =
        vec![b"the".to_vec(), b"cat".to_vec(), b"sat".to_vec()];
    assert_eq!(words, expected);
}

#[test]
fn tokenize_empty_gives_no_words() {
    assert_eq!(tokenize(b""), Vec::<Vec<u8>>::new());
    assert_eq!(tokenize(b"   "), Vec::<Vec<u8>>::new());
}

#[test]
fn scenario_two_feeds_counts() {
    let mut c = Chain::new_empty();
    c.feed(b"the cat sat");
    c.feed(b"the dog ran");
    assert_eq!(c.count_of(&Tok::Start, &word("the")), 2);
    assert_eq!(c.count_of(&word("the"), &word("cat")), 1);
    assert_eq!(c.count_of(&word("the"), &word("dog")), 1);
    assert_eq!(c.count_of(&word("cat"), &word("sat")), 1);
    assert_eq!(c.count_of(&word("sat"), &Tok::End), 1);
    assert_eq!(c.count_of(&word("ran"), &Tok::End), 1);
    assert_eq!(c.count_of(&Tok::Start, &word("cat")), 0);
}

#[test]
fn scenario_generation_always_starts_with_the() {
    let mut c = Chain::new_empty();
    c.feed(b"the cat sat");
    c.feed(b"the dog ran");
    for _ in 0..20 {
        let words = c.generate(100).expect("chain is not empty");
        assert_eq!(words[0], b"the".to_vec());
    }
}

#[test]
fn single_path_generates_exactly_that_text() {
    let mut c = Chain::new_empty();
    c.feed(b"one two three");
    for _ in 0..5 {
        let words = c.generate(100).expect("chain is not empty");
        let expected: Vec<Vec<u8>> =
            vec![b"one".to_vec(), b"two".to_vec(), b"three".to_vec()];
        assert_eq!(words, expected);
    }
}

#[test]
fn monotonic_counts_across_feeds() {
    let mut c = Chain::new_empty();
    c.feed(b"a b");
    let first = c.count_of(&word("a"), &word("b"));
    c.feed(b"a b a b");
    let second = c.count_of(&word("a"), &word("b"));
    assert_eq!(first, 1);
    assert_eq!(second, 3);
    assert!(second >= first);
}

#[test]
fn feeds_commute() {
    let t1: &[u8] = b"the cat sat";
    let t2: &[u8] = b"a dog ran off";
    let mut ab = Chain::new_empty();
    ab.feed(t1);
    ab.feed(t2);
    let mut ba = Chain::new_empty();
    ba.feed(t2);
    ba.feed(t1);
    for p in ["the", "cat", "sat", "a", "dog", "ran", "off"] {
        for n in ["the", "cat", "sat", "a", "dog", "ran", "off"] {
            assert_eq!(ab.count_of(&word(p), &word(n)), ba.count_of(&word(p), &word(n)));
        }
        assert_eq!(ab.count_of(&Tok::Start, &word(p)), ba.count_of(&Tok::Start, &word(p)));
        assert_eq!(ab.count_of(&word(p), &Tok::End), ba.count_of(&word(p), &Tok::End));
    }
}

#[test]
fn codec_round_trip_preserves_triples() {
    let mut c = Chain::new_empty();
    c.feed(b"the cat sat on the mat");
    c.feed(b"the cat ran");
    let bytes = encode(&c.table);
    let table2 = decode(bytes.as_slice()).expect("encoded table decodes");
    let c2 = Chain { table: table2 };
    for p in ["the", "cat", "sat", "on", "mat", "ran"] {
        for n in ["the", "cat", "sat", "on", "mat", "ran"] {
            assert_eq!(c.count_of(&word(p), &word(n)), c2.count_of(&word(p), &word(n)));
        }
        assert_eq!(c.count_of(&Tok::Start, &word(p)), c2.count_of(&Tok::Start, &word(p)));
        assert_eq!(c.count_of(&word(p), &Tok::End), c2.count_of(&word(p), &Tok::End));
    }
    let bytes2 = encode(&c2.table);
    assert_eq!(bytes, bytes2);
}

#[test]
fn codec_round_trip_empty_table() {
    let c = Chain::new_empty();
    let bytes = encode(&c.table);
    let table2 = decode(bytes.as_slice()).expect("encoded table decodes");
    let c2 = Chain { table: table2 };
    assert!(c2.is_empty());
}

#[test]
fn decode_rejects_truncated_bytes() {
    match decode(b"\x01") {
        Err(ChainError::CorruptRecord) => {}
        other => panic!("expected CorruptRecord, got {:?}", other.map(|_| ())),
    }
}

#[test]
fn decode_rejects_trailing_garbage() {
    let mut c = Chain::new_empty();
    c.feed(b"hi");
    let mut bytes = encode(&c.table);
    bytes.push(0);
    match decode(bytes.as_slice()) {
        Err(ChainError::CorruptRecord) => {}
        other => panic!("expected CorruptRecord, got {:?}", other.map(|_| ())),
    }
}

#[test]
fn decode_rejects_zero_count() {
    // One transition, Start -> End, with count zero: parses but breaks the
    // table invariant.
    let mut bytes: Vec<u8> = Vec::new();
    bytes.extend_from_slice(&1u64.to_le_bytes());
    bytes.push(0); // Start
    bytes.push(1); // End
    bytes.extend_from_slice(&0u64.to_le_bytes());
    match decode(bytes.as_slice()) {
        Err(ChainError::CorruptRecord) => {}
        other => panic!("expected CorruptRecord, got {:?}", other.map(|_| ())),
    }
}

#[test]
fn decode_rejects_duplicate_pairs() {
    let mut bytes: Vec<u8> = Vec::new();
    bytes.extend_from_slice(&2u64.to_le_bytes());
    for _ in 0..2 {
        bytes.push(0); // Start
        bytes.push(1); // End
        bytes.extend_from_slice(&1u64.to_le_bytes());
    }
    match decode(bytes.as_slice()) {
        Err(ChainError::CorruptRecord) => {}
        other => panic!("expected CorruptRecord, got {:?}", other.map(|_| ())),
    }
}

#[test]
fn error_descriptions() {
    assert_eq!(ChainError::EmptyChain.describe(), "empty chain");
    assert_eq!(ChainError::CorruptRecord.describe(), "corrupt record");
    assert_eq!(ChainError::StorageUnavailable.describe(), "storage unavailable");
}
