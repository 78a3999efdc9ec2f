use mcd::chain::Chain;
use mcd::error::ChainError;
use mcd::service;
use mcd::store::{delete_chain, get_chain, set_chain};
use mcd::token::Tok;

fn temp_db() -> sled::Db {
    sled::Config::new()
        .temporary(true)
        .open()
        .expect("temporary store opens")
}

fn word(s: &str) -> Tok {
    Tok::Word(s.as_bytes().to_vec())
}

#[test]
fn get_on_fresh_identifier_is_empty_chain() {
    let db = temp_db();
    let c = get_chain(b"never-fed", &db).expect("lookup succeeds");
    assert!(c.is_empty());
}

#[test]
fn set_then_get_round_trips_counts() {
    let db = temp_db();
    let mut c = Chain::new_empty();
    c.feed(b"the cat sat on the mat");
    set_chain(b"x", &c, &db).expect("write succeeds");
    let c2 = get_chain(b"x", &db).expect("read succeeds");
    for p in ["the", "cat", "sat", "on", "mat"] {
        for n in ["the", "cat", "sat", "on", "mat"] {
            assert_eq!(c.count_of(&word(p), &word(n)), c2.count_of(&word(p), &word(n)));
        }
        assert_eq!(c.count_of(&Tok::Start, &word(p)), c2.count_of(&Tok::Start, &word(p)));
        assert_eq!(c.count_of(&word(p), &Tok::End), c2.count_of(&word(p), &Tok::End));
    }
}

#[test]
fn clear_is_idempotent() {
    let db = temp_db();
    service::feed(b"hi there", b"id", &db).expect("feed succeeds");
    service::clear(b"id", &db).expect("first clear succeeds");
    let after_one = get_chain(b"id", &db).expect("read succeeds");
    assert!(after_one.is_empty());
    service::clear(b"id", &db).expect("second clear succeeds");
    let after_two = get_chain(b"id", &db).expect("read succeeds");
    assert!(after_two.is_empty());
}

#[test]
fn scenario_feed_clear_get_generate() {
    let db = temp_db();
    service::feed(b"hi", b"z", &db).expect("feed succeeds");
    service::clear(b"z", &db).expect("clear succeeds");
    let c = get_chain(b"z", &db).expect("read succeeds");
    assert!(c.is_empty());
    match service::generate(b"z", 100, &db) {
        Err(ChainError::EmptyChain) => {}
        other => panic!("expected EmptyChain, got {:?}", other.map(|_| ())),
    }
}

#[test]
fn scenario_generate_on_fresh_identifier_fails() {
    let db = temp_db();
    match service::generate(b"y", 100, &db) {
        Err(ChainError::EmptyChain) => {}
        other => panic!("expected EmptyChain, got {:?}", other.map(|_| ())),
    }
}

#[test]
fn scenario_two_feeds_via_store() {
    let db = temp_db();
    service::feed(b"the cat sat", b"x", &db).expect("feed succeeds");
    service::feed(b"the dog ran", b"x", &db).expect("feed succeeds");
    let c = get_chain(b"x", &db).expect("read succeeds");
    assert_eq!(c.count_of(&Tok::Start, &word("the")), 2);
    assert_eq!(c.count_of(&word("the"), &word("cat")), 1);
    assert_eq!(c.count_of(&word("the"), &word("dog")), 1);
    for _ in 0..10 {
        let text = service::generate(b"x", 100, &db).expect("generation succeeds");
        assert!(text.starts_with(b"the"));
    }
}

#[test]
fn feed_order_does_not_matter() {
    let db = temp_db();
    service::feed(b"the cat sat", b"ab", &db).expect("feed succeeds");
    service::feed(b"a dog ran", b"ab", &db).expect("feed succeeds");
    service::feed(b"a dog ran", b"ba", &db).expect("feed succeeds");
    service::feed(b"the cat sat", b"ba", &db).expect("feed succeeds");
    let ab = get_chain(b"ab", &db).expect("read succeeds");
    let ba = get_chain(b"ba", &db).expect("read succeeds");
    for p in ["the", "cat", "sat", "a", "dog", "ran"] {
        for n in ["the", "cat", "sat", "a", "dog", "ran"] {
            assert_eq!(ab.count_of(&word(p), &word(n)), ba.count_of(&word(p), &word(n)));
        }
        assert_eq!(ab.count_of(&Tok::Start, &word(p)), ba.count_of(&Tok::Start, &word(p)));
        assert_eq!(ab.count_of(&word(p), &Tok::End), ba.count_of(&word(p), &Tok::End));
    }
}

#[test]
fn delete_missing_identifier_succeeds() {
    let db = temp_db();
    delete_chain(b"missing", &db).expect("deleting an absent record succeeds");
}

#[test]
fn corrupt_record_is_reported_not_emptied() {
    let db = temp_db();
    db.insert(b"bad", b"not a chain record".as_slice())
        .expect("raw write succeeds");
    match get_chain(b"bad", &db) {
        Err(ChainError::CorruptRecord) => {}
        other => panic!("expected CorruptRecord, got {:?}", other.map(|_| ())),
    }
    match service::generate(b"bad", 100, &db) {
        Err(ChainError::CorruptRecord) => {}
        other => panic!("expected CorruptRecord, got {:?}", other.map(|_| ())),
    }
}

#[test]
fn different_identifiers_are_independent() {
    let db = temp_db();
    service::feed(b"alpha beta", b"one", &db).expect("feed succeeds");
    let other = get_chain(b"two", &db).expect("read succeeds");
    assert!(other.is_empty());
    service::clear(b"one", &db).expect("clear succeeds");
}
