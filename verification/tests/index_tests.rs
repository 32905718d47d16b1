//! Exercises the index engine against an in-memory store that applies the
//! merge operator exactly as the backing store would.

use at_twitter_stream::error::Error;
use at_twitter_stream::index::{
    count_key_kinds, decode_handle_strings, decode_id_values, id_to_key, insert_pair_operands,
    screen_name_to_key,
};
use at_twitter_stream::merge::merge_value;
use std::collections::HashMap;

fn store_merge(store: &mut HashMap<Vec<u8>, Vec<u8>>, key: Vec<u8>, operand: Vec<u8>) {
    let merged = {
        let existing = store.get(&key).map(|v| v.as_slice());
        merge_value(&key, existing, &vec![operand])
    };
    store.insert(key, merged);
}

fn insert_pair(store: &mut HashMap<Vec<u8>, Vec<u8>>, id: u64, screen_name: &str) {
    let ((id_key, handle_op), (handle_key, id_op)) =
        insert_pair_operands(id, screen_name).unwrap();
    store_merge(store, id_key, handle_op);
    store_merge(store, handle_key, id_op);
}

fn lookup_by_id(store: &HashMap<Vec<u8>, Vec<u8>>, id: u64) -> Vec<String> {
    match store.get(&id_to_key(id)) {
        Some(value) => decode_handle_strings(value).unwrap(),
        None => vec![],
    }
}

fn lookup_by_screen_name(store: &HashMap<Vec<u8>, Vec<u8>>, screen_name: &str) -> Vec<u64> {
    match store.get(&screen_name_to_key(screen_name)) {
        Some(value) => decode_id_values(value).unwrap(),
        None => vec![],
    }
}

#[test]
fn insert() {
    let mut db: HashMap<Vec<u8>, Vec<u8>> = HashMap::new();
    insert_pair(&mut db, 123, "foo");
    insert_pair(&mut db, 123, "bar");
    insert_pair(&mut db, 456, "foo");
    insert_pair(&mut db, 123, "foo");
    assert_eq!(lookup_by_screen_name(&db, "foo"), vec![123, 456]);
    assert_eq!(lookup_by_id(&db, 123), vec!["foo", "bar"]);
}

#[test]
fn dedup_idempotence() {
    let mut once: HashMap<Vec<u8>, Vec<u8>> = HashMap::new();
    insert_pair(&mut once, 7, "alpha");
    let mut thrice: HashMap<Vec<u8>, Vec<u8>> = HashMap::new();
    insert_pair(&mut thrice, 7, "alpha");
    insert_pair(&mut thrice, 7, "alpha");
    insert_pair(&mut thrice, 7, "alpha");
    assert_eq!(once, thrice);
    assert_eq!(lookup_by_id(&thrice, 7), vec!["alpha"]);
    assert_eq!(lookup_by_screen_name(&thrice, "alpha"), vec![7]);
}

#[test]
fn bidirectionality() {
    let mut db: HashMap<Vec<u8>, Vec<u8>> = HashMap::new();
    insert_pair(&mut db, 42, "SomeBody");
    assert!(lookup_by_screen_name(&db, "somebody").contains(&42));
    assert!(lookup_by_id(&db, 42).contains(&"SomeBody".to_string()));
}

#[test]
fn case_handling() {
    let mut db: HashMap<Vec<u8>, Vec<u8>> = HashMap::new();
    insert_pair(&mut db, 9, "Foo");
    insert_pair(&mut db, 9, "foo");
    assert_eq!(lookup_by_id(&db, 9), vec!["Foo", "foo"]);
    assert_eq!(lookup_by_screen_name(&db, "foo"), vec![9]);
    assert_eq!(lookup_by_screen_name(&db, "FOO"), vec![9]);
}

#[test]
fn empty_lookup() {
    let db: HashMap<Vec<u8>, Vec<u8>> = HashMap::new();
    assert_eq!(lookup_by_id(&db, 1), Vec::<String>::new());
    assert_eq!(lookup_by_screen_name(&db, "nobody"), Vec::<u64>::new());
    let mut db = db;
    insert_pair(&mut db, 1, "one");
    assert_eq!(lookup_by_id(&db, 2), Vec::<String>::new());
    assert_eq!(lookup_by_screen_name(&db, "two"), Vec::<u64>::new());
}

#[test]
fn merge_grouping() {
    let key = screen_name_to_key("grouped");
    let a = 11u64.to_be_bytes().to_vec();
    let b = 22u64.to_be_bytes().to_vec();
    let c = 11u64.to_be_bytes().to_vec();
    let all_at_once = merge_value(&key, None, &vec![a.clone(), b.clone(), c.clone()]);
    let first_two = merge_value(&key, None, &vec![a, b]);
    let regrouped = merge_value(&key, Some(&first_two), &vec![c]);
    assert_eq!(all_at_once, regrouped);
    assert_eq!(decode_id_values(&all_at_once).unwrap(), vec![11, 22]);
}

#[test]
fn merge_handle_records() {
    let key = id_to_key(5);
    let op = |s: &str| -> Vec<u8> {
        let mut v = vec![s.len() as u8];
        v.extend_from_slice(s.as_bytes());
        v
    };
    let merged = merge_value(&key, None, &vec![op("one"), op("two"), op("one")]);
    assert_eq!(decode_handle_strings(&merged).unwrap(), vec!["one", "two"]);
    let merged_again = merge_value(&key, Some(&merged), &vec![op("two"), op("three")]);
    assert_eq!(
        decode_handle_strings(&merged_again).unwrap(),
        vec!["one", "two", "three"]
    );
}

#[test]
fn key_counts() {
    let mut db: HashMap<Vec<u8>, Vec<u8>> = HashMap::new();
    insert_pair(&mut db, 123, "foo");
    insert_pair(&mut db, 123, "bar");
    insert_pair(&mut db, 456, "foo");
    let keys: Vec<Vec<u8>> = db.keys().cloned().collect();
    let (id_keys, screen_name_keys) = count_key_kinds(&keys).unwrap();
    assert_eq!((id_keys, screen_name_keys), (2, 2));
}

#[test]
fn key_counts_reject_unknown_prefix() {
    let keys = vec![vec![0u8, 0, 0, 0, 0, 0, 0, 0, 1], vec![7u8, 3]];
    assert_eq!(count_key_kinds(&keys), Err(Error::InvalidKeyPrefix(7)));
}

#[test]
fn handle_too_long_rejected() {
    let long = "x".repeat(256);
    assert_eq!(insert_pair_operands(1, &long), Err(Error::HandleTooLong));
    let just_fits = "y".repeat(255);
    assert!(insert_pair_operands(1, &just_fits).is_ok());
}

#[test]
fn corrupt_values_reported() {
    // A length prefix that runs past the end of the value.
    assert_eq!(decode_handle_strings(&[5, 1]), Err(Error::CorruptValue));
    // An entry that is not UTF-8.
    assert_eq!(decode_handle_strings(&[1, 0xff]), Err(Error::CorruptValue));
    // A handle record that is not a whole number of eight-byte blocks.
    assert_eq!(decode_id_values(&[1, 2, 3]), Err(Error::CorruptValue));
}

#[test]
fn large_identifiers_round_trip() {
    let mut db: HashMap<Vec<u8>, Vec<u8>> = HashMap::new();
    insert_pair(&mut db, 860973241569071104, "gorgartweets");
    insert_pair(&mut db, u64::MAX, "gorgartweets");
    assert_eq!(
        lookup_by_screen_name(&db, "gorgartweets"),
        vec![860973241569071104, u64::MAX]
    );
}

#[test]
fn lookup_folds_case() {
    let mut db: HashMap<Vec<u8>, Vec<u8>> = HashMap::new();
    insert_pair(&mut db, 5, "MiXeD");
    assert_eq!(lookup_by_screen_name(&db, "mixed"), vec![5]);
    assert_eq!(lookup_by_screen_name(&db, "MIXED"), vec![5]);
    assert_eq!(lookup_by_id(&db, 5), vec!["MiXeD"]);
}
