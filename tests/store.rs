use rspb::api::{authorize, delete_with_key, finish_new_paste};
use rspb::error::{ApiError, StoreError};
use rspb::ident::{gen_random_chars, ID_LEN};
use rspb::meta::PasteMeta;
use rspb::policy::is_buffered;
use rspb::store::MetaStore;

fn open(name: &str) -> MetaStore {
    let path = format!("/tmp/rspb-test-stores/{}", name);
    MetaStore::open_temporary(&path).unwrap()
}

#[test]
fn hello_paste_lifecycle() {
    let mut store = open("hello");
    store.new_at("abcdef", "k1", 1000).unwrap();
    assert!(store.paste_exists("abcdef").unwrap());
    // content "hello" has been written: 5 bytes
    store.update_size("abcdef", 5).unwrap();
    let meta = store.get_meta("abcdef").unwrap();
    assert_eq!(meta.size, 5);
    assert_eq!(meta.create_time, 1000);
    assert!(is_buffered(meta.size));
    assert!(matches!(delete_with_key(&mut store, "abcdef", "wrong"), Err(ApiError::Forbidden)));
    assert!(store.paste_exists("abcdef").unwrap());
    delete_with_key(&mut store, "abcdef", "k1").unwrap();
    assert!(!store.paste_exists("abcdef").unwrap());
}

#[test]
fn creating_a_taken_id_conflicts() {
    let mut store = open("conflict");
    store.new_at("aaaaaa", "k1", 1).unwrap();
    assert_eq!(store.new_at("aaaaaa", "k2", 2), Err(StoreError::Conflict));
    assert!(store.validate("aaaaaa", "k1").unwrap());
    store.delete("aaaaaa").unwrap();
    store.new_at("aaaaaa", "k2", 3).unwrap();
    assert!(store.validate("aaaaaa", "k2").unwrap());
}

#[test]
fn validate_checks_the_recorded_key() {
    let mut store = open("validate");
    store.new_at("keyed1", "k1", 1).unwrap();
    assert!(store.validate("keyed1", "k1").unwrap());
    assert!(!store.validate("keyed1", "k").unwrap());
    assert!(!store.validate("keyed1", "k1 ").unwrap());
    assert_eq!(store.validate("absent", "k1"), Err(StoreError::NotFound));
}

#[test]
fn missing_ids_are_not_found() {
    let mut store = open("missing");
    assert!(!store.paste_exists("nope00").unwrap());
    assert!(matches!(store.get_meta("nope00"), Err(StoreError::NotFound)));
    assert_eq!(store.delete("nope00"), Err(StoreError::NotFound));
    assert_eq!(store.update_size("nope00", 3), Err(StoreError::NotFound));
}

#[test]
fn set_meta_replaces_the_record() {
    let mut store = open("setmeta");
    store.new_at("record", "key", 10).unwrap();
    let meta = PasteMeta {
        create_time: 10,
        expire_time: Some(99),
        atime: Some(50),
        name: Some("a.rs".to_string()),
        size: 12,
        key: "key".to_string(),
    };
    store.set_meta("record", &meta).unwrap();
    let back = store.get_meta("record").unwrap();
    assert_eq!(back.expire_time, Some(99));
    assert_eq!(back.atime, Some(50));
    assert_eq!(back.name.as_deref(), Some("a.rs"));
    assert_eq!(back.size, 12);
}

#[test]
fn get_all_meta_lists_every_record() {
    let mut store = open("listall");
    store.new_at("one111", "a", 1).unwrap();
    store.new_at("two222", "b", 2).unwrap();
    let all = store.get_all_meta().unwrap();
    let mut ids: Vec<String> = all.iter().map(|e| e.0.clone()).collect();
    ids.sort();
    assert_eq!(ids, vec!["one111".to_string(), "two222".to_string()]);
}

#[test]
fn cleanup_removes_expired_pastes_only() {
    let mut store = open("ttl");
    store.new_at("old111", "k", 0).unwrap();
    store.update_size("old111", 4).unwrap();
    let mut m = store.get_meta("old111").unwrap();
    m.expire_time = Some(500);
    store.set_meta("old111", &m).unwrap();
    store.new_at("new222", "k", 0).unwrap();
    store.update_size("new222", 4).unwrap();
    store.new_at("empty3", "k", 0).unwrap();
    assert!(store.paste_exists("old111").unwrap());
    let mut removed = store.cleanup(1000, None).unwrap();
    removed.sort();
    assert_eq!(removed, vec!["empty3".to_string(), "old111".to_string()]);
    assert!(!store.paste_exists("old111").unwrap());
    assert!(!store.paste_exists("empty3").unwrap());
    assert!(store.paste_exists("new222").unwrap());
}

#[test]
fn cleanup_before_expiry_keeps_paste() {
    let mut store = open("ttl2");
    store.new_at("soon11", "k", 0).unwrap();
    store.update_size("soon11", 4).unwrap();
    let mut m = store.get_meta("soon11").unwrap();
    m.expire_time = Some(500);
    store.set_meta("soon11", &m).unwrap();
    assert!(store.cleanup(499, None).unwrap().is_empty());
    assert!(store.paste_exists("soon11").unwrap());
    assert_eq!(store.cleanup(500, None).unwrap(), vec!["soon11".to_string()]);
}

#[test]
fn cleanup_evicts_under_budget() {
    let mib: u64 = 1024 * 1024;
    let mut store = open("evict");
    for (id, size) in [("aaaaaa", 20 * mib), ("bbbbbb", 15 * mib), ("cccccc", 1024)] {
        store.new_at(id, "k", 0).unwrap();
        store.update_size(id, size).unwrap();
    }
    let mut m = store.get_meta("cccccc").unwrap();
    m.create_time = -100_000;
    store.set_meta("cccccc", &m).unwrap();
    let removed = store.cleanup(1000, Some(10 * mib)).unwrap();
    assert_eq!(removed, vec!["aaaaaa".to_string(), "bbbbbb".to_string()]);
    assert!(store.paste_exists("cccccc").unwrap());
}

#[test]
fn create_paste_draws_a_fresh_id() {
    let mut store = open("create");
    let a = store.create_paste("k1", 5).unwrap();
    let b = store.create_paste("k2", 5).unwrap();
    assert_eq!(a.chars().count(), ID_LEN);
    assert_ne!(a, b);
    assert!(store.validate(&a, "k1").unwrap());
    assert!(store.validate(&b, "k2").unwrap());
}

#[test]
fn random_chars_come_from_charset() {
    let s = gen_random_chars(200);
    assert_eq!(s.chars().count(), 200);
    assert!(s.chars().all(|c| "abcdefghijklmnopqrstuvwxyz123456".contains(c)));
    assert_eq!(gen_random_chars(0), "");
}

#[test]
fn finishing_an_empty_paste_removes_it() {
    let mut store = open("finish_empty");
    store.new_at("empty0", "k", 0).unwrap();
    match finish_new_paste(&mut store, "empty0", 0, None, None) {
        Err(ApiError::BadRequest(m)) => assert_eq!(m, "Cannot create paste with no content."),
        _ => panic!("empty paste accepted"),
    }
    assert!(!store.paste_exists("empty0").unwrap());
}

#[test]
fn finishing_records_size_expiry_and_name() {
    let mut store = open("finish_full");
    store.new_at("full00", "k", 0).unwrap();
    finish_new_paste(&mut store, "full00", 7, Some(60), Some("x.py".to_string())).unwrap();
    let m = store.get_meta("full00").unwrap();
    assert_eq!(m.size, 7);
    assert_eq!(m.expire_time, Some(60));
    assert_eq!(m.name.as_deref(), Some("x.py"));
    let long = "n".repeat(8000);
    finish_new_paste(&mut store, "full00", 8, None, Some(long)).unwrap();
    let m = store.get_meta("full00").unwrap();
    assert_eq!(m.size, 8);
    assert_eq!(m.expire_time, Some(60));
    assert_eq!(m.name.as_deref(), Some("x.py"));
}

#[test]
fn keyed_delete_of_missing_paste_is_not_found() {
    let mut store = open("keyed_missing");
    assert!(matches!(delete_with_key(&mut store, "absent", "k1"), Err(ApiError::NotFound)));
    assert!(matches!(authorize(&store, "absent", "k1"), Err(ApiError::NotFound)));
}

#[test]
fn authorize_tells_keys_apart() {
    let mut store = open("authorize");
    store.new_at("abc123", "k1", 0).unwrap();
    assert!(authorize(&store, "abc123", "k1").is_ok());
    assert!(matches!(authorize(&store, "abc123", "k2"), Err(ApiError::Forbidden)));
}

#[test]
fn size_update_of_missing_paste_creates_nothing() {
    let mut store = open("size_missing");
    assert_eq!(store.update_size("ghost1", 9), Err(StoreError::NotFound));
    assert!(!store.paste_exists("ghost1").unwrap());
    assert!(store.get_all_meta().unwrap().is_empty());
}

#[test]
fn cleanup_returns_each_id_once() {
    let mib: u64 = 1024 * 1024;
    let mut store = open("distinct");
    store.new_at("big111", "k", 0).unwrap();
    store.update_size("big111", 30 * mib).unwrap();
    let mut m = store.get_meta("big111").unwrap();
    m.expire_time = Some(10);
    store.set_meta("big111", &m).unwrap();
    store.new_at("big222", "k", 0).unwrap();
    store.update_size("big222", 30 * mib).unwrap();
    let removed = store.cleanup(1000, Some(mib)).unwrap();
    assert_eq!(removed, vec!["big111".to_string(), "big222".to_string()]);
}
