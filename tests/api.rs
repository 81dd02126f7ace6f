use rspb::api::{file_extension, refresh_atime};
use rspb::cache::{content_key_of, highlight_key_of, invalidation_keys, plan_read, should_cache, CacheStep};
use rspb::clock::expire_time_after;
use rspb::meta::PasteMeta;

fn meta(atime: Option<i64>) -> PasteMeta {
    PasteMeta { create_time: 0, expire_time: None, atime, name: None, size: 1, key: "k".to_string() }
}

#[test]
fn atime_is_refreshed_after_an_hour() {
    let mut m = meta(None);
    assert!(refresh_atime(&mut m, 100));
    assert_eq!(m.atime, Some(100));
    assert!(!refresh_atime(&mut m, 3700));
    assert_eq!(m.atime, Some(100));
    assert!(refresh_atime(&mut m, 3701));
    assert_eq!(m.atime, Some(3701));
}

#[test]
fn extension_is_text_after_last_dot() {
    assert_eq!(file_extension("song.mp3"), "mp3");
    assert_eq!(file_extension("a.tar.gz"), "gz");
    assert_eq!(file_extension("untitled"), "untitled");
    assert_eq!(file_extension("trailing."), "");
}

#[test]
fn expiry_is_minutes_from_now() {
    assert_eq!(expire_time_after(1000, 2), Some(1120));
    assert_eq!(expire_time_after(1000, 0), None);
    assert_eq!(expire_time_after(1000, -5), None);
    assert_eq!(expire_time_after(i64::MAX - 10, 1), None);
}

#[test]
fn cache_keys_and_invalidation() {
    assert_eq!(content_key_of("abcdef"), "abcdef.content");
    assert_eq!(highlight_key_of("abcdef"), "abcdef.highlight");
    assert_eq!(invalidation_keys("xyz123"), vec!["xyz123.content".to_string(), "xyz123.highlight".to_string()]);
}

#[test]
fn cache_hit_is_served_and_miss_goes_to_backend() {
    match plan_read(Some(b"hello".to_vec())) {
        CacheStep::Serve(b) => assert_eq!(b, b"hello".to_vec()),
        CacheStep::Backend => panic!("hit not served"),
    }
    assert!(matches!(plan_read(None), CacheStep::Backend));
    assert!(should_cache(true));
    assert!(!should_cache(false));
}
