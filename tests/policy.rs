use rspb::meta::PasteMeta;
use rspb::policy::{
    age_seconds, calculate_delete_coefficient, is_buffered, plan_cleanup, select_evictions,
    MAX_STREAM_FILE_SIZE, SOFT_LIMIT,
};

const MIB: u64 = 1024 * 1024;

fn meta(create_time: i64, expire_time: Option<i64>, size: u64) -> PasteMeta {
    PasteMeta {
        create_time,
        expire_time,
        atime: None,
        name: None,
        size,
        key: "k".to_string(),
    }
}

#[test]
fn streaming_threshold_is_five_mebibytes() {
    assert_eq!(MAX_STREAM_FILE_SIZE, 5 * MIB);
    assert!(is_buffered(0));
    assert!(is_buffered(5));
    assert!(is_buffered(5 * MIB - 1));
    assert!(!is_buffered(5 * MIB));
    assert!(!is_buffered(20 * MIB));
}

#[test]
fn coefficient_below_soft_limit_is_age() {
    assert_eq!(SOFT_LIMIT, 10 * MIB);
    assert_eq!(calculate_delete_coefficient(100, 42), 42);
    assert_eq!(calculate_delete_coefficient(10 * MIB, 7), 7);
}

#[test]
fn coefficient_above_soft_limit_scales_with_excess() {
    assert_eq!(calculate_delete_coefficient(10 * MIB + 3, 5), 15);
    assert_eq!(calculate_delete_coefficient(20 * MIB, 1000), 1000 * 10 * MIB as u128);
    assert_eq!(
        calculate_delete_coefficient(u64::MAX, u64::MAX),
        (u64::MAX as u128) * ((u64::MAX - 10 * MIB) as u128)
    );
}

#[test]
fn age_is_clamped_at_zero() {
    assert_eq!(age_seconds(100, 250), 150);
    assert_eq!(age_seconds(250, 100), 0);
    assert_eq!(age_seconds(i64::MIN, i64::MAX), u64::MAX);
}

#[test]
fn cleanup_reclaims_expired_and_empty() {
    let now = 10_000;
    let entries = vec![
        ("expired".to_string(), meta(0, Some(9_000), 10)),
        ("live".to_string(), meta(0, Some(20_000), 10)),
        ("empty".to_string(), meta(0, None, 0)),
        ("forever".to_string(), meta(0, None, 10)),
        ("edge".to_string(), meta(0, Some(10_000), 10)),
    ];
    let plan = plan_cleanup(&entries, now, None);
    assert_eq!(plan.reclaimed, vec![0, 2, 4]);
    assert!(plan.evicted.is_empty());
}

#[test]
fn empty_paste_with_future_expiry_is_reclaimed() {
    let entries = vec![("a".to_string(), meta(0, Some(50_000), 0))];
    let plan = plan_cleanup(&entries, 10, None);
    assert_eq!(plan.reclaimed, vec![0]);
}

#[test]
fn eviction_takes_highest_coefficient_first() {
    let now = 100_000;
    // coefficients: a = 1000 * 10 MiB, b = 1000 * 5 MiB, c = 5000
    let entries = vec![
        ("c".to_string(), meta(now - 5000, None, 1024)),
        ("a".to_string(), meta(now - 1000, None, 20 * MIB)),
        ("b".to_string(), meta(now - 1000, None, 15 * MIB)),
    ];
    let one = select_evictions(&entries, now, 20 * MIB);
    assert_eq!(one, vec![1]);
    let two = select_evictions(&entries, now, 10 * MIB);
    assert_eq!(two, vec![1, 2]);
    let all = select_evictions(&entries, now, 0);
    assert_eq!(all, vec![1, 2, 0]);
    let none = select_evictions(&entries, now, 40 * MIB);
    assert!(none.is_empty());
}

#[test]
fn eviction_skips_reclaimed_records() {
    let now = 100_000;
    let entries = vec![
        ("gone".to_string(), meta(0, Some(1), 30 * MIB)),
        ("big".to_string(), meta(now - 10, None, 12 * MIB)),
    ];
    let plan = plan_cleanup(&entries, now, Some(MIB));
    assert_eq!(plan.reclaimed, vec![0]);
    assert_eq!(plan.evicted, vec![1]);
}
