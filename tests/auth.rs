use rspb::auth::{admin_allows, admin_matches};
use rspb::route::{is_paste_path, paste_id_of};

const HUNTER2: &str = "2874646084422325e4870ae232783740d99abf25ef8393f4419392a72894e4146b058a8c42ed1104bab750148c14f7b6ee51b83d2ca1c0a55f38b306c099bf17";

fn admins() -> Vec<(String, String)> {
    vec![
        ("root".to_string(), HUNTER2.to_string()),
        ("ops".to_string(), "00".to_string()),
    ]
}

#[test]
fn admin_with_right_password_is_let_in() {
    assert!(admin_allows(&admins(), "root", Some("hunter2")));
}

#[test]
fn admin_with_wrong_or_no_password_is_refused() {
    assert!(!admin_allows(&admins(), "root", Some("hunter3")));
    assert!(!admin_allows(&admins(), "root", None));
    assert!(!admin_allows(&admins(), "nobody", Some("hunter2")));
    assert!(!admin_allows(&admins(), "ops", Some("hunter2")));
}

#[test]
fn admin_hash_comparison_uses_first_entry() {
    let mut list = admins();
    list.push(("root".to_string(), "ff".to_string()));
    assert!(admin_matches(&list, "root", HUNTER2));
    assert!(!admin_matches(&list, "root", "ff"));
    assert!(admin_matches(&list, "ops", "00"));
}

#[test]
fn paste_paths_are_recognised() {
    assert!(is_paste_path("/abc123"));
    assert!(is_paste_path("/abc123.rs"));
    assert!(is_paste_path("/ABCdef?x=1"));
    assert!(!is_paste_path("/abc12"));
    assert!(!is_paste_path("/abc1234"));
    assert!(!is_paste_path("abc123"));
    assert!(!is_paste_path("/abc_12"));
}

#[test]
fn paste_id_is_first_six_characters() {
    assert_eq!(paste_id_of("abc123.rs"), "abc123");
    assert_eq!(paste_id_of("abc"), "abc");
    assert_eq!(paste_id_of("abcdef"), "abcdef");
}
