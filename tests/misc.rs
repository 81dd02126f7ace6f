use rspb::error::{ApiError, StoreError};
use rspb::misc::parse_query_string;

fn lookup<'a>(v: &'a [(String, String)], k: &str) -> Option<&'a str> {
    v.iter().find(|p| p.0 == k).map(|p| p.1.as_str())
}

#[test]
fn query_empty_is_empty() {
    assert_eq!(parse_query_string("").unwrap().len(), 0);
}

#[test]
fn query_pairs_are_read() {
    let v = parse_query_string("a=1,b=2").unwrap();
    assert_eq!(v.len(), 2);
    assert_eq!(lookup(&v, "a"), Some("1"));
    assert_eq!(lookup(&v, "b"), Some("2"));
}

#[test]
fn query_later_key_wins() {
    let v = parse_query_string("a=1,a=3").unwrap();
    assert_eq!(v.len(), 1);
    assert_eq!(lookup(&v, "a"), Some("3"));
}

#[test]
fn query_allows_empty_parts() {
    let v = parse_query_string("=x,y=").unwrap();
    assert_eq!(lookup(&v, ""), Some("x"));
    assert_eq!(lookup(&v, "y"), Some(""));
}

#[test]
fn query_rejects_bad_pieces() {
    for bad in ["a", "a=1,b", "a=b=c", ",", "a=1,"] {
        match parse_query_string(bad) {
            Err(ApiError::BadRequest(m)) => assert_eq!(m, "Invalid query string"),
            _ => panic!("accepted {}", bad),
        }
    }
}

#[test]
fn api_error_messages_and_codes() {
    assert_eq!(ApiError::NotFound.message(), "Paste Not Found");
    assert_eq!(ApiError::Forbidden.message(), "Forbidden: Bad Key");
    assert_eq!(ApiError::BadRequest("x".to_string()).message(), "x");
    assert_eq!(ApiError::Unknown("y".to_string()).message(), "y");
    assert_eq!(ApiError::BadRequest(String::new()).status_code(), 400);
    assert_eq!(ApiError::NotFound.status_code(), 404);
    assert_eq!(ApiError::Forbidden.status_code(), 403);
    assert_eq!(ApiError::Unknown(String::new()).status_code(), 500);
}

#[test]
fn store_errors_map_to_api_errors() {
    assert!(matches!(ApiError::from_store(StoreError::NotFound), ApiError::NotFound));
    assert!(matches!(ApiError::from_store(StoreError::Conflict), ApiError::BadRequest(_)));
    match ApiError::from_store(StoreError::Store) {
        ApiError::Unknown(m) => assert_eq!(m, "Internal Server Error"),
        _ => panic!("wrong error"),
    }
}
