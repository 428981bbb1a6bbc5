use oauth_sign::OauthError;
use oauth_sign::Token;
use oauth_sign::params::ParamList;
use oauth_sign::params::insert_param;
use oauth_sign::params::join_query;
use oauth_sign::params::split_query;
use oauth_sign::sign::signature;

#[test]
fn query() {
    let mut map = ParamList::new();
    insert_param(&mut map, "aaa".to_string(), "AAA".to_string());
    insert_param(&mut map, "bbbb".to_string(), "BBBB".to_string());
    let query = join_query(&map);
    assert_eq!("aaa=AAA&bbbb=BBBB", query);
}

#[test]
fn join_query_is_order_independent() {
    let mut a = ParamList::new();
    insert_param(&mut a, "aaa".to_string(), "AAA".to_string());
    insert_param(&mut a, "bbbb".to_string(), "BBBB".to_string());
    let mut b = ParamList::new();
    insert_param(&mut b, "bbbb".to_string(), "BBBB".to_string());
    insert_param(&mut b, "aaa".to_string(), "AAA".to_string());
    assert_eq!(join_query(&a), join_query(&b));
    assert_eq!("aaa=AAA&bbbb=BBBB", join_query(&a));
}

#[test]
fn join_query_overwrites_same_key() {
    let mut a = ParamList::new();
    insert_param(&mut a, "k".to_string(), "one".to_string());
    insert_param(&mut a, "k".to_string(), "two".to_string());
    assert_eq!("k=two", join_query(&a));
}

#[test]
fn join_query_encodes_reserved_characters() {
    let mut a = ParamList::new();
    insert_param(&mut a, "status".to_string(), "hello world & more=yes".to_string());
    assert_eq!("status=hello%20world%20%26%20more%3Dyes", join_query(&a));
}

#[test]
fn join_query_keeps_unreserved_characters() {
    let mut a = ParamList::new();
    insert_param(&mut a, "k".to_string(), "AZaz09-._~".to_string());
    assert_eq!("k=AZaz09-._~", join_query(&a));
}

#[test]
fn join_query_encodes_utf8_bytes() {
    let mut a = ParamList::new();
    insert_param(&mut a, "k".to_string(), "\u{e9}".to_string());
    assert_eq!("k=%C3%A9", join_query(&a));
}

#[test]
fn split_query_parses_pairs() {
    let param = split_query("oauth_token=tk&oauth_token_secret=ts").unwrap();
    assert_eq!("tk", param.lookup("oauth_token").unwrap());
    assert_eq!("ts", param.lookup("oauth_token_secret").unwrap());
    assert!(param.lookup("missing").is_none());
}

#[test]
fn split_query_round_trips_join() {
    let mut p = ParamList::new();
    insert_param(&mut p, "aaa".to_string(), "AAA".to_string());
    insert_param(&mut p, "bbbb".to_string(), "BBBB".to_string());
    let joined = join_query(&p);
    let back = split_query(&joined).unwrap();
    assert_eq!("AAA", back.lookup("aaa").unwrap());
    assert_eq!("BBBB", back.lookup("bbbb").unwrap());
}

#[test]
fn split_query_round_trips_after_reencoding() {
    let mut p = ParamList::new();
    insert_param(&mut p, "status".to_string(), "a b".to_string());
    let joined = join_query(&p);
    assert_eq!("status=a%20b", joined);
    let back = split_query(&joined).unwrap();
    assert_eq!("a%20b", back.lookup("status").unwrap());
}

#[test]
fn split_query_rejects_segment_without_equals() {
    assert_eq!(Err(OauthError::MalformedResponse), split_query("abc").map(|_| ()));
}

#[test]
fn split_query_rejects_trailing_separator() {
    assert_eq!(Err(OauthError::MalformedResponse), split_query("a=b&").map(|_| ()));
}

#[test]
fn split_query_rejects_two_equals_in_segment() {
    assert_eq!(Err(OauthError::MalformedResponse), split_query("a=b=c").map(|_| ()));
}

#[test]
fn split_query_rejects_empty_body() {
    assert_eq!(Err(OauthError::MalformedResponse), split_query("").map(|_| ()));
}

#[test]
fn split_query_last_duplicate_wins() {
    let param = split_query("a=b&a=c").unwrap();
    assert_eq!("c", param.lookup("a").unwrap());
}

#[test]
fn signature_matches_frozen_fixture() {
    let sig = signature(
        "GET",
        "http://example.com/resource",
        "oauth_nonce=abc",
        "cs",
        None,
    );
    assert_eq!("fPZpHQprSi6NzeK8PM4AbTV5/Rk=", sig);
}

#[test]
fn signature_is_deterministic() {
    let a = signature("GET", "http://example.com/r", "a=b", "cs", Some("ts"));
    let b = signature("GET", "http://example.com/r", "a=b", "cs", Some("ts"));
    assert_eq!(a, b);
}

#[test]
fn signature_changes_with_each_input() {
    let base = signature("GET", "http://example.com/r", "a=b", "cs", Some("ts"));
    assert_ne!(base, signature("POST", "http://example.com/r", "a=b", "cs", Some("ts")));
    assert_ne!(base, signature("GET", "http://example.com/s", "a=b", "cs", Some("ts")));
    assert_ne!(base, signature("GET", "http://example.com/r", "a=c", "cs", Some("ts")));
    assert_ne!(base, signature("GET", "http://example.com/r", "a=b", "cz", Some("ts")));
    assert_ne!(base, signature("GET", "http://example.com/r", "a=b", "cs", Some("tz")));
    assert_ne!(base, signature("GET", "http://example.com/r", "a=b", "cs", None));
}

#[test]
fn token_new_keeps_fields() {
    let t = Token::new("key".to_string(), "secret".to_string());
    assert_eq!("key", t.key);
    assert_eq!("secret", t.secret);
}
