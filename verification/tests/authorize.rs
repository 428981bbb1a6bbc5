use oauth_sign::Token;
use oauth_sign::authorize::authorize;
use oauth_sign::authorize::authorize_with;
use oauth_sign::authorize::body;
use oauth_sign::authorize::generate_nonce;
use oauth_sign::authorize::header;
use oauth_sign::authorize::request_url;
use oauth_sign::params::ParamList;
use oauth_sign::params::insert_param;
use oauth_sign::twitter::get_authorize_url;
use oauth_sign::twitter::status_params;
use oauth_sign::twitter::token_from_response;
use oauth_sign::twitter::verifier_params;

#[test]
fn authorize_with_matches_frozen_fixture() {
    let consumer = Token::new("ck".to_string(), "cs".to_string());
    let (hdr, bod) = authorize_with(
        "GET",
        "http://example.com/resource",
        &consumer,
        None,
        None,
        "abc",
        "123",
    );
    assert_eq!(
        "OAuth oauth_consumer_key=\"ck\", oauth_nonce=\"abc\", \
         oauth_signature=\"Rpg1VUwJ1X7LlF2O6ghm%2BywywDg%3D\", \
         oauth_signature_method=\"HMAC-SHA1\", oauth_timestamp=\"123\", \
         oauth_version=\"1.0\"",
        hdr
    );
    assert_eq!("", bod);
}

#[test]
fn authorize_without_app_params_has_empty_body() {
    let consumer = Token::new("ck".to_string(), "cs".to_string());
    let (hdr, bod) = authorize("GET", "http://example.com/resource", &consumer, None, None);
    assert!(hdr.starts_with("OAuth "));
    assert_eq!(0, bod.len());
    assert_eq!("http://example.com/resource", request_url("http://example.com/resource", &bod));
}

#[test]
fn request_url_appends_query_only_when_body_nonempty() {
    assert_eq!("http://e.com/r", request_url("http://e.com/r", ""));
    assert_eq!("http://e.com/r?a=b", request_url("http://e.com/r", "a=b"));
}

#[test]
fn header_takes_only_oauth_keys_and_body_the_rest() {
    let mut param = ParamList::new();
    insert_param(&mut param, "oauth_nonce".to_string(), "abc".to_string());
    insert_param(&mut param, "status".to_string(), "hello there".to_string());
    insert_param(&mut param, "oauth_version".to_string(), "1.0".to_string());
    let hdr = header(&param);
    let bod = body(&param);
    assert_eq!("OAuth oauth_nonce=\"abc\", oauth_version=\"1.0\"", hdr);
    assert_eq!("status=hello%20there", bod);
}

#[test]
fn authorize_with_app_params_serializes_them_in_the_body() {
    let consumer = Token::new("ck".to_string(), "cs".to_string());
    let access = Token::new("ak".to_string(), "as".to_string());
    let param = status_params("hello world");
    let (hdr, bod) = authorize_with(
        "POST",
        "https://api.twitter.com/1.1/statuses/update.json",
        &consumer,
        Some(&access),
        Some(&param),
        "abc",
        "123",
    );
    assert_eq!("status=hello%20world", bod);
    assert!(hdr.starts_with("OAuth "));
    assert!(hdr.contains("oauth_token=\"ak\""));
    assert!(hdr.contains("oauth_signature="));
    assert!(!hdr.contains("status="));
}

#[test]
fn nonces_are_long_alphanumeric_and_distinct() {
    let mut seen: Vec<String> = Vec::new();
    for _ in 0..10000 {
        let n = generate_nonce();
        assert!(n.len() >= 32);
        assert!(n.chars().all(|c| c.is_ascii_alphanumeric()));
        seen.push(n);
    }
    seen.sort();
    for w in seen.windows(2) {
        assert_ne!(w[0], w[1]);
    }
}

#[test]
fn authorize_url_carries_the_request_token_key() {
    let request = Token::new("rk".to_string(), "rs".to_string());
    assert_eq!(
        "https://api.twitter.com/oauth/authorize?oauth_token=rk",
        get_authorize_url(&request)
    );
}

#[test]
fn token_from_response_reads_both_fields() {
    let t = token_from_response("oauth_token=tk&oauth_token_secret=ts").unwrap();
    assert_eq!("tk", t.key);
    assert_eq!("ts", t.secret);
}

#[test]
fn token_from_response_rejects_missing_key() {
    assert!(token_from_response("oauth_token=tk").is_err());
    assert!(token_from_response("oauth_token_secret=ts").is_err());
    assert!(token_from_response("not a query").is_err());
}

#[test]
fn verifier_params_holds_the_pin() {
    let param = verifier_params("1234");
    assert_eq!("1234", param.lookup("oauth_verifier").unwrap());
}
