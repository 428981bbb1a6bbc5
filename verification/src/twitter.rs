//! The pure part of the endpoint glue: building the authorize URL, the
//! per-endpoint parameter sets, and turning token-endpoint response bodies
//! into tokens. Issuing the HTTP calls belongs to the transport around the
//! library.

use vstd::prelude::*;
use crate::OauthError;
use crate::Token;
use crate::params::ParamList;
use crate::params::ParamPair;
use crate::params::insert_param;
use crate::params::pairs_to_map;
use crate::params::spec_insert;
use crate::params::split_query;
use crate::params::split_query_spec;

verus! {

/// The token a token-endpoint response denotes: the mapping of its parsed
/// body must bind `oauth_token` and `oauth_token_secret`.
pub open spec fn response_token_spec(q: Seq<char>) -> Option<ParamPair> {
    match split_query_spec(q) {
        None => None,
        Some(ps) => {
            let m = pairs_to_map(ps);
            if m.contains_key("oauth_token"@) && m.contains_key("oauth_token_secret"@) {
                Some((m["oauth_token"@], m["oauth_token_secret"@]))
            } else {
                None
            }
        },
    }
}

/// Parses a request-token or access-token response body into the token it
/// carries: `oauth_token` becomes the key, `oauth_token_secret` the
/// secret. A body that does not parse, or misses either key, is a
/// malformed response.
pub fn token_from_response(resp: &str) -> (r: Result<Token, OauthError>)
    ensures
        match r {
            Ok(t) => response_token_spec(resp@) == Some((t.key@, t.secret@)),
            Err(e) => response_token_spec(resp@) is None && e == OauthError::MalformedResponse,
        },
{
    let param = match split_query(resp) {
        Ok(p) => p,
        Err(e) => {
            return Err(e);
        },
    };
    let key = match param.lookup("oauth_token") {
        Some(k) => k.clone(),
        None => {
            return Err(OauthError::MalformedResponse);
        },
    };
    let secret = match param.lookup("oauth_token_secret") {
        Some(s) => s.clone(),
        None => {
            return Err(OauthError::MalformedResponse);
        },
    };
    Ok(Token::new(key, secret))
}

/// The browser-facing authorization URL for a request token:
/// `<authorize-base>?oauth_token=<key>`.
pub fn get_authorize_url(request: &Token) -> (r: String)
    ensures
        r@ == "https://api.twitter.com/oauth/authorize"@ + "?oauth_token="@ + request.key@,
{
    let mut r = String::from_str("https://api.twitter.com/oauth/authorize");
    r.append("?oauth_token=");
    r.append(request.key.as_str());
    r
}

/// The extra parameter set of an access-token exchange: the user's
/// verifier PIN under `oauth_verifier`.
pub fn verifier_params(pin: &str) -> (r: ParamList)
    ensures
        r@ == spec_insert(Seq::empty(), "oauth_verifier"@, pin@),
        r.wf(),
{
    let mut param = ParamList::new();
    insert_param(&mut param, String::from_str("oauth_verifier"), String::from_str(pin));
    param
}

/// The extra parameter set of a status post: the text under `status`.
pub fn status_params(status: &str) -> (r: ParamList)
    ensures
        r@ == spec_insert(Seq::empty(), "status"@, status@),
        r.wf(),
{
    let mut param = ParamList::new();
    insert_param(&mut param, String::from_str("status"), String::from_str(status));
    param
}

} // verus!
