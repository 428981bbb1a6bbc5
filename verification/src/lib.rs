//! Client-side OAuth 1.0a request signing.
//!
//! The crate canonicalizes request parameters, builds the signature base
//! string, computes an HMAC-SHA1 signature over it, and assembles the
//! `Authorization` header value and the request body from the signed
//! parameter set.

use vstd::prelude::*;

pub mod encoding;
pub mod params;
pub mod authorize;
pub mod config;
pub mod sign;
pub mod twitter;

verus! {

/// A response body that should read `key=value&...` could not be
/// interpreted: a segment is not a single `key=value` pair, or a required
/// key is absent.
#[derive(Clone, Copy, Debug, PartialEq, Eq, Structural)]
pub enum OauthError {
    MalformedResponse,
}

/// An immutable key/secret credential pair: either a consumer identity or a
/// user-granted (request or access) token.
#[derive(Debug)]
pub struct Token {
    pub key: String,
    pub secret: String,
}

impl Token {
    /// Builds a token from its key and secret; no validation is performed.
    pub fn new(key: String, secret: String) -> (t: Token)
        ensures
            t.key@ == key@,
            t.secret@ == secret@,
    {
        Token { key, secret }
    }
}

} // verus!
