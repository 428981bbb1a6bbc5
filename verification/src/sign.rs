//! The signer: builds the signature base string and the signing key, and
//! computes the base64-encoded HMAC-SHA1 signature over them.

use vstd::prelude::*;
use crate::encoding::encode;
use crate::encoding::encode_str_spec;
use crypto::mac::Mac;
use rustc_serialize::base64::ToBase64;

verus! {

/// The HMAC-SHA1 message authentication code of `data` under `key`: a
/// function of the two byte strings alone.
pub uninterp spec fn hmac_sha1_of(key: Seq<u8>, data: Seq<u8>) -> Seq<u8>;

/// Standard padded base64 of a byte string: a function of the bytes alone.
pub uninterp spec fn base64_of(bytes: Seq<u8>) -> Seq<char>;

/// Relies on `crypto::hmac::Hmac` over `crypto::sha1::Sha1`: the MAC
/// depends on the key and the data alone, and a SHA-1 digest is 20 bytes.
#[verifier::external_body]
fn hmac_sha1(key: &[u8], data: &[u8]) -> (r: Vec<u8>)
    ensures
        r@ == hmac_sha1_of(key@, data@),
        r@.len() == 20,
{
    let mut hmac = crypto::hmac::Hmac::new(crypto::sha1::Sha1::new(), key);
    hmac.input(data);
    hmac.result().code().to_vec()
}

/// Relies on `rustc_serialize::base64::ToBase64` with the standard
/// alphabet, padding on and no line wrapping: the output depends on the
/// bytes alone, four characters for every started group of three bytes.
#[verifier::external_body]
fn base64_encode(bytes: &[u8]) -> (r: String)
    ensures
        r@ == base64_of(bytes@),
        r@.len() == 4 * ((bytes@.len() + 2) / 3),
{
    bytes.to_base64(
        rustc_serialize::base64::Config {
            char_set: rustc_serialize::base64::CharacterSet::Standard,
            newline: rustc_serialize::base64::Newline::LF,
            pad: true,
            line_length: None,
        },
    )
}

/// The signature base string: the method, the base URI and the canonical
/// parameter string, each percent-encoded once, joined with `&`.
pub open spec fn base_string_spec(method: Seq<char>, uri: Seq<char>, query: Seq<char>) -> Seq<
    char,
> {
    encode_str_spec(method) + "&"@ + encode_str_spec(uri) + "&"@ + encode_str_spec(query)
}

/// The signing key: the consumer secret and the token secret (empty when
/// no token is present), each percent-encoded, joined with `&`.
pub open spec fn signing_key_spec(
    consumer_secret: Seq<char>,
    token_secret: Option<Seq<char>>,
) -> Seq<char> {
    encode_str_spec(consumer_secret) + "&"@ + encode_str_spec(
        match token_secret {
            Some(t) => t,
            None => Seq::empty(),
        },
    )
}

/// The signature value: base64 of the HMAC-SHA1 of the base string's UTF-8
/// bytes under the signing key's UTF-8 bytes.
pub open spec fn signature_spec(
    method: Seq<char>,
    uri: Seq<char>,
    query: Seq<char>,
    consumer_secret: Seq<char>,
    token_secret: Option<Seq<char>>,
) -> Seq<char> {
    base64_of(
        hmac_sha1_of(
            vstd::utf8::encode_utf8(signing_key_spec(consumer_secret, token_secret)),
            vstd::utf8::encode_utf8(base_string_spec(method, uri, query)),
        ),
    )
}

/// The character sequence of an optional string.
pub open spec fn opt_str_view(s: Option<&str>) -> Option<Seq<char>> {
    match s {
        Some(t) => Some(t@),
        None => None,
    }
}

/// Computes the base64-encoded HMAC-SHA1 signature of a request: the base
/// string is built from the method, the URI and the canonical parameter
/// string, the key from the two secrets.
pub fn signature(
    method: &str,
    uri: &str,
    query: &str,
    consumer_secret: &str,
    token_secret: Option<&str>,
) -> (r: String)
    ensures
        r@ == signature_spec(method@, uri@, query@, consumer_secret@, opt_str_view(token_secret)),
{
    let mut base = encode(method);
    base.append("&");
    let eu = encode(uri);
    base.append(eu.as_str());
    base.append("&");
    let eq = encode(query);
    base.append(eq.as_str());
    let mut key = encode(consumer_secret);
    key.append("&");
    let et = match token_secret {
        Some(t) => encode(t),
        None => encode(""),
    };
    key.append(et.as_str());
    proof {
        reveal_strlit("");
        assert(""@ =~= Seq::<char>::empty());
        assert(base@ == base_string_spec(method@, uri@, query@));
        assert(key@ == signing_key_spec(consumer_secret@, opt_str_view(token_secret)));
    }
    let mac = hmac_sha1(key.as_str().as_bytes(), base.as_str().as_bytes());
    base64_encode(mac.as_slice())
}

/// LAW: the signature is a pure function of its five inputs: the same
/// method, URI, canonical parameter string and secrets always yield the
/// identical signature string, with no hidden state or randomness.
pub proof fn lemma_signature_deterministic(
    m1: Seq<char>,
    u1: Seq<char>,
    q1: Seq<char>,
    c1: Seq<char>,
    t1: Option<Seq<char>>,
    m2: Seq<char>,
    u2: Seq<char>,
    q2: Seq<char>,
    c2: Seq<char>,
    t2: Option<Seq<char>>,
)
    requires
        m1 == m2,
        u1 == u2,
        q1 == q2,
        c1 == c2,
        t1 == t2,
    ensures
        signature_spec(m1, u1, q1, c1, t1) == signature_spec(m2, u2, q2, c2, t2),
{
}

} // verus!
