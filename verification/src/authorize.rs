//! The request authorizer: generates the protocol parameters, merges in the
//! caller's parameters, signs the set, and splits it into the
//! `Authorization` header value and the request body string.

use vstd::prelude::*;
use crate::Token;
use crate::encoding::encode;
use crate::encoding::encode_str_spec;
use crate::encoding::lex_leq_fn;
use crate::params::ParamList;
use crate::params::ParamPair;
use crate::params::insert_all;
use crate::params::insert_param;
use crate::params::join_query;
use crate::params::join_query_spec;
use crate::params::join_with_spec;
use crate::params::lemma_canonical_sort;
use crate::params::lemma_insert_all_push;
use crate::params::lemma_spec_insert_props;
use crate::params::spec_insert;
use crate::params::unique_keys;
use crate::sign::signature;
use crate::sign::signature_spec;
use crate::params::join_with;
use rand::distributions::DistString;

verus! {

/// A protocol parameter: its name starts with the reserved prefix
/// `oauth_`.
pub open spec fn is_oauth_key(k: Seq<char>) -> bool {
    k.len() >= 6 && k.take(6) == "oauth_"@
}

/// The pairs that the header serializes.
pub open spec fn oauth_pred() -> spec_fn(ParamPair) -> bool {
    |p: ParamPair| is_oauth_key(p.0)
}

/// The pairs that the body serializes.
pub open spec fn other_pred() -> spec_fn(ParamPair) -> bool {
    |p: ParamPair| !is_oauth_key(p.0)
}

/// How one pair is rendered in the header: the key verbatim, the value
/// percent-encoded and quoted.
pub open spec fn header_pair_fn() -> spec_fn(ParamPair) -> Seq<char> {
    |p: ParamPair| p.0 + "=\""@ + encode_str_spec(p.1) + "\""@
}

/// How one pair is rendered in the body: the key verbatim, the value
/// percent-encoded.
pub open spec fn body_pair_fn() -> spec_fn(ParamPair) -> Seq<char> {
    |p: ParamPair| p.0 + "="@ + encode_str_spec(p.1)
}

/// The `Authorization` header value: `OAuth ` and the `oauth_`-prefixed
/// pairs, rendered, sorted, joined with `, `.
pub open spec fn header_spec(ps: Seq<ParamPair>) -> Seq<char> {
    "OAuth "@ + join_with_spec(
        ps.filter(oauth_pred()).map_values(header_pair_fn()).sort_by(lex_leq_fn()),
        ", "@,
    )
}

/// The request body / query string: the pairs without the `oauth_` prefix,
/// rendered, sorted, joined with `&`.
pub open spec fn body_spec(ps: Seq<ParamPair>) -> Seq<char> {
    join_with_spec(ps.filter(other_pred()).map_values(body_pair_fn()).sort_by(lex_leq_fn()), "&"@)
}

/// Decides whether a key carries the reserved `oauth_` prefix.
fn is_oauth_key_exec(k: &String) -> (b: bool)
    ensures
        b == is_oauth_key(k@),
{
    proof {
        reveal_strlit("oauth_");
    }
    let n = k.as_str().unicode_len();
    if n < 6 {
        return false;
    }
    let s = k.as_str();
    let b = s.get_char(0) == 'o' && s.get_char(1) == 'a' && s.get_char(2) == 'u' && s.get_char(3)
        == 't' && s.get_char(4) == 'h' && s.get_char(5) == '_';
    proof {
        if b {
            assert(k@.take(6) =~= "oauth_"@);
        } else {
            assert(k@.take(6) != "oauth_"@) by {
                if k@.take(6) == "oauth_"@ {
                    assert(k@.take(6)[0] == 'o' && k@.take(6)[1] == 'a' && k@.take(6)[2] == 'u'
                        && k@.take(6)[3] == 't' && k@.take(6)[4] == 'h' && k@.take(6)[5] == '_');
                }
            }
        }
    }
    b
}

/// Renders, sorts and joins the pairs that a side of the partition keeps:
/// the header side takes the `oauth_`-prefixed keys and quotes the encoded
/// value, the body side takes the rest unquoted.
fn render_partition(param: &ParamList, take_oauth: bool, sep: &str) -> (r: String)
    ensures
        take_oauth ==> r@ == join_with_spec(
            param@.filter(oauth_pred()).map_values(header_pair_fn()).sort_by(lex_leq_fn()),
            sep@,
        ),
        !take_oauth ==> r@ == join_with_spec(
            param@.filter(other_pred()).map_values(body_pair_fn()).sort_by(lex_leq_fn()),
            sep@,
        ),
{
    let ghost pred = if take_oauth {
        oauth_pred()
    } else {
        other_pred()
    };
    let ghost fmt = if take_oauth {
        header_pair_fn()
    } else {
        body_pair_fn()
    };
    let n = param.len();
    let mut rendered: Vec<String> = Vec::new();
    let mut i: usize = 0;
    proof {
        assert(rendered.deep_view() =~= param@.take(0).filter(pred).map_values(fmt));
    }
    while i < n
        invariant
            i <= n,
            n == param@.len(),
            pred == if take_oauth {
                oauth_pred()
            } else {
                other_pred()
            },
            fmt == if take_oauth {
                header_pair_fn()
            } else {
                body_pair_fn()
            },
            rendered.deep_view() == param@.take(i as int).filter(pred).map_values(fmt),
        decreases n - i,
    {
        let (k, v) = param.pair_at(i);
        let is_oauth = is_oauth_key_exec(k);
        if is_oauth == take_oauth {
            let mut s = k.clone();
            if take_oauth {
                s.append("=\"");
            } else {
                s.append("=");
            }
            let ev = encode(v.as_str());
            s.append(ev.as_str());
            if take_oauth {
                s.append("\"");
            }
            rendered.push(s);
            proof {
                assert(s@ == fmt(param@[i as int]));
            }
        }
        proof {
            reveal_with_fuel(Seq::filter, 3);
            let pre = param@.take(i as int);
            let x = param@[i as int];
            assert(param@.take(i + 1) =~= pre + seq![x]);
            Seq::filter_distributes_over_add(pre, seq![x], pred);
            assert(param@.take(i + 1).filter(pred) == pre.filter(pred) + seq![x].filter(pred));
            assert(seq![x].drop_last() =~= Seq::<ParamPair>::empty());
            if pred(x) {
                assert(seq![x].filter(pred) =~= seq![x]);
                assert(param@.take(i + 1).filter(pred) =~= pre.filter(pred).push(x));
                assert(rendered.deep_view() =~= pre.filter(pred).map_values(fmt).push(fmt(x)));
                assert(pre.filter(pred).push(x).map_values(fmt) =~= pre.filter(pred).map_values(
                    fmt,
                ).push(fmt(x)));
                assert(rendered.deep_view() == param@.take(i + 1).filter(pred).map_values(fmt));
            } else {
                assert(seq![x].filter(pred) =~= Seq::<ParamPair>::empty());
                assert(pre.filter(pred) + Seq::<ParamPair>::empty() =~= pre.filter(pred));
                assert(pre.filter(pred) == param@.take(i + 1).filter(pred));
                assert(rendered.deep_view() == param@.take(i + 1).filter(pred).map_values(fmt));
            }
        }
        i += 1;
    }
    proof {
        assert(param@.take(n as int) =~= param@);
    }
    let sorted = crate::params::sort_strings(&rendered);
    let r = join_with(&sorted, sep);
    proof {
        lemma_canonical_sort(param@.filter(pred).map_values(fmt), sorted.deep_view());
    }
    r
}

/// Serializes the protocol parameters as the `Authorization` header value:
/// `OAuth `, then the `oauth_`-prefixed pairs as `name="encoded-value"`,
/// sorted, comma-joined. Application parameters are excluded.
pub fn header(param: &ParamList) -> (r: String)
    ensures
        r@ == header_spec(param@),
{
    let joined = render_partition(param, true, ", ");
    let mut r = String::from_str("OAuth ");
    r.append(joined.as_str());
    r
}

/// Serializes the application parameters as the body / query string: the
/// pairs without the `oauth_` prefix as `name=encoded-value`, sorted,
/// `&`-joined. Protocol parameters are excluded.
pub fn body(param: &ParamList) -> (r: String)
    ensures
        r@ == body_spec(param@),
{
    render_partition(param, false, "&")
}

} // verus!

verus! {

/// An ASCII letter or digit.
pub open spec fn is_alnum_char(c: char) -> bool {
    (65 <= c as u32 && c as u32 <= 90) || (97 <= c as u32 && c as u32 <= 122) || (48 <= c as u32
        && c as u32 <= 57)
}

/// A nonce as the authorizer generates it: exactly 32 characters from the
/// alphanumeric alphabet.
pub open spec fn nonce_ok(n: Seq<char>) -> bool {
    n.len() == 32 && (forall|i: int| 0 <= i < n.len() ==> is_alnum_char(#[trigger] n[i]))
}

/// Relies on rand's `Alphanumeric` distribution sampled from `OsRng`:
/// exactly `len` characters, each drawn from `A`-`Z`, `a`-`z`, `0`-`9`.
#[verifier::external_body]
fn random_alphanumeric(len: usize) -> (r: String)
    ensures
        r@.len() == len,
        forall|i: int| 0 <= i < r@.len() ==> is_alnum_char(#[trigger] r@[i]),
{
    rand::distributions::Alphanumeric.sample_string(&mut rand::rngs::OsRng, len)
}

/// Generates a fresh random nonce: 32 alphanumeric characters, unique per
/// call with overwhelming probability.
pub fn generate_nonce() -> (r: String)
    ensures
        nonce_ok(r@),
{
    random_alphanumeric(32)
}

/// Relies on `time::OffsetDateTime::now_utc`: the current UTC time, read
/// as whole seconds since the Unix epoch and written in decimal.
#[verifier::external_body]
fn timestamp_string() -> (r: String) {
    format!("{}", time::OffsetDateTime::now_utc().unix_timestamp())
}

/// The protocol parameters of one signed call: consumer key, nonce,
/// signature method, timestamp, version, and the token key when a second
/// token is present.
pub open spec fn protocol_params_spec(
    consumer_key: Seq<char>,
    token_key: Option<Seq<char>>,
    nonce: Seq<char>,
    timestamp: Seq<char>,
) -> Seq<ParamPair> {
    let p = spec_insert(
        spec_insert(
            spec_insert(
                spec_insert(
                    spec_insert(Seq::empty(), "oauth_consumer_key"@, consumer_key),
                    "oauth_nonce"@,
                    nonce,
                ),
                "oauth_signature_method"@,
                "HMAC-SHA1"@,
            ),
            "oauth_timestamp"@,
            timestamp,
        ),
        "oauth_version"@,
        "1.0"@,
    );
    match token_key {
        Some(k) => spec_insert(p, "oauth_token"@, k),
        None => p,
    }
}

/// The full unsigned parameter set: the protocol parameters, then the
/// caller's parameters inserted in order.
pub open spec fn unsigned_params_spec(
    consumer_key: Seq<char>,
    token_key: Option<Seq<char>>,
    other: Option<Seq<ParamPair>>,
    nonce: Seq<char>,
    timestamp: Seq<char>,
) -> Seq<ParamPair> {
    let p = protocol_params_spec(consumer_key, token_key, nonce, timestamp);
    match other {
        Some(o) => insert_all(p, o),
        None => p,
    }
}

/// The key and secret of an optional token.
pub open spec fn opt_token_view(t: Option<&Token>) -> Option<ParamPair> {
    match t {
        Some(tok) => Some((tok.key@, tok.secret@)),
        None => None,
    }
}

/// The pairs of an optional parameter set.
pub open spec fn opt_params_view(p: Option<&ParamList>) -> Option<Seq<ParamPair>> {
    match p {
        Some(ps) => Some(ps@),
        None => None,
    }
}

pub open spec fn opt_key(t: Option<ParamPair>) -> Option<Seq<char>> {
    match t {
        Some(p) => Some(p.0),
        None => None,
    }
}

pub open spec fn opt_secret(t: Option<ParamPair>) -> Option<Seq<char>> {
    match t {
        Some(p) => Some(p.1),
        None => None,
    }
}

/// The final, signed parameter set of one call: the unsigned set, with the
/// signature computed over its canonical serialization inserted under
/// `oauth_signature`.
pub open spec fn signed_params_spec(
    method: Seq<char>,
    uri: Seq<char>,
    consumer_key: Seq<char>,
    consumer_secret: Seq<char>,
    token: Option<ParamPair>,
    other: Option<Seq<ParamPair>>,
    nonce: Seq<char>,
    timestamp: Seq<char>,
) -> Seq<ParamPair> {
    let u = unsigned_params_spec(consumer_key, opt_key(token), other, nonce, timestamp);
    spec_insert(
        u,
        "oauth_signature"@,
        signature_spec(method, uri, join_query_spec(u), consumer_secret, opt_secret(token)),
    )
}

/// Assembles and signs one call deterministically, from a given nonce and
/// timestamp: merges the protocol and caller parameters, signs the
/// canonical parameter string, and serializes the signed set into the
/// `Authorization` header value and the body string.
pub fn authorize_with(
    method: &str,
    uri: &str,
    consumer: &Token,
    token: Option<&Token>,
    other_param: Option<&ParamList>,
    nonce: &str,
    timestamp: &str,
) -> (r: (String, String))
    requires
        match other_param {
            Some(p) => p.wf(),
            None => true,
        },
    ensures
        r.0@ == header_spec(
            signed_params_spec(
                method@,
                uri@,
                consumer.key@,
                consumer.secret@,
                opt_token_view(token),
                opt_params_view(other_param),
                nonce@,
                timestamp@,
            ),
        ),
        r.1@ == body_spec(
            signed_params_spec(
                method@,
                uri@,
                consumer.key@,
                consumer.secret@,
                opt_token_view(token),
                opt_params_view(other_param),
                nonce@,
                timestamp@,
            ),
        ),
{
    let mut param = ParamList::new();
    insert_param(&mut param, String::from_str("oauth_consumer_key"), consumer.key.clone());
    insert_param(&mut param, String::from_str("oauth_nonce"), String::from_str(nonce));
    insert_param(
        &mut param,
        String::from_str("oauth_signature_method"),
        String::from_str("HMAC-SHA1"),
    );
    insert_param(&mut param, String::from_str("oauth_timestamp"), String::from_str(timestamp));
    insert_param(&mut param, String::from_str("oauth_version"), String::from_str("1.0"));
    match token {
        Some(tk) => {
            insert_param(&mut param, String::from_str("oauth_token"), tk.key.clone());
        },
        None => {},
    }
    proof {
        assert(param@ == protocol_params_spec(
            consumer.key@,
            opt_key(opt_token_view(token)),
            nonce@,
            timestamp@,
        ));
    }
    match other_param {
        Some(ps) => {
            let ghost base = param@;
            let n = ps.len();
            let mut i: usize = 0;
            proof {
                assert(ps@.take(0) =~= Seq::<ParamPair>::empty());
            }
            while i < n
                invariant
                    i <= n,
                    n == ps@.len(),
                    ps.wf(),
                    param.wf(),
                    param@ == insert_all(base, ps@.take(i as int)),
                decreases n - i,
            {
                let (k, v) = ps.pair_at(i);
                insert_param(&mut param, k.clone(), v.clone());
                proof {
                    lemma_insert_all_push(base, ps@.take(i as int), ps@[i as int]);
                    assert(ps@.take(i + 1) =~= ps@.take(i as int).push(ps@[i as int]));
                }
                i += 1;
            }
            proof {
                assert(ps@.take(n as int) =~= ps@);
            }
        },
        None => {},
    }
    let query = join_query(&param);
    let token_secret: Option<&str> = match token {
        Some(t) => Some(t.secret.as_str()),
        None => None,
    };
    let sig = signature(method, uri, query.as_str(), consumer.secret.as_str(), token_secret);
    proof {
        assert(crate::sign::opt_str_view(token_secret) == opt_secret(opt_token_view(token)));
    }
    insert_param(&mut param, String::from_str("oauth_signature"), sig);
    let h = header(&param);
    let b = body(&param);
    (h, b)
}

/// Authorizes one call: generates a fresh nonce and reads the clock, then
/// assembles, signs and serializes the parameter set. Whatever nonce and
/// timestamp came back, the result is their signed serialization, the
/// nonce 32 alphanumeric characters.
pub fn authorize(
    method: &str,
    uri: &str,
    consumer: &Token,
    token: Option<&Token>,
    other_param: Option<&ParamList>,
) -> (r: (String, String))
    requires
        match other_param {
            Some(p) => p.wf(),
            None => true,
        },
    ensures
        exists|nonce: Seq<char>, ts: Seq<char>|
            nonce_ok(nonce) && r.0@ == header_spec(
                signed_params_spec(
                    method@,
                    uri@,
                    consumer.key@,
                    consumer.secret@,
                    opt_token_view(token),
                    opt_params_view(other_param),
                    nonce,
                    ts,
                ),
            ) && r.1@ == body_spec(
                signed_params_spec(
                    method@,
                    uri@,
                    consumer.key@,
                    consumer.secret@,
                    opt_token_view(token),
                    opt_params_view(other_param),
                    nonce,
                    ts,
                ),
            ),
{
    let nonce = generate_nonce();
    let ts = timestamp_string();
    let r = authorize_with(method, uri, consumer, token, other_param, nonce.as_str(), ts.as_str());
    proof {
        assert(nonce_ok(nonce@) && r.0@ == header_spec(
            signed_params_spec(
                method@,
                uri@,
                consumer.key@,
                consumer.secret@,
                opt_token_view(token),
                opt_params_view(other_param),
                nonce@,
                ts@,
            ),
        ) && r.1@ == body_spec(
            signed_params_spec(
                method@,
                uri@,
                consumer.key@,
                consumer.secret@,
                opt_token_view(token),
                opt_params_view(other_param),
                nonce@,
                ts@,
            ),
        ));
    }
    r
}

/// The URL a GET request is issued to: the body string is appended as a
/// query only when it is non-empty; no `?` is appended to the bare URI.
pub fn request_url(uri: &str, body_str: &str) -> (r: String)
    ensures
        body_str@.len() == 0 ==> r@ == uri@,
        body_str@.len() != 0 ==> r@ == uri@ + "?"@ + body_str@,
{
    let mut r = String::from_str(uri);
    if body_str.unicode_len() > 0 {
        r.append("?");
        r.append(body_str);
    }
    r
}

} // verus!

verus! {

/// LAW: the header and the body partition the signed parameter set. The
/// header side holds exactly the `oauth_`-prefixed pairs and the body side
/// exactly the others, so the two are disjoint by the key prefix, and
/// together they are exactly the set the signature was computed over: no
/// pair is dropped or duplicated.
pub proof fn lemma_header_body_partition(ps: Seq<ParamPair>)
    ensures
        forall|i: int|
            0 <= i < ps.filter(oauth_pred()).len() ==> is_oauth_key(
                (#[trigger] ps.filter(oauth_pred())[i]).0,
            ),
        forall|i: int|
            0 <= i < ps.filter(other_pred()).len() ==> !is_oauth_key(
                (#[trigger] ps.filter(other_pred())[i]).0,
            ),
        ps.filter(oauth_pred()).to_multiset().add(ps.filter(other_pred()).to_multiset())
            == ps.to_multiset(),
    decreases ps.len(),
{
    broadcast use vstd::seq_lib::group_to_multiset_ensures;
    broadcast use vstd::multiset::group_multiset_axioms;

    reveal_with_fuel(Seq::filter, 2);
    let h = ps.filter(oauth_pred());
    let b = ps.filter(other_pred());
    if ps.len() == 0 {
        assert(h.to_multiset().len() == 0);
        assert(b.to_multiset().len() == 0);
        assert(h.to_multiset().add(b.to_multiset()) =~= ps.to_multiset());
    } else {
        let pre = ps.drop_last();
        let x = ps.last();
        lemma_header_body_partition(pre);
        let hp = pre.filter(oauth_pred());
        let bp = pre.filter(other_pred());
        assert(ps =~= pre.push(x));
        assert(ps.to_multiset() == pre.to_multiset().insert(x));
        if is_oauth_key(x.0) {
            assert(h == hp.push(x));
            assert(b == bp);
            assert(h.to_multiset() == hp.to_multiset().insert(x));
            assert forall|i: int| 0 <= i < h.len() implies is_oauth_key((#[trigger] h[i]).0) by {
                if i < hp.len() {
                    assert(h[i] == hp[i]);
                } else {
                    assert(h[i] == x);
                }
            }
            assert(h.to_multiset().add(b.to_multiset()) =~= ps.to_multiset());
        } else {
            assert(b == bp.push(x));
            assert(h == hp);
            assert(b.to_multiset() == bp.to_multiset().insert(x));
            assert forall|i: int| 0 <= i < b.len() implies !is_oauth_key((#[trigger] b[i]).0) by {
                if i < bp.len() {
                    assert(b[i] == bp[i]);
                } else {
                    assert(b[i] == x);
                }
            }
            assert(h.to_multiset().add(b.to_multiset()) =~= ps.to_multiset());
        }
    }
}

/// A set whose keys all carry the `oauth_` prefix leaves nothing for the
/// body to serialize.
proof fn lemma_all_oauth_empty_body(ps: Seq<ParamPair>)
    requires
        forall|i: int| 0 <= i < ps.len() ==> is_oauth_key((#[trigger] ps[i]).0),
    ensures
        body_spec(ps) == Seq::<char>::empty(),
    decreases ps.len(),
{
    reveal_with_fuel(Seq::filter, 2);
    assert(ps.filter(other_pred()) =~= Seq::<ParamPair>::empty()) by {
        lemma_filter_all_oauth(ps);
    }
    assert(ps.filter(other_pred()).map_values(body_pair_fn()) =~= Seq::<Seq<char>>::empty());
    let sorted = Seq::<Seq<char>>::empty().sort_by(lex_leq_fn());
    crate::encoding::lemma_lex_total_ordering();
    Seq::<Seq<char>>::empty().lemma_sort_by_ensures(lex_leq_fn());
    broadcast use vstd::seq_lib::group_to_multiset_ensures;

    assert(sorted.to_multiset().len() == 0);
    assert(sorted =~= Seq::<Seq<char>>::empty());
    assert(join_with_spec(sorted, "&"@) == Seq::<char>::empty());
}

/// Filtering for non-protocol pairs leaves nothing when every key carries
/// the prefix.
proof fn lemma_filter_all_oauth(ps: Seq<ParamPair>)
    requires
        forall|i: int| 0 <= i < ps.len() ==> is_oauth_key((#[trigger] ps[i]).0),
    ensures
        ps.filter(other_pred()) == Seq::<ParamPair>::empty(),
    decreases ps.len(),
{
    reveal_with_fuel(Seq::filter, 2);
    if ps.len() == 0 {
        assert(ps.filter(other_pred()) =~= Seq::<ParamPair>::empty());
    } else {
        let pre = ps.drop_last();
        assert(forall|i: int| 0 <= i < pre.len() ==> pre[i] == ps[i]);
        lemma_filter_all_oauth(pre);
        assert(is_oauth_key(ps.last().0)) by {
            assert(ps[ps.len() - 1] == ps.last());
        }
        assert(ps.filter(other_pred()) == pre.filter(other_pred()));
    }
}

/// Inserting a pair whose key carries the prefix into a set whose keys all
/// carry it keeps both that and the uniqueness of keys.
proof fn lemma_spec_insert_oauth(ps: Seq<ParamPair>, k: Seq<char>, v: Seq<char>)
    requires
        unique_keys(ps),
        forall|i: int| 0 <= i < ps.len() ==> is_oauth_key((#[trigger] ps[i]).0),
        is_oauth_key(k),
    ensures
        unique_keys(spec_insert(ps, k, v)),
        forall|i: int|
            0 <= i < spec_insert(ps, k, v).len() ==> is_oauth_key(
                (#[trigger] spec_insert(ps, k, v)[i]).0,
            ),
{
    lemma_spec_insert_props(ps, k, v);
    let r = spec_insert(ps, k, v);
    if exists|w: int| 0 <= w < ps.len() && ps[w].0 == k {
        let w = choose|w: int| 0 <= w < ps.len() && ps[w].0 == k;
        assert(r == ps.update(w, (k, v)));
        assert forall|i: int| 0 <= i < r.len() implies is_oauth_key((#[trigger] r[i]).0) by {
            if i != w {
                assert(r[i] == ps[i]);
            }
        }
    } else {
        assert(forall|i: int| 0 <= i < ps.len() ==> ps[i].0 != k);
        assert(r == ps.push((k, v)));
        assert forall|i: int| 0 <= i < r.len() implies is_oauth_key((#[trigger] r[i]).0) by {
            if i < ps.len() {
                assert(r[i] == ps[i]);
            } else {
                assert(r[i] == (k, v));
            }
        }
    }
}

/// LAW: a call with no application parameters yields a body string of
/// length zero: every parameter the authorizer generates is a protocol
/// parameter, so the body side of the partition is empty.
pub proof fn lemma_authorize_empty_body(
    method: Seq<char>,
    uri: Seq<char>,
    consumer_key: Seq<char>,
    consumer_secret: Seq<char>,
    token: Option<ParamPair>,
    nonce: Seq<char>,
    timestamp: Seq<char>,
)
    ensures
        body_spec(
            signed_params_spec(
                method,
                uri,
                consumer_key,
                consumer_secret,
                token,
                None,
                nonce,
                timestamp,
            ),
        ) == Seq::<char>::empty(),
{
    reveal_strlit("oauth_");
    reveal_strlit("oauth_consumer_key");
    reveal_strlit("oauth_nonce");
    reveal_strlit("oauth_signature_method");
    reveal_strlit("oauth_timestamp");
    reveal_strlit("oauth_version");
    reveal_strlit("oauth_token");
    reveal_strlit("oauth_signature");
    assert(is_oauth_key("oauth_consumer_key"@)) by {
        assert("oauth_consumer_key"@.take(6) =~= "oauth_"@);
    }
    assert(is_oauth_key("oauth_nonce"@)) by {
        assert("oauth_nonce"@.take(6) =~= "oauth_"@);
    }
    assert(is_oauth_key("oauth_signature_method"@)) by {
        assert("oauth_signature_method"@.take(6) =~= "oauth_"@);
    }
    assert(is_oauth_key("oauth_timestamp"@)) by {
        assert("oauth_timestamp"@.take(6) =~= "oauth_"@);
    }
    assert(is_oauth_key("oauth_version"@)) by {
        assert("oauth_version"@.take(6) =~= "oauth_"@);
    }
    assert(is_oauth_key("oauth_token"@)) by {
        assert("oauth_token"@.take(6) =~= "oauth_"@);
    }
    assert(is_oauth_key("oauth_signature"@)) by {
        assert("oauth_signature"@.take(6) =~= "oauth_"@);
    }
    let e = Seq::<ParamPair>::empty();
    assert(unique_keys(e));
    assert(forall|i: int| 0 <= i < e.len() ==> is_oauth_key((#[trigger] e[i]).0));
    let p1 = spec_insert(e, "oauth_consumer_key"@, consumer_key);
    lemma_spec_insert_oauth(e, "oauth_consumer_key"@, consumer_key);
    let p2 = spec_insert(p1, "oauth_nonce"@, nonce);
    lemma_spec_insert_oauth(p1, "oauth_nonce"@, nonce);
    let p3 = spec_insert(p2, "oauth_signature_method"@, "HMAC-SHA1"@);
    lemma_spec_insert_oauth(p2, "oauth_signature_method"@, "HMAC-SHA1"@);
    let p4 = spec_insert(p3, "oauth_timestamp"@, timestamp);
    lemma_spec_insert_oauth(p3, "oauth_timestamp"@, timestamp);
    let p5 = spec_insert(p4, "oauth_version"@, "1.0"@);
    lemma_spec_insert_oauth(p4, "oauth_version"@, "1.0"@);
    let u = unsigned_params_spec(consumer_key, opt_key(token), None, nonce, timestamp);
    match opt_key(token) {
        Some(k) => {
            lemma_spec_insert_oauth(p5, "oauth_token"@, k);
            assert(u == spec_insert(p5, "oauth_token"@, k));
        },
        None => {
            assert(u == p5);
        },
    }
    let s = signed_params_spec(
        method,
        uri,
        consumer_key,
        consumer_secret,
        token,
        None,
        nonce,
        timestamp,
    );
    lemma_spec_insert_oauth(
        u,
        "oauth_signature"@,
        signature_spec(method, uri, join_query_spec(u), consumer_secret, opt_secret(token)),
    );
    lemma_all_oauth_empty_body(s);
}

} // verus!
