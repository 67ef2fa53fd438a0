//! The decisions of the HTTP proxy: which target a request goes to, what
//! the matching rule makes of it, how replies and log events are built.
//! Sockets, upstream calls and sleeping are the caller's.
use vstd::prelude::*;
use vstd::multiset::Multiset;
use vstd::utf8::encode_utf8;
use crate::clock::{new_uuid_string, utc_now};
use crate::headers::{
    header_entries, header_key, header_map_entries, header_map_get_text, header_map_insert,
    header_map_new, header_map_remove, header_name_valid, header_value_valid, header_value_visible,
    has_key, header_values, value_list, values_named, lemma_plain_header, lemma_without_key_len, entry_views, without_key,
    HEADER_MAP_VALUE_LIMIT,
};
use crate::models::{
    opt_view, pairs_view, strings_view, MockResponseAction, ProxyEvent, ProxyEventView, };
use crate::rewrite::{
    apply_transform, header_sets, lemma_content_length_count, set_content_length, transform_outcome, with_content_length, HeaderEntries,
    TransformError,
};
use crate::rules::{
    counts_up, lemma_rule_limits_fewer, rule_applies, rule_fits_limits, transform_within_limits, chosen_among, count_of, evaluation, normalize_headers, normalized_header_pairs, parse_query,
    resolution, resolve_action, rule_within_limits, select_matching_rule, url_query_pairs, lemma_resolution_within_limits, NormalizedRequest, NormalizedRequestView,
};
use crate::models::{RuleAction, opt_transform_view, rules_view, ActionStepView, ResolvedAction, RewriteRuleView, TransformOps};
use crate::state::{log_after, AppState};
use crate::text::{to_uppercase, uppercase_text, utf8_lossy, utf8_lossy_text};
use crate::text::{ascii_chars, decimal, decimal_string};

verus! {

broadcast use vstd::string::group_string_axioms, vstd::multiset::group_multiset_axioms,
    vstd::seq_lib::group_to_multiset_ensures;

// ---------------------------------------------------------------- headers

/// Hop-by-hop headers, which a proxy does not pass on.
pub open spec fn hop_headers() -> Seq<Seq<char>> {
    seq![
        "connection"@,
        "proxy-connection"@,
        "keep-alive"@,
        "proxy-authenticate"@,
        "proxy-authorization"@,
        "te"@,
        "trailers"@,
        "upgrade"@,
    ]
}

/// The entries left after dropping every value under each of `names`.
pub open spec fn without_keys(entries: HeaderEntries, names: Seq<Seq<char>>) -> HeaderEntries
    decreases names.len(),
{
    if names.len() == 0 {
        entries
    } else {
        without_key(without_keys(entries, names.drop_last()), names.last())
    }
}

fn remove_plain(headers: &mut http::HeaderMap<http::HeaderValue>, name: &str)
    requires
        1 <= name@.len() <= 65535,
        forall|i: int| 0 <= i < name@.len() ==> (('a' <= #[trigger] name@[i] && name@[i] <= 'z') || name@[i] == '-'),
    ensures
        header_entries(*final(headers)) == without_key(header_entries(*old(headers)), name@),
        header_entries(*final(headers)).len() <= header_entries(*old(headers)).len(),
        header_values(*final(headers)) == header_values(*old(headers)).remove(name@),
{
    proof {
        lemma_plain_header(name@, Seq::empty());
        lemma_without_key_len(header_entries(*headers), name@);
    }
    let ok = header_map_remove(headers, name);
    assert(ok);
}

/// Drops the hop-by-hop headers; every other name keeps its values in
/// their order.
pub fn strip_hop_by_hop_headers(headers: &mut http::HeaderMap<http::HeaderValue>)
    ensures
        header_entries(*final(headers)) == without_keys(header_entries(*old(headers)), hop_headers()),
        header_entries(*final(headers)).len() <= header_entries(*old(headers)).len(),
        header_values(*final(headers)) == header_values(*old(headers)).remove_keys(hop_headers().to_set()),
{
    let ghost h = header_entries(*headers);
    let ghost vals = header_values(*headers);
    proof {
        reveal_strlit("connection");
        reveal_strlit("proxy-connection");
        reveal_strlit("keep-alive");
        reveal_strlit("proxy-authenticate");
        reveal_strlit("proxy-authorization");
        reveal_strlit("te");
        reveal_strlit("trailers");
        reveal_strlit("upgrade");
    }
    remove_plain(headers, "connection");
    remove_plain(headers, "proxy-connection");
    remove_plain(headers, "keep-alive");
    remove_plain(headers, "proxy-authenticate");
    remove_plain(headers, "proxy-authorization");
    remove_plain(headers, "te");
    remove_plain(headers, "trailers");
    remove_plain(headers, "upgrade");
    proof {
        let hop = hop_headers();
        assert(header_values(*headers) =~= vals.remove_keys(hop.to_set())) by {
            assert forall|n: Seq<char>| #[trigger] hop.to_set().contains(n) <==> hop.contains(n) by {}
            assert(hop.contains("connection"@) && hop[0] == "connection"@);
            assert(hop[1] == "proxy-connection"@ && hop[2] == "keep-alive"@ && hop[3] == "proxy-authenticate"@);
            assert(hop[4] == "proxy-authorization"@ && hop[5] == "te"@ && hop[6] == "trailers"@ && hop[7] == "upgrade"@);
        }
        assert(hop.subrange(0, 0).len() == 0);
        assert(hop.subrange(0, 8) =~= hop);
        assert forall|n: int| 0 < n <= 8 implies #[trigger] hop.subrange(0, n).drop_last() =~= hop.subrange(0, n - 1)
            && hop.subrange(0, n).last() == hop[n - 1] by {}
        assert(without_keys(h, hop.subrange(0, 0)) == h);
        assert(hop.subrange(0, 1).drop_last() =~= hop.subrange(0, 0));
        assert(without_keys(h, hop.subrange(0, 1)) == without_key(h, "connection"@));
        assert(hop.subrange(0, 2).drop_last() =~= hop.subrange(0, 1));
        assert(without_keys(h, hop.subrange(0, 2)) == without_key(without_keys(h, hop.subrange(0, 1)), "proxy-connection"@));
        assert(hop.subrange(0, 3).drop_last() =~= hop.subrange(0, 2));
        assert(without_keys(h, hop.subrange(0, 3)) == without_key(without_keys(h, hop.subrange(0, 2)), "keep-alive"@));
        assert(hop.subrange(0, 4).drop_last() =~= hop.subrange(0, 3));
        assert(without_keys(h, hop.subrange(0, 4)) == without_key(without_keys(h, hop.subrange(0, 3)), "proxy-authenticate"@));
        assert(hop.subrange(0, 5).drop_last() =~= hop.subrange(0, 4));
        assert(without_keys(h, hop.subrange(0, 5)) == without_key(without_keys(h, hop.subrange(0, 4)), "proxy-authorization"@));
        assert(hop.subrange(0, 6).drop_last() =~= hop.subrange(0, 5));
        assert(without_keys(h, hop.subrange(0, 6)) == without_key(without_keys(h, hop.subrange(0, 5)), "te"@));
        assert(hop.subrange(0, 7).drop_last() =~= hop.subrange(0, 6));
        assert(without_keys(h, hop.subrange(0, 7)) == without_key(without_keys(h, hop.subrange(0, 6)), "trailers"@));
        assert(hop.subrange(0, 8).drop_last() =~= hop.subrange(0, 7));
        assert(without_keys(h, hop.subrange(0, 8)) == without_key(without_keys(h, hop.subrange(0, 7)), "upgrade"@));
    }
}

/// Dropping the values under each of `names` leaves exactly the entries
/// whose name is none of them.
pub proof fn lemma_without_keys_count(entries: HeaderEntries, names: Seq<Seq<char>>, e: (Seq<char>, Seq<u8>))
    ensures
        without_keys(entries, names).count(e) == if names.contains(e.0) {
            0
        } else {
            entries.count(e)
        },
    decreases names.len(),
{
    if names.len() > 0 {
        lemma_without_keys_count(entries, names.drop_last(), e);
        assert(names.contains(e.0) == (names.drop_last().contains(e.0) || names.last() == e.0)) by {
            if names.contains(e.0) {
                let i = choose|i: int| 0 <= i < names.len() && names[i] == e.0;
                if i < names.len() - 1 {
                    assert(names.drop_last()[i] == e.0);
                }
            }
            if names.drop_last().contains(e.0) {
                let i = choose|i: int| 0 <= i < names.drop_last().len() && names.drop_last()[i] == e.0;
                assert(names[i] == e.0);
            }
        }
    }
}

/// No hop-by-hop header goes on: after stripping, no value is stored under
/// a hop-by-hop name, and every other entry is kept as often as it was.
pub proof fn lemma_hop_headers_stripped(entries: HeaderEntries, e: (Seq<char>, Seq<u8>))
    ensures
        hop_headers().contains(e.0) ==> !without_keys(entries, hop_headers()).contains(e),
        !hop_headers().contains(e.0) ==> without_keys(entries, hop_headers()).count(e) == entries.count(e),
{
    lemma_without_keys_count(entries, hop_headers(), e);
}

/// Stripping is idempotent: a second strip changes nothing.
pub proof fn lemma_strip_idempotent(entries: HeaderEntries)
    ensures
        without_keys(without_keys(entries, hop_headers()), hop_headers()) == without_keys(entries, hop_headers()),
{
    let once = without_keys(entries, hop_headers());
    assert forall|e: (Seq<char>, Seq<u8>)| #[trigger] without_keys(once, hop_headers()).count(e) == once.count(e) by {
        lemma_without_keys_count(once, hop_headers(), e);
        lemma_without_keys_count(entries, hop_headers(), e);
    }
    assert(without_keys(once, hop_headers()) =~= once);
}

/// The entries after inserting each (name, value) of `order` in turn: a
/// name keeps only the last of its values.
pub open spec fn reinserted(order: Seq<(Seq<char>, Seq<u8>)>) -> HeaderEntries
    decreases order.len(),
{
    if order.len() == 0 {
        Multiset::empty()
    } else {
        without_key(reinserted(order.drop_last()), order.last().0).insert(order.last())
    }
}

/// The values kept when each name keeps only its last value.
pub open spec fn kept_last(values: Map<Seq<char>, Seq<Seq<u8>>>) -> Map<Seq<char>, Seq<Seq<u8>>> {
    Map::new(|n: Seq<char>| values.contains_key(n) && values[n].len() > 0, |n: Seq<char>| seq![values[n].last()])
}

/// The values of a map made by inserting entries in this order.
pub open spec fn inserted_values(order: Seq<(Seq<char>, Seq<u8>)>) -> Map<Seq<char>, Seq<Seq<u8>>>
    decreases order.len(),
{
    if order.len() == 0 {
        Map::empty()
    } else {
        inserted_values(order.drop_last()).insert(order.last().0, seq![order.last().1])
    }
}

proof fn lemma_inserted_values(order: Seq<(Seq<char>, Seq<u8>)>, n: Seq<char>)
    ensures
        inserted_values(order).contains_key(n) == (values_named(order, n).len() > 0),
        inserted_values(order).contains_key(n) ==> inserted_values(order)[n] == seq![values_named(order, n).last()],
    decreases order.len(),
{
    if order.len() > 0 {
        lemma_inserted_values(order.drop_last(), n);
    }
}

/// A copy of `headers` made by inserting each entry in turn, as a request
/// or response builder takes them: a name keeps only the last of its
/// values.
pub fn copy_headers(headers: &http::HeaderMap<http::HeaderValue>) -> (r: http::HeaderMap<http::HeaderValue>)
    requires
        header_entries(*headers).len() < HEADER_MAP_VALUE_LIMIT,
    ensures
        exists|order: Seq<(Seq<char>, Seq<u8>)>|
            order.to_multiset() == header_entries(*headers) && header_entries(r) == reinserted(order),
        header_entries(r).len() <= header_entries(*headers).len(),
        header_values(r) == kept_last(header_values(*headers)),
{
    let entries = header_map_entries(headers);
    let ghost order = entry_views(entries@);
    assert(order.len() == header_entries(*headers).len());
    let mut out = header_map_new();
    let mut i: usize = 0;
    assert(reinserted(order.subrange(0, 0)) =~= Multiset::<(Seq<char>, Seq<u8>)>::empty());
    while i < entries.len()
        invariant
            i <= entries.len(),
            order == entry_views(entries@),
            order.len() < HEADER_MAP_VALUE_LIMIT,
            forall|k: int|
                0 <= k < entries@.len() ==> {
                    &&& header_name_valid(#[trigger] entries@[k].0@)
                    &&& header_key(entries@[k].0@) == entries@[k].0@
                    &&& header_value_valid(entries@[k].1@)
                },
            header_entries(out) == reinserted(order.subrange(0, i as int)),
            header_entries(out).len() <= i,
            header_values(out) == inserted_values(order.subrange(0, i as int)),
        decreases entries.len() - i,
    {
        let ghost prev = header_entries(out);
        let (name, value) = &entries[i];
        assert(order.subrange(0, i + 1).drop_last() =~= order.subrange(0, i as int));
        assert(order.subrange(0, i + 1).last() == (name@, value@));
        let ok = header_map_insert(&mut out, name.as_str(), value.as_slice());
        assert(ok);
        proof {
            lemma_without_key_len(prev, name@);
        }
        i = i + 1;
    }
    assert(order.subrange(0, entries.len() as int) =~= order);
    proof {
        let vals = header_values(*headers);
        let iv = inserted_values(order);
        let kl = kept_last(vals);
        assert forall|n: Seq<char>| #[trigger] iv.contains_key(n) == kl.contains_key(n) by {
            lemma_inserted_values(order, n);
            assert(values_named(order, n) == value_list(vals, n));
        }
        assert forall|n: Seq<char>| #[trigger] iv.contains_key(n) implies iv[n] == kl[n] by {
            lemma_inserted_values(order, n);
            assert(values_named(order, n) == value_list(vals, n));
            assert(kl.contains_key(n));
        }
        assert(iv.dom() =~= kl.dom());
        assert(iv =~= kl);
    }
    out
}

// ---------------------------------------------------------------- replies

/// A reply to the client: status, headers and body.
pub struct Reply {
    pub status: u16,
    pub headers: http::HeaderMap<http::HeaderValue>,
    pub body: Vec<u8>,
}

/// `http::StatusCode::from_u16` accepts this code.
pub open spec fn status_code_valid(status: u16) -> bool {
    100 <= status <= 999
}

/// The content type of plain text replies.
pub open spec fn plain_text_type() -> Seq<char> {
    "text/plain; charset=utf-8"@
}

/// A plain text reply: only a `content-type` header.
pub open spec fn is_simple_reply(r: &Reply, status: u16, text: Seq<char>) -> bool {
    &&& r.status == status
    &&& header_entries(r.headers) == Multiset::<(Seq<char>, Seq<u8>)>::empty().insert(
        ("content-type"@, encode_utf8(plain_text_type())),
    )
    &&& r.body@ == encode_utf8(text)
}

/// A plain text reply with `status`.
pub fn simple_response(status: u16, text: &str) -> (r: Reply)
    ensures
        is_simple_reply(&r, status, text@),
{
    let mut headers = header_map_new();
    proof {
        reveal_strlit("content-type");
        reveal_strlit("text/plain; charset=utf-8");
        lemma_plain_header("content-type"@, plain_text_type());
        assert(without_key(Multiset::<(Seq<char>, Seq<u8>)>::empty(), "content-type"@) =~= Multiset::empty());
    }
    let ok = header_map_insert(&mut headers, "content-type", "text/plain; charset=utf-8".as_bytes());
    assert(ok);
    Reply { status, headers, body: text.as_bytes_vec() }
}

/// The headers of a mocked reply: the action's headers in turn, then its
/// content type if valid, then the content length.
pub open spec fn mock_headers(action: crate::models::MockResponseView, body_len: nat) -> HeaderEntries {
    let h = header_sets(Multiset::empty(), action.headers).0;
    let h2 = match action.content_type {
        Some(ct) => if header_value_valid(encode_utf8(ct)) {
            without_key(h, "content-type"@).insert(("content-type"@, encode_utf8(ct)))
        } else {
            h
        },
        None => h,
    };
    with_content_length(h2, body_len)
}

/// The body text of a mocked reply.
pub open spec fn mock_body(action: crate::models::MockResponseView) -> Seq<u8> {
    match action.body {
        Some(b) => encode_utf8(b),
        None => Seq::empty(),
    }
}

/// The reply that a mock action gives: with its status, headers and body
/// when the status is a valid code, else a plain 500 reply.
pub open spec fn is_mock_reply(r: &Reply, action: crate::models::MockResponseView) -> bool {
    if status_code_valid(action.status) {
        &&& r.status == action.status
        &&& header_entries(r.headers) == mock_headers(action, mock_body(action).len())
        &&& r.body@ == mock_body(action)
    } else {
        is_simple_reply(r, 500, "failed to build mocked response"@)
    }
}

/// Mock actions keep header maps within their growth limit.
pub open spec fn mock_within_limits(action: crate::models::MockResponseView) -> bool {
    action.headers.len() + 2 <= HEADER_MAP_VALUE_LIMIT
}

/// The reply of a mock action.
pub fn mock_reply(action: &MockResponseAction) -> (r: Reply)
    requires
        mock_within_limits(action@),
    ensures
        is_mock_reply(&r, action@),
{
    if !(100 <= action.status && action.status <= 999) {
        return simple_response(500, "failed to build mocked response");
    }
    let body = match &action.body {
        Some(b) => b.as_str().as_bytes_vec(),
        None => Vec::new(),
    };
    let mut headers = header_map_new();
    let mut notes: Vec<String> = Vec::new();
    let ghost h0 = header_entries(headers);
    let mut i: usize = 0;
    while i < action.headers.len()
        invariant
            i <= action.headers.len(),
            action.headers.len() + 2 <= HEADER_MAP_VALUE_LIMIT,
            h0 == Multiset::<(Seq<char>, Seq<u8>)>::empty(),
            header_entries(headers) == header_sets(h0, pairs_view(action.headers@.subrange(0, i as int))).0,
            header_entries(headers).len() <= i,
        decreases action.headers.len() - i,
    {
        let ghost prev = header_entries(headers);
        assert(pairs_view(action.headers@.subrange(0, i + 1)).drop_last() =~= pairs_view(action.headers@.subrange(0, i as int)));
        let (name, value) = &action.headers[i];
        assert(pairs_view(action.headers@.subrange(0, i + 1)).last() == (name@, value@));
        let ok = header_map_insert(&mut headers, name.as_str(), value.as_str().as_bytes());
        proof {
            lemma_without_key_len(prev, header_key(name@));
        }
        i = i + 1;
    }
    assert(action.headers@.subrange(0, action.headers.len() as int) =~= action.headers@);
    let ghost h1 = header_entries(headers);
    proof {
        reveal_strlit("content-type");
        lemma_plain_header("content-type"@, Seq::empty());
        lemma_without_key_len(h1, "content-type"@);
    }
    match &action.content_type {
        Some(ct) => {
            header_map_insert(&mut headers, "content-type", ct.as_str().as_bytes());
        },
        None => {},
    }
    set_content_length(&mut headers, body.len());
    Reply { status: action.status, headers, body }
}


/// The reply relayed for an upstream response with `status`, headers `h`
/// and body `b`: the headers copied in turn and `content-length` set; a
/// status that is no valid code gives a plain 500 reply.
pub open spec fn is_relayed_reply(r: &Reply, status: u16, h: HeaderEntries, b: Seq<u8>) -> bool {
    if status_code_valid(status) {
        &&& r.status == status
        &&& exists|order: Seq<(Seq<char>, Seq<u8>)>|
            order.to_multiset() == h && header_entries(r.headers) == with_content_length(reinserted(order), b.len())
        &&& r.body@ == b
    } else {
        is_simple_reply(r, 500, "response build error"@)
    }
}

/// The reply relayed to the client for an upstream response.
pub fn build_response(status: u16, headers: &http::HeaderMap<http::HeaderValue>, body: Vec<u8>) -> (r: Reply)
    requires
        header_entries(*headers).len() < HEADER_MAP_VALUE_LIMIT,
    ensures
        is_relayed_reply(&r, status, header_entries(*headers), body@),
        status_code_valid(status) ==> header_values(r.headers) == kept_last(header_values(*headers)).insert(
            "content-length"@,
            seq![encode_utf8(decimal(body@.len()))],
        ),
{
    if !(100 <= status && status <= 999) {
        return simple_response(500, "response build error");
    }
    let mut out = copy_headers(headers);
    set_content_length(&mut out, body.len());
    Reply { status, headers: out, body }
}

/// A mocked reply with a valid status announces its body's length: one
/// `content-length` value, the decimal length of the body.
pub proof fn lemma_mock_length_announced(r: &Reply, action: crate::models::MockResponseView, v: Seq<u8>)
    requires
        is_mock_reply(r, action),
        status_code_valid(action.status),
    ensures
        header_entries(r.headers).count(("content-length"@, v)) == if v == encode_utf8(decimal(r.body@.len())) {
            1nat
        } else {
            0nat
        },
{
    let h = header_sets(Multiset::empty(), action.headers).0;
    let h2 = match action.content_type {
        Some(ct) => if header_value_valid(encode_utf8(ct)) {
            without_key(h, "content-type"@).insert(("content-type"@, encode_utf8(ct)))
        } else {
            h
        },
        None => h,
    };
    lemma_content_length_count(h2, r.body@.len(), v);
}

/// A relayed reply with a valid status announces its body's length: one
/// `content-length` value, the decimal length of the body.
pub proof fn lemma_relayed_length_announced(r: &Reply, status: u16, h: HeaderEntries, b: Seq<u8>, v: Seq<u8>)
    requires
        is_relayed_reply(r, status, h, b),
        status_code_valid(status),
    ensures
        header_entries(r.headers).count(("content-length"@, v)) == if v == encode_utf8(decimal(r.body@.len())) {
            1nat
        } else {
            0nat
        },
{
    let order = choose|order: Seq<(Seq<char>, Seq<u8>)>|
        order.to_multiset() == h && header_entries(r.headers) == with_content_length(reinserted(order), b.len());
    lemma_content_length_count(reinserted(order), b.len(), v);
}

// ---------------------------------------------------------------- errors

/// Why a request could not be processed.
#[derive(Debug)]
pub enum ProxyError {
    /// An origin-form request without a readable `host` header.
    MissingHost,
    /// The absolute target built for a request is not a valid URI.
    InvalidUri(String),
    /// A rule's edits could not be applied.
    Transform(TransformError),
    /// Reading the request or talking to the upstream server failed.
    Upstream(String),
}

/// The message reported for a processing error.
pub open spec fn proxy_error_message(e: ProxyError) -> Seq<char> {
    match e {
        ProxyError::MissingHost => "missing host header for origin-form request"@,
        ProxyError::InvalidUri(full) => "failed to parse uri "@ + full@,
        ProxyError::Transform(t) => crate::rewrite::transform_error_message(t),
        ProxyError::Upstream(m) => m@,
    }
}

impl ProxyError {
    /// The message reported for this error.
    pub fn message(&self) -> (r: String)
        ensures
            r@ == proxy_error_message(*self),
    {
        match self {
            ProxyError::MissingHost => String::from_str("missing host header for origin-form request"),
            ProxyError::InvalidUri(full) => {
                let mut m = String::from_str("failed to parse uri ");
                m.append(full.as_str());
                m
            },
            ProxyError::Transform(t) => t.message(),
            ProxyError::Upstream(m) => m.clone(),
        }
    }
}

// ---------------------------------------------------------------- targets

/// The request line's target as the server read it.
pub struct RequestTarget {
    /// The target names a scheme.
    pub has_scheme: bool,
    /// The target names an authority.
    pub has_authority: bool,
    /// The target's text.
    pub text: String,
    /// The target's path and query, when it has them.
    pub path_and_query: Option<String>,
}

/// What `http::Uri` makes of a text: parsed and displayed again, or `None`
/// when the text is not a URI.
pub uninterp spec fn uri_display(text: Seq<char>) -> Option<Seq<char>>;

/// `text.parse::<http::Uri>()` and, when it parses, `to_string()`.
#[verifier::external_body]
fn parse_uri_text(text: &str) -> (r: Option<String>)
    ensures
        opt_view(r) == uri_display(text@),
{
    match text.parse::<http::Uri>() {
        Ok(uri) => Some(uri.to_string()),
        Err(_) => None,
    }
}

/// The absolute URI `http://<host><path and query>` built for an
/// origin-form target.
pub open spec fn origin_form_uri(host: Seq<char>, path_and_query: Option<Seq<char>>) -> Seq<char> {
    "http://"@ + host + match path_and_query {
        Some(p) => p,
        None => "/"@,
    }
}

/// The absolute URI of a request: its own target when that names scheme
/// and authority; otherwise built from the `host` header (missing or
/// unreadable: an error) and must parse as a URI.
pub fn absolute_uri(target: &RequestTarget, headers: &http::HeaderMap<http::HeaderValue>) -> (r: Result<String, ProxyError>)
    ensures
        target.has_scheme && target.has_authority ==> (r matches Ok(u) && u@ == target.text@),
        !(target.has_scheme && target.has_authority) ==> ({
            let vals = header_values(*headers);
            let readable = vals.contains_key("host"@) && vals["host"@].len() > 0 && header_value_visible(
                vals["host"@][0],
            );
            let full = origin_form_uri(ascii_chars(vals["host"@][0]), opt_view(target.path_and_query));
            if !readable {
                r matches Err(ProxyError::MissingHost)
            } else {
                match uri_display(full) {
                    Some(u) => r matches Ok(x) && x@ == u,
                    None => r matches Err(ProxyError::InvalidUri(f)) && f@ == full,
                }
            }
        }),
{
    if target.has_scheme && target.has_authority {
        return Ok(target.text.clone());
    }
    proof {
        reveal_strlit("host");
        lemma_plain_header("host"@, Seq::empty());
    }
    let host = match header_map_get_text(headers, "host") {
        Some(h) => h,
        None => return Err(ProxyError::MissingHost),
    };
    let mut full = String::from_str("http://");
    full.append(host.as_str());
    match &target.path_and_query {
        Some(p) => full.append(p.as_str()),
        None => full.append("/"),
    }
    match parse_uri_text(full.as_str()) {
        Some(u) => Ok(u),
        None => Err(ProxyError::InvalidUri(full)),
    }
}

// ---------------------------------------------------------------- events

/// An event with these fields (besides its id and timestamp).
pub open spec fn event_has(
    e: ProxyEventView,
    method: Seq<char>,
    url: Seq<char>,
    rule_id: Option<Seq<char>>,
    rule_name: Option<Seq<char>>,
    decision: Seq<char>,
    status: Option<u16>,
    notes: Seq<Seq<char>>,
) -> bool {
    &&& e.method == method
    &&& e.url == url
    &&& e.matched_rule_id == rule_id
    &&& e.matched_rule_name == rule_name
    &&& e.decision == decision
    &&& e.status == status
    &&& e.notes == notes
    &&& e.id.len() == 36
}

/// A new event with a fresh id, stamped with the current time.
pub fn new_event(
    method: &String,
    url: &String,
    matched_rule_id: Option<String>,
    matched_rule_name: Option<String>,
    decision: &str,
    status: Option<u16>,
    notes: Vec<String>,
) -> (r: ProxyEvent)
    ensures
        event_has(r@, method@, url@, opt_view(matched_rule_id), opt_view(matched_rule_name), decision@, status, strings_view(notes@)),
{
    ProxyEvent {
        id: new_uuid_string(),
        timestamp: utc_now(),
        method: method.clone(),
        url: url.clone(),
        matched_rule_id,
        matched_rule_name,
        decision: String::from_str(decision),
        status,
        notes,
    }
}


// ---------------------------------------------------------------- planning

/// What is known of a request when planning: who asked for what, which rule
/// matched, and the notes so far.
pub struct PlanContext {
    pub method: String,
    pub url: String,
    pub matched_rule_id: Option<String>,
    pub matched_rule_name: Option<String>,
    pub notes: Vec<String>,
}

/// What to do with a request.
pub enum PlanStep {
    /// Answer with this reply (a mocked response).
    Respond(Reply),
    /// Send the request upstream with these headers and body; apply the
    /// response edits, if any, to what comes back.
    Forward {
        headers: http::HeaderMap<http::HeaderValue>,
        body: Vec<u8>,
        response_transform: Option<TransformOps>,
        matched: bool,
    },
    /// Processing failed.
    Fail(ProxyError),
}

/// The plan for one request: wait `delay_ms` first, then take `step`.
pub struct RequestPlan {
    pub delay_ms: Option<u64>,
    pub context: PlanContext,
    pub step: PlanStep,
}

/// The request as the matcher reads it, given the order in which its
/// headers were read.
pub open spec fn request_view(method: Seq<char>, url: Seq<char>, order: Seq<(Seq<char>, Seq<u8>)>, body: Seq<u8>) -> NormalizedRequestView {
    NormalizedRequestView {
        method: uppercase_text(method),
        url: url,
        headers: normalized_header_pairs(order),
        query: match url_query_pairs(url) {
            Some(q) => q,
            None => Seq::empty(),
        },
        body_text: utf8_lossy_text(body),
    }
}

/// Note of a delay.
pub open spec fn delay_notes(delay_ms: Option<u64>) -> Seq<Seq<char>> {
    match delay_ms {
        Some(d) => seq!["delayMs="@ + decimal(d as nat)],
        None => Seq::empty(),
    }
}

/// The state can plan a request of `n` header values: when interception is
/// on, every enabled rule (each may be evaluated and chosen) is within
/// limits for such a request, and each enabled sequence with steps can be
/// counted once more.
pub open spec fn state_ready(s: &AppState, n: nat) -> bool {
    s.flags.interception_enabled ==> forall|i: int|
        0 <= i < s.rules@.len() && (#[trigger] s.rules@[i]).enabled ==> {
            &&& rule_within_limits(s.rules@[i]@, n)
            &&& counts_up(s.rules@[i]@.action) ==> count_of(s.sequence_counters@, s.rules@[i].id@) < usize::MAX
        }
}

/// Checks that the state can plan a request with these headers (see
/// `state_ready`).
pub fn ready_to_plan(state: &AppState, headers: &http::HeaderMap<http::HeaderValue>) -> (r: bool)
    ensures
        r == state_ready(state, header_entries(*headers).len()),
{
    if !state.flags.interception_enabled {
        return true;
    }
    let n = header_map_entries(headers).len();
    let mut i: usize = 0;
    while i < state.rules.len()
        invariant
            i <= state.rules@.len(),
            state.flags.interception_enabled,
            n == header_entries(*headers).len(),
            forall|k: int|
                0 <= k < i && (#[trigger] state.rules@[k]).enabled ==> {
                    &&& rule_within_limits(state.rules@[k]@, n as nat)
                    &&& counts_up(state.rules@[k]@.action) ==> count_of(state.sequence_counters@, state.rules@[k].id@)
                        < usize::MAX
                },
        decreases state.rules.len() - i,
    {
        let rule = &state.rules[i];
        if rule.enabled {
            if !rule_fits_limits(rule, n) {
                return false;
            }
            let counting = match &rule.action {
                RuleAction::Sequence(sequence) => sequence.steps.len() > 0,
                _ => false,
            };
            assert(counting == counts_up(rule@.action));
            if counting && state.sequence_counters.count(&rule.id) == usize::MAX {
                return false;
            }
        }
        i = i + 1;
    }
    true
}

/// The plan forwards the request unchanged, as no rule applies.
pub open spec fn plan_passes_through(plan: &RequestPlan, h0: HeaderEntries, b0: Seq<u8>) -> bool {
    &&& plan.delay_ms is None
    &&& plan.context.matched_rule_id is None
    &&& plan.context.matched_rule_name is None
    &&& plan.context.notes@.len() == 0
    &&& plan.step matches PlanStep::Forward { headers, body, response_transform, matched } && header_entries(headers)
        == h0 && body@ == b0 && response_transform is None && !matched
}

/// The plan carries out the action that `rule` resolves to under counts
/// `c0`, on stripped headers `h0` and body `b0`.
pub open spec fn plan_follows(
    plan: &RequestPlan,
    rule: RewriteRuleView,
    req: NormalizedRequestView,
    c0: Map<Seq<char>, usize>,
    h0: HeaderEntries,
    b0: Seq<u8>,
) -> bool {
    let ev = evaluation(rule.matcher, req);
    let res = resolution(rule.action, rule.id, c0);
    &&& opt_view(plan.context.matched_rule_id) == Some(rule.id)
    &&& opt_view(plan.context.matched_rule_name) == Some(rule.name)
    &&& match res.0 {
        ActionStepView::MockResponse(a) => {
            &&& plan.delay_ms == a.delay_ms
            &&& strings_view(plan.context.notes@) == ev.2 + res.1 + delay_notes(a.delay_ms)
            &&& plan.step matches PlanStep::Respond(reply) && is_mock_reply(&reply, a)
        },
        ActionStepView::RewritePassThrough(a) => {
            &&& plan.delay_ms == a.delay_ms
            &&& match a.request {
                None => {
                    &&& strings_view(plan.context.notes@) == ev.2 + res.1 + delay_notes(a.delay_ms)
                    &&& plan.step matches PlanStep::Forward { headers, body, response_transform, matched }
                        && header_entries(headers) == h0 && body@ == b0 && opt_transform_view(response_transform)
                        == a.response && matched
                },
                Some(t) => match plan.step {
                    PlanStep::Forward { headers, body, response_transform, matched } => {
                        &&& matched
                        &&& opt_transform_view(response_transform) == a.response
                        &&& exists|tn: Seq<Seq<char>>|
                            transform_outcome(h0, b0, t, header_entries(headers), body@, Ok(tn)) && strings_view(
                                plan.context.notes@,
                            ) == ev.2 + res.1 + delay_notes(a.delay_ms) + tn
                    },
                    PlanStep::Fail(ProxyError::Transform(e)) => exists|h: HeaderEntries, b: Seq<u8>|
                        transform_outcome(h0, b0, t, h, b, Err(e)),
                    _ => false,
                },
            }
        },
    }
}

fn delay_note(notes: &mut Vec<String>, delay_ms: Option<u64>)
    ensures
        strings_view(final(notes)@) == strings_view(old(notes)@) + delay_notes(delay_ms),
{
    match delay_ms {
        Some(d) => {
            let mut note = String::from_str("delayMs=");
            note.append(decimal_string(d).as_str());
            let ghost before = strings_view(notes@);
            notes.push(note);
            assert(strings_view(notes@) =~= before + delay_notes(delay_ms));
        },
        None => {
            assert(strings_view(notes@) =~= strings_view(notes@) + delay_notes(delay_ms));
        },
    }
}

/// Strips the hop-by-hop headers of a request and reads it as the matcher
/// does.
pub fn prepare_request(method: &String, url: &String, headers: &mut http::HeaderMap<http::HeaderValue>, body: &Vec<u8>) -> (r: NormalizedRequest)
    ensures
        header_entries(*final(headers)) == without_keys(header_entries(*old(headers)), hop_headers()),
        header_entries(*final(headers)).len() <= header_entries(*old(headers)).len(),
        exists|order: Seq<(Seq<char>, Seq<u8>)>|
            order.to_multiset() == header_entries(*final(headers)) && r@ == request_view(method@, url@, order, body@),
{
    strip_hop_by_hop_headers(headers);
    let normalized_headers = normalize_headers(headers);
    let r = NormalizedRequest {
        method: to_uppercase(method.as_str()),
        url: url.clone(),
        headers: normalized_headers,
        query: parse_query(url.as_str()),
        body_text: utf8_lossy(body.as_slice()),
    };
    proof {
        let order = choose|order: Seq<(Seq<char>, Seq<u8>)>|
            order.to_multiset() == header_entries(*headers) && pairs_view(normalized_headers@) == normalized_header_pairs(order);
        assert(r@ =~= request_view(method@, url@, order, body@));
    }
    r
}

/// What planning does with a request `req` whose stripped headers are `h0`
/// and body `b0`, from state `s0` to state `s1`: when interception is on and
/// a rule applies, the chosen rule's action is resolved (counting sequence
/// steps) and followed; otherwise the request is forwarded as it is and no
/// count changes.
pub open spec fn planned(
    plan: &RequestPlan,
    s0: &AppState,
    s1: &AppState,
    req: NormalizedRequestView,
    h0: HeaderEntries,
    b0: Seq<u8>,
) -> bool {
    let rules = rules_view(s0.rules@);
    if s0.flags.interception_enabled && exists|k: int| chosen_among(rules, req, k, rules.len() as int) {
        exists|k: int|
            chosen_among(rules, req, k, rules.len() as int) && plan_follows(
                plan,
                rules[k],
                req,
                s0.sequence_counters@,
                h0,
                b0,
            ) && s1.sequence_counters@ == resolution(rules[k].action, rules[k].id, s0.sequence_counters@).2
    } else {
        plan_passes_through(plan, h0, b0) && s1.sequence_counters@ == s0.sequence_counters@
    }
}

/// The delay that an action asks for.
pub open spec fn step_delay(a: ActionStepView) -> Option<u64> {
    match a {
        ActionStepView::MockResponse(m) => m.delay_ms,
        ActionStepView::RewritePassThrough(p) => p.delay_ms,
    }
}

/// A planned request waits the delay of the action its chosen rule
/// resolves to, mock or pass-through alike, and unless planning failed its
/// notes read: why the rule matched, how its action resolved, the delay,
/// then any notes of the request edits.
pub proof fn lemma_plan_waits_the_delay(
    plan: &RequestPlan,
    s0: &AppState,
    s1: &AppState,
    req: NormalizedRequestView,
    h0: HeaderEntries,
    b0: Seq<u8>,
    k: int,
)
    requires
        planned(plan, s0, s1, req, h0, b0),
        s0.flags.interception_enabled,
        chosen_among(rules_view(s0.rules@), req, k, s0.rules@.len() as int),
    ensures
        ({
            let rule = rules_view(s0.rules@)[k];
            let res = resolution(rule.action, rule.id, s0.sequence_counters@);
            &&& plan.delay_ms == step_delay(res.0)
            &&& !(plan.step is Fail) ==> exists|extra: Seq<Seq<char>>|
                strings_view(plan.context.notes@) == evaluation(rule.matcher, req).2 + res.1 + delay_notes(
                    step_delay(res.0),
                ) + extra
        }),
{
    let rules = rules_view(s0.rules@);
    let k2 = choose|k2: int|
        chosen_among(rules, req, k2, rules.len() as int) && plan_follows(
            plan,
            rules[k2],
            req,
            s0.sequence_counters@,
            h0,
            b0,
        ) && s1.sequence_counters@ == resolution(rules[k2].action, rules[k2].id, s0.sequence_counters@).2;
    crate::rules::lemma_choice_unique(rules, req, k, k2);
    let rule = rules[k];
    let ev = evaluation(rule.matcher, req);
    let res = resolution(rule.action, rule.id, s0.sequence_counters@);
    let notes = strings_view(plan.context.notes@);
    if !(plan.step is Fail) {
        match res.0 {
            ActionStepView::MockResponse(a) => {
                assert(notes == ev.2 + res.1 + delay_notes(a.delay_ms) + Seq::<Seq<char>>::empty());
            },
            ActionStepView::RewritePassThrough(a) => {
                match a.request {
                    None => {
                        assert(notes == ev.2 + res.1 + delay_notes(a.delay_ms) + Seq::<Seq<char>>::empty());
                    },
                    Some(t) => {},
                }
            },
        }
    }
}

/// With interception off, no rule is applied: the request goes upstream
/// unchanged and no sequence is counted.
pub proof fn lemma_interception_off_passes_through(
    plan: &RequestPlan,
    s0: &AppState,
    s1: &AppState,
    req: NormalizedRequestView,
    h0: HeaderEntries,
    b0: Seq<u8>,
)
    requires
        planned(plan, s0, s1, req, h0, b0),
        !s0.flags.interception_enabled,
    ensures
        plan_passes_through(plan, h0, b0),
        s1.sequence_counters@ == s0.sequence_counters@,
{
}

/// When no enabled rule matches, the request goes upstream unchanged and no
/// sequence is counted.
pub proof fn lemma_no_match_passes_through(
    plan: &RequestPlan,
    s0: &AppState,
    s1: &AppState,
    req: NormalizedRequestView,
    h0: HeaderEntries,
    b0: Seq<u8>,
)
    requires
        planned(plan, s0, s1, req, h0, b0),
        forall|i: int| 0 <= i < s0.rules@.len() ==> !rule_applies(#[trigger] s0.rules@[i]@, req),
    ensures
        plan_passes_through(plan, h0, b0),
        s1.sequence_counters@ == s0.sequence_counters@,
{
    let rules = rules_view(s0.rules@);
    assert forall|k: int| !chosen_among(rules, req, k, rules.len() as int) by {
        if chosen_among(rules, req, k, rules.len() as int) {
            assert(rules[k] == s0.rules@[k]@);
        }
    }
}

/// Plans the handling of a request whose target is `url`, read by the
/// matcher as `normalized`, with hop-by-hop headers already stripped from
/// `headers`.
pub fn plan_prepared(
    state: &mut AppState,
    method: &String,
    url: &String,
    normalized: &NormalizedRequest,
    headers: http::HeaderMap<http::HeaderValue>,
    body: Vec<u8>,
) -> (plan: RequestPlan)
    requires
        state_ready(old(state), header_entries(headers).len()),
    ensures
        final(state).rules == old(state).rules,
        final(state).events == old(state).events,
        final(state).flags == old(state).flags,
        final(state).config == old(state).config,
        plan.context.method@ == method@,
        plan.context.url@ == url@,
        planned(&plan, old(state), final(state), normalized@, header_entries(headers), body@),
{
    let mut headers = headers;
    let mut body = body;
    let ghost h0 = header_entries(headers);
    let ghost req = normalized@;
    let ghost rules = rules_view(state.rules@);
    let ghost c0 = state.sequence_counters@;
    let mut context = PlanContext {
        method: method.clone(),
        url: url.clone(),
        matched_rule_id: None,
        matched_rule_name: None,
        notes: Vec::new(),
    };
    proof {
        if state.flags.interception_enabled {
            assert forall|i: int| 0 <= i < rules.len() && #[trigger] rules[i].enabled implies crate::rules::matcher_within_limits(
                rules[i].matcher,
            ) by {
                assert(rules[i] == state.rules@[i]@);
                assert(rule_within_limits(state.rules@[i]@, h0.len()));
            }
        }
    }
    let candidate = if state.flags.interception_enabled {
        select_matching_rule(state.rules.as_slice(), normalized)
    } else {
        None
    };
    let candidate = match candidate {
        None => {
            let plan = RequestPlan {
                delay_ms: None,
                context,
                step: PlanStep::Forward { headers, body, response_transform: None, matched: false },
            };
            proof {
                if state.flags.interception_enabled {
                    assert forall|k: int| !chosen_among(rules, req, k, rules.len() as int) by {
                        if chosen_among(rules, req, k, rules.len() as int) {
                            assert(rules[k] == state.rules@[k]@);
                        }
                    }
                }
            }
            return plan;
        },
        Some(c) => c,
    };
    let ghost k = choose|k: int|
        #![trigger state.rules@[k]]
        chosen_among(rules, req, k, state.rules@.len() as int) && candidate.rule@ == state.rules@[k]@
            && candidate.specificity == evaluation(state.rules@[k].matcher@, req).1 && strings_view(candidate.notes@)
            == evaluation(state.rules@[k].matcher@, req).2;
    assert(rules[k] == state.rules@[k]@);
    proof {
        assert(rule_within_limits(state.rules@[k]@, h0.len()));
        lemma_resolution_within_limits(rules[k], c0, h0.len());
    }
    context.matched_rule_id = Some(candidate.rule.id.clone());
    context.matched_rule_name = Some(candidate.rule.name.clone());
    let ghost ev2 = strings_view(candidate.notes@);
    let ghost res = resolution(rules[k].action, rules[k].id, c0);
    let mut notes = candidate.notes;
    let (action, mut action_notes) = resolve_action(&candidate.rule, &mut state.sequence_counters);
    let ghost an = strings_view(action_notes@);
    notes.append(&mut action_notes);
    assert(strings_view(notes@) =~= ev2 + an);
    match action {
        ResolvedAction::MockResponse(mock) => {
            delay_note(&mut notes, mock.delay_ms);
            let reply = mock_reply(&mock);
            context.notes = notes;
            let plan = RequestPlan { delay_ms: mock.delay_ms, context, step: PlanStep::Respond(reply) };
            assert(plan_follows(&plan, rules[k], req, c0, h0, body@));
            plan
        },
        ResolvedAction::RewritePassThrough(rewrite) => {
            delay_note(&mut notes, rewrite.delay_ms);
            let ghost b0 = body@;
            let ghost notes_before = strings_view(notes@);
            match &rewrite.request {
                Some(request_transform) => {
                    let result = apply_transform(&mut headers, &mut body, request_transform);
                    match result {
                        Ok(mut transform_notes) => {
                            let ghost tn = strings_view(transform_notes@);
                            notes.append(&mut transform_notes);
                            context.notes = notes;
                            let plan = RequestPlan {
                                delay_ms: rewrite.delay_ms,
                                context,
                                step: PlanStep::Forward {
                                    headers,
                                    body,
                                    response_transform: crate::models::copy_opt_transform(&rewrite.response),
                                    matched: true,
                                },
                            };
                            assert(strings_view(plan.context.notes@) =~= notes_before + tn);
                            assert(plan_follows(&plan, rules[k], req, c0, h0, b0));
                            plan
                        },
                        Err(e) => {
                            context.notes = notes;
                            let plan = RequestPlan {
                                delay_ms: rewrite.delay_ms,
                                context,
                                step: PlanStep::Fail(ProxyError::Transform(e)),
                            };
                            assert(plan_follows(&plan, rules[k], req, c0, h0, b0));
                            plan
                        },
                    }
                },
                None => {
                    context.notes = notes;
                    let plan = RequestPlan {
                        delay_ms: rewrite.delay_ms,
                        context,
                        step: PlanStep::Forward {
                            headers,
                            body,
                            response_transform: crate::models::copy_opt_transform(&rewrite.response),
                            matched: true,
                        },
                    };
                    assert(plan_follows(&plan, rules[k], req, c0, h0, b0));
                    plan
                },
            }
        },
    }
}


/// Plans the handling of a request whose target is `url` and whose headers
/// and body were read: the hop-by-hop headers are stripped, the request is
/// read as the matcher reads it, and the plan is made from it. Hop-by-hop
/// headers never go upstream.
pub fn plan_request(
    state: &mut AppState,
    method: &String,
    url: &String,
    headers: http::HeaderMap<http::HeaderValue>,
    body: Vec<u8>,
) -> (plan: RequestPlan)
    requires
        state_ready(old(state), header_entries(headers).len()),
    ensures
        final(state).rules == old(state).rules,
        final(state).events == old(state).events,
        final(state).flags == old(state).flags,
        final(state).config == old(state).config,
        plan.context.method@ == method@,
        plan.context.url@ == url@,
        exists|order: Seq<(Seq<char>, Seq<u8>)>|
            #![trigger request_view(method@, url@, order, body@)]
            order.to_multiset() == without_keys(header_entries(headers), hop_headers()) && planned(
                &plan,
                old(state),
                final(state),
                request_view(method@, url@, order, body@),
                without_keys(header_entries(headers), hop_headers()),
                body@,
            ),
{
    let mut headers = headers;
    let ghost n_in = header_entries(headers).len();
    let normalized = prepare_request(method, url, &mut headers, &body);
    proof {
        let n = header_entries(headers).len();
        if state.flags.interception_enabled {
            assert forall|i: int| 0 <= i < state.rules@.len() && (#[trigger] state.rules@[i]).enabled implies rule_within_limits(
                state.rules@[i]@,
                n,
            ) by {
                lemma_rule_limits_fewer(state.rules@[i]@, n_in, n);
            }
        }
    }
    let ghost order = choose|order: Seq<(Seq<char>, Seq<u8>)>|
        order.to_multiset() == header_entries(headers) && normalized@ == request_view(method@, url@, order, body@);
    let ghost b = body@;
    let plan = plan_prepared(state, method, url, &normalized, headers, body);
    assert(request_view(method@, url@, order, b) == normalized@);
    plan
}

// ---------------------------------------------------------------- outcomes

/// A processed request: the reply for the client and the event to log.
pub struct ProcessedOutcome {
    pub response: Reply,
    pub event: ProxyEvent,
}

/// The outcome of a request answered by a mock: the planned reply and a
/// `mocked` event with the reply's status.
pub fn mocked_outcome(context: PlanContext, reply: Reply) -> (r: ProcessedOutcome)
    ensures
        r.response == reply,
        event_has(
            r.event@,
            context.method@,
            context.url@,
            opt_view(context.matched_rule_id),
            opt_view(context.matched_rule_name),
            "mocked"@,
            Some(reply.status),
            strings_view(context.notes@),
        ),
{
    let status = reply.status;
    let event = new_event(
        &context.method,
        &context.url,
        context.matched_rule_id,
        context.matched_rule_name,
        "mocked",
        Some(status),
        context.notes,
    );
    ProcessedOutcome { response: reply, event }
}

/// The outcome of a forwarded request once the upstream server answered
/// with `status`, `headers` and `body`: the hop-by-hop headers are dropped,
/// the response edits (if any) applied, and the response relayed. The
/// event's decision is `rewritten` after response edits, else
/// `matched-passthrough` for a matched rule, else `passthrough`.
pub fn finish_forward(
    context: PlanContext,
    response_transform: Option<TransformOps>,
    matched: bool,
    status: u16,
    headers: http::HeaderMap<http::HeaderValue>,
    body: Vec<u8>,
) -> (r: Result<ProcessedOutcome, ProxyError>)
    requires
        header_entries(headers).len() < HEADER_MAP_VALUE_LIMIT,
        transform_within_limits(opt_transform_view(response_transform), header_entries(headers).len()),
    ensures
        ({
            let h0 = without_keys(header_entries(headers), hop_headers());
            let notes = strings_view(context.notes@);
            let id = opt_view(context.matched_rule_id);
            let name = opt_view(context.matched_rule_name);
            match response_transform {
                None => r matches Ok(o) && is_relayed_reply(&o.response, status, h0, body@) && event_has(
                    o.event@,
                    context.method@,
                    context.url@,
                    id,
                    name,
                    if matched {
                        "matched-passthrough"@
                    } else {
                        "passthrough"@
                    },
                    Some(status),
                    notes,
                ),
                Some(t) => match r {
                    Ok(o) => exists|h: HeaderEntries, b: Seq<u8>, tn: Seq<Seq<char>>|
                        #[trigger] transform_outcome(h0, body@, t@, h, b, Ok(tn)) && is_relayed_reply(
                            &o.response,
                            status,
                            h,
                            b,
                        ) && event_has(o.event@, context.method@, context.url@, id, name, "rewritten"@, Some(status), notes + tn),
                    Err(e) => e matches ProxyError::Transform(te) && exists|h: HeaderEntries, b: Seq<u8>|
                        #[trigger] transform_outcome(h0, body@, t@, h, b, Err(te)),
                },
            }
        }),
{
    let mut headers = headers;
    let mut body = body;
    strip_hop_by_hop_headers(&mut headers);
    let ghost h0 = header_entries(headers);
    let ghost b0 = body@;
    let mut notes = context.notes;
    let ghost notes0 = strings_view(notes@);
    let ghost mut tn: Seq<Seq<char>> = Seq::empty();
    let decision = match &response_transform {
        Some(t) => match apply_transform(&mut headers, &mut body, t) {
            Ok(mut transform_notes) => {
                proof {
                    tn = strings_view(transform_notes@);
                }
                notes.append(&mut transform_notes);
                assert(strings_view(notes@) =~= notes0 + tn);
                "rewritten"
            },
            Err(e) => {
                assert(transform_outcome(h0, b0, t@, header_entries(headers), body@, Err(e)));
                return Err(ProxyError::Transform(e));
            },
        },
        None => if matched {
            "matched-passthrough"
        } else {
            "passthrough"
        },
    };
    let ghost h = header_entries(headers);
    let ghost b = body@;
    let response = build_response(status, &headers, body);
    let event = new_event(
        &context.method,
        &context.url,
        context.matched_rule_id,
        context.matched_rule_name,
        decision,
        Some(status),
        notes,
    );
    let r = ProcessedOutcome { response, event };
    proof {
        if let Some(t) = response_transform {
            assert(transform_outcome(h0, b0, t@, h, b, Ok(tn)));
        }
    }
    Ok(r)
}

/// The last event of the log after recording one.
pub open spec fn last_event(s: &AppState) -> ProxyEvent {
    s.events@.last()
}

/// Only the event log changed.
pub open spec fn only_log_changed(s: &AppState, s0: &AppState) -> bool {
    &&& s.rules == s0.rules
    &&& s.sequence_counters == s0.sequence_counters
    &&& s.flags == s0.flags
    &&& s.config == s0.config
}

/// Ends the handling of a request: a processed request's event is logged
/// and its reply sent. A failed one is recorded as the last error
/// (`proxy processing error: <message>`), logged as an `error` event with
/// status 502 at `request_uri`, and answered with a plain 502 reply.
pub fn finish_request(
    state: &mut AppState,
    method: &String,
    request_uri: &String,
    result: Result<ProcessedOutcome, ProxyError>,
) -> (r: Reply)
    ensures
        final(state).events@ == log_after(old(state).events@, last_event(final(state))),
        final(state).rules == old(state).rules,
        final(state).sequence_counters == old(state).sequence_counters,
        final(state).config == old(state).config,
        final(state).flags.interception_enabled == old(state).flags.interception_enabled,
        final(state).flags.cert_ready == old(state).flags.cert_ready,
        final(state).flags.mitm_ready == old(state).flags.mitm_ready,
        match result {
            Ok(o) => {
                &&& r == o.response
                &&& last_event(final(state)) == o.event
                &&& final(state).flags == old(state).flags
            },
            Err(e) => {
                &&& is_simple_reply(&r, 502, "interceptkit proxy failed to process request"@)
                &&& opt_view(final(state).flags.last_error) == Some("proxy processing error: "@ + proxy_error_message(e))
                &&& event_has(
                    last_event(final(state))@,
                    method@,
                    request_uri@,
                    None,
                    None,
                    "error"@,
                    Some(502),
                    seq![proxy_error_message(e)],
                )
            },
        },
{
    match result {
        Ok(outcome) => {
            state.record_event(outcome.event);
            outcome.response
        },
        Err(error) => {
            let text = error.message();
            let mut last_error = String::from_str("proxy processing error: ");
            last_error.append(text.as_str());
            state.set_last_error(last_error);
            let mut notes: Vec<String> = Vec::new();
            notes.push(text);
            assert(strings_view(notes@) =~= seq![proxy_error_message(error)]);
            let event = new_event(method, request_uri, None, None, "error", Some(502), notes);
            let ghost e = event;
            state.record_event(event);
            assert(last_event(state) == e);
            simple_response(502, "interceptkit proxy failed to process request")
        },
    }
}

/// Answers a `CONNECT` request for `authority` from `remote`: without an
/// authority, a plain 400 reply and nothing logged; otherwise a
/// `connect-tunnel` event with status 200 is logged and the client gets an
/// empty 200 reply (the tunnel itself is the caller's).
pub fn handle_connect(
    state: &mut AppState,
    method: &String,
    request_uri: &String,
    authority: &String,
    remote: &String,
) -> (r: Reply)
    ensures
        only_log_changed(final(state), old(state)),
        authority@.len() == 0 ==> {
            &&& is_simple_reply(&r, 400, "missing CONNECT authority"@)
            &&& final(state).events == old(state).events
        },
        authority@.len() > 0 ==> {
            &&& r.status == 200
            &&& header_entries(r.headers) == Multiset::<(Seq<char>, Seq<u8>)>::empty()
            &&& r.body@.len() == 0
            &&& final(state).events@ == log_after(old(state).events@, last_event(final(state)))
            &&& event_has(
                last_event(final(state))@,
                method@,
                request_uri@,
                None,
                None,
                "connect-tunnel"@,
                Some(200),
                seq!["remote="@ + remote@],
            )
        },
{
    if authority.as_str().is_empty() {
        return simple_response(400, "missing CONNECT authority");
    }
    let mut note = String::from_str("remote=");
    note.append(remote.as_str());
    let mut notes: Vec<String> = Vec::new();
    notes.push(note);
    assert(strings_view(notes@) =~= seq!["remote="@ + remote@]);
    let event = new_event(method, request_uri, None, None, "connect-tunnel", Some(200), notes);
    let ghost e = event;
    state.record_event(event);
    assert(last_event(state) == e);
    Reply { status: 200, headers: header_map_new(), body: Vec::new() }
}

} // verus!
