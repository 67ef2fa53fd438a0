//! HTTP header maps as the `http` crate holds them.
//!
//! A map is seen through the multiset of its (name, value) entries: names
//! are the lowercase text of `http::HeaderName`, values the bytes of
//! `http::HeaderValue`. The order in which a map hands out its entries is
//! left open.
use vstd::prelude::*;
use vstd::multiset::Multiset;
use vstd::utf8::encode_utf8;
use crate::text::ascii_lower;

verus! {

broadcast use vstd::multiset::group_multiset_axioms;

/// `http::HeaderMap`.
#[verifier::external_type_specification]
#[verifier::external_body]
#[verifier::reject_recursive_types(T)]
pub struct ExHeaderMap<T>(http::HeaderMap<T>);

/// `http::HeaderValue`.
#[verifier::external_type_specification]
#[verifier::external_body]
pub struct ExHeaderValue(http::HeaderValue);

/// The entries of a header map: one (name, value) pair per value.
pub uninterp spec fn header_entries(m: http::HeaderMap<http::HeaderValue>) -> Multiset<(Seq<char>, Seq<u8>)>;

/// The values of a header map by name, each name's values in the order the
/// map keeps them (the first is what `get` reads).
pub uninterp spec fn header_values(m: http::HeaderMap<http::HeaderValue>) -> Map<Seq<char>, Seq<Seq<u8>>>;

/// Maps that hold fewer values than this can take a new name without
/// running into the growth limit of `http::HeaderMap`, whose `insert`
/// panics past it. A map's table holds at most 2^15 slots; a map whose
/// probing has turned to the yellow danger level doubles its table once its
/// names fill a fifth of it, so at 2^15 slots a map of 6554 names may fail
/// to take one more, however its keys hash. Fewer values mean fewer names.
pub const HEADER_MAP_VALUE_LIMIT: usize = 6554;

/// A token character of RFC 9110 (what `http::HeaderName` accepts).
pub open spec fn is_tchar(c: char) -> bool {
    ||| ('a' <= c && c <= 'z')
    ||| ('A' <= c && c <= 'Z')
    ||| ('0' <= c && c <= '9')
    ||| c == '!' || c == '#' || c == '$' || c == '%' || c == '&' || c == '\''
    ||| c == '*' || c == '+' || c == '-' || c == '.' || c == '^' || c == '_'
    ||| c == '`' || c == '|' || c == '~'
}

/// `http::HeaderName::from_bytes` accepts the UTF-8 bytes of `n`.
pub open spec fn header_name_valid(n: Seq<char>) -> bool {
    &&& 1 <= n.len() <= 65535
    &&& forall|i: int| 0 <= i < n.len() ==> is_tchar(#[trigger] n[i])
}


/// The name under which `http` stores a header called `n`.
pub open spec fn header_key(n: Seq<char>) -> Seq<char> {
    n.map_values(|c: char| ascii_lower(c))
}

/// A byte that `http::HeaderValue::from_bytes` accepts.
pub open spec fn header_value_byte_ok(b: u8) -> bool {
    (b >= 32 && b != 127) || b == 9
}

/// `http::HeaderValue::from_bytes` accepts `v`.
pub open spec fn header_value_valid(v: Seq<u8>) -> bool {
    forall|i: int| 0 <= i < v.len() ==> header_value_byte_ok(#[trigger] v[i])
}

/// `http::HeaderValue::to_str` succeeds on `v`: visible ASCII or tab.
pub open spec fn header_value_visible(v: Seq<u8>) -> bool {
    forall|i: int| 0 <= i < v.len() ==> ((#[trigger] v[i] >= 32 && v[i] < 127) || v[i] == 9)
}

/// The entries left when every value stored under `key` is dropped.
pub open spec fn without_key(entries: Multiset<(Seq<char>, Seq<u8>)>, key: Seq<char>) -> Multiset<(Seq<char>, Seq<u8>)> {
    entries.filter(|e: (Seq<char>, Seq<u8>)| e.0 != key)
}

/// Some value is stored under `key`.
pub open spec fn has_key(entries: Multiset<(Seq<char>, Seq<u8>)>, key: Seq<char>) -> bool {
    exists|v: Seq<u8>| entries.contains((key, v))
}

/// The values under name `n` among entries taken in this order.
pub open spec fn values_named(entries: Seq<(Seq<char>, Seq<u8>)>, n: Seq<char>) -> Seq<Seq<u8>>
    decreases entries.len(),
{
    if entries.len() == 0 {
        Seq::empty()
    } else if entries.last().0 == n {
        values_named(entries.drop_last(), n).push(entries.last().1)
    } else {
        values_named(entries.drop_last(), n)
    }
}

/// The values that a map keeps under `n`, none when it has no such name.
pub open spec fn value_list(values: Map<Seq<char>, Seq<Seq<u8>>>, n: Seq<char>) -> Seq<Seq<u8>> {
    if values.contains_key(n) {
        values[n]
    } else {
        Seq::empty()
    }
}

/// The views of entries handed out by `header_map_entries`.
pub open spec fn entry_views(s: Seq<(String, Vec<u8>)>) -> Seq<(Seq<char>, Seq<u8>)> {
    s.map_values(|e: (String, Vec<u8>)| (e.0@, e.1@))
}

/// `http::HeaderMap::new()`: a map without entries.
#[verifier::external_body]
pub(crate) fn header_map_new() -> (r: http::HeaderMap<http::HeaderValue>)
    ensures
        header_entries(r) == Multiset::<(Seq<char>, Seq<u8>)>::empty(),
        header_values(r) =~= Map::empty(),
{
    http::HeaderMap::new()
}

/// `http::HeaderMap::insert` of `HeaderName::from_bytes(name)` and
/// `HeaderValue::from_bytes(value)`, when both are accepted. Claims: the
/// insert happens exactly when both are valid, and it replaces every value
/// stored under the lowercased name by the one value, other names kept.
#[verifier::external_body]
pub(crate) fn header_map_insert(map: &mut http::HeaderMap<http::HeaderValue>, name: &str, value: &[u8]) -> (r: bool)
    requires
        header_entries(*old(map)).len() < HEADER_MAP_VALUE_LIMIT,
    ensures
        r == (header_name_valid(name@) && header_value_valid(value@)),
        r ==> header_entries(*final(map)) == without_key(header_entries(*old(map)), header_key(name@)).insert(
            (header_key(name@), value@),
        ),
        !r ==> header_entries(*final(map)) == header_entries(*old(map)),
        r ==> header_values(*final(map)) == header_values(*old(map)).insert(header_key(name@), seq![value@]),
        !r ==> header_values(*final(map)) == header_values(*old(map)),
{
    match (http::header::HeaderName::from_bytes(name.as_bytes()), http::HeaderValue::from_bytes(value)) {
        (Ok(header_name), Ok(header_value)) => {
            map.insert(header_name, header_value);
            true
        },
        _ => false,
    }
}

/// `http::HeaderMap::remove` of `HeaderName::from_bytes(name)`, when the
/// name is accepted: every value stored under it goes, other names kept.
#[verifier::external_body]
pub(crate) fn header_map_remove(map: &mut http::HeaderMap<http::HeaderValue>, name: &str) -> (r: bool)
    ensures
        r == header_name_valid(name@),
        r ==> header_entries(*final(map)) == without_key(header_entries(*old(map)), header_key(name@)),
        !r ==> header_entries(*final(map)) == header_entries(*old(map)),
        r ==> header_values(*final(map)) == header_values(*old(map)).remove(header_key(name@)),
        !r ==> header_values(*final(map)) == header_values(*old(map)),
{
    match http::header::HeaderName::from_bytes(name.as_bytes()) {
        Ok(header_name) => {
            map.remove(header_name);
            true
        },
        Err(_) => false,
    }
}

/// `http::HeaderMap::contains_key` of `HeaderName::from_bytes(name)`.
#[verifier::external_body]
pub(crate) fn header_map_contains(map: &http::HeaderMap<http::HeaderValue>, name: &str) -> (r: bool)
    ensures
        r == (header_name_valid(name@) && has_key(header_entries(*map), header_key(name@))),
{
    match http::header::HeaderName::from_bytes(name.as_bytes()) {
        Ok(header_name) => map.contains_key(header_name),
        Err(_) => false,
    }
}

/// `http::HeaderMap::iter`, each entry handed out as its name text and value
/// bytes. Claims: the entries come out once each; the order of names is
/// left open, but each name's values come out in the order the map keeps
/// them; names are lowercase valid names and values valid values, as the
/// safe constructors of `http` guarantee.
#[verifier::external_body]
pub(crate) fn header_map_entries(map: &http::HeaderMap<http::HeaderValue>) -> (r: Vec<(String, Vec<u8>)>)
    ensures
        entry_views(r@).to_multiset() == header_entries(*map),
        forall|n: Seq<char>| #[trigger] values_named(entry_views(r@), n) == value_list(header_values(*map), n),
        forall|i: int|
            0 <= i < r@.len() ==> {
                &&& header_name_valid(#[trigger] r@[i].0@)
                &&& header_key(r@[i].0@) == r@[i].0@
                &&& header_value_valid(r@[i].1@)
            },
{
    map.iter().map(|(name, value)| (name.as_str().to_string(), value.as_bytes().to_vec())).collect()
}

/// `http::HeaderMap::get` followed by `HeaderValue::to_str`: the text of the
/// first value stored under `name` when that value is visible ASCII.
#[verifier::external_body]
pub(crate) fn header_map_get_text(map: &http::HeaderMap<http::HeaderValue>, name: &str) -> (r: Option<String>)
    ensures
        r is Some <==> (header_name_valid(name@) && header_values(*map).contains_key(header_key(name@))
            && header_values(*map)[header_key(name@)].len() > 0
            && header_value_visible(header_values(*map)[header_key(name@)][0])),
        r matches Some(text) ==> text@ == header_values(*map)[header_key(name@)][0].map_values(|b: u8| b as char),
        !(header_name_valid(name@) && has_key(header_entries(*map), header_key(name@))) ==> r is None,
        r matches Some(text) ==> exists|v: Seq<u8>|
            #![trigger header_entries(*map).contains((header_key(name@), v))]
            header_entries(*map).contains((header_key(name@), v)) && header_value_visible(v)
                && text@ == v.map_values(|b: u8| b as char),
        (r is None && header_name_valid(name@) && has_key(header_entries(*map), header_key(name@)))
            ==> exists|v: Seq<u8>|
            #![trigger header_entries(*map).contains((header_key(name@), v))]
            header_entries(*map).contains((header_key(name@), v)) && !header_value_visible(v),
{
    match http::header::HeaderName::from_bytes(name.as_bytes()) {
        Ok(header_name) => match map.get(header_name) {
            Some(value) => match value.to_str() {
                Ok(text) => Some(text.to_string()),
                Err(_) => None,
            },
            None => None,
        },
        Err(_) => None,
    }
}

} // verus!

verus! {

/// Dropping a key never adds entries.
pub proof fn lemma_without_key_len(entries: Multiset<(Seq<char>, Seq<u8>)>, key: Seq<char>)
    ensures
        without_key(entries, key).len() <= entries.len(),
{
    let w = without_key(entries, key);
    assert(w.subset_of(entries)) by {
        assert forall|v: (Seq<char>, Seq<u8>)| #[trigger] w.count(v) <= entries.count(v) by {}
    }
    let rest = entries.sub(w);
    assert(rest.len() == entries.len() - w.len());
}

/// Names written in lowercase token characters are valid and stored as
/// written; an ASCII text of visible characters is a valid value.
pub proof fn lemma_plain_header(name: Seq<char>, value: Seq<char>)
    requires
        1 <= name.len() <= 65535,
        forall|i: int| 0 <= i < name.len() ==> ((('a' <= #[trigger] name[i] && name[i] <= 'z') || name[i] == '-')),
        forall|i: int| 0 <= i < value.len() ==> ' ' <= #[trigger] value[i] && value[i] <= '~',
    ensures
        header_name_valid(name),
        header_key(name) == name,
        header_value_valid(encode_utf8(value)),
{
    assert(header_key(name) =~= name);
    assert(vstd::utf8::is_ascii_chars(value));
    vstd::utf8::is_ascii_chars_encode_utf8(value);
    assert forall|i: int| 0 <= i < encode_utf8(value).len() implies header_value_byte_ok(#[trigger] encode_utf8(value)[i]) by {
        assert(value[i] as u8 == encode_utf8(value)[i]);
    }
}

} // verus!
