//! Applying a rule's edits to the headers and body of a request or response.
use vstd::prelude::*;
use vstd::multiset::Multiset;
use vstd::utf8::encode_utf8;
use crate::headers::{
    has_key, header_entries, header_values, header_key, header_map_contains, header_map_insert, header_map_remove,
    header_name_valid, header_value_valid, lemma_plain_header, lemma_without_key_len, without_key,
    HEADER_MAP_VALUE_LIMIT,
};
use crate::json::{
    json_document_shape, json_object_entries, json_object_text, json_object_insert, json_object_new, json_object_to_bytes,
    json_parse_object, JsonBodyError,
};
use crate::models::{json_pairs_view, pairs_view, strings_view, TransformOps, TransformOpsView};
use crate::text::{decimal, decimal_string, lemma_decimal_digits, lowercase_text, to_lowercase};

verus! {

broadcast use vstd::string::group_string_axioms, vstd::multiset::group_multiset_axioms;

/// Why edits could not be applied.
#[derive(Debug)]
pub enum TransformError {
    /// `jsonSet` on a body that is not JSON.
    BodyNotJson,
    /// `jsonSet` on a JSON body that is not an object.
    BodyNotObject,
    /// The edited JSON object could not be written out (`serde_json` reports
    /// no such failure for an object).
    Serialize(String),
}

impl TransformError {
    /// The message reported for this error.
    pub fn message(&self) -> (r: String)
        ensures
            r@ == transform_error_message(*self),
    {
        match self {
            TransformError::BodyNotJson => String::from_str("failed to parse body as JSON for jsonSet transform"),
            TransformError::BodyNotObject => String::from_str("jsonSet requires JSON object body"),
            TransformError::Serialize(m) => m.clone(),
        }
    }
}

/// The message of an edit error.
pub open spec fn transform_error_message(e: TransformError) -> Seq<char> {
    match e {
        TransformError::BodyNotJson => "failed to parse body as JSON for jsonSet transform"@,
        TransformError::BodyNotObject => "jsonSet requires JSON object body"@,
        TransformError::Serialize(m) => m@,
    }
}

/// Entries of a header map.
pub type HeaderEntries = Multiset<(Seq<char>, Seq<u8>)>;

/// Setting headers in order: each pair whose name and value are valid
/// replaces the values under its name and leaves a note.
pub open spec fn header_sets(entries: HeaderEntries, sets: Seq<(Seq<char>, Seq<char>)>) -> (HeaderEntries, Seq<Seq<char>>)
    decreases sets.len(),
{
    if sets.len() == 0 {
        (entries, Seq::empty())
    } else {
        let prev = header_sets(entries, sets.drop_last());
        let name = sets.last().0;
        let value = encode_utf8(sets.last().1);
        if header_name_valid(name) && header_value_valid(value) {
            (
                without_key(prev.0, header_key(name)).insert((header_key(name), value)),
                prev.1.push("setHeader:"@ + lowercase_text(name)),
            )
        } else {
            prev
        }
    }
}

/// Removing headers in order: each valid name drops its values and leaves
/// a note.
pub open spec fn header_removes(entries: HeaderEntries, names: Seq<Seq<char>>) -> (HeaderEntries, Seq<Seq<char>>)
    decreases names.len(),
{
    if names.len() == 0 {
        (entries, Seq::empty())
    } else {
        let prev = header_removes(entries, names.drop_last());
        let name = names.last();
        if header_name_valid(name) {
            (without_key(prev.0, header_key(name)), prev.1.push("removeHeader:"@ + lowercase_text(name)))
        } else {
            prev
        }
    }
}

/// The headers, body and notes after the header and body edits, before any
/// JSON edit.
pub open spec fn after_plain_edits(entries: HeaderEntries, body: Seq<u8>, t: TransformOpsView) -> (HeaderEntries, Seq<u8>, Seq<Seq<char>>) {
    let s = header_sets(entries, t.set_headers);
    let r = header_removes(s.0, t.remove_headers);
    match t.replace_body {
        Some(b) => (r.0, encode_utf8(b), s.1 + r.1 + seq!["replaceBody"@]),
        None => (r.0, body, s.1 + r.1),
    }
}

/// The headers with `content-length` set to `len`.
pub open spec fn with_content_length(entries: HeaderEntries, len: nat) -> HeaderEntries {
    without_key(entries, "content-length"@).insert(("content-length"@, encode_utf8(decimal(len))))
}

/// The headers with `content-type` set to `application/json` unless one is
/// present.
pub open spec fn with_json_content_type(entries: HeaderEntries) -> HeaderEntries {
    if has_key(entries, "content-type"@) {
        entries
    } else {
        without_key(entries, "content-type"@).insert(("content-type"@, encode_utf8("application/json"@)))
    }
}

/// What a JSON edit finds in a body: an empty body is an empty object.
pub open spec fn json_edit_shape(body: Seq<u8>) -> Option<Option<Map<Seq<char>, serde_json::Value>>> {
    if body.len() == 0 {
        Some(Some(Map::empty()))
    } else {
        json_document_shape(body)
    }
}

/// The entries of an object after setting each (key, value) of `pairs` in
/// turn: a later pair with a key overwrites an earlier one.
pub open spec fn json_inserted(
    entries: Map<Seq<char>, serde_json::Value>,
    pairs: Seq<(Seq<char>, serde_json::Value)>,
) -> Map<Seq<char>, serde_json::Value>
    decreases pairs.len(),
{
    if pairs.len() == 0 {
        entries
    } else {
        json_inserted(entries, pairs.drop_last()).insert(pairs.last().0, pairs.last().1)
    }
}

/// Notes of the JSON edits.
pub open spec fn json_notes<V>(pairs: Seq<(Seq<char>, V)>) -> Seq<Seq<char>> {
    pairs.map_values(|p: (Seq<char>, V)| "jsonSet:"@ + p.0)
}

/// The outcome of applying edits `t` to headers `h0` and body `b0`, giving
/// headers `h` and body `b` and the result `r`.
pub open spec fn transform_outcome(
    h0: HeaderEntries,
    b0: Seq<u8>,
    t: TransformOpsView,
    h: HeaderEntries,
    b: Seq<u8>,
    r: Result<Seq<Seq<char>>, TransformError>,
) -> bool {
    let plain = after_plain_edits(h0, b0, t);
    if t.json_set.len() == 0 {
        &&& b == plain.1
        &&& h == with_content_length(plain.0, plain.1.len())
        &&& r == Ok::<Seq<Seq<char>>, TransformError>(plain.2)
    } else {
        match json_edit_shape(plain.1) {
            None => h == plain.0 && b == plain.1 && r == Err::<Seq<Seq<char>>, TransformError>(TransformError::BodyNotJson),
            Some(None) => h == plain.0 && b == plain.1 && r == Err::<Seq<Seq<char>>, TransformError>(
                TransformError::BodyNotObject,
            ),
            Some(Some(object)) => {
                &&& r == Ok::<Seq<Seq<char>>, TransformError>(plain.2 + json_notes(t.json_set))
                &&& b == json_object_text(json_inserted(object, t.json_set))
                &&& h == with_content_length(with_json_content_type(plain.0), b.len())
            },
        }
    }
}

fn set_headers(
    headers: &mut http::HeaderMap<http::HeaderValue>,
    sets: &Vec<(String, String)>,
    notes: &mut Vec<String>,
)
    requires
        header_entries(*old(headers)).len() + sets.len() < HEADER_MAP_VALUE_LIMIT,
    ensures
        header_entries(*final(headers)) == header_sets(header_entries(*old(headers)), pairs_view(sets@)).0,
        strings_view(final(notes)@) == strings_view(old(notes)@) + header_sets(header_entries(*old(headers)), pairs_view(sets@)).1,
        header_entries(*final(headers)).len() <= header_entries(*old(headers)).len() + sets.len(),
{
    let ghost start = header_entries(*headers);
    let ghost notes0 = strings_view(notes@);
    let mut i: usize = 0;
    while i < sets.len()
        invariant
            i <= sets.len(),
            start.len() + sets.len() < HEADER_MAP_VALUE_LIMIT,
            header_entries(*headers) == header_sets(start, pairs_view(sets@.subrange(0, i as int))).0,
            strings_view(notes@) == notes0 + header_sets(start, pairs_view(sets@.subrange(0, i as int))).1,
            header_entries(*headers).len() <= start.len() + i,
        decreases sets.len() - i,
    {
        let ghost prev_notes = strings_view(notes@);
        let ghost prev_entries = header_entries(*headers);
        assert(pairs_view(sets@.subrange(0, i + 1)).drop_last() =~= pairs_view(sets@.subrange(0, i as int)));
        let (name, value) = &sets[i];
        assert(pairs_view(sets@.subrange(0, i + 1)).last() == (name@, value@));
        let inserted = header_map_insert(headers, name.as_str(), value.as_str().as_bytes());
        if inserted {
            let mut note = String::from_str("setHeader:");
            note.append(to_lowercase(name.as_str()).as_str());
            notes.push(note);
            assert(strings_view(notes@) =~= prev_notes.push("setHeader:"@ + lowercase_text(name@)));
            proof {
                lemma_without_key_len(prev_entries, header_key(name@));
            }
        }
        i = i + 1;
    }
    assert(sets@.subrange(0, sets.len() as int) =~= sets@);
}

fn remove_headers(headers: &mut http::HeaderMap<http::HeaderValue>, names: &Vec<String>, notes: &mut Vec<String>)
    ensures
        header_entries(*final(headers)) == header_removes(header_entries(*old(headers)), strings_view(names@)).0,
        strings_view(final(notes)@) == strings_view(old(notes)@) + header_removes(header_entries(*old(headers)), strings_view(names@)).1,
        header_entries(*final(headers)).len() <= header_entries(*old(headers)).len(),
{
    let ghost start = header_entries(*headers);
    let ghost notes0 = strings_view(notes@);
    let mut i: usize = 0;
    while i < names.len()
        invariant
            i <= names.len(),
            header_entries(*headers) == header_removes(start, strings_view(names@.subrange(0, i as int))).0,
            strings_view(notes@) == notes0 + header_removes(start, strings_view(names@.subrange(0, i as int))).1,
            header_entries(*headers).len() <= start.len(),
        decreases names.len() - i,
    {
        let ghost prev_notes = strings_view(notes@);
        let ghost prev_entries = header_entries(*headers);
        assert(strings_view(names@.subrange(0, i + 1)).drop_last() =~= strings_view(names@.subrange(0, i as int)));
        let name = &names[i];
        assert(strings_view(names@.subrange(0, i + 1)).last() == name@);
        let removed = header_map_remove(headers, name.as_str());
        if removed {
            let mut note = String::from_str("removeHeader:");
            note.append(to_lowercase(name.as_str()).as_str());
            notes.push(note);
            assert(strings_view(notes@) =~= prev_notes.push("removeHeader:"@ + lowercase_text(name@)));
            proof {
                lemma_without_key_len(prev_entries, header_key(name@));
            }
        }
        i = i + 1;
    }
    assert(names@.subrange(0, names.len() as int) =~= names@);
}

/// Sets `content-length` to the length of `body`.
pub fn set_content_length(headers: &mut http::HeaderMap<http::HeaderValue>, body_len: usize)
    requires
        header_entries(*old(headers)).len() < HEADER_MAP_VALUE_LIMIT,
    ensures
        header_entries(*final(headers)) == with_content_length(header_entries(*old(headers)), body_len as nat),
        header_entries(*final(headers)).len() <= header_entries(*old(headers)).len() + 1,
        header_values(*final(headers)) == header_values(*old(headers)).insert(
            "content-length"@,
            seq![encode_utf8(decimal(body_len as nat))],
        ),
{
    let length = decimal_string(body_len as u64);
    proof {
        lemma_without_key_len(header_entries(*headers), "content-length"@);
        reveal_strlit("content-length");
        lemma_decimal_digits(body_len as nat);
        lemma_plain_header("content-length"@, length@);
    }
    let ok = header_map_insert(headers, "content-length", length.as_str().as_bytes());
    assert(ok);
}

/// Applies edits to headers and body: header sets, header removals, body
/// replacement and JSON field sets, in this order, then sets
/// `content-length` to the body's length. Returns the notes of the edits
/// made, or why a JSON edit could not be made.
pub fn apply_transform(
    headers: &mut http::HeaderMap<http::HeaderValue>,
    body: &mut Vec<u8>,
    transform: &TransformOps,
) -> (r: Result<Vec<String>, TransformError>)
    requires
        header_entries(*old(headers)).len() + transform.set_headers.len() + 2 < HEADER_MAP_VALUE_LIMIT,
    ensures
        transform_outcome(
            header_entries(*old(headers)),
            old(body)@,
            transform@,
            header_entries(*final(headers)),
            final(body)@,
            match r {
                Ok(notes) => Ok(strings_view(notes@)),
                Err(e) => Err(e),
            },
        ),
        header_entries(*final(headers)).len() <= header_entries(*old(headers)).len() + transform.set_headers.len() + 2,
{
    let ghost h0 = header_entries(*headers);
    let ghost b0 = body@;
    let ghost plain = after_plain_edits(h0, b0, transform@);
    let mut notes: Vec<String> = Vec::new();
    set_headers(headers, &transform.set_headers, &mut notes);
    remove_headers(headers, &transform.remove_headers, &mut notes);
    match &transform.replace_body {
        Some(replacement) => {
            *body = replacement.as_str().as_bytes_vec();
            notes.push(String::from_str("replaceBody"));
        },
        None => {},
    }
    assert(header_entries(*headers) == plain.0);
    assert(body@ == plain.1);
    assert(strings_view(notes@) =~= plain.2);
    if transform.json_set.len() > 0 {
        let parsed = if body.len() == 0 {
            Ok(json_object_new())
        } else {
            json_parse_object(body.as_slice())
        };
        let mut object = match parsed {
            Ok(object) => object,
            Err(JsonBodyError::NotJson) => return Err(TransformError::BodyNotJson),
            Err(JsonBodyError::NotObject) => return Err(TransformError::BodyNotObject),
        };
        let ghost notes_before = strings_view(notes@);
        let ghost base = json_object_entries(object);
        let mut i: usize = 0;
        while i < transform.json_set.len()
            invariant
                i <= transform.json_set.len(),
                strings_view(notes@) == notes_before + json_notes(json_pairs_view(transform.json_set@.subrange(0, i as int))),
                json_object_entries(object) == json_inserted(base, json_pairs_view(transform.json_set@.subrange(0, i as int))),
            decreases transform.json_set.len() - i,
        {
            let (key, value) = &transform.json_set[i];
            assert(json_pairs_view(transform.json_set@.subrange(0, i + 1)).drop_last() =~= json_pairs_view(
                transform.json_set@.subrange(0, i as int),
            ));
            assert(json_pairs_view(transform.json_set@.subrange(0, i + 1)).last() == (key@, *value));
            json_object_insert(&mut object, key, value);
            let mut note = String::from_str("jsonSet:");
            note.append(key.as_str());
            let ghost pn = strings_view(notes@);
            notes.push(note);
            assert(json_notes(json_pairs_view(transform.json_set@.subrange(0, i + 1))) =~= json_notes(
                json_pairs_view(transform.json_set@.subrange(0, i as int)),
            ).push("jsonSet:"@ + key@));
            assert(strings_view(notes@) =~= pn.push("jsonSet:"@ + key@));
            i = i + 1;
        }
        assert(transform.json_set@.subrange(0, transform.json_set.len() as int) =~= transform.json_set@);
        let bytes = match json_object_to_bytes(&object) {
            Ok(bytes) => bytes,
            Err(message) => return Err(TransformError::Serialize(message)),
        };
        *body = bytes;
        proof {
            reveal_strlit("content-type");
            reveal_strlit("application/json");
            lemma_plain_header("content-type"@, "application/json"@);
        }
        if !header_map_contains(headers, "content-type") {
            let ok = header_map_insert(headers, "content-type", "application/json".as_bytes());
            assert(ok);
        }
        proof {
            lemma_without_key_len(plain.0, "content-type"@);
        }
    }
    set_content_length(headers, body.len());
    Ok(notes)
}


/// Setting the content length leaves exactly one `content-length` value:
/// the decimal length.
pub proof fn lemma_content_length_count(entries: HeaderEntries, len: nat, v: Seq<u8>)
    ensures
        with_content_length(entries, len).count(("content-length"@, v)) == if v == encode_utf8(decimal(len)) {
            1nat
        } else {
            0nat
        },
{
}

/// After edits that succeed, the body's length is announced: the headers
/// hold exactly one `content-length` value, the decimal length of the new
/// body.
pub proof fn lemma_transform_length_announced(
    h0: HeaderEntries,
    b0: Seq<u8>,
    t: TransformOpsView,
    h: HeaderEntries,
    b: Seq<u8>,
    notes: Seq<Seq<char>>,
    v: Seq<u8>,
)
    requires
        transform_outcome(h0, b0, t, h, b, Ok(notes)),
    ensures
        h.count(("content-length"@, v)) == if v == encode_utf8(decimal(b.len())) {
            1nat
        } else {
            0nat
        },
{
    let plain = after_plain_edits(h0, b0, t);
    if t.json_set.len() == 0 {
        lemma_content_length_count(plain.0, b.len(), v);
    } else {
        lemma_content_length_count(with_json_content_type(plain.0), b.len(), v);
    }
}


/// The value that setting headers in order leaves under `key`: that of the
/// last valid pair for it, if any.
pub open spec fn set_value(sets: Seq<(Seq<char>, Seq<char>)>, key: Seq<char>) -> Option<Seq<u8>>
    decreases sets.len(),
{
    if sets.len() == 0 {
        None
    } else {
        let name = sets.last().0;
        let value = encode_utf8(sets.last().1);
        if header_name_valid(name) && header_value_valid(value) && header_key(name) == key {
            Some(value)
        } else {
            set_value(sets.drop_last(), key)
        }
    }
}

/// Some valid name among `names` is stored under `key`.
pub open spec fn removes_key(names: Seq<Seq<char>>, key: Seq<char>) -> bool
    decreases names.len(),
{
    if names.len() == 0 {
        false
    } else {
        (header_name_valid(names.last()) && header_key(names.last()) == key) || removes_key(names.drop_last(), key)
    }
}

proof fn lemma_sets_count(h: HeaderEntries, sets: Seq<(Seq<char>, Seq<char>)>, e: (Seq<char>, Seq<u8>))
    ensures
        header_sets(h, sets).0.count(e) == match set_value(sets, e.0) {
            Some(v) => if e.1 == v { 1nat } else { 0nat },
            None => h.count(e),
        },
    decreases sets.len(),
{
    if sets.len() > 0 {
        lemma_sets_count(h, sets.drop_last(), e);
    }
}

proof fn lemma_removes_count(h: HeaderEntries, names: Seq<Seq<char>>, e: (Seq<char>, Seq<u8>))
    ensures
        header_removes(h, names).0.count(e) == if removes_key(names, e.0) { 0 } else { h.count(e) },
    decreases names.len(),
{
    if names.len() > 0 {
        lemma_removes_count(h, names.drop_last(), e);
    }
}

proof fn lemma_sets_notes(a: HeaderEntries, b: HeaderEntries, sets: Seq<(Seq<char>, Seq<char>)>)
    ensures
        header_sets(a, sets).1 == header_sets(b, sets).1,
    decreases sets.len(),
{
    if sets.len() > 0 {
        lemma_sets_notes(a, b, sets.drop_last());
    }
}

proof fn lemma_removes_notes(a: HeaderEntries, b: HeaderEntries, names: Seq<Seq<char>>)
    ensures
        header_removes(a, names).1 == header_removes(b, names).1,
    decreases names.len(),
{
    if names.len() > 0 {
        lemma_removes_notes(a, b, names.drop_last());
    }
}

/// The entries after the plain header edits, name by name.
proof fn lemma_plain_count(h: HeaderEntries, body: Seq<u8>, t: TransformOpsView, e: (Seq<char>, Seq<u8>))
    ensures
        after_plain_edits(h, body, t).0.count(e) == if removes_key(t.remove_headers, e.0) {
            0
        } else {
            match set_value(t.set_headers, e.0) {
                Some(v) => if e.1 == v { 1nat } else { 0nat },
                None => h.count(e),
            }
        },
{
    lemma_removes_count(header_sets(h, t.set_headers).0, t.remove_headers, e);
    lemma_sets_count(h, t.set_headers, e);
}

/// The plain edits leave the same notes, whatever the headers.
proof fn lemma_plain_notes(a: HeaderEntries, ba: Seq<u8>, b: HeaderEntries, bb: Seq<u8>, t: TransformOpsView)
    ensures
        after_plain_edits(a, ba, t).2 == after_plain_edits(b, bb, t).2,
{
    lemma_sets_notes(a, b, t.set_headers);
    lemma_removes_notes(header_sets(a, t.set_headers).0, header_sets(b, t.set_headers).0, t.remove_headers);
}

/// Entries whose counts agree under a key agree on whether the key is present.
proof fn lemma_has_key_agrees(a: HeaderEntries, b: HeaderEntries, key: Seq<char>)
    requires
        forall|v: Seq<u8>| #[trigger] a.count((key, v)) == b.count((key, v)),
    ensures
        has_key(a, key) == has_key(b, key),
{
    if has_key(a, key) {
        let v = choose|v: Seq<u8>| a.contains((key, v));
        assert(b.count((key, v)) > 0);
        assert(b.contains((key, v)));
    }
    if has_key(b, key) {
        let v = choose|v: Seq<u8>| b.contains((key, v));
        assert(a.count((key, v)) > 0);
        assert(a.contains((key, v)));
    }
}

/// Applying the same edits twice has the effect of applying them once,
/// when the edits replace the body or set no JSON field: the second pass
/// leaves the headers and the body as the first left them, and gives the
/// same notes. (With JSON fields set on the body itself, the second pass
/// reads back the JSON text the first wrote.)
pub proof fn lemma_transform_idempotent(
    h0: HeaderEntries,
    b0: Seq<u8>,
    t: TransformOpsView,
    h1: HeaderEntries,
    b1: Seq<u8>,
    notes: Seq<Seq<char>>,
    h2: HeaderEntries,
    b2: Seq<u8>,
    r2: Result<Seq<Seq<char>>, TransformError>,
)
    requires
        transform_outcome(h0, b0, t, h1, b1, Ok(notes)),
        transform_outcome(h1, b1, t, h2, b2, r2),
        t.json_set.len() == 0 || t.replace_body is Some,
    ensures
        h2 == h1,
        b2 == b1,
        r2 == Ok::<Seq<Seq<char>>, TransformError>(notes),
{
    reveal_strlit("content-length");
    reveal_strlit("content-type");
    let cl = "content-length"@;
    let ct = "content-type"@;
    assert(cl != ct) by {
        assert(cl.len() != ct.len());
    }
    let p0 = after_plain_edits(h0, b0, t);
    let p1 = after_plain_edits(h1, b1, t);
    lemma_plain_notes(h0, b0, h1, b1, t);
    let json = t.json_set.len() > 0;
    let m0 = p0.0;
    let m1 = p1.0;
    let y0 = if json { with_json_content_type(m0) } else { m0 };
    let y1 = if json { with_json_content_type(m1) } else { m1 };
    assert(p1.1 == p0.1) by {
        if t.replace_body is None {
            assert(!json);
        }
    }
    assert(h1 == with_content_length(y0, b1.len()));
    // Under every key but the content length, the second pass starts from
    // what the first pass made.
    assert forall|e: (Seq<char>, Seq<u8>)| e.0 != cl implies #[trigger] m1.count(e) == (if removes_key(t.remove_headers, e.0)
        || set_value(t.set_headers, e.0) is Some {
        m0.count(e)
    } else {
        y0.count(e)
    }) by {
        lemma_plain_count(h0, b0, t, e);
        lemma_plain_count(h1, b1, t, e);
        if !json || e.0 != ct {
            if !(removes_key(t.remove_headers, e.0) || set_value(t.set_headers, e.0) is Some) {
                assert(h1.count(e) == y0.count(e));
            }
        }
    }
    assert forall|e: (Seq<char>, Seq<u8>)| e.0 != cl implies #[trigger] y1.count(e) == y0.count(e) by {
        lemma_plain_count(h0, b0, t, e);
        if json {
            if e.0 == ct {
                let touched = removes_key(t.remove_headers, ct) || set_value(t.set_headers, ct) is Some;
                assert forall|v: Seq<u8>| #[trigger] m1.count((ct, v)) == (if touched { m0.count((ct, v)) } else {
                    y0.count((ct, v))
                }) by {
                    assert((ct, v).0 != cl);
                }
                if touched {
                    lemma_has_key_agrees(m1, m0, ct);
                } else if has_key(m0, ct) {
                    lemma_has_key_agrees(m1, m0, ct);
                } else {
                    let j = encode_utf8("application/json"@);
                    assert(y0.count((ct, j)) > 0);
                    assert(m1.count((ct, j)) > 0);
                    assert(m1.contains((ct, j)));
                    assert(has_key(m1, ct));
                }
            } else {
                assert(m1.count(e) == m0.count(e));
            }
        }
    }
    assert(h2 =~= h1) by {
        assert forall|e: (Seq<char>, Seq<u8>)| #[trigger] h2.count(e) == h1.count(e) by {
            if e.0 != cl {
                assert(y1.count(e) == y0.count(e));
            }
        }
    }
}
} // verus!
