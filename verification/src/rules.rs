//! Matching requests against rules, choosing among overlapping rules, and
//! resolving the action of the chosen rule.
use vstd::prelude::*;
use vstd::utf8::encode_utf8;
use crate::glob::{glob_matches, glob_regex, regex_compiles, wildcard_match};
use crate::headers::{entry_views, header_entries, header_values, value_list, values_named, header_map_entries, header_value_visible, HEADER_MAP_VALUE_LIMIT};
use crate::models::{
    lookup_last, pairs_view, strings_view, ActionStepView, MockResponseAction, ResolvedAction,
    RewritePassThroughAction, RewritePassThroughView, RewriteRule, RewriteRuleView, RuleAction,
    RuleActionView, RuleMatcherView, SequenceStepAction, rules_view, steps_view,
};
use crate::text::{
    ascii_chars,
    ascii_upper, is_ascii_text, count_char, count_char_in, decimal, decimal_string, lowercase_text, seq_char_lt,
    seq_contains_seq, str_contains, str_lt, to_lowercase, to_uppercase, uppercase_text,
};

verus! {

broadcast use vstd::string::group_string_axioms;

/// A request as the matcher reads it.
#[derive(Debug, Clone)]
pub struct NormalizedRequest {
    pub method: String,
    pub url: String,
    pub headers: Vec<(String, String)>,
    pub query: Vec<(String, String)>,
    pub body_text: String,
}

/// A request, as values.
pub struct NormalizedRequestView {
    pub method: Seq<char>,
    pub url: Seq<char>,
    pub headers: Seq<(Seq<char>, Seq<char>)>,
    pub query: Seq<(Seq<char>, Seq<char>)>,
    pub body_text: Seq<char>,
}

impl View for NormalizedRequest {
    type V = NormalizedRequestView;

    open spec fn view(&self) -> NormalizedRequestView {
        NormalizedRequestView {
            method: self.method@,
            url: self.url@,
            headers: pairs_view(self.headers@),
            query: pairs_view(self.query@),
            body_text: self.body_text@,
        }
    }
}

/// A rule that matched, with how specific the match was and why it matched.
#[derive(Debug, Clone)]
pub struct MatchCandidate {
    pub rule: RewriteRule,
    pub specificity: i32,
    pub notes: Vec<String>,
}

/// The value of the last pair in `pairs` whose key is `key`.
pub fn lookup_pair<'a>(pairs: &'a Vec<(String, String)>, key: &String) -> (r: Option<&'a String>)
    ensures
        match r {
            Some(v) => lookup_last(pairs_view(pairs@), key@) == Some(v@),
            None => lookup_last(pairs_view(pairs@), key@) is None,
        },
{
    let mut i: usize = pairs.len();
    assert(pairs@.subrange(0, i as int) =~= pairs@);
    while i > 0
        invariant
            i <= pairs.len(),
            lookup_last(pairs_view(pairs@), key@) == lookup_last(pairs_view(pairs@.subrange(0, i as int)), key@),
        decreases i,
    {
        let ghost prefix = pairs_view(pairs@.subrange(0, i as int));
        assert(pairs_view(pairs@.subrange(0, i - 1)) =~= prefix.drop_last());
        let (k, v) = &pairs[i - 1];
        assert(prefix.last() == (k@, v@));
        if *k == *key {
            return Some(v);
        }
        i = i - 1;
    }
    None
}

// ---------------------------------------------------------------- evaluation

/// The highest specificity a matcher can reach: 20 for methods, 30 plus
/// the URL boost (at most the pattern's UTF-8 length, at least 1) plus 50
/// for an exact pattern, 12 per header condition, 10 per query condition
/// and 8 for a body fragment.
pub open spec fn max_specificity(m: RuleMatcherView) -> int {
    let len = encode_utf8(m.url_pattern).len();
    108 + (if len >= 1 { len as int } else { 1int }) + 12 * m.header_equals.len() + 10 * m.query_equals.len()
}

/// Evaluating the matcher stays within `i32`: its highest specificity and
/// three times its number of wildcards fit.
pub open spec fn matcher_within_limits(m: RuleMatcherView) -> bool {
    &&& max_specificity(m) <= i32::MAX
    &&& 3 * count_char(m.url_pattern, '*') <= i32::MAX
}

/// Some listed method, uppercased, is the request's method.
pub open spec fn method_listed(methods: Seq<Seq<char>>, method: Seq<char>) -> bool {
    exists|i: int| 0 <= i < methods.len() && uppercase_text(#[trigger] methods[i]) == method
}

/// Note for a matched method.
pub open spec fn method_note(method: Seq<char>) -> Seq<char> {
    "method="@ + method + " matched"@
}

/// Note for a matched URL pattern.
pub open spec fn url_note(pattern: Seq<char>) -> Seq<char> {
    "urlPattern="@ + pattern + " matched"@
}

/// Note for a matched header condition.
pub open spec fn header_note(key: Seq<char>) -> Seq<char> {
    "header "@ + key + " matched"@
}

/// Note for a matched query condition.
pub open spec fn query_note(key: Seq<char>) -> Seq<char> {
    "query "@ + key + " matched"@
}

/// Specificity added by the URL pattern beyond its base of 30: the
/// pattern's UTF-8 length less three per wildcard, at least 1.
pub open spec fn url_boost(pattern: Seq<char>) -> int {
    let d = encode_utf8(pattern).len() - 3 * count_char(pattern, '*');
    if d > 1 { d } else { 1 }
}

/// The URL of the request matches the pattern.
pub open spec fn url_accepts(pattern: Seq<char>, url: Seq<char>) -> bool {
    regex_compiles(glob_regex(pattern)) && glob_matches(pattern, url)
}

/// Which conditions of a matcher are checked: header conditions compare
/// under the lowercased key and weigh 12, query conditions compare under the
/// key as written and weigh 10.
pub open spec fn condition_key(key: Seq<char>, on_headers: bool) -> Seq<char> {
    if on_headers { lowercase_text(key) } else { key }
}

/// Specificity of one satisfied condition.
pub open spec fn condition_weight(on_headers: bool) -> int {
    if on_headers { 12 } else { 10 }
}

/// Note of one satisfied condition.
pub open spec fn condition_note(key: Seq<char>, on_headers: bool) -> Seq<char> {
    if on_headers { header_note(key) } else { query_note(key) }
}

/// Outcome of checking (key, value) conditions in order against the pairs
/// of a request: whether all held, the specificity they add, and their
/// notes. Checking stops at the first that fails.
pub open spec fn condition_checks(
    conds: Seq<(Seq<char>, Seq<char>)>,
    pairs: Seq<(Seq<char>, Seq<char>)>,
    on_headers: bool,
) -> (bool, int, Seq<Seq<char>>)
    decreases conds.len(),
{
    if conds.len() == 0 {
        (true, 0, Seq::empty())
    } else {
        let prev = condition_checks(conds.drop_last(), pairs, on_headers);
        let key = condition_key(conds.last().0, on_headers);
        if !prev.0 {
            prev
        } else if lookup_last(pairs, key) == Some(conds.last().1) {
            (true, prev.1 + condition_weight(on_headers), prev.2.push(condition_note(key, on_headers)))
        } else {
            (false, prev.1, prev.2)
        }
    }
}

/// The evaluation of a matcher against a request: whether it matches, the
/// specificity accumulated, and the notes.
pub open spec fn evaluation(m: RuleMatcherView, req: NormalizedRequestView) -> (bool, int, Seq<Seq<char>>) {
    evaluation_given(m, req, url_accepts(m.url_pattern, req.url))
}

/// The evaluation of a matcher against a request when the verdict of its URL
/// pattern on the request's URL is `url_ok`. Conditions are checked in the
/// order methods, URL pattern, headers, query, body; the first that fails
/// ends the evaluation with what was accumulated before it.
pub open spec fn evaluation_given(m: RuleMatcherView, req: NormalizedRequestView, url_ok: bool) -> (
    bool,
    int,
    Seq<Seq<char>>,
) {
    let method_ok = match m.methods {
        Some(ms) => method_listed(ms, req.method),
        None => true,
    };
    let s0: int = if m.methods is Some { 20 } else { 0 };
    let n0: Seq<Seq<char>> = if m.methods is Some { seq![method_note(req.method)] } else { Seq::empty() };
    if !method_ok {
        (false, 0, Seq::empty())
    } else if !url_ok {
        (false, s0, n0)
    } else {
        let exact = count_char(m.url_pattern, '*') == 0;
        let s1 = s0 + 30 + url_boost(m.url_pattern) + if exact { 50int } else { 0int };
        let n1 = if exact {
            n0.push(url_note(m.url_pattern)).push("urlPattern exact"@)
        } else {
            n0.push(url_note(m.url_pattern))
        };
        let h = condition_checks(m.header_equals, req.headers, true);
        if !h.0 {
            (false, s1 + h.1, n1 + h.2)
        } else {
            let q = condition_checks(m.query_equals, req.query, false);
            if !q.0 {
                (false, s1 + h.1 + q.1, n1 + h.2 + q.2)
            } else {
                match m.body_contains {
                    None => (true, s1 + h.1 + q.1, n1 + h.2 + q.2),
                    Some(f) => if seq_contains_seq(req.body_text, f) {
                        (true, s1 + h.1 + q.1 + 8, (n1 + h.2 + q.2).push("bodyContains matched"@))
                    } else {
                        (false, s1 + h.1 + q.1, n1 + h.2 + q.2)
                    },
                }
            }
        }
    }
}

proof fn lemma_checks_bounded(conds: Seq<(Seq<char>, Seq<char>)>, pairs: Seq<(Seq<char>, Seq<char>)>, on_headers: bool)
    ensures
        0 <= condition_checks(conds, pairs, on_headers).1,
        on_headers ==> condition_checks(conds, pairs, on_headers).1 <= 12 * conds.len(),
        !on_headers ==> condition_checks(conds, pairs, on_headers).1 <= 10 * conds.len(),
    decreases conds.len(),
{
    if conds.len() > 0 {
        lemma_checks_bounded(conds.drop_last(), pairs, on_headers);
    }
}

/// ASCII texts uppercase letter by letter.
pub open spec fn ascii_uppercased(texts: Seq<Seq<char>>) -> bool {
    forall|i: int|
        0 <= i < texts.len() && is_ascii_text(#[trigger] texts[i]) ==> uppercase_text(texts[i]) == texts[i].map_values(
            |c: char| ascii_upper(c),
        )
}

fn check_methods(methods: &Vec<String>, method: &String) -> (r: bool)
    ensures
        r == method_listed(strings_view(methods@), method@),
        ascii_uppercased(strings_view(methods@)),
{
    let mut found = false;
    let mut i: usize = 0;
    while i < methods.len()
        invariant
            i <= methods.len(),
            found == exists|k: int| 0 <= k < i && uppercase_text(#[trigger] strings_view(methods@)[k]) == method@,
            forall|k: int|
                0 <= k < i && is_ascii_text(#[trigger] strings_view(methods@)[k]) ==> uppercase_text(strings_view(methods@)[k])
                    == strings_view(methods@)[k].map_values(|c: char| ascii_upper(c)),
        decreases methods.len() - i,
    {
        let upper = to_uppercase(methods[i].as_str());
        assert(strings_view(methods@)[i as int] == methods@[i as int]@);
        if upper == *method {
            found = true;
        }
        i = i + 1;
    }
    found
}

fn check_conditions(conds: &Vec<(String, String)>, pairs: &Vec<(String, String)>, on_headers: bool, notes: &mut Vec<String>) -> (r: (bool, i32))
    requires
        on_headers ==> 12 * conds.len() <= i32::MAX,
        !on_headers ==> 10 * conds.len() <= i32::MAX,
    ensures
        r.0 == condition_checks(pairs_view(conds@), pairs_view(pairs@), on_headers).0,
        r.1 == condition_checks(pairs_view(conds@), pairs_view(pairs@), on_headers).1,
        strings_view(final(notes)@) == strings_view(old(notes)@) + condition_checks(pairs_view(conds@), pairs_view(pairs@), on_headers).2,
{
    let ghost start = strings_view(notes@);
    let mut spec_sum: i32 = 0;
    let mut i: usize = 0;
    while i < conds.len()
        invariant
            i <= conds.len(),
            on_headers ==> 12 * conds.len() <= i32::MAX,
            !on_headers ==> 10 * conds.len() <= i32::MAX,
            start == strings_view(old(notes)@),
            condition_checks(pairs_view(conds@.subrange(0, i as int)), pairs_view(pairs@), on_headers) == (
                true,
                spec_sum as int,
                strings_view(notes@).subrange(start.len() as int, strings_view(notes@).len() as int),
            ),
            strings_view(notes@).len() >= start.len(),
            strings_view(notes@).subrange(0, start.len() as int) == start,
            0 <= spec_sum,
            on_headers ==> spec_sum <= 12 * i,
            !on_headers ==> spec_sum <= 10 * i,
            on_headers == on_headers,
        decreases conds.len() - i,
    {
        let ghost before = strings_view(notes@);
        assert(pairs_view(conds@.subrange(0, i + 1)).drop_last() =~= pairs_view(conds@.subrange(0, i as int)));
        let (key, expected) = &conds[i];
        let normalized = if on_headers { to_lowercase(key.as_str()) } else { key.clone() };
        match lookup_pair(pairs, &normalized) {
            Some(actual) => {
                if *actual == *expected {
                    let mut note = if on_headers {
                        spec_sum = spec_sum + 12;
                        String::from_str("header ")
                    } else {
                        spec_sum = spec_sum + 10;
                        String::from_str("query ")
                    };
                    note.append(normalized.as_str());
                    note.append(" matched");
                    notes.push(note);
                    assert(strings_view(notes@) =~= before.push(condition_note(normalized@, on_headers)));
                    assert(strings_view(notes@).subrange(start.len() as int, strings_view(notes@).len() as int)
                        =~= before.subrange(start.len() as int, before.len() as int).push(condition_note(normalized@, on_headers)));
                    assert(strings_view(notes@).subrange(0, start.len() as int) =~= before.subrange(0, start.len() as int));
                    i = i + 1;
                    continue;
                }
            },
            None => {},
        }
        assert(!condition_checks(pairs_view(conds@.subrange(0, i + 1)), pairs_view(pairs@), on_headers).0);
        assert(condition_checks(pairs_view(conds@.subrange(0, i + 1)), pairs_view(pairs@), on_headers).1 == spec_sum);
        assert(strings_view(notes@) =~= start + condition_checks(pairs_view(conds@.subrange(0, i + 1)), pairs_view(pairs@), on_headers).2);
        assert(pairs_view(conds@).subrange(0, i + 1) =~= pairs_view(conds@.subrange(0, i + 1)));
        proof {
            lemma_checks_stop(pairs_view(conds@), pairs_view(pairs@), on_headers, i as int + 1);
            assert(conds@.subrange(0, conds.len() as int) =~= conds@);
            assert(condition_checks(pairs_view(conds@), pairs_view(pairs@), on_headers) == condition_checks(
                pairs_view(conds@.subrange(0, i + 1)),
                pairs_view(pairs@),
                on_headers,
            ));
            assert(start == strings_view(old(notes)@));
        }
        return (false, spec_sum);
    }
    assert(conds@.subrange(0, conds.len() as int) =~= conds@);
    assert(strings_view(notes@) =~= start + condition_checks(pairs_view(conds@), pairs_view(pairs@), on_headers).2);
    (true, spec_sum)
}

/// Once a condition fails, later conditions change nothing.
proof fn lemma_checks_stop(conds: Seq<(Seq<char>, Seq<char>)>, pairs: Seq<(Seq<char>, Seq<char>)>, on_headers: bool, n: int)
    requires
        0 <= n <= conds.len(),
        !condition_checks(conds.subrange(0, n), pairs, on_headers).0,
    ensures
        condition_checks(conds, pairs, on_headers) == condition_checks(conds.subrange(0, n), pairs, on_headers),
    decreases conds.len() - n,
{
    if n < conds.len() {
        assert(conds.subrange(0, n + 1).drop_last() =~= conds.subrange(0, n));
        lemma_checks_stop(conds, pairs, on_headers, n + 1);
    } else {
        assert(conds.subrange(0, n) =~= conds);
    }
}


proof fn lemma_count_char_le_len(s: Seq<char>, c: char)
    ensures
        count_char(s, c) <= s.len(),
    decreases s.len(),
{
    if s.len() > 0 {
        lemma_count_char_le_len(s.drop_last(), c);
    }
}

proof fn lemma_utf8_len_ge_chars(s: Seq<char>)
    ensures
        encode_utf8(s).len() >= s.len(),
    decreases s.len(),
{
    if s.len() > 0 {
        lemma_utf8_len_ge_chars(s.drop_first());
    }
}

/// Evaluates a rule's matcher against a request: whether it matches, how
/// specific the match is, and notes on what matched.
pub fn evaluate_rule(rule: &RewriteRule, request: &NormalizedRequest) -> (r: (bool, i32, Vec<String>))
    requires
        matcher_within_limits(rule.matcher@),
    ensures
        r.0 == evaluation(rule.matcher@, request@).0,
        r.1 == evaluation(rule.matcher@, request@).1,
        strings_view(r.2@) == evaluation(rule.matcher@, request@).2,
        rule.matcher@.methods matches Some(ms) ==> ascii_uppercased(ms),
{
    let url_ok = wildcard_match(rule.matcher.url_pattern.as_str(), request.url.as_str());
    evaluate_rule_given(rule, request, url_ok)
}

/// Evaluates a rule's matcher against a request, given whether its URL
/// pattern accepts the request's URL.
pub fn evaluate_rule_given(rule: &RewriteRule, request: &NormalizedRequest, url_ok: bool) -> (r: (bool, i32, Vec<String>))
    requires
        matcher_within_limits(rule.matcher@),
    ensures
        r.0 == evaluation_given(rule.matcher@, request@, url_ok).0,
        r.1 == evaluation_given(rule.matcher@, request@, url_ok).1,
        strings_view(r.2@) == evaluation_given(rule.matcher@, request@, url_ok).2,
        rule.matcher@.methods matches Some(ms) ==> ascii_uppercased(ms),
{
    let mut specificity: i32 = 0;
    let mut notes: Vec<String> = Vec::new();
    let matcher = &rule.matcher;
    match &matcher.methods {
        Some(methods) => {
            if !check_methods(methods, &request.method) {
                assert(strings_view(notes@) =~= Seq::<Seq<char>>::empty());
                return (false, specificity, notes);
            }
            specificity = 20;
            let mut note = String::from_str("method=");
            note.append(request.method.as_str());
            note.append(" matched");
            notes.push(note);
        },
        None => {},
    }
    let ghost n0: Seq<Seq<char>> = if matcher.methods is Some { seq![method_note(request.method@)] } else { Seq::empty() };
    assert(strings_view(notes@) =~= n0);
    if !url_ok {
        return (false, specificity, notes);
    }
    let wildcard_count = count_char_in(matcher.url_pattern.as_str(), '*');
    proof {
        lemma_count_char_le_len(matcher.url_pattern@, '*');
        lemma_utf8_len_ge_chars(matcher.url_pattern@);
    }
    let pattern_chars = matcher.url_pattern.as_str().len() as i32;
    let diff = pattern_chars - (wildcard_count as i32) * 3;
    let boost = if diff > 1 { diff } else { 1 };
    specificity = specificity + 30 + boost;
    let mut note = String::from_str("urlPattern=");
    note.append(matcher.url_pattern.as_str());
    note.append(" matched");
    notes.push(note);
    if wildcard_count == 0 {
        specificity = specificity + 50;
        notes.push(String::from_str("urlPattern exact"));
    }
    let ghost n1 = strings_view(notes@);
    assert(n1 =~= (if count_char(matcher.url_pattern@, '*') == 0 {
        n0.push(url_note(matcher.url_pattern@)).push("urlPattern exact"@)
    } else {
        n0.push(url_note(matcher.url_pattern@))
    }));
    proof {
        lemma_checks_bounded(matcher@.header_equals, request@.headers, true);
        lemma_checks_bounded(matcher@.query_equals, request@.query, false);
    }
    let (headers_ok, header_specificity) = check_conditions(&matcher.header_equals, &request.headers, true, &mut notes);
    specificity = specificity + header_specificity;
    if !headers_ok {
        return (false, specificity, notes);
    }
    let (query_ok, query_specificity) = check_conditions(&matcher.query_equals, &request.query, false, &mut notes);
    specificity = specificity + query_specificity;
    if !query_ok {
        return (false, specificity, notes);
    }
    match &matcher.body_contains {
        Some(fragment) => {
            if !str_contains(request.body_text.as_str(), fragment.as_str()) {
                return (false, specificity, notes);
            }
            specificity = specificity + 8;
            notes.push(String::from_str("bodyContains matched"));
        },
        None => {},
    }
    (true, specificity, notes)
}


// ---------------------------------------------------------------- selection

/// Overlap resolution: a candidate with rank `a` (priority, specificity, rule
/// id) beats one with rank `b` when its priority is higher, or at equal
/// priority its specificity is higher, or at equal both its id comes first.
pub open spec fn outranks(a: (int, int, Seq<char>), b: (int, int, Seq<char>)) -> bool {
    if a.0 != b.0 {
        a.0 > b.0
    } else if a.1 != b.1 {
        a.1 > b.1
    } else {
        seq_char_lt(a.2, b.2)
    }
}

/// The rank of a rule for a request.
pub open spec fn rank(r: RewriteRuleView, req: NormalizedRequestView) -> (int, int, Seq<char>) {
    (r.priority as int, evaluation(r.matcher, req).1, r.id)
}

/// The rule takes part in matching and its matcher accepts the request.
pub open spec fn rule_applies(r: RewriteRuleView, req: NormalizedRequestView) -> bool {
    r.enabled && evaluation(r.matcher, req).0
}

/// Among the first `n` rules, rule `k` is the one chosen: it applies, no
/// applying rule outranks it, and it outranks every applying rule before it
/// (so among rules of equal rank the first is chosen).
pub open spec fn chosen_among(rules: Seq<RewriteRuleView>, req: NormalizedRequestView, k: int, n: int) -> bool {
    &&& 0 <= k < n <= rules.len()
    &&& rule_applies(rules[k], req)
    &&& forall|j: int|
        #![trigger rules[j]]
        0 <= j < n && rule_applies(rules[j], req) ==> !outranks(rank(rules[j], req), rank(rules[k], req)) && (j < k
            ==> outranks(rank(rules[k], req), rank(rules[j], req)))
}

/// The matchers of the enabled rules (those that are evaluated) are within
/// the limits that keep specificity in `i32`.
pub open spec fn rules_within_limits(rules: Seq<RewriteRuleView>) -> bool {
    forall|i: int| 0 <= i < rules.len() && #[trigger] rules[i].enabled ==> matcher_within_limits(rules[i].matcher)
}

/// `outranks` is a strict order, total on distinct ranks.
pub proof fn lemma_outranks_order(a: (int, int, Seq<char>), b: (int, int, Seq<char>), c: (int, int, Seq<char>))
    ensures
        !outranks(a, a),
        outranks(a, b) ==> !outranks(b, a),
        outranks(a, b) && outranks(b, c) ==> outranks(a, c),
        a != b ==> outranks(a, b) || outranks(b, a),
{
    crate::text::lemma_seq_char_lt_irreflexive(a.2);
    if a.0 == b.0 && a.1 == b.1 && seq_char_lt(a.2, b.2) && seq_char_lt(b.2, a.2) {
        crate::text::lemma_seq_char_lt_transitive(a.2, b.2, a.2);
    }
    if outranks(a, b) && outranks(b, c) && a.0 == b.0 && b.0 == c.0 && a.1 == b.1 && b.1 == c.1 {
        crate::text::lemma_seq_char_lt_transitive(a.2, b.2, c.2);
    }
    if a != b && a.0 == b.0 && a.1 == b.1 {
        crate::text::lemma_seq_char_lt_total(a.2, b.2);
    }
}

/// Whether candidate `next` beats candidate `current`.
pub fn is_better_candidate(next: &MatchCandidate, current: &MatchCandidate) -> (r: bool)
    ensures
        r == outranks(
            (next.rule.priority as int, next.specificity as int, next.rule.id@),
            (current.rule.priority as int, current.specificity as int, current.rule.id@),
        ),
{
    if next.rule.priority != current.rule.priority {
        return next.rule.priority > current.rule.priority;
    }
    if next.specificity != current.specificity {
        return next.specificity > current.specificity;
    }
    str_lt(next.rule.id.as_str(), current.rule.id.as_str())
}

/// The candidate chosen among the enabled rules that match the request:
/// highest priority, then highest specificity, then smallest id; among
/// rules of equal rank, the first.
pub fn select_matching_rule(rules: &[RewriteRule], request: &NormalizedRequest) -> (r: Option<MatchCandidate>)
    requires
        rules_within_limits(rules_view(rules@)),
    ensures
        match r {
            None => forall|i: int|
                0 <= i < rules@.len() ==> !(#[trigger] rules@[i].enabled && evaluation(rules@[i].matcher@, request@).0),
            Some(c) => exists|k: int|
                #![trigger rules@[k]]
                chosen_among(rules_view(rules@), request@, k, rules@.len() as int) && c.rule@ == rules@[k]@
                    && c.specificity == evaluation(rules@[k].matcher@, request@).1 && strings_view(c.notes@)
                    == evaluation(rules@[k].matcher@, request@).2,
        },
{
    let ghost rv = rules_view(rules@);
    let ghost req = request@;
    let mut best: Option<MatchCandidate> = None;
    let ghost mut best_k: int = 0;
    let mut i: usize = 0;
    while i < rules.len()
        invariant
            i <= rules.len(),
            rv == rules_view(rules@),
            req == request@,
            rules_within_limits(rv),
            best is None ==> forall|j: int| 0 <= j < i ==> !rule_applies(#[trigger] rv[j], req),
            best matches Some(c) ==> {
                &&& chosen_among(rv, req, best_k, i as int)
                &&& c.rule@ == rv[best_k]
                &&& c.specificity == evaluation(rv[best_k].matcher, req).1
                &&& strings_view(c.notes@) == evaluation(rv[best_k].matcher, req).2
            },
        decreases rules.len() - i,
    {
        let rule = &rules[i];
        assert(rv[i as int] == rule@);
        if rule.enabled {
            assert(rv[i as int].enabled);
            assert(matcher_within_limits(rv[i as int].matcher));
            let (matched, specificity, notes) = evaluate_rule(rule, request);
            if matched {
                let candidate = MatchCandidate { rule: rule.copy(), specificity, notes };
                let ghost ni = i as int;
                match best {
                    None => {
                        best = Some(candidate);
                        proof {
                            best_k = ni;
                            lemma_outranks_order(rank(rv[ni], req), rank(rv[ni], req), rank(rv[ni], req));
                        }
                    },
                    Some(current) => {
                        if is_better_candidate(&candidate, &current) {
                            proof {
                                let k = best_k;
                                assert forall|j: int|
                                    #![trigger rv[j]]
                                    0 <= j < ni + 1 && rule_applies(rv[j], req) implies !outranks(
                                        rank(rv[j], req),
                                        rank(rv[ni], req),
                                    ) && (j < ni ==> outranks(rank(rv[ni], req), rank(rv[j], req))) by {
                                    lemma_outranks_order(rank(rv[j], req), rank(rv[ni], req), rank(rv[k], req));
                                    lemma_outranks_order(rank(rv[ni], req), rank(rv[k], req), rank(rv[j], req));
                                    lemma_outranks_order(rank(rv[k], req), rank(rv[j], req), rank(rv[ni], req));
                                    lemma_outranks_order(rank(rv[ni], req), rank(rv[j], req), rank(rv[k], req));
                                }
                                best_k = ni;
                            }
                            best = Some(candidate);
                        } else {
                            best = Some(current);
                        }
                    },
                }
            }
        }
        i = i + 1;
    }
    proof {
        if best is None {
            assert forall|j: int| 0 <= j < rules@.len() implies !(#[trigger] rules@[j].enabled && evaluation(
                rules@[j].matcher@,
                request@,
            ).0) by {
                assert(rv[j] == rules@[j]@);
                assert(!rule_applies(rv[j], req));
            }
        }
    }
    best
}


// ---------------------------------------------------------------- sequences

/// How many times each sequence rule has been resolved, by rule id.
#[derive(Debug, Clone)]
pub struct SequenceCounters {
    entries: Vec<(String, usize)>,
}

/// The views of counter entries.
pub open spec fn counter_entries_view(s: Seq<(String, usize)>) -> Seq<(Seq<char>, usize)> {
    s.map_values(|e: (String, usize)| (e.0@, e.1))
}

impl View for SequenceCounters {
    type V = Map<Seq<char>, usize>;

    closed spec fn view(&self) -> Map<Seq<char>, usize> {
        Map::new(
            |k: Seq<char>| lookup_last(counter_entries_view(self.entries@), k) is Some,
            |k: Seq<char>| lookup_last(counter_entries_view(self.entries@), k)->Some_0,
        )
    }
}

/// The count recorded for `id`, zero when there is none.
pub open spec fn count_of(counters: Map<Seq<char>, usize>, id: Seq<char>) -> usize {
    if counters.contains_key(id) { counters[id] } else { 0 }
}

impl SequenceCounters {
    /// No counts.
    pub fn new() -> (r: SequenceCounters)
        ensures
            r@ == Map::<Seq<char>, usize>::empty(),
    {
        let r = SequenceCounters { entries: Vec::new() };
        assert(r@ =~= Map::<Seq<char>, usize>::empty());
        r
    }

    /// The count recorded for `id`, zero when there is none.
    pub fn count(&self, id: &String) -> (r: usize)
        ensures
            r == count_of(self@, id@),
    {
        let mut i: usize = self.entries.len();
        let ghost ev = counter_entries_view(self.entries@);
        assert(counter_entries_view(self.entries@.subrange(0, i as int)) =~= ev);
        while i > 0
            invariant
                i <= self.entries.len(),
                ev == counter_entries_view(self.entries@),
                lookup_last(ev, id@) == lookup_last(counter_entries_view(self.entries@.subrange(0, i as int)), id@),
            decreases i,
        {
            let ghost prefix = counter_entries_view(self.entries@.subrange(0, i as int));
            assert(counter_entries_view(self.entries@.subrange(0, i - 1)) =~= prefix.drop_last());
            let (k, v) = &self.entries[i - 1];
            assert(prefix.last() == (k@, *v));
            if *k == *id {
                return *v;
            }
            i = i - 1;
        }
        0
    }

    /// Forgets the count of `id`.
    pub fn remove(&mut self, id: &String)
        ensures
            final(self)@ == old(self)@.remove(id@),
    {
        let ghost old_view = counter_entries_view(self.entries@);
        let mut kept: Vec<(String, usize)> = Vec::new();
        let mut i: usize = 0;
        while i < self.entries.len()
            invariant
                i <= self.entries.len(),
                old_view == counter_entries_view(self.entries@),
                lookup_last(counter_entries_view(kept@), id@) is None,
                forall|k: Seq<char>|
                    k != id@ ==> #[trigger] lookup_last(counter_entries_view(kept@), k) == lookup_last(
                        counter_entries_view(self.entries@.subrange(0, i as int)),
                        k,
                    ),
            decreases self.entries.len() - i,
        {
            let ghost kept_before = counter_entries_view(kept@);
            let (k, v) = &self.entries[i];
            assert(counter_entries_view(self.entries@.subrange(0, i + 1)).drop_last() =~= counter_entries_view(
                self.entries@.subrange(0, i as int),
            ));
            assert(counter_entries_view(self.entries@.subrange(0, i + 1)).last() == (k@, *v));
            if *k != *id {
                kept.push((k.clone(), *v));
                assert(counter_entries_view(kept@).drop_last() =~= kept_before);
            }
            assert forall|key: Seq<char>|
                key != id@ implies #[trigger] lookup_last(counter_entries_view(kept@), key) == lookup_last(
                    counter_entries_view(self.entries@.subrange(0, i + 1)),
                    key,
                ) by {
                assert(lookup_last(kept_before, key) == lookup_last(
                    counter_entries_view(self.entries@.subrange(0, i as int)),
                    key,
                ));
            }
            i = i + 1;
        }
        assert(self.entries@.subrange(0, self.entries.len() as int) =~= self.entries@);
        self.entries = kept;
        assert(self@ =~= old(self)@.remove(id@));
    }

    /// Records `value` as the count of `id`.
    pub fn set(&mut self, id: &String, value: usize)
        ensures
            final(self)@ == old(self)@.insert(id@, value),
    {
        self.remove(id);
        let ghost before = counter_entries_view(self.entries@);
        let ghost mid = self@;
        self.entries.push((id.clone(), value));
        assert(counter_entries_view(self.entries@).drop_last() =~= before);
        assert forall|key: Seq<char>| #[trigger] self@.contains_key(key) == old(self)@.insert(id@, value).contains_key(key)
            && (self@.contains_key(key) ==> self@[key] == old(self)@.insert(id@, value)[key]) by {
            let ev = counter_entries_view(self.entries@);
            assert(ev.last() == (id@, value));
            if key != id@ {
                assert(lookup_last(ev, key) == lookup_last(before, key));
                assert(mid.contains_key(key) == old(self)@.contains_key(key));
                if mid.contains_key(key) {
                    assert(mid[key] == old(self)@[key]);
                    assert(mid[key] == lookup_last(before, key)->Some_0);
                }
            } else {
                assert(lookup_last(ev, key) == Some(value));
            }
        }
        assert(self@ =~= old(self)@.insert(id@, value));
    }
}

/// Notes of an action resolved from a sequence.
pub open spec fn sequence_note(index: nat, total: nat) -> Seq<char> {
    "action=sequence index="@ + decimal(index) + " total="@ + decimal(total)
}

/// The pass-through action that changes nothing.
pub open spec fn empty_pass_through() -> RewritePassThroughView {
    RewritePassThroughView { request: None, response: None, delay_ms: None }
}

/// What resolving an action does, given the counts: the action taken, its
/// notes, and the counts afterwards. A sequence takes step `count % steps`
/// and counts one more resolution; an empty sequence passes through
/// unchanged.
pub open spec fn resolution(action: RuleActionView, id: Seq<char>, counters: Map<Seq<char>, usize>) -> (
    ActionStepView,
    Seq<Seq<char>>,
    Map<Seq<char>, usize>,
) {
    match action {
        RuleActionView::MockResponse(a) => (ActionStepView::MockResponse(a), seq!["action=mockResponse"@], counters),
        RuleActionView::RewritePassThrough(a) => (
            ActionStepView::RewritePassThrough(a),
            seq!["action=rewritePassThrough"@],
            counters,
        ),
        RuleActionView::Sequence(steps) => if steps.len() == 0 {
            (
                ActionStepView::RewritePassThrough(empty_pass_through()),
                seq!["action=sequence-empty-fallback"@],
                counters,
            )
        } else {
            let count = count_of(counters, id);
            let index = count as int % steps.len() as int;
            (
                steps[index],
                seq![sequence_note(index as nat, steps.len())],
                counters.insert(id, (count + 1) as usize),
            )
        },
    }
}

/// Resolving the action counts a step: it is a sequence with steps.
pub open spec fn counts_up(action: RuleActionView) -> bool {
    action matches RuleActionView::Sequence(steps) && steps.len() > 0
}

/// Resolves the action of `rule` for one request, counting resolutions of
/// sequences in `sequence_counters`.
pub fn resolve_action(rule: &RewriteRule, sequence_counters: &mut SequenceCounters) -> (r: (ResolvedAction, Vec<String>))
    requires
        counts_up(rule.action@) ==> count_of(old(sequence_counters)@, rule.id@) < usize::MAX,
    ensures
        r.0@ == resolution(rule.action@, rule.id@, old(sequence_counters)@).0,
        strings_view(r.1@) == resolution(rule.action@, rule.id@, old(sequence_counters)@).1,
        final(sequence_counters)@ == resolution(rule.action@, rule.id@, old(sequence_counters)@).2,
        rule.action@ matches RuleActionView::MockResponse(a) ==> r.0@ == ActionStepView::MockResponse(a)
            && strings_view(r.1@) == seq!["action=mockResponse"@] && final(sequence_counters)@ == old(
            sequence_counters,
        )@,
        rule.action@ matches RuleActionView::RewritePassThrough(a) ==> r.0@ == ActionStepView::RewritePassThrough(a)
            && strings_view(r.1@) == seq!["action=rewritePassThrough"@] && final(sequence_counters)@ == old(
            sequence_counters,
        )@,
{
    match &rule.action {
        RuleAction::MockResponse(action) => {
            let mut notes = Vec::new();
            notes.push(String::from_str("action=mockResponse"));
            assert(strings_view(notes@) =~= seq!["action=mockResponse"@]);
            (ResolvedAction::MockResponse(action.copy()), notes)
        },
        RuleAction::RewritePassThrough(action) => {
            let mut notes = Vec::new();
            notes.push(String::from_str("action=rewritePassThrough"));
            assert(strings_view(notes@) =~= seq!["action=rewritePassThrough"@]);
            (ResolvedAction::RewritePassThrough(action.copy()), notes)
        },
        RuleAction::Sequence(sequence) => {
            if sequence.steps.len() == 0 {
                let mut notes = Vec::new();
                notes.push(String::from_str("action=sequence-empty-fallback"));
                assert(strings_view(notes@) =~= seq!["action=sequence-empty-fallback"@]);
                return (
                    ResolvedAction::RewritePassThrough(RewritePassThroughAction { request: None, response: None, delay_ms: None }),
                    notes,
                );
            }
            let counter = sequence_counters.count(&rule.id);
            let current_index = counter % sequence.steps.len();
            sequence_counters.set(&rule.id, counter + 1);
            let mut note = String::from_str("action=sequence index=");
            note.append(decimal_string(current_index as u64).as_str());
            note.append(" total=");
            note.append(decimal_string(sequence.steps.len() as u64).as_str());
            let mut notes = Vec::new();
            notes.push(note);
            assert(strings_view(notes@) =~= seq![sequence_note(current_index as nat, sequence.steps.len() as nat)]);
            let step = &sequence.steps[current_index];
            assert(step@ == steps_view(sequence.steps@)[current_index as int]);
            match &step.action {
                SequenceStepAction::MockResponse(action) => (ResolvedAction::MockResponse(action.copy()), notes),
                SequenceStepAction::RewritePassThrough(action) => (ResolvedAction::RewritePassThrough(action.copy()), notes),
            }
        },
    }
}


// ---------------------------------------------------------------- requests

/// The (name, text) pairs read from header entries taken in this order:
/// entries whose value is visible ASCII, the name lowercased.
pub open spec fn normalized_header_pairs(entries: Seq<(Seq<char>, Seq<u8>)>) -> Seq<(Seq<char>, Seq<char>)>
    decreases entries.len(),
{
    if entries.len() == 0 {
        Seq::empty()
    } else {
        let prev = normalized_header_pairs(entries.drop_last());
        let e = entries.last();
        if header_value_visible(e.1) {
            prev.push((lowercase_text(e.0), ascii_chars(e.1)))
        } else {
            prev
        }
    }
}

/// The text of the last visible value among `values`, if any.
pub open spec fn last_visible_text(values: Seq<Seq<u8>>) -> Option<Seq<char>>
    decreases values.len(),
{
    if values.len() == 0 {
        None
    } else if header_value_visible(values.last()) {
        Some(ascii_chars(values.last()))
    } else {
        last_visible_text(values.drop_last())
    }
}

/// A name whose lowercased text no other stored name shares.
pub open spec fn lowers_alone(values: Map<Seq<char>, Seq<Seq<u8>>>, n: Seq<char>) -> bool {
    forall|m: Seq<char>| #[trigger] values.contains_key(m) && lowercase_text(m) == lowercase_text(n) ==> m == n
}

/// Reading the pairs of entries under a name's lowercased text gives the
/// last visible value under that name, when no other name of the entries
/// lowercases to the same text.
proof fn lemma_normalized_lookup(order: Seq<(Seq<char>, Seq<u8>)>, n: Seq<char>)
    requires
        forall|i: int| 0 <= i < order.len() && lowercase_text(#[trigger] order[i].0) == lowercase_text(n) ==> order[i].0 == n,
    ensures
        lookup_last(normalized_header_pairs(order), lowercase_text(n)) == last_visible_text(values_named(order, n)),
    decreases order.len(),
{
    if order.len() > 0 {
        let prefix = order.drop_last();
        let e = order.last();
        assert forall|i: int| 0 <= i < prefix.len() && lowercase_text(#[trigger] prefix[i].0) == lowercase_text(n) implies prefix[i].0 == n by {
            assert(prefix[i] == order[i]);
        }
        lemma_normalized_lookup(prefix, n);
        let prev = normalized_header_pairs(prefix);
        assert(order[order.len() - 1] == e);
        if header_value_visible(e.1) {
            let p = (lowercase_text(e.0), ascii_chars(e.1));
            assert(prev.push(p).drop_last() =~= prev);
            assert(prev.push(p).last() == p);
            if e.0 == n {
                let vn = values_named(prefix, n);
                assert(vn.push(e.1).drop_last() =~= vn);
            }
        } else if e.0 == n {
            let vn = values_named(prefix, n);
            assert(vn.push(e.1).drop_last() =~= vn);
            assert(vn.push(e.1).last() == e.1);
        }
    }
}

/// A name that occurs among the entries has values there.
proof fn lemma_named_occurs(order: Seq<(Seq<char>, Seq<u8>)>, i: int)
    requires
        0 <= i < order.len(),
    ensures
        values_named(order, order[i].0).len() > 0,
    decreases order.len(),
{
    if i < order.len() - 1 {
        assert(order.drop_last()[i] == order[i]);
        lemma_named_occurs(order.drop_last(), i);
    }
}

fn bytes_visible(bytes: &Vec<u8>) -> (r: bool)
    ensures
        r == header_value_visible(bytes@),
{
    let mut i: usize = 0;
    while i < bytes.len()
        invariant
            i <= bytes.len(),
            forall|k: int| 0 <= k < i ==> ((#[trigger] bytes@[k] >= 32 && bytes@[k] < 127) || bytes@[k] == 9),
        decreases bytes.len() - i,
    {
        let b = bytes[i];
        if !((b >= 32 && b < 127) || b == 9) {
            return false;
        }
        i = i + 1;
    }
    true
}

/// The headers of a request as the matcher reads them: every value that
/// is visible ASCII, under its lowercased name, in the order in which the
/// map hands its entries out (a later pair wins a lookup).
pub fn normalize_headers(headers: &http::HeaderMap<http::HeaderValue>) -> (r: Vec<(String, String)>)
    ensures
        exists|order: Seq<(Seq<char>, Seq<u8>)>|
            order.to_multiset() == header_entries(*headers) && pairs_view(r@) == normalized_header_pairs(order),
        forall|n: Seq<char>|
            lowers_alone(header_values(*headers), n) ==> #[trigger] lookup_last(pairs_view(r@), lowercase_text(n))
                == last_visible_text(value_list(header_values(*headers), n)),
{
    let entries = header_map_entries(headers);
    let ghost order = entry_views(entries@);
    let mut out: Vec<(String, String)> = Vec::new();
    let mut i: usize = 0;
    while i < entries.len()
        invariant
            i <= entries.len(),
            order == entry_views(entries@),
            pairs_view(out@) == normalized_header_pairs(order.subrange(0, i as int)),
        decreases entries.len() - i,
    {
        let (name, value) = &entries[i];
        assert(order.subrange(0, i + 1).drop_last() =~= order.subrange(0, i as int));
        assert(order.subrange(0, i + 1).last() == (name@, value@));
        if bytes_visible(value) {
            let text = crate::text::utf8_lossy(value.as_slice());
            assert(text@ == ascii_chars(value@));
            let ghost before = pairs_view(out@);
            out.push((to_lowercase(name.as_str()), text));
            assert(pairs_view(out@) =~= before.push((lowercase_text(name@), ascii_chars(value@))));
        }
        i = i + 1;
    }
    assert(order.subrange(0, entries.len() as int) =~= order);
    assert forall|n: Seq<char>|
        lowers_alone(header_values(*headers), n) implies #[trigger] lookup_last(pairs_view(out@), lowercase_text(n))
            == last_visible_text(value_list(header_values(*headers), n)) by {
        assert forall|i: int| 0 <= i < order.len() && lowercase_text(#[trigger] order[i].0) == lowercase_text(n) implies order[i].0
            == n by {
            lemma_named_occurs(order, i);
            assert(values_named(order, order[i].0) == value_list(header_values(*headers), order[i].0));
            assert(header_values(*headers).contains_key(order[i].0));
        }
        lemma_normalized_lookup(order, n);
        assert(values_named(order, n) == value_list(header_values(*headers), n));
    }
    out
}

/// The decoded (key, value) pairs of the query of `url`, in order, as the
/// `url` crate parses the URL; `None` when it does not parse as a URL.
pub uninterp spec fn url_query_pairs(url: Seq<char>) -> Option<Seq<(Seq<char>, Seq<char>)>>;

/// `url::Url::parse(url)` and, when it parses, `query_pairs()` with each
/// pair turned into owned strings. The result is named as a function of
/// the text.
#[verifier::external_body]
fn url_query(url: &str) -> (r: Option<Vec<(String, String)>>)
    ensures
        match url_query_pairs(url@) {
            None => r is None,
            Some(q) => r matches Some(v) && pairs_view(v@) == q,
        },
{
    match url::Url::parse(url) {
        Ok(parsed) => Some(parsed.query_pairs().map(|(k, v)| (k.to_string(), v.to_string())).collect()),
        Err(_) => None,
    }
}

/// The query of `url` as (key, value) pairs; none when `url` does not parse.
pub fn parse_query(url: &str) -> (r: Vec<(String, String)>)
    ensures
        pairs_view(r@) == match url_query_pairs(url@) {
            Some(q) => q,
            None => Seq::empty(),
        },
{
    match url_query(url) {
        Some(pairs) => pairs,
        None => {
            let v: Vec<(String, String)> = Vec::new();
            assert(pairs_view(v@) =~= Seq::<(Seq<char>, Seq<char>)>::empty());
            v
        },
    }
}


// ---------------------------------------------------------------- limits

/// Edits fit a header map of `n` values: with the headers they set, the
/// content type and the content length, the map stays under
/// `HEADER_MAP_VALUE_LIMIT`.
pub open spec fn transform_within_limits(t: Option<crate::models::TransformOpsView>, n: nat) -> bool {
    match t {
        Some(x) => n + x.set_headers.len() + 2 < HEADER_MAP_VALUE_LIMIT,
        None => true,
    }
}

/// An action fits a request of `n` header values: a mocked reply's headers
/// with its content type and length stay under `HEADER_MAP_VALUE_LIMIT`,
/// and so do the request's headers with the edits made to them.
pub open spec fn step_within_limits(a: ActionStepView, n: nat) -> bool {
    match a {
        ActionStepView::MockResponse(m) => m.headers.len() + 2 <= HEADER_MAP_VALUE_LIMIT,
        ActionStepView::RewritePassThrough(p) => transform_within_limits(p.request, n),
    }
}

/// A rule keeps specificity within `i32`, and its actions fit a request of
/// `n` header values.
pub open spec fn rule_within_limits(r: RewriteRuleView, n: nat) -> bool {
    &&& matcher_within_limits(r.matcher)
    &&& match r.action {
        RuleActionView::MockResponse(m) => step_within_limits(ActionStepView::MockResponse(m), n),
        RuleActionView::RewritePassThrough(p) => step_within_limits(ActionStepView::RewritePassThrough(p), n),
        RuleActionView::Sequence(steps) => forall|i: int| 0 <= i < steps.len() ==> step_within_limits(#[trigger] steps[i], n),
    }
}

/// A rule within limits for `n` header values is within limits for fewer.
pub proof fn lemma_rule_limits_fewer(r: RewriteRuleView, n: nat, m: nat)
    requires
        rule_within_limits(r, n),
        m <= n,
    ensures
        rule_within_limits(r, m),
{
    match r.action {
        RuleActionView::Sequence(steps) => {
            assert forall|i: int| 0 <= i < steps.len() implies step_within_limits(#[trigger] steps[i], m) by {
                assert(step_within_limits(steps[i], n));
            }
        },
        _ => {},
    }
}

/// The action resolved from a rule within limits is within limits.
pub proof fn lemma_resolution_within_limits(r: RewriteRuleView, counters: Map<Seq<char>, usize>, n: nat)
    requires
        rule_within_limits(r, n),
    ensures
        step_within_limits(resolution(r.action, r.id, counters).0, n),
{
    match r.action {
        RuleActionView::Sequence(steps) => {
            if steps.len() > 0 {
                let count = count_of(counters, r.id);
                let index = count as int % steps.len() as int;
                assert(step_within_limits(steps[index], n));
            }
        },
        _ => {},
    }
}

/// Whether edits fit a header map of `n` values (see
/// `transform_within_limits`).
pub fn transform_fits_limits(t: &Option<crate::models::TransformOps>, n: usize) -> (r: bool)
    ensures
        r == transform_within_limits(crate::models::opt_transform_view(*t), n as nat),
{
    match t {
        Some(x) => (n as u128) + (x.set_headers.len() as u128) + 2 < HEADER_MAP_VALUE_LIMIT as u128,
        None => true,
    }
}

fn step_fits_mock(m: &crate::models::MockResponseAction, n: usize) -> (r: bool)
    ensures
        r == step_within_limits(ActionStepView::MockResponse(m@), n as nat),
{
    (m.headers.len() as u128) + 2 <= HEADER_MAP_VALUE_LIMIT as u128
}

fn step_fits_pass(p: &RewritePassThroughAction, n: usize) -> (r: bool)
    ensures
        r == step_within_limits(ActionStepView::RewritePassThrough(p@), n as nat),
{
    transform_fits_limits(&p.request, n)
}

/// Whether a matcher is within the limits of `matcher_within_limits`.
pub fn matcher_fits_limits(m: &crate::models::RuleMatcher) -> (r: bool)
    ensures
        r == matcher_within_limits(m@),
{
    let len = m.url_pattern.as_str().as_bytes().len() as u128;
    let floor: u128 = if len >= 1 { len } else { 1 };
    let highest = 108 + floor + 12 * (m.header_equals.len() as u128) + 10 * (m.query_equals.len() as u128);
    let stars = count_char_in(m.url_pattern.as_str(), '*') as u128;
    highest <= 2147483647 && 3 * stars <= 2147483647
}

/// Whether a rule is within the limits of `rule_within_limits` for a
/// request of `n` header values.
pub fn rule_fits_limits(rule: &RewriteRule, n: usize) -> (r: bool)
    ensures
        r == rule_within_limits(rule@, n as nat),
{
    if !matcher_fits_limits(&rule.matcher) {
        return false;
    }
    match &rule.action {
        RuleAction::MockResponse(a) => step_fits_mock(a, n),
        RuleAction::RewritePassThrough(a) => step_fits_pass(a, n),
        RuleAction::Sequence(seq) => {
            assert(rule@.action == RuleActionView::Sequence(steps_view(seq.steps@)));
            let mut i: usize = 0;
            while i < seq.steps.len()
                invariant
                    i <= seq.steps.len(),
                    rule@.action == RuleActionView::Sequence(steps_view(seq.steps@)),
                    matcher_within_limits(rule@.matcher),
                    forall|k: int| 0 <= k < i ==> step_within_limits(#[trigger] steps_view(seq.steps@)[k], n as nat),
                decreases seq.steps.len() - i,
            {
                let step = &seq.steps[i];
                assert(step@ == steps_view(seq.steps@)[i as int]);
                let ok = match &step.action {
                    SequenceStepAction::MockResponse(a) => step_fits_mock(a, n),
                    SequenceStepAction::RewritePassThrough(a) => step_fits_pass(a, n),
                };
                if !ok {
                    assert(!step_within_limits(steps_view(seq.steps@)[i as int], n as nat));
                    assert(!rule_within_limits(rule@, n as nat)) by {
                        match rule@.action {
                            RuleActionView::Sequence(steps) => {
                                assert(steps == steps_view(seq.steps@));
                                assert(!step_within_limits(steps[i as int], n as nat));
                            },
                            _ => {},
                        }
                    }
                    return false;
                }
                i = i + 1;
            }
            assert(forall|k: int| 0 <= k < steps_view(seq.steps@).len() ==> step_within_limits(#[trigger] steps_view(seq.steps@)[k], n as nat));
            true
        },
    }
}


/// Overlapping rules are resolved deterministically: for a request, at most
/// one rule is the chosen one.
pub proof fn lemma_choice_unique(rules: Seq<RewriteRuleView>, req: NormalizedRequestView, k1: int, k2: int)
    requires
        chosen_among(rules, req, k1, rules.len() as int),
        chosen_among(rules, req, k2, rules.len() as int),
    ensures
        k1 == k2,
{
    if k1 < k2 {
        assert(rules[k1] == rules[k1]);
        lemma_outranks_order(rank(rules[k2], req), rank(rules[k1], req), rank(rules[k2], req));
    } else if k2 < k1 {
        assert(rules[k2] == rules[k2]);
        lemma_outranks_order(rank(rules[k1], req), rank(rules[k2], req), rank(rules[k1], req));
    }
}

/// Overlap resolution goes by priority, then specificity, then rule id:
/// the chosen rule has the highest priority among the rules that apply;
/// among those of that priority, the highest specificity; among those of
/// both, no smaller id.
pub proof fn lemma_choice_order(rules: Seq<RewriteRuleView>, req: NormalizedRequestView, k: int, j: int)
    requires
        chosen_among(rules, req, k, rules.len() as int),
        0 <= j < rules.len(),
        rule_applies(rules[j], req),
    ensures
        rules[j].priority <= rules[k].priority,
        rules[j].priority == rules[k].priority ==> evaluation(rules[j].matcher, req).1 <= evaluation(rules[k].matcher, req).1,
        rules[j].priority == rules[k].priority && evaluation(rules[j].matcher, req).1 == evaluation(rules[k].matcher, req).1
            ==> !seq_char_lt(rules[j].id, rules[k].id),
{
    assert(rules[j] == rules[j]);
}

/// No two rules share an id.
pub open spec fn ids_distinct(rules: Seq<RewriteRuleView>) -> bool {
    forall|i: int, j: int| 0 <= i < j < rules.len() ==> (#[trigger] rules[i]).id != (#[trigger] rules[j]).id
}

/// Rules that do not apply never sway the choice: adding one at any place
/// leaves the same rule chosen.
pub proof fn lemma_unmatched_rule_never_sways(
    rules: Seq<RewriteRuleView>,
    req: NormalizedRequestView,
    k: int,
    extra: RewriteRuleView,
    p: int,
)
    requires
        chosen_among(rules, req, k, rules.len() as int),
        !rule_applies(extra, req),
        0 <= p <= rules.len(),
    ensures
        chosen_among(rules.insert(p, extra), req, if k < p { k } else { k + 1 }, rules.len() + 1int),
{
    let more = rules.insert(p, extra);
    let k2 = if k < p { k } else { k + 1 };
    assert(more[k2] == rules[k]);
    assert forall|j: int| #![trigger more[j]]
        0 <= j < rules.len() + 1int && rule_applies(more[j], req) implies !outranks(rank(more[j], req), rank(more[k2], req))
            && (j < k2 ==> outranks(rank(more[k2], req), rank(more[j], req))) by {
        if j < p {
            assert(more[j] == rules[j]);
            assert(rules[j] == rules[j]);
        } else if j > p {
            assert(more[j] == rules[j - 1]);
            assert(rules[j - 1] == rules[j - 1]);
        }
    }
}

/// The choice does not depend on the order of the rules: among rules with
/// distinct ids, any two orders of the same rules choose the same rule.
pub proof fn lemma_choice_order_independent(
    rules1: Seq<RewriteRuleView>,
    rules2: Seq<RewriteRuleView>,
    req: NormalizedRequestView,
    k1: int,
    k2: int,
)
    requires
        rules1.to_multiset() == rules2.to_multiset(),
        ids_distinct(rules1),
        chosen_among(rules1, req, k1, rules1.len() as int),
        chosen_among(rules2, req, k2, rules2.len() as int),
    ensures
        rules1[k1] == rules2[k2],
{
    broadcast use vstd::seq_lib::group_to_multiset_ensures;

    let a = rules1[k1];
    let b = rules2[k2];
    assert(rules1.contains(a));
    assert(rules2.to_multiset().count(a) > 0);
    assert(rules2.contains(a));
    let ja = choose|j: int| 0 <= j < rules2.len() && rules2[j] == a;
    assert(rules2[ja] == a);
    assert(!outranks(rank(a, req), rank(b, req)));
    assert(rules2.contains(b));
    assert(rules1.to_multiset().count(b) > 0);
    assert(rules1.contains(b));
    let jb = choose|j: int| 0 <= j < rules1.len() && rules1[j] == b;
    assert(rules1[jb] == b);
    assert(!outranks(rank(b, req), rank(a, req)));
    lemma_outranks_order(rank(a, req), rank(b, req), rank(a, req));
    assert(a.id == b.id);
    if jb < k1 {
        assert(rules1[jb].id != rules1[k1].id);
    } else if k1 < jb {
        assert(rules1[k1].id != rules1[jb].id);
    }
}

/// The counts after `m` resolutions of `action` for rule `id`, from `c`.
pub open spec fn counters_after(action: RuleActionView, id: Seq<char>, c: Map<Seq<char>, usize>, m: nat) -> Map<
    Seq<char>,
    usize,
>
    decreases m,
{
    if m == 0 {
        c
    } else {
        resolution(action, id, counters_after(action, id, c, (m - 1) as nat)).2
    }
}

/// A sequence goes round its steps: after `m` more resolutions, the count
/// of its rule has grown by `m`, the next resolution picks step
/// `(count + m) % len`, and the counts of other rules are untouched.
pub proof fn lemma_sequence_round_robin(
    steps: Seq<ActionStepView>,
    id: Seq<char>,
    c: Map<Seq<char>, usize>,
    m: nat,
)
    requires
        steps.len() > 0,
        count_of(c, id) + m < usize::MAX,
    ensures
        count_of(counters_after(RuleActionView::Sequence(steps), id, c, m), id) == count_of(c, id) + m,
        resolution(RuleActionView::Sequence(steps), id, counters_after(RuleActionView::Sequence(steps), id, c, m)).0
            == steps[(count_of(c, id) + m) % (steps.len() as int)],
        forall|other: Seq<char>|
            other != id ==> #[trigger] count_of(counters_after(RuleActionView::Sequence(steps), id, c, m), other)
                == count_of(c, other),
    decreases m,
{
    if m > 0 {
        lemma_sequence_round_robin(steps, id, c, (m - 1) as nat);
        let prev = counters_after(RuleActionView::Sequence(steps), id, c, (m - 1) as nat);
        let next = counters_after(RuleActionView::Sequence(steps), id, c, m);
        assert(next == prev.insert(id, (count_of(prev, id) + 1) as usize));
        assert forall|other: Seq<char>| other != id implies #[trigger] count_of(next, other) == count_of(c, other) by {
            assert(count_of(prev, other) == count_of(c, other));
        }
    }
}

/// A sequence comes back to the same step after as many resolutions as it
/// has steps.
pub proof fn lemma_sequence_cycles(steps: Seq<ActionStepView>, id: Seq<char>, c: Map<Seq<char>, usize>)
    requires
        steps.len() > 0,
        count_of(c, id) + steps.len() < usize::MAX,
    ensures
        resolution(RuleActionView::Sequence(steps), id, counters_after(RuleActionView::Sequence(steps), id, c, steps.len())).0
            == resolution(RuleActionView::Sequence(steps), id, c).0,
{
    lemma_sequence_round_robin(steps, id, c, steps.len());
    lemma_sequence_round_robin(steps, id, c, 0);
    let n = steps.len() as int;
    let x = count_of(c, id) as int;
    assert((x + n) % n == x % n) by (nonlinear_arith)
        requires
            n > 0,
            x >= 0,
    {
        vstd::arithmetic::div_mod::lemma_mod_add_multiples_vanish(x, n);
    }
}

/// A mock or pass-through action resolves to itself, unchanged, with one
/// note naming it, and counts nothing.
pub proof fn lemma_plain_actions_resolve_to_themselves(action: RuleActionView, id: Seq<char>, c: Map<Seq<char>, usize>)
    ensures
        action matches RuleActionView::MockResponse(a) ==> resolution(action, id, c) == (
            ActionStepView::MockResponse(a),
            seq!["action=mockResponse"@],
            c,
        ),
        action matches RuleActionView::RewritePassThrough(a) ==> resolution(action, id, c) == (
            ActionStepView::RewritePassThrough(a),
            seq!["action=rewritePassThrough"@],
            c,
        ),
{
}

/// A condition list holds exactly when each (key, value) of it is found:
/// header conditions under the lowercased key, query conditions under the
/// key as written. When all hold, each adds its weight (12 for a header,
/// 10 for a query condition) and one note.
pub proof fn lemma_conditions_hold(
    conds: Seq<(Seq<char>, Seq<char>)>,
    pairs: Seq<(Seq<char>, Seq<char>)>,
    on_headers: bool,
)
    ensures
        on_headers ==> (condition_checks(conds, pairs, true).0 <==> forall|i: int|
            0 <= i < conds.len() ==> lookup_last(pairs, lowercase_text(#[trigger] conds[i].0)) == Some(conds[i].1)),
        !on_headers ==> (condition_checks(conds, pairs, false).0 <==> forall|i: int|
            0 <= i < conds.len() ==> lookup_last(pairs, #[trigger] conds[i].0) == Some(conds[i].1)),
        on_headers && condition_checks(conds, pairs, true).0 ==> condition_checks(conds, pairs, true).1 == 12
            * conds.len() && condition_checks(conds, pairs, true).2.len() == conds.len(),
        !on_headers && condition_checks(conds, pairs, false).0 ==> condition_checks(conds, pairs, false).1 == 10
            * conds.len() && condition_checks(conds, pairs, false).2.len() == conds.len(),
    decreases conds.len(),
{
    if conds.len() > 0 {
        let rest = conds.drop_last();
        lemma_conditions_hold(rest, pairs, on_headers);
        assert forall|i: int| 0 <= i < rest.len() implies #[trigger] rest[i] == conds[i] by {}
        if on_headers {
            if (forall|i: int| 0 <= i < conds.len() ==> lookup_last(pairs, lowercase_text(#[trigger] conds[i].0)) == Some(conds[i].1)) {
                assert forall|i: int| 0 <= i < rest.len() implies lookup_last(pairs, lowercase_text(#[trigger] rest[i].0)) == Some(rest[i].1) by {
                    assert(rest[i] == conds[i]);
                }
                assert(lookup_last(pairs, lowercase_text(conds[conds.len() - 1].0)) == Some(conds[conds.len() - 1].1));
            }
            if condition_checks(conds, pairs, true).0 {
                assert forall|i: int| 0 <= i < conds.len() implies lookup_last(pairs, lowercase_text(#[trigger] conds[i].0)) == Some(conds[i].1) by {
                    if i < conds.len() - 1 {
                        assert(rest[i] == conds[i]);
                    }
                }
            }
        } else {
            if (forall|i: int| 0 <= i < conds.len() ==> lookup_last(pairs, #[trigger] conds[i].0) == Some(conds[i].1)) {
                assert forall|i: int| 0 <= i < rest.len() implies lookup_last(pairs, #[trigger] rest[i].0) == Some(rest[i].1) by {
                    assert(rest[i] == conds[i]);
                }
                assert(lookup_last(pairs, conds[conds.len() - 1].0) == Some(conds[conds.len() - 1].1));
            }
            if condition_checks(conds, pairs, false).0 {
                assert forall|i: int| 0 <= i < conds.len() implies lookup_last(pairs, #[trigger] conds[i].0) == Some(conds[i].1) by {
                    if i < conds.len() - 1 {
                        assert(rest[i] == conds[i]);
                    }
                }
            }
        }
    }
}

/// Whenever some rule is enabled and its matcher accepts the request, a
/// rule is chosen among the first `n` rules (whatever the priorities): the
/// selection never lets a matching enabled rule go unanswered.
pub proof fn lemma_enabled_match_is_answered(rules: Seq<RewriteRuleView>, req: NormalizedRequestView, i: int, n: int)
    requires
        0 <= i < n <= rules.len(),
        rules[i].enabled,
        evaluation(rules[i].matcher, req).0,
    ensures
        exists|k: int| chosen_among(rules, req, k, n),
    decreases n,
{
    let last = n - 1;
    if i == last && !(exists|j: int| 0 <= j < last && rule_applies(rules[j], req)) {
        assert forall|j: int| #![trigger rules[j]] 0 <= j < n && rule_applies(rules[j], req) implies !outranks(
            rank(rules[j], req),
            rank(rules[last], req),
        ) && (j < last ==> outranks(rank(rules[last], req), rank(rules[j], req))) by {
            if j == last {
                lemma_outranks_order(rank(rules[j], req), rank(rules[j], req), rank(rules[j], req));
            }
        }
        assert(chosen_among(rules, req, last, n));
    } else {
        let i2 = if i < last { i } else { choose|j: int| 0 <= j < last && rule_applies(rules[j], req) };
        lemma_enabled_match_is_answered(rules, req, i2, last);
        let k = choose|k: int| chosen_among(rules, req, k, last);
        let rk = rank(rules[k], req);
        let rl = rank(rules[last], req);
        if rule_applies(rules[last], req) && outranks(rl, rk) {
            assert forall|j: int| #![trigger rules[j]] 0 <= j < n && rule_applies(rules[j], req) implies !outranks(
                rank(rules[j], req),
                rl,
            ) && (j < last ==> outranks(rl, rank(rules[j], req))) by {
                let rj = rank(rules[j], req);
                if j < last {
                    assert(!outranks(rj, rk));
                    lemma_outranks_order(rj, rl, rk);
                    lemma_outranks_order(rl, rk, rj);
                    lemma_outranks_order(rk, rj, rk);
                    if rj != rk {
                        assert(outranks(rk, rj));
                    }
                } else {
                    lemma_outranks_order(rl, rl, rl);
                }
            }
            assert(chosen_among(rules, req, last, n));
        } else {
            assert forall|j: int| #![trigger rules[j]] 0 <= j < n && rule_applies(rules[j], req) implies !outranks(
                rank(rules[j], req),
                rk,
            ) && (j < k ==> outranks(rk, rank(rules[j], req))) by {
                if j == last {
                    assert(!outranks(rl, rk));
                }
            }
            assert(chosen_among(rules, req, k, n));
        }
    }
}
} // verus!
