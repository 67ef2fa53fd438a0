//! What the control API does: status switches, rule management, the event
//! log and the rewrite self-check. Transport (HTTP routing, JSON) is the
//! caller's.
use vstd::prelude::*;
use crate::clock::{new_uuid_string, utc_now};
use crate::models::{
    events_view, opt_view, pairs_view, rules_view, CertStatusUpdateRequest, ErrorResponse,
    HealthResponse, InterceptionUpdateRequest, ProxyEvent, ProxyStatus, RewriteDiagnosticsResponse,
    RewriteRule, RewriteRuleView, UtcTimestamp, VersionResponse,
};
use crate::rules::{
    ids_distinct, outranks, parse_query, rule_applies, rules_within_limits, select_matching_rule, url_query_pairs,
    NormalizedRequest, NormalizedRequestView, lemma_outranks_order,
};
use crate::state::{AppState, PROTOCOL_VERSION};
use crate::text::{is_blank, str_is_blank};

verus! {

broadcast use vstd::string::group_string_axioms, vstd::seq_lib::group_to_multiset_ensures;

/// HTTP status codes the control API answers with.
pub const STATUS_NO_CONTENT: u16 = 204;
pub const STATUS_BAD_REQUEST: u16 = 400;
pub const STATUS_NOT_FOUND: u16 = 404;
pub const STATUS_CONFLICT: u16 = 409;

/// A refused control request: its HTTP status and error body.
#[derive(Debug)]
pub struct ApiError {
    pub status: u16,
    pub body: ErrorResponse,
}

/// The refusal with `status` and `message`.
pub fn error_response(status: u16, message: String) -> (r: ApiError)
    ensures
        r.status == status,
        r.body.error == message,
{
    ApiError { status, body: ErrorResponse { error: message } }
}

/// `GET /health`.
pub fn health() -> (r: HealthResponse)
    ensures
        r.ok,
{
    HealthResponse { ok: true }
}

/// `GET /version`, given the package version.
pub fn version(package_version: &'static str) -> (r: VersionResponse)
    ensures
        r.name@ == "interceptkit-proxy"@,
        r.version == package_version,
        r.protocol_version == PROTOCOL_VERSION,
{
    VersionResponse { name: "interceptkit-proxy", version: package_version, protocol_version: PROTOCOL_VERSION }
}

/// The status reported for a state, as values.
pub open spec fn reports(r: ProxyStatus, s: &AppState) -> bool {
    &&& r.interception_enabled == s.flags.interception_enabled
    &&& r.proxy_port == s.config.proxy_port
    &&& r.control_port == s.config.control_port
    &&& r.cert_ready == s.flags.cert_ready
    &&& r.mitm_ready == s.flags.mitm_ready
    &&& r.rule_count == s.rules.len()
    &&& r.recent_event_count == s.events@.len()
    &&& opt_view(r.last_error) == opt_view(s.flags.last_error)
}

/// `GET /status`.
pub fn status(state: &AppState) -> (r: ProxyStatus)
    ensures
        reports(r, state),
{
    state.status_snapshot()
}

/// `POST /status/interception`: switches interception and reports.
pub fn update_interception_status(state: &mut AppState, payload: InterceptionUpdateRequest) -> (r: ProxyStatus)
    ensures
        final(state).flags.interception_enabled == payload.enabled,
        final(state).flags.cert_ready == old(state).flags.cert_ready,
        final(state).flags.mitm_ready == old(state).flags.mitm_ready,
        final(state).flags.last_error == old(state).flags.last_error,
        final(state).rules == old(state).rules,
        final(state).events == old(state).events,
        final(state).sequence_counters == old(state).sequence_counters,
        final(state).config == old(state).config,
        reports(r, &*final(state)),
{
    state.flags.interception_enabled = payload.enabled;
    state.status_snapshot()
}

/// `POST /status/cert`: records certificate readiness and reports.
pub fn update_cert_status(state: &mut AppState, payload: CertStatusUpdateRequest) -> (r: ProxyStatus)
    ensures
        final(state).flags.cert_ready == payload.cert_ready,
        final(state).flags.mitm_ready == payload.mitm_ready,
        final(state).flags.interception_enabled == old(state).flags.interception_enabled,
        final(state).flags.last_error == old(state).flags.last_error,
        final(state).rules == old(state).rules,
        final(state).events == old(state).events,
        final(state).sequence_counters == old(state).sequence_counters,
        final(state).config == old(state).config,
        reports(r, &*final(state)),
{
    state.flags.cert_ready = payload.cert_ready;
    state.flags.mitm_ready = payload.mitm_ready;
    state.status_snapshot()
}

/// The listing order of rules: higher priority first, then smaller id.
pub open spec fn listed_before(a: RewriteRuleView, b: RewriteRuleView) -> bool {
    outranks((a.priority as int, 0, a.id), (b.priority as int, 0, b.id))
}

/// The rules are in listing order.
pub open spec fn in_listing_order(s: Seq<RewriteRuleView>) -> bool {
    forall|i: int, j: int| 0 <= i < j < s.len() ==> !listed_before(#[trigger] s[j], #[trigger] s[i])
}

fn rule_listed_before(a: &RewriteRule, b: &RewriteRule) -> (r: bool)
    ensures
        r == listed_before(a@, b@),
{
    if a.priority != b.priority {
        return a.priority > b.priority;
    }
    crate::text::str_lt(a.id.as_str(), b.id.as_str())
}

proof fn lemma_listed_order(a: RewriteRuleView, b: RewriteRuleView, c: RewriteRuleView)
    ensures
        !listed_before(a, a),
        listed_before(a, b) && listed_before(b, c) ==> listed_before(a, c),
{
    lemma_outranks_order((a.priority as int, 0, a.id), (b.priority as int, 0, b.id), (c.priority as int, 0, c.id));
}

/// `GET /rules`: the rules in listing order.
pub fn list_rules(state: &AppState) -> (r: Vec<RewriteRule>)
    ensures
        rules_view(r@).to_multiset() == rules_view(state.rules@).to_multiset(),
        in_listing_order(rules_view(r@)),
{
    let rules = &state.rules;
    let mut out: Vec<RewriteRule> = Vec::new();
    let mut i: usize = 0;
    while i < rules.len()
        invariant
            i <= rules.len(),
            rules_view(out@).to_multiset() == rules_view(rules@.subrange(0, i as int)).to_multiset(),
            in_listing_order(rules_view(out@)),
        decreases rules.len() - i,
    {
        let x = rules[i].copy();
        let mut p: usize = 0;
        while p < out.len() && !rule_listed_before(&x, &out[p])
            invariant
                p <= out.len(),
                forall|k: int| 0 <= k < p ==> !listed_before(x@, #[trigger] rules_view(out@)[k]),
            decreases out.len() - p,
        {
            p = p + 1;
        }
        let ghost old_out = rules_view(out@);
        let ghost xv = x@;
        out.insert(p, x);
        proof {
            let new_out = rules_view(out@);
            assert(new_out =~= old_out.insert(p as int, xv));
            assert(new_out.remove(p as int) =~= old_out);
            assert(new_out[p as int] == xv);
            assert(new_out.to_multiset() =~= old_out.to_multiset().insert(xv));
            assert(rules_view(rules@.subrange(0, i + 1)) =~= rules_view(rules@.subrange(0, i as int)).push(rules@[i as int]@));
            assert forall|a: int, b: int| 0 <= a < b < new_out.len() implies !listed_before(
                #[trigger] new_out[b],
                #[trigger] new_out[a],
            ) by {
                if b < p {
                    assert(new_out[a] == old_out[a] && new_out[b] == old_out[b]);
                } else if b == p {
                    assert(new_out[a] == old_out[a]);
                } else if a == p {
                    let y = old_out[b - 1];
                    assert(new_out[b] == y);
                    assert(listed_before(xv, old_out[p as int]));
                    lemma_listed_order(y, xv, old_out[p as int]);
                    lemma_listed_order(old_out[p as int], old_out[p as int], old_out[p as int]);
                    if b - 1 > p {
                        assert(!listed_before(old_out[b - 1], old_out[p as int]));
                    }
                } else if a < p {
                    assert(new_out[a] == old_out[a] && new_out[b] == old_out[b - 1]);
                } else {
                    assert(new_out[a] == old_out[a - 1] && new_out[b] == old_out[b - 1]);
                }
            }
        }
        i = i + 1;
    }
    assert(rules@.subrange(0, rules.len() as int) =~= rules@);
    out
}

/// `"rule <id> already exists"`.
pub open spec fn exists_message(id: Seq<char>) -> Seq<char> {
    "rule "@ + id + " already exists"@
}

/// `"rule <id> not found"`.
pub open spec fn not_found_message(id: Seq<char>) -> Seq<char> {
    "rule "@ + id + " not found"@
}

/// Some stored rule has this id.
pub open spec fn has_rule_id(rules: Seq<RewriteRule>, id: Seq<char>) -> bool {
    exists|i: int| 0 <= i < rules.len() && (#[trigger] rules[i]).id@ == id
}

/// The rule stored by a create at `now` with id `id`: stamped as updated
/// now, and its creation time clamped to now.
pub open spec fn created_rule(rule: RewriteRuleView, id: Seq<char>, now: UtcTimestamp) -> RewriteRuleView {
    RewriteRuleView {
        id: id,
        updated_at: now,
        created_at: if rule.created_at.is_after(now) { now } else { rule.created_at },
        ..rule
    }
}

fn message_with_id(prefix: &str, id: &String, suffix: &str) -> (r: String)
    ensures
        r@ == prefix@ + id@ + suffix@,
{
    let mut m = String::from_str(prefix);
    m.append(id.as_str());
    m.append(suffix);
    m
}

fn find_rule(rules: &Vec<RewriteRule>, id: &String) -> (r: Option<usize>)
    ensures
        match r {
            Some(p) => p < rules.len() && rules@[p as int].id@ == id@ && forall|k: int|
                0 <= k < p ==> (#[trigger] rules@[k]).id@ != id@,
            None => !has_rule_id(rules@, id@),
        },
{
    let mut i: usize = 0;
    while i < rules.len()
        invariant
            i <= rules.len(),
            forall|k: int| 0 <= k < i ==> (#[trigger] rules@[k]).id@ != id@,
        decreases rules.len() - i,
    {
        if rules[i].id == *id {
            return Some(i);
        }
        i = i + 1;
    }
    None
}

/// `POST /rules` at instant `now`: a rule whose name is blank is refused
/// (400); a blank id is replaced by `generated_id`; a rule whose id is
/// taken is refused (409); otherwise the rule, stamped, is appended and
/// handed back.
pub fn create_rule_at(state: &mut AppState, rule: RewriteRule, now: UtcTimestamp, generated_id: &String) -> (r: Result<
    RewriteRule,
    ApiError,
>)
    ensures
        ({
            let id = if is_blank(rule.id@) { generated_id@ } else { rule.id@ };
            if is_blank(rule.name@) {
                &&& r matches Err(e) && e.status == STATUS_BAD_REQUEST && e.body.error@ == "rule name is required"@
                &&& final(state).rules == old(state).rules
            } else if has_rule_id(old(state).rules@, id) {
                &&& r matches Err(e) && e.status == STATUS_CONFLICT && e.body.error@ == exists_message(id)
                &&& final(state).rules == old(state).rules
            } else {
                &&& r matches Ok(stored) && stored@ == created_rule(rule@, id, now)
                &&& rules_view(final(state).rules@) == rules_view(old(state).rules@).push(created_rule(rule@, id, now))
            }
        }),
        final(state).events == old(state).events,
        final(state).flags == old(state).flags,
        final(state).sequence_counters == old(state).sequence_counters,
        final(state).config == old(state).config,
{
    if str_is_blank(rule.name.as_str()) {
        return Err(error_response(STATUS_BAD_REQUEST, String::from_str("rule name is required")));
    }
    let mut rule = rule;
    if str_is_blank(rule.id.as_str()) {
        rule.id = generated_id.clone();
    }
    rule.updated_at = now;
    if rule.created_at.later_than(&now) {
        rule.created_at = now;
    }
    match find_rule(&state.rules, &rule.id) {
        Some(_) => {
            let message = message_with_id("rule ", &rule.id, " already exists");
            return Err(error_response(STATUS_CONFLICT, message));
        },
        None => {},
    }
    let ghost before = rules_view(state.rules@);
    state.rules.push(rule.copy());
    assert(rules_view(state.rules@) =~= before.push(rule@));
    Ok(rule)
}

/// `POST /rules`, stamped with the current time and, for a blank id, a new
/// random id.
pub fn create_rule(state: &mut AppState, rule: RewriteRule) -> (r: Result<RewriteRule, ApiError>)
    ensures
        is_blank(rule.name@) ==> (r matches Err(e) && e.status == STATUS_BAD_REQUEST && e.body.error@
            == "rule name is required"@),
        (!is_blank(rule.name@) && !is_blank(rule.id@)) ==> (has_rule_id(old(state).rules@, rule.id@) <==> r is Err),
        (!is_blank(rule.name@) && !is_blank(rule.id@) && has_rule_id(old(state).rules@, rule.id@)) ==> (r matches Err(e)
            && e.status == STATUS_CONFLICT && e.body.error@ == exists_message(rule.id@)),
        (!is_blank(rule.name@) && is_blank(rule.id@)) ==> (r matches Err(e) ==> e.status == STATUS_CONFLICT && exists|id: Seq<char>|
            has_rule_id(old(state).rules@, id) && e.body.error@ == exists_message(id)),
        r is Err ==> final(state).rules == old(state).rules,
        is_blank(rule.id@) && r is Ok ==> r->Ok_0.id@.len() == 36 && forall|i: int|
            0 <= i < 36 ==> crate::clock::is_uuid_char(#[trigger] r->Ok_0.id@[i]),
        r matches Ok(stored) ==> exists|now: UtcTimestamp, id: Seq<char>|
            stored@ == created_rule(rule@, id, now) && !has_rule_id(old(state).rules@, id)
                && (!is_blank(rule.id@) ==> id == rule.id@)
                && rules_view(final(state).rules@) == rules_view(old(state).rules@).push(stored@),
        final(state).events == old(state).events,
        final(state).flags == old(state).flags,
        final(state).sequence_counters == old(state).sequence_counters,
        final(state).config == old(state).config,
{
    if str_is_blank(rule.name.as_str()) {
        return Err(error_response(STATUS_BAD_REQUEST, String::from_str("rule name is required")));
    }
    let now = utc_now();
    let generated = if str_is_blank(rule.id.as_str()) {
        new_uuid_string()
    } else {
        String::new()
    };
    create_rule_at(state, rule, now, &generated)
}

/// `PUT /rules/:id` at instant `now`: the first rule with this id is
/// replaced by the payload, which keeps the id and is stamped as updated
/// now; an unknown id is refused (404).
pub fn update_rule_at(state: &mut AppState, id: String, payload: RewriteRule, now: UtcTimestamp) -> (r: Result<
    RewriteRule,
    ApiError,
>)
    ensures
        ({
            let stored = RewriteRuleView { id: id@, updated_at: now, ..payload@ };
            if !has_rule_id(old(state).rules@, id@) {
                &&& r matches Err(e) && e.status == STATUS_NOT_FOUND && e.body.error@ == not_found_message(id@)
                &&& final(state).rules == old(state).rules
            } else {
                &&& r matches Ok(v) && v@ == stored
                &&& exists|p: int|
                    0 <= p < old(state).rules@.len() && old(state).rules@[p].id@ == id@ && (forall|k: int|
                        0 <= k < p ==> (#[trigger] old(state).rules@[k]).id@ != id@) && rules_view(final(state).rules@)
                        == rules_view(old(state).rules@).update(p, stored)
            }
        }),
        final(state).events == old(state).events,
        final(state).flags == old(state).flags,
        final(state).sequence_counters == old(state).sequence_counters,
        final(state).config == old(state).config,
{
    match find_rule(&state.rules, &id) {
        None => {
            let message = message_with_id("rule ", &id, " not found");
            Err(error_response(STATUS_NOT_FOUND, message))
        },
        Some(position) => {
            let mut payload = payload;
            payload.id = id;
            payload.updated_at = now;
            let ghost before = rules_view(state.rules@);
            state.rules.set(position, payload.copy());
            assert(rules_view(state.rules@) =~= before.update(position as int, payload@));
            Ok(payload)
        },
    }
}

/// `PUT /rules/:id`, stamped with the current time.
pub fn update_rule(state: &mut AppState, id: String, payload: RewriteRule) -> (r: Result<RewriteRule, ApiError>)
    ensures
        !has_rule_id(old(state).rules@, id@) ==> (r matches Err(e) && e.status == STATUS_NOT_FOUND && e.body.error@
            == not_found_message(id@) && final(state).rules == old(state).rules),
        has_rule_id(old(state).rules@, id@) ==> (r matches Ok(v) && v@ == (RewriteRuleView {
            id: id@,
            updated_at: v.updated_at,
            ..payload@
        }) && exists|p: int|
            #![trigger old(state).rules@[p]]
            0 <= p < old(state).rules@.len() && old(state).rules@[p].id@ == id@ && (forall|k: int|
                0 <= k < p ==> (#[trigger] old(state).rules@[k]).id@ != id@) && rules_view(final(state).rules@)
                == rules_view(old(state).rules@).update(p, v@)),
        final(state).events == old(state).events,
        final(state).flags == old(state).flags,
        final(state).sequence_counters == old(state).sequence_counters,
        final(state).config == old(state).config,
{
    let now = utc_now();
    update_rule_at(state, id, payload, now)
}

/// `DELETE /rules/:id`: every rule with this id goes, and so does the
/// sequence count kept for it (204); an unknown id is refused (404).
pub fn delete_rule(state: &mut AppState, id: String) -> (r: Result<u16, ApiError>)
    ensures
        !has_rule_id(old(state).rules@, id@) ==> (r matches Err(e) && e.status == STATUS_NOT_FOUND && e.body.error@
            == not_found_message(id@) && final(state).rules == old(state).rules && final(state).sequence_counters
            == old(state).sequence_counters),
        has_rule_id(old(state).rules@, id@) ==> r == Ok::<u16, ApiError>(STATUS_NO_CONTENT) && rules_view(final(state).rules@)
            == rules_view(old(state).rules@).filter(|x: RewriteRuleView| x.id != id@) && final(state).sequence_counters@
            == old(state).sequence_counters@.remove(id@),
        final(state).events == old(state).events,
        final(state).flags == old(state).flags,
        final(state).config == old(state).config,
{
    let ghost old_view = rules_view(state.rules@);
    let mut kept: Vec<RewriteRule> = Vec::new();
    let mut removed = false;
    let mut i: usize = 0;
    while i < state.rules.len()
        invariant
            i <= state.rules.len(),
            old_view == rules_view(state.rules@),
            rules_view(kept@) == rules_view(state.rules@.subrange(0, i as int)).filter(|x: RewriteRuleView| x.id != id@),
            removed == has_rule_id(state.rules@.subrange(0, i as int), id@),
        decreases state.rules.len() - i,
    {
        let ghost pre = rules_view(state.rules@.subrange(0, i as int));
        proof {
            reveal_with_fuel(Seq::<RewriteRuleView>::filter, 1);
        }
        assert(rules_view(state.rules@.subrange(0, i + 1)) =~= pre.push(state.rules@[i as int]@));
        assert(rules_view(state.rules@.subrange(0, i + 1)).drop_last() =~= pre);
        if state.rules[i].id != id {
            let ghost kb = rules_view(kept@);
            kept.push(state.rules[i].copy());
            assert(rules_view(kept@) =~= kb.push(state.rules@[i as int]@));
        } else {
            removed = true;
        }
        assert(removed == has_rule_id(state.rules@.subrange(0, i + 1), id@)) by {
            if has_rule_id(state.rules@.subrange(0, i + 1), id@) {
                let w = choose|w: int| 0 <= w < i + 1 && (#[trigger] state.rules@.subrange(0, i + 1)[w]).id@ == id@;
                if w < i {
                    assert(state.rules@.subrange(0, i as int)[w] == state.rules@.subrange(0, i + 1)[w]);
                }
            }
            if has_rule_id(state.rules@.subrange(0, i as int), id@) {
                let w = choose|w: int| 0 <= w < i && (#[trigger] state.rules@.subrange(0, i as int)[w]).id@ == id@;
                assert(state.rules@.subrange(0, i as int)[w] == state.rules@.subrange(0, i + 1)[w]);
            }
            if state.rules@[i as int].id@ == id@ {
                assert(state.rules@.subrange(0, i + 1)[i as int] == state.rules@[i as int]);
            }
        }
        i = i + 1;
    }
    assert(state.rules@.subrange(0, state.rules.len() as int) =~= state.rules@);
    if !removed {
        let message = message_with_id("rule ", &id, " not found");
        return Err(error_response(STATUS_NOT_FOUND, message));
    }
    state.rules = kept;
    state.sequence_counters.remove(&id);
    Ok(STATUS_NO_CONTENT)
}

/// `GET /events`: the log, oldest first.
pub fn list_events(state: &AppState) -> (r: Vec<ProxyEvent>)
    ensures
        events_view(r@) == events_view(state.events@),
{
    let mut out: Vec<ProxyEvent> = Vec::new();
    let mut i: usize = 0;
    while i < state.events.len()
        invariant
            i <= state.events@.len(),
            out@.len() == i,
            events_view(out@) == events_view(state.events@.subrange(0, i as int)),
        decreases state.events@.len() - i,
    {
        let ghost before = events_view(out@);
        let e = state.events[i].copy();
        out.push(e);
        assert forall|k: int| 0 <= k < i + 1 implies #[trigger] events_view(out@)[k] == events_view(
            state.events@.subrange(0, i + 1),
        )[k] by {
            if k < i {
                assert(before[k] == events_view(state.events@.subrange(0, i as int))[k]);
            }
        }
        assert(events_view(out@) =~= events_view(state.events@.subrange(0, i + 1)));
        i = i + 1;
    }
    assert(state.events@.subrange(0, state.events@.len() as int) =~= state.events@);
    out
}

/// `DELETE /events`: empties the log (204).
pub fn clear_events(state: &mut AppState) -> (r: u16)
    ensures
        r == STATUS_NO_CONTENT,
        final(state).events@.len() == 0,
        final(state).rules == old(state).rules,
        final(state).flags == old(state).flags,
        final(state).sequence_counters == old(state).sequence_counters,
        final(state).config == old(state).config,
{
    state.clear_events();
    STATUS_NO_CONTENT
}

/// Number of enabled rules.
pub open spec fn enabled_count(rules: Seq<RewriteRuleView>) -> nat
    decreases rules.len(),
{
    if rules.len() == 0 {
        0
    } else {
        enabled_count(rules.drop_last()) + if rules.last().enabled { 1nat } else { 0nat }
    }
}

/// The sample request of the self-check: `GET http://example.com/health`
/// without headers or body.
pub open spec fn sample_request() -> NormalizedRequestView {
    NormalizedRequestView {
        method: "GET"@,
        url: "http://example.com/health"@,
        headers: Seq::empty(),
        query: match url_query_pairs("http://example.com/health"@) {
            Some(q) => q,
            None => Seq::empty(),
        },
        body_text: Seq::empty(),
    }
}

/// `POST /diagnostics/rewrite-check`: how many rules are enabled and
/// whether one of them matches the sample request.
pub fn rewrite_check(state: &AppState) -> (r: RewriteDiagnosticsResponse)
    requires
        rules_within_limits(rules_view(state.rules@)),
    ensures
        r.ok,
        r.enabled_rule_count == enabled_count(rules_view(state.rules@)),
        r.matched_enabled_rule == exists|i: int|
            0 <= i < state.rules@.len() && rule_applies(#[trigger] state.rules@[i]@, sample_request()),
{
    let rules = &state.rules;
    let mut enabled_rule_count: usize = 0;
    let mut i: usize = 0;
    while i < rules.len()
        invariant
            i <= rules.len(),
            enabled_rule_count == enabled_count(rules_view(rules@.subrange(0, i as int))),
            enabled_rule_count <= i,
        decreases rules.len() - i,
    {
        assert(rules_view(rules@.subrange(0, i + 1)).drop_last() =~= rules_view(rules@.subrange(0, i as int)));
        if rules[i].enabled {
            enabled_rule_count = enabled_rule_count + 1;
        }
        i = i + 1;
    }
    assert(rules@.subrange(0, rules.len() as int) =~= rules@);
    let sample = NormalizedRequest {
        method: String::from_str("GET"),
        url: String::from_str("http://example.com/health"),
        headers: Vec::new(),
        query: parse_query("http://example.com/health"),
        body_text: String::new(),
    };
    assert(pairs_view(sample.headers@) =~= Seq::<(Seq<char>, Seq<char>)>::empty());
    assert(sample@ =~= sample_request());
    let matched_enabled_rule = select_matching_rule(rules.as_slice(), &sample).is_some();
    RewriteDiagnosticsResponse { ok: true, matched_enabled_rule, enabled_rule_count }
}


/// Some rule in `rules` has id `id`.
pub open spec fn id_listed(rules: Seq<RewriteRuleView>, id: Seq<char>) -> bool {
    exists|i: int| 0 <= i < rules.len() && (#[trigger] rules[i]).id == id
}

/// A created rule is listed: when a create appends `created` to `before`,
/// any listing of the rules after it holds `created`, and its id is taken
/// (a second create with that id is refused).
pub proof fn lemma_created_rule_listed(
    before: Seq<RewriteRuleView>,
    created: RewriteRuleView,
    listing: Seq<RewriteRuleView>,
)
    requires
        listing.to_multiset() == before.push(created).to_multiset(),
    ensures
        listing.contains(created),
        id_listed(before.push(created), created.id),
{
    broadcast use vstd::multiset::group_multiset_axioms, vstd::seq_lib::group_to_multiset_ensures;

    assert(before.push(created)[before.len() as int] == created);
    assert(before.push(created).contains(created));
    assert(listing.to_multiset().count(created) > 0);
}

/// A deleted id is gone: after deleting `id`, no rule with it is left, so
/// an update or delete of it is refused; every other rule stays.
pub proof fn lemma_deleted_rule_gone(rules: Seq<RewriteRuleView>, id: Seq<char>, other: RewriteRuleView)
    ensures
        !id_listed(rules.filter(|x: RewriteRuleView| x.id != id), id),
        rules.contains(other) && other.id != id ==> rules.filter(|x: RewriteRuleView| x.id != id).contains(other),
{
    let kept = rules.filter(|x: RewriteRuleView| x.id != id);
    assert forall|i: int| 0 <= i < kept.len() implies (#[trigger] kept[i]).id != id by {
        rules.lemma_filter_pred(|x: RewriteRuleView| x.id != id, i);
    }
    if rules.contains(other) && other.id != id {
        let w = choose|w: int| 0 <= w < rules.len() && rules[w] == other;
        rules.lemma_filter_contains(|x: RewriteRuleView| x.id != id, w);
    }
}


/// Creating keeps rule ids distinct: a rule is appended only when its id is
/// not taken.
pub proof fn lemma_create_keeps_ids_distinct(before: Seq<RewriteRuleView>, created: RewriteRuleView)
    requires
        ids_distinct(before),
        !id_listed(before, created.id),
    ensures
        ids_distinct(before.push(created)),
{
    let after = before.push(created);
    assert forall|i: int, j: int| 0 <= i < j < after.len() implies (#[trigger] after[i]).id != (#[trigger] after[j]).id by {
        assert(after[i] == before[i]);
        if j < before.len() {
            assert(after[j] == before[j]);
        }
    }
}

/// Updating keeps rule ids distinct: the stored rule keeps the id of the
/// rule it replaces.
pub proof fn lemma_update_keeps_ids_distinct(before: Seq<RewriteRuleView>, p: int, stored: RewriteRuleView)
    requires
        ids_distinct(before),
        0 <= p < before.len(),
        before[p].id == stored.id,
    ensures
        ids_distinct(before.update(p, stored)),
{
    let after = before.update(p, stored);
    assert forall|i: int, j: int| 0 <= i < j < after.len() implies (#[trigger] after[i]).id != (#[trigger] after[j]).id by {
        assert(after[i].id == before[i].id);
        assert(after[j].id == before[j].id);
    }
}

/// Deleting keeps rule ids distinct: what is left is a part of the rules.
pub proof fn lemma_delete_keeps_ids_distinct(before: Seq<RewriteRuleView>, id: Seq<char>)
    requires
        ids_distinct(before),
    ensures
        ids_distinct(before.filter(|x: RewriteRuleView| x.id != id)),
    decreases before.len(),
{
    reveal_with_fuel(Seq::<RewriteRuleView>::filter, 1);
    if before.len() > 0 {
        let rest = before.drop_last();
        let last = before.last();
        let pred = |x: RewriteRuleView| x.id != id;
        assert(ids_distinct(rest)) by {
            assert forall|i: int, j: int| 0 <= i < j < rest.len() implies (#[trigger] rest[i]).id != (#[trigger] rest[j]).id by {
                assert(rest[i] == before[i] && rest[j] == before[j]);
            }
        }
        lemma_delete_keeps_ids_distinct(rest, id);
        let kept = rest.filter(pred);
        if pred(last) {
            let after = kept.push(last);
            assert(before.filter(pred) == after);
            assert forall|i: int, j: int| 0 <= i < j < after.len() implies (#[trigger] after[i]).id != (#[trigger] after[j]).id by {
                if j == kept.len() {
                    assert(after[i] == kept[i]);
                    assert(kept.contains(kept[i]));
                    rest.lemma_filter_contains_rev(pred, kept[i]);
                    let w = choose|w: int| 0 <= w < rest.len() && rest[w] == kept[i];
                    assert(before[w] == rest[w]);
                    assert(before[before.len() - 1] == last);
                } else {
                    assert(after[i] == kept[i] && after[j] == kept[j]);
                }
            }
        } else {
            assert(before.filter(pred) == kept);
        }
    }
}

/// Deleting undoes creating: deleting the id of a rule just created gives
/// back the rules as they were.
pub proof fn lemma_delete_undoes_create(before: Seq<RewriteRuleView>, created: RewriteRuleView)
    requires
        !id_listed(before, created.id),
    ensures
        before.push(created).filter(|x: RewriteRuleView| x.id != created.id) == before,
    decreases before.len(),
{
    reveal_with_fuel(Seq::<RewriteRuleView>::filter, 1);
    let pred = |x: RewriteRuleView| x.id != created.id;
    assert(before.push(created).drop_last() =~= before);
    if before.len() > 0 {
        let rest = before.drop_last();
        assert(!id_listed(rest, created.id)) by {
            if id_listed(rest, created.id) {
                let w = choose|w: int| 0 <= w < rest.len() && (#[trigger] rest[w]).id == created.id;
                assert(before[w] == rest[w]);
            }
        }
        lemma_delete_undoes_create(rest, created);
        assert(rest.push(created).drop_last() =~= rest);
        assert(rest.filter(pred) == rest);
        assert(before[before.len() - 1].id != created.id);
        assert(before.filter(pred) =~= rest.push(before.last()));
        assert(rest.push(before.last()) =~= before);
    } else {
        assert(before.filter(pred) =~= before);
    }
}
} // verus!
