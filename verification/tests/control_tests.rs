use interceptkit_proxy::control::{
    clear_events, create_rule, create_rule_at, delete_rule, health, list_events, list_rules, rewrite_check, status,
    update_cert_status, update_interception_status, update_rule, update_rule_at, version, STATUS_BAD_REQUEST,
    STATUS_CONFLICT, STATUS_NOT_FOUND, STATUS_NO_CONTENT,
};
use interceptkit_proxy::models::{
    CertStatusUpdateRequest, InterceptionUpdateRequest, MockResponseAction, ProxyEvent, RewriteRule, RuleAction,
    RuleMatcher, SequenceAction, SequenceStep, SequenceStepAction, UtcTimestamp,
};
use interceptkit_proxy::rules::{resolve_action, SequenceCounters};
use interceptkit_proxy::state::{AppState, ProxyConfig, MAX_EVENTS, PROTOCOL_VERSION};

fn at(secs: i64) -> UtcTimestamp {
    UtcTimestamp { secs, nanos: 0 }
}

fn state() -> AppState {
    AppState::new(ProxyConfig { proxy_port: 8081, control_port: 4592 })
}

fn rule(id: &str, name: &str, priority: i32) -> RewriteRule {
    RewriteRule {
        id: id.to_string(),
        name: name.to_string(),
        enabled: true,
        priority,
        matcher: RuleMatcher {
            methods: None,
            url_pattern: "http://example.com/*".to_string(),
            header_equals: Vec::new(),
            query_equals: Vec::new(),
            body_contains: None,
        },
        action: RuleAction::MockResponse(MockResponseAction {
            status: 200,
            headers: Vec::new(),
            body: None,
            content_type: None,
            delay_ms: None,
        }),
        tags: Vec::new(),
        created_at: at(10),
        updated_at: at(10),
    }
}

fn event(n: usize) -> ProxyEvent {
    ProxyEvent {
        id: format!("e{n}"),
        timestamp: at(n as i64),
        method: "GET".to_string(),
        url: "http://x/".to_string(),
        matched_rule_id: None,
        matched_rule_name: None,
        decision: "passthrough".to_string(),
        status: Some(200),
        notes: Vec::new(),
    }
}

#[test]
fn health_and_version() {
    assert!(health().ok);
    let v = version("0.1.0");
    assert_eq!(v.name, "interceptkit-proxy");
    assert_eq!(v.version, "0.1.0");
    assert_eq!(v.protocol_version, PROTOCOL_VERSION);
    assert_eq!(PROTOCOL_VERSION, 1);
}

#[test]
fn new_state_defaults() {
    let s = state();
    let st = status(&s);
    assert!(st.interception_enabled);
    assert!(!st.cert_ready && !st.mitm_ready);
    assert_eq!((st.proxy_port, st.control_port), (8081, 4592));
    assert_eq!((st.rule_count, st.recent_event_count), (0, 0));
    assert!(st.last_error.is_none());
}

#[test]
fn status_updates() {
    let mut s = state();
    let st = update_interception_status(&mut s, InterceptionUpdateRequest { enabled: false });
    assert!(!st.interception_enabled);
    assert!(!s.flags.interception_enabled);
    let st = update_cert_status(&mut s, CertStatusUpdateRequest { cert_ready: true, mitm_ready: false });
    assert!(st.cert_ready && !st.mitm_ready);
    assert!(!st.interception_enabled);
}

#[test]
fn create_refuses_blank_name() {
    let mut s = state();
    let err = create_rule(&mut s, rule("r1", "   ", 0)).unwrap_err();
    assert_eq!(err.status, STATUS_BAD_REQUEST);
    assert_eq!(err.body.error, "rule name is required");
    assert!(s.rules.is_empty());
}

#[test]
fn create_then_conflict() {
    let mut s = state();
    let stored = create_rule(&mut s, rule("r1", "first", 0)).unwrap();
    assert_eq!(stored.id, "r1");
    assert_eq!(s.rules.len(), 1);
    let err = create_rule(&mut s, rule("r1", "again", 0)).unwrap_err();
    assert_eq!(err.status, STATUS_CONFLICT);
    assert_eq!(err.body.error, "rule r1 already exists");
    assert_eq!(s.rules.len(), 1);
    assert_eq!(list_rules(&s)[0].name, "first");
}

#[test]
fn create_generates_missing_id() {
    let mut s = state();
    let stored = create_rule(&mut s, rule(" ", "named", 0)).unwrap();
    assert_eq!(stored.id.len(), 36);
    assert!(stored.id.chars().all(|c| c.is_ascii_hexdigit() || c == '-'));
    assert_eq!(s.rules[0].id, stored.id);
}

#[test]
fn create_stamps_and_clamps_times() {
    let mut s = state();
    let mut future = rule("f", "future", 0);
    future.created_at = at(500);
    let stored = create_rule_at(&mut s, future, at(100), &"unused".to_string()).unwrap();
    assert_eq!(stored.created_at, at(100));
    assert_eq!(stored.updated_at, at(100));
    let stored = create_rule_at(&mut s, rule("p", "past", 0), at(100), &"unused".to_string()).unwrap();
    assert_eq!(stored.created_at, at(10));
    let stored = create_rule_at(&mut s, rule("", "blank id", 0), at(100), &"generated".to_string()).unwrap();
    assert_eq!(stored.id, "generated");
}

#[test]
fn list_orders_by_priority_then_id() {
    let mut s = state();
    for (id, priority) in [("b", 1), ("c", 5), ("a", 5), ("d", -3)] {
        create_rule(&mut s, rule(id, id, priority)).unwrap();
    }
    let ids: Vec<String> = list_rules(&s).into_iter().map(|r| r.id).collect();
    assert_eq!(ids, vec!["a", "c", "b", "d"]);
    let stored: Vec<String> = s.rules.iter().map(|r| r.id.clone()).collect();
    assert_eq!(stored, vec!["b", "c", "a", "d"]);
}

#[test]
fn update_replaces_and_keeps_id() {
    let mut s = state();
    create_rule(&mut s, rule("r1", "first", 0)).unwrap();
    let err = update_rule(&mut s, "missing".to_string(), rule("x", "y", 0)).unwrap_err();
    assert_eq!(err.status, STATUS_NOT_FOUND);
    assert_eq!(err.body.error, "rule missing not found");
    let updated = update_rule_at(&mut s, "r1".to_string(), rule("other", "renamed", 7), at(99)).unwrap();
    assert_eq!(updated.id, "r1");
    assert_eq!(updated.updated_at, at(99));
    assert_eq!(s.rules.len(), 1);
    assert_eq!(s.rules[0].name, "renamed");
    assert_eq!(s.rules[0].priority, 7);
    let updated = update_rule(&mut s, "r1".to_string(), rule("r1", "again", 1)).unwrap();
    assert_eq!(updated.name, "again");
}

#[test]
fn delete_removes_rule_and_counter() {
    let mut s = state();
    let mut seq = rule("s", "sequence", 0);
    seq.action = RuleAction::Sequence(SequenceAction {
        steps: vec![SequenceStep {
            action: SequenceStepAction::MockResponse(MockResponseAction {
                status: 201,
                headers: Vec::new(),
                body: None,
                content_type: None,
                delay_ms: None,
            }),
        }],
    });
    create_rule(&mut s, seq.clone()).unwrap();
    create_rule(&mut s, rule("keep", "keep", 0)).unwrap();
    resolve_action(&seq, &mut s.sequence_counters);
    assert_eq!(s.sequence_counters.count(&"s".to_string()), 1);
    assert_eq!(delete_rule(&mut s, "s".to_string()).unwrap(), STATUS_NO_CONTENT);
    assert_eq!(s.sequence_counters.count(&"s".to_string()), 0);
    assert_eq!(s.rules.len(), 1);
    assert_eq!(s.rules[0].id, "keep");
    let err = delete_rule(&mut s, "s".to_string()).unwrap_err();
    assert_eq!(err.status, STATUS_NOT_FOUND);
    assert_eq!(err.body.error, "rule s not found");
    let err = update_rule(&mut s, "s".to_string(), rule("s", "back", 0)).unwrap_err();
    assert_eq!(err.status, STATUS_NOT_FOUND);
}

#[test]
fn counters_forget_removed_ids() {
    let mut counters = SequenceCounters::new();
    counters.set(&"a".to_string(), 3);
    counters.set(&"b".to_string(), 1);
    counters.set(&"a".to_string(), 4);
    assert_eq!(counters.count(&"a".to_string()), 4);
    counters.remove(&"a".to_string());
    assert_eq!(counters.count(&"a".to_string()), 0);
    assert_eq!(counters.count(&"b".to_string()), 1);
}

#[test]
fn events_are_listed_and_cleared() {
    let mut s = state();
    s.record_event(event(1));
    s.record_event(event(2));
    let ids: Vec<String> = list_events(&s).into_iter().map(|e| e.id).collect();
    assert_eq!(ids, vec!["e1", "e2"]);
    assert_eq!(status(&s).recent_event_count, 2);
    assert_eq!(clear_events(&mut s), STATUS_NO_CONTENT);
    assert!(list_events(&s).is_empty());
}

#[test]
fn event_log_keeps_the_newest_four_hundred() {
    let mut s = state();
    for n in 0..(MAX_EVENTS + 5) {
        s.record_event(event(n));
    }
    assert_eq!(MAX_EVENTS, 400);
    assert_eq!(s.events.len(), 400);
    assert_eq!(s.events.front().unwrap().id, "e5");
    assert_eq!(s.events.back().unwrap().id, "e404");
}

#[test]
fn last_error_is_reported() {
    let mut s = state();
    s.set_last_error("boom".to_string());
    assert_eq!(s.status_snapshot().last_error.as_deref(), Some("boom"));
}

#[test]
fn rewrite_check_counts_and_matches() {
    let mut s = state();
    let r = rewrite_check(&s);
    assert!(r.ok && !r.matched_enabled_rule);
    assert_eq!(r.enabled_rule_count, 0);
    let mut off = rule("off", "off", 0);
    off.enabled = false;
    create_rule(&mut s, off).unwrap();
    let mut elsewhere = rule("else", "elsewhere", 0);
    elsewhere.matcher.url_pattern = "http://other.test/*".to_string();
    create_rule(&mut s, elsewhere).unwrap();
    let r = rewrite_check(&s);
    assert!(!r.matched_enabled_rule);
    assert_eq!(r.enabled_rule_count, 1);
    create_rule(&mut s, rule("on", "on", 0)).unwrap();
    let r = rewrite_check(&s);
    assert!(r.matched_enabled_rule);
    assert_eq!(r.enabled_rule_count, 2);
}
