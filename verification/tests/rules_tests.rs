use interceptkit_proxy::glob::wildcard_match;
use interceptkit_proxy::models::{
    MockResponseAction, ResolvedAction, RewritePassThroughAction, RewriteRule, RuleAction, RuleMatcher,
    SequenceAction, SequenceStep, SequenceStepAction, UtcTimestamp,
};
use interceptkit_proxy::rules::{
    evaluate_rule, evaluate_rule_given, matcher_fits_limits, normalize_headers, parse_query, resolve_action, select_matching_rule, NormalizedRequest,
    SequenceCounters,
};

fn epoch() -> UtcTimestamp {
    UtcTimestamp { secs: 0, nanos: 0 }
}

fn matcher(url_pattern: &str) -> RuleMatcher {
    RuleMatcher {
        methods: None,
        url_pattern: url_pattern.to_string(),
        header_equals: Vec::new(),
        query_equals: Vec::new(),
        body_contains: None,
    }
}

fn mock(status: u16) -> MockResponseAction {
    MockResponseAction { status, headers: Vec::new(), body: None, content_type: None, delay_ms: None }
}

fn rule(id: &str, priority: i32, matcher: RuleMatcher, action: RuleAction) -> RewriteRule {
    RewriteRule {
        id: id.to_string(),
        name: format!("rule {id}"),
        enabled: true,
        priority,
        matcher,
        action,
        tags: Vec::new(),
        created_at: epoch(),
        updated_at: epoch(),
    }
}

fn request(method: &str, url: &str) -> NormalizedRequest {
    NormalizedRequest {
        method: method.to_string(),
        url: url.to_string(),
        headers: Vec::new(),
        query: parse_query(url),
        body_text: String::new(),
    }
}

fn strings(v: &[&str]) -> Vec<String> {
    v.iter().map(|s| s.to_string()).collect()
}

#[test]
fn wildcard_star_matches_any_run() {
    assert!(wildcard_match("http://example.com/*", "http://example.com/a/b?c=d"));
    assert!(wildcard_match("http://example.com/*", "http://example.com/"));
    assert!(!wildcard_match("http://example.com/*", "https://example.com/a"));
    assert!(wildcard_match("*://*.example.com/*", "https://api.example.com/v1"));
}

#[test]
fn wildcard_literal_characters_are_not_regex() {
    assert!(wildcard_match("http://a.b/c?d=(1)", "http://a.b/c?d=(1)"));
    assert!(!wildcard_match("http://a.b/c", "http://axb/c"));
    assert!(!wildcard_match("a+b", "aab"));
}

#[test]
fn wildcard_is_anchored_and_stays_on_one_line() {
    assert!(!wildcard_match("example", "http://example.com"));
    assert!(!wildcard_match("*", "line one\nline two"));
    assert!(wildcard_match("*", ""));
}

#[test]
fn evaluate_exact_pattern_with_method() {
    let mut m = matcher("http://example.com/api");
    m.methods = Some(strings(&["get", "Post"]));
    let r = rule("r", 0, m, RuleAction::MockResponse(mock(200)));
    let (matched, specificity, notes) = evaluate_rule(&r, &request("GET", "http://example.com/api"));
    assert!(matched);
    assert_eq!(specificity, 20 + 30 + 22 + 50);
    assert_eq!(
        notes,
        strings(&["method=GET matched", "urlPattern=http://example.com/api matched", "urlPattern exact"])
    );
}

#[test]
fn evaluate_wildcard_pattern_specificity() {
    let r = rule("r", 0, matcher("http://example.com/*"), RuleAction::MockResponse(mock(200)));
    let (matched, specificity, notes) = evaluate_rule(&r, &request("GET", "http://example.com/x"));
    assert!(matched);
    assert_eq!(specificity, 30 + (20 - 3));
    assert_eq!(notes, strings(&["urlPattern=http://example.com/* matched"]));
}

#[test]
fn evaluate_url_boost_is_at_least_one() {
    let r = rule("r", 0, matcher("*"), RuleAction::MockResponse(mock(200)));
    let (matched, specificity, _) = evaluate_rule(&r, &request("GET", "http://x/"));
    assert!(matched);
    assert_eq!(specificity, 31);
}

#[test]
fn evaluate_method_mismatch_stops_early() {
    let mut m = matcher("*");
    m.methods = Some(strings(&["POST"]));
    let r = rule("r", 0, m, RuleAction::MockResponse(mock(200)));
    let (matched, specificity, notes) = evaluate_rule(&r, &request("GET", "http://x/"));
    assert!(!matched);
    assert_eq!(specificity, 0);
    assert!(notes.is_empty());
}

#[test]
fn evaluate_url_mismatch_keeps_method_notes() {
    let mut m = matcher("http://other/*");
    m.methods = Some(strings(&["GET"]));
    let r = rule("r", 0, m, RuleAction::MockResponse(mock(200)));
    let (matched, specificity, notes) = evaluate_rule(&r, &request("GET", "http://x/"));
    assert!(!matched);
    assert_eq!(specificity, 20);
    assert_eq!(notes, strings(&["method=GET matched"]));
}

#[test]
fn evaluate_headers_query_and_body() {
    let mut m = matcher("http://x/*");
    m.header_equals = vec![("X-Env".to_string(), "test".to_string())];
    m.query_equals = vec![("page".to_string(), "2".to_string())];
    m.body_contains = Some("needle".to_string());
    let r = rule("r", 0, m, RuleAction::MockResponse(mock(200)));
    let mut req = request("GET", "http://x/list?page=2");
    req.headers = vec![("x-env".to_string(), "test".to_string())];
    req.body_text = "hay needle hay".to_string();
    let (matched, specificity, notes) = evaluate_rule(&r, &req);
    assert!(matched);
    assert_eq!(specificity, 30 + (10 - 3) + 12 + 10 + 8);
    assert_eq!(
        notes,
        strings(&["urlPattern=http://x/* matched", "header x-env matched", "query page matched", "bodyContains matched"])
    );

    req.body_text = "nothing here".to_string();
    let (matched, specificity, _) = evaluate_rule(&r, &req);
    assert!(!matched);
    assert_eq!(specificity, 30 + 7 + 12 + 10);

    req.headers = vec![("x-env".to_string(), "prod".to_string())];
    let (matched, specificity, notes) = evaluate_rule(&r, &req);
    assert!(!matched);
    assert_eq!(specificity, 37);
    assert_eq!(notes, strings(&["urlPattern=http://x/* matched"]));
}

#[test]
fn select_prefers_priority_then_specificity_then_id() {
    let req = request("GET", "http://example.com/api");
    let wide = rule("b", 0, matcher("http://example.com/*"), RuleAction::MockResponse(mock(201)));
    let exact = rule("c", 0, matcher("http://example.com/api"), RuleAction::MockResponse(mock(202)));
    let chosen = select_matching_rule(&[wide.clone(), exact.clone()], &req).unwrap();
    assert_eq!(chosen.rule.id, "c");
    assert_eq!(chosen.specificity, 30 + 22 + 50);

    let urgent = rule("z", 5, matcher("*"), RuleAction::MockResponse(mock(203)));
    let chosen = select_matching_rule(&[exact.clone(), urgent.clone(), wide.clone()], &req).unwrap();
    assert_eq!(chosen.rule.id, "z");

    let twin = rule("a", 0, matcher("http://example.com/*"), RuleAction::MockResponse(mock(204)));
    let chosen = select_matching_rule(&[wide.clone(), twin.clone()], &req).unwrap();
    assert_eq!(chosen.rule.id, "a");
    let chosen = select_matching_rule(&[twin, wide], &req).unwrap();
    assert_eq!(chosen.rule.id, "a");
}

#[test]
fn select_skips_disabled_and_unmatched() {
    let req = request("GET", "http://example.com/api");
    let mut off = rule("a", 9, matcher("*"), RuleAction::MockResponse(mock(200)));
    off.enabled = false;
    let other = rule("b", 0, matcher("http://other/*"), RuleAction::MockResponse(mock(200)));
    assert!(select_matching_rule(&[off.clone(), other.clone()], &req).is_none());
    assert!(select_matching_rule(&[], &req).is_none());
    let on = rule("c", 0, matcher("*"), RuleAction::MockResponse(mock(200)));
    let chosen = select_matching_rule(&[off, other, on], &req).unwrap();
    assert_eq!(chosen.rule.id, "c");
    assert_eq!(chosen.notes, strings(&["urlPattern=* matched"]));
}

fn status_of(action: &ResolvedAction) -> u16 {
    match action {
        ResolvedAction::MockResponse(m) => m.status,
        ResolvedAction::RewritePassThrough(_) => 0,
    }
}

#[test]
fn sequence_steps_come_round_in_turn() {
    let steps = vec![
        SequenceStep { action: SequenceStepAction::MockResponse(mock(200)) },
        SequenceStep { action: SequenceStepAction::MockResponse(mock(201)) },
        SequenceStep { action: SequenceStepAction::MockResponse(mock(202)) },
    ];
    let r = rule("seq", 0, matcher("*"), RuleAction::Sequence(SequenceAction { steps }));
    let mut counters = SequenceCounters::new();
    let mut seen = Vec::new();
    for round in 0..7 {
        let (action, notes) = resolve_action(&r, &mut counters);
        seen.push(status_of(&action));
        assert_eq!(notes, vec![format!("action=sequence index={} total=3", round % 3)]);
    }
    assert_eq!(seen, vec![200, 201, 202, 200, 201, 202, 200]);
    assert_eq!(counters.count(&"seq".to_string()), 7);
    assert_eq!(counters.count(&"other".to_string()), 0);
}

#[test]
fn empty_sequence_falls_back_to_pass_through() {
    let r = rule("seq", 0, matcher("*"), RuleAction::Sequence(SequenceAction { steps: Vec::new() }));
    let mut counters = SequenceCounters::new();
    let (action, notes) = resolve_action(&r, &mut counters);
    match action {
        ResolvedAction::RewritePassThrough(p) => {
            assert!(p.request.is_none() && p.response.is_none() && p.delay_ms.is_none())
        }
        ResolvedAction::MockResponse(_) => panic!("expected pass-through"),
    }
    assert_eq!(notes, strings(&["action=sequence-empty-fallback"]));
    assert_eq!(counters.count(&"seq".to_string()), 0);
}

#[test]
fn plain_actions_resolve_to_themselves() {
    let r = rule("m", 0, matcher("*"), RuleAction::MockResponse(mock(418)));
    let mut counters = SequenceCounters::new();
    let (action, notes) = resolve_action(&r, &mut counters);
    assert_eq!(status_of(&action), 418);
    assert_eq!(notes, strings(&["action=mockResponse"]));

    let pass = RewritePassThroughAction { request: None, response: None, delay_ms: Some(5) };
    let r = rule("p", 0, matcher("*"), RuleAction::RewritePassThrough(pass));
    let (action, notes) = resolve_action(&r, &mut counters);
    match action {
        ResolvedAction::RewritePassThrough(p) => assert_eq!(p.delay_ms, Some(5)),
        ResolvedAction::MockResponse(_) => panic!("expected pass-through"),
    }
    assert_eq!(notes, strings(&["action=rewritePassThrough"]));
}

#[test]
fn parse_query_reads_pairs() {
    assert_eq!(
        parse_query("http://example.com/a?x=1&y=two%20words&z"),
        vec![
            ("x".to_string(), "1".to_string()),
            ("y".to_string(), "two words".to_string()),
            ("z".to_string(), String::new()),
        ]
    );
    assert!(parse_query("http://example.com/a").is_empty());
    assert!(parse_query("not a url").is_empty());
}

#[test]
fn normalize_headers_keeps_visible_values() {
    let mut headers = http::HeaderMap::new();
    headers.insert("X-Test", http::HeaderValue::from_static("value"));
    headers.insert("x-binary", http::HeaderValue::from_bytes(&[0x80, 0x81]).unwrap());
    let normalized = normalize_headers(&headers);
    assert_eq!(normalized, vec![("x-test".to_string(), "value".to_string())]);
}

#[test]
fn evaluate_given_url_verdict() {
    let r = rule("r", 0, matcher("ab*"), RuleAction::MockResponse(mock(200)));
    let req = request("GET", "zzz");
    assert_eq!(evaluate_rule_given(&r, &req, true), (true, 31, strings(&["urlPattern=ab* matched"])));
    assert_eq!(evaluate_rule_given(&r, &req, false), (false, 0, Vec::new()));
    let (matched, _, _) = evaluate_rule(&r, &req);
    assert!(!matched);
}

#[test]
fn plain_actions_resolve_at_any_count() {
    let r = rule("m", 0, matcher("*"), RuleAction::MockResponse(mock(200)));
    let mut counters = SequenceCounters::new();
    counters.set(&"m".to_string(), usize::MAX);
    let (action, _) = resolve_action(&r, &mut counters);
    assert_eq!(status_of(&action), 200);
    assert_eq!(counters.count(&"m".to_string()), usize::MAX);
}

#[test]
fn ordinary_matchers_fit_the_limits() {
    let mut m = matcher("http://example.com/*");
    assert!(matcher_fits_limits(&m));
    m.header_equals = vec![("k".to_string(), "v".to_string()); 1000];
    m.query_equals = vec![("q".to_string(), "v".to_string()); 1000];
    assert!(matcher_fits_limits(&m));
}

#[test]
fn normalize_headers_keeps_the_last_readable_value() {
    let mut headers = http::HeaderMap::new();
    headers.append("x-a", http::HeaderValue::from_static("1"));
    headers.append("x-a", http::HeaderValue::from_static("2"));
    headers.append("x-a", http::HeaderValue::from_bytes(&[0x80]).unwrap());
    let normalized = normalize_headers(&headers);
    let last = normalized.iter().rev().find(|(k, _)| k == "x-a").map(|(_, v)| v.clone());
    assert_eq!(last.as_deref(), Some("2"));
}
