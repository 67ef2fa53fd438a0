use interceptkit_proxy::models::{
    MockResponseAction, RewritePassThroughAction, RewriteRule, RuleAction, RuleMatcher, TransformOps, UtcTimestamp,
};
use interceptkit_proxy::proxy::{
    absolute_uri, build_response, copy_headers, finish_forward, finish_request, handle_connect, mock_reply,
    mocked_outcome, plan_prepared, plan_request, prepare_request, ready_to_plan, simple_response, strip_hop_by_hop_headers, PlanContext, PlanStep,
    ProxyError, RequestTarget,
};
use interceptkit_proxy::rewrite::TransformError;
use interceptkit_proxy::state::{AppState, ProxyConfig};

fn state() -> AppState {
    AppState::new(ProxyConfig { proxy_port: 8081, control_port: 4592 })
}

fn header(map: &http::HeaderMap, name: &str) -> Option<String> {
    map.get(name).map(|v| v.to_str().unwrap().to_string())
}

fn strings(v: &[&str]) -> Vec<String> {
    v.iter().map(|s| s.to_string()).collect()
}

fn mock(status: u16) -> MockResponseAction {
    MockResponseAction { status, headers: Vec::new(), body: None, content_type: None, delay_ms: None }
}

fn rule(id: &str, url_pattern: &str, action: RuleAction) -> RewriteRule {
    RewriteRule {
        id: id.to_string(),
        name: format!("name-{id}"),
        enabled: true,
        priority: 0,
        matcher: RuleMatcher {
            methods: None,
            url_pattern: url_pattern.to_string(),
            header_equals: Vec::new(),
            query_equals: Vec::new(),
            body_contains: None,
        },
        action,
        tags: Vec::new(),
        created_at: UtcTimestamp { secs: 0, nanos: 0 },
        updated_at: UtcTimestamp { secs: 0, nanos: 0 },
    }
}

fn context(notes: &[&str]) -> PlanContext {
    PlanContext {
        method: "GET".to_string(),
        url: "http://example.com/a".to_string(),
        matched_rule_id: Some("r".to_string()),
        matched_rule_name: Some("name-r".to_string()),
        notes: strings(notes),
    }
}

#[test]
fn hop_by_hop_headers_are_dropped() {
    let mut headers = http::HeaderMap::new();
    for name in ["connection", "proxy-connection", "keep-alive", "te", "upgrade", "trailers"] {
        headers.insert(name, http::HeaderValue::from_static("x"));
    }
    headers.insert("proxy-authorization", http::HeaderValue::from_static("secret"));
    headers.insert("proxy-authenticate", http::HeaderValue::from_static("basic"));
    headers.insert("x-keep", http::HeaderValue::from_static("1"));
    headers.append("accept", http::HeaderValue::from_static("a"));
    headers.append("accept", http::HeaderValue::from_static("b"));
    strip_hop_by_hop_headers(&mut headers);
    assert_eq!(headers.len(), 3);
    assert_eq!(header(&headers, "x-keep").as_deref(), Some("1"));
    assert_eq!(headers.get_all("accept").iter().count(), 2);
}

#[test]
fn simple_response_is_plain_text() {
    let r = simple_response(400, "missing CONNECT authority");
    assert_eq!(r.status, 400);
    assert_eq!(r.headers.len(), 1);
    assert_eq!(header(&r.headers, "content-type").as_deref(), Some("text/plain; charset=utf-8"));
    assert_eq!(r.body, b"missing CONNECT authority".to_vec());
}

#[test]
fn mock_reply_with_headers_and_body() {
    let action = MockResponseAction {
        status: 201,
        headers: vec![("X-A".to_string(), "1".to_string()), ("bad header".to_string(), "2".to_string())],
        body: Some("hello".to_string()),
        content_type: Some("text/plain".to_string()),
        delay_ms: None,
    };
    let r = mock_reply(&action);
    assert_eq!(r.status, 201);
    assert_eq!(r.body, b"hello".to_vec());
    assert_eq!(header(&r.headers, "x-a").as_deref(), Some("1"));
    assert_eq!(header(&r.headers, "content-type").as_deref(), Some("text/plain"));
    assert_eq!(header(&r.headers, "content-length").as_deref(), Some("5"));
    assert_eq!(r.headers.len(), 3);
}

#[test]
fn mock_reply_without_body() {
    let r = mock_reply(&mock(204));
    assert_eq!(r.status, 204);
    assert!(r.body.is_empty());
    assert_eq!(header(&r.headers, "content-length").as_deref(), Some("0"));
    assert_eq!(r.headers.len(), 1);
}

#[test]
fn mock_reply_with_invalid_status_is_a_500() {
    let r = mock_reply(&mock(1000));
    assert_eq!(r.status, 500);
    assert_eq!(r.body, b"failed to build mocked response".to_vec());
    let r = mock_reply(&mock(42));
    assert_eq!(r.status, 500);
}

#[test]
fn build_response_copies_headers_and_sets_length() {
    let mut headers = http::HeaderMap::new();
    headers.insert("content-length", http::HeaderValue::from_static("1"));
    headers.append("x-multi", http::HeaderValue::from_static("a"));
    headers.append("x-multi", http::HeaderValue::from_static("b"));
    let r = build_response(202, &headers, b"four".to_vec());
    assert_eq!(r.status, 202);
    assert_eq!(header(&r.headers, "content-length").as_deref(), Some("4"));
    assert_eq!(r.headers.get_all("x-multi").iter().count(), 1);
    assert_eq!(r.body, b"four".to_vec());
    let r = build_response(5, &headers, Vec::new());
    assert_eq!(r.status, 500);
    assert_eq!(r.body, b"response build error".to_vec());
}

#[test]
fn copy_headers_keeps_one_value_per_name() {
    let mut headers = http::HeaderMap::new();
    headers.append("x-a", http::HeaderValue::from_static("1"));
    headers.append("x-a", http::HeaderValue::from_static("2"));
    headers.insert("x-b", http::HeaderValue::from_static("3"));
    let copy = copy_headers(&headers);
    assert_eq!(copy.len(), 2);
    assert_eq!(header(&copy, "x-a").as_deref(), Some("2"));
    assert_eq!(header(&copy, "x-b").as_deref(), Some("3"));
}

#[test]
fn absolute_uri_cases() {
    let headers = http::HeaderMap::new();
    let absolute = RequestTarget {
        has_scheme: true,
        has_authority: true,
        text: "http://example.com/x?y=1".to_string(),
        path_and_query: Some("/x?y=1".to_string()),
    };
    assert_eq!(absolute_uri(&absolute, &headers).unwrap(), "http://example.com/x?y=1");

    let origin = RequestTarget {
        has_scheme: false,
        has_authority: false,
        text: "/path?q=1".to_string(),
        path_and_query: Some("/path?q=1".to_string()),
    };
    let err = absolute_uri(&origin, &headers).unwrap_err();
    assert!(matches!(err, ProxyError::MissingHost));
    assert_eq!(err.message(), "missing host header for origin-form request");

    let mut with_host = http::HeaderMap::new();
    with_host.insert("host", http::HeaderValue::from_static("example.com:8080"));
    assert_eq!(absolute_uri(&origin, &with_host).unwrap(), "http://example.com:8080/path?q=1");

    let bare = RequestTarget { has_scheme: false, has_authority: false, text: String::new(), path_and_query: None };
    assert_eq!(absolute_uri(&bare, &with_host).unwrap(), "http://example.com:8080/");

    let mut bad_host = http::HeaderMap::new();
    bad_host.insert("host", http::HeaderValue::from_static("exa mple"));
    let err = absolute_uri(&origin, &bad_host).unwrap_err();
    assert!(matches!(err, ProxyError::InvalidUri(_)));
    assert_eq!(err.message(), "failed to parse uri http://exa mple/path?q=1");
}

#[test]
fn plan_passes_through_without_a_rule() {
    let mut s = state();
    let mut headers = http::HeaderMap::new();
    headers.insert("connection", http::HeaderValue::from_static("keep-alive"));
    headers.insert("x-app", http::HeaderValue::from_static("1"));
    assert!(ready_to_plan(&s, &http::HeaderMap::new()));
    let plan = plan_request(&mut s, &"get".to_string(), &"http://example.com/a".to_string(), headers, b"body".to_vec());
    assert!(plan.delay_ms.is_none());
    assert!(plan.context.matched_rule_id.is_none());
    assert!(plan.context.notes.is_empty());
    match plan.step {
        PlanStep::Forward { headers, body, response_transform, matched } => {
            assert!(!matched);
            assert!(response_transform.is_none());
            assert_eq!(body, b"body".to_vec());
            assert_eq!(headers.len(), 1);
            assert_eq!(header(&headers, "x-app").as_deref(), Some("1"));
        }
        _ => panic!("expected forward"),
    }
}

#[test]
fn plan_ignores_rules_when_interception_is_off() {
    let mut s = state();
    s.rules.push(rule("r", "*", RuleAction::MockResponse(mock(200))));
    s.flags.interception_enabled = false;
    let plan = plan_request(&mut s, &"GET".to_string(), &"http://example.com/a".to_string(), http::HeaderMap::new(), Vec::new());
    assert!(plan.context.matched_rule_id.is_none());
    assert!(matches!(plan.step, PlanStep::Forward { matched: false, .. }));
}

#[test]
fn plan_answers_with_a_mock() {
    let mut s = state();
    let mut action = mock(418);
    action.body = Some("teapot".to_string());
    action.delay_ms = Some(25);
    s.rules.push(rule("r", "http://example.com/*", RuleAction::MockResponse(action)));
    let plan = plan_request(&mut s, &"GET".to_string(), &"http://example.com/a".to_string(), http::HeaderMap::new(), Vec::new());
    assert_eq!(plan.delay_ms, Some(25));
    assert_eq!(plan.context.matched_rule_id.as_deref(), Some("r"));
    assert_eq!(plan.context.matched_rule_name.as_deref(), Some("name-r"));
    assert_eq!(
        plan.context.notes,
        strings(&["urlPattern=http://example.com/* matched", "action=mockResponse", "delayMs=25"])
    );
    let reply = match plan.step {
        PlanStep::Respond(reply) => reply,
        _ => panic!("expected a mock"),
    };
    assert_eq!(reply.status, 418);
    assert_eq!(reply.body, b"teapot".to_vec());
    let outcome = mocked_outcome(plan.context, reply);
    assert_eq!(outcome.event.decision, "mocked");
    assert_eq!(outcome.event.status, Some(418));
    assert_eq!(outcome.event.url, "http://example.com/a");
    assert_eq!(outcome.event.matched_rule_id.as_deref(), Some("r"));
    assert_eq!(outcome.event.id.len(), 36);
}

#[test]
fn plan_edits_the_forwarded_request() {
    let mut s = state();
    let request = TransformOps {
        set_headers: vec![("X-Added".to_string(), "yes".to_string())],
        remove_headers: strings(&["x-drop"]),
        replace_body: Some("new".to_string()),
        json_set: Vec::new(),
    };
    let response = TransformOps { set_headers: Vec::new(), remove_headers: Vec::new(), replace_body: None, json_set: Vec::new() };
    let action = RewritePassThroughAction { request: Some(request), response: Some(response), delay_ms: None };
    s.rules.push(rule("r", "*", RuleAction::RewritePassThrough(action)));
    let mut headers = http::HeaderMap::new();
    headers.insert("x-drop", http::HeaderValue::from_static("1"));
    let plan = plan_request(&mut s, &"POST".to_string(), &"http://example.com/a".to_string(), headers, b"old".to_vec());
    assert_eq!(
        plan.context.notes,
        strings(&["urlPattern=* matched", "action=rewritePassThrough", "setHeader:x-added", "removeHeader:x-drop", "replaceBody"])
    );
    match plan.step {
        PlanStep::Forward { headers, body, response_transform, matched } => {
            assert!(matched);
            assert!(response_transform.is_some());
            assert_eq!(body, b"new".to_vec());
            assert_eq!(header(&headers, "x-added").as_deref(), Some("yes"));
            assert!(header(&headers, "x-drop").is_none());
            assert_eq!(header(&headers, "content-length").as_deref(), Some("3"));
        }
        _ => panic!("expected forward"),
    }
}

#[test]
fn plan_fails_on_a_bad_json_edit() {
    let mut s = state();
    let request = TransformOps {
        set_headers: Vec::new(),
        remove_headers: Vec::new(),
        replace_body: None,
        json_set: vec![("k".to_string(), serde_json::Value::from(1))],
    };
    let action = RewritePassThroughAction { request: Some(request), response: None, delay_ms: None };
    s.rules.push(rule("r", "*", RuleAction::RewritePassThrough(action)));
    let plan = plan_request(&mut s, &"POST".to_string(), &"http://example.com/a".to_string(), http::HeaderMap::new(), b"oops".to_vec());
    match plan.step {
        PlanStep::Fail(ProxyError::Transform(TransformError::BodyNotJson)) => {}
        _ => panic!("expected a transform failure"),
    }
}

#[test]
fn finish_forward_decisions() {
    let mut upstream = http::HeaderMap::new();
    upstream.insert("connection", http::HeaderValue::from_static("close"));
    upstream.insert("x-up", http::HeaderValue::from_static("1"));

    let outcome = match finish_forward(context(&[]), None, false, 200, upstream.clone(), b"ok".to_vec()) {
        Ok(o) => o,
        Err(_) => panic!("expected an outcome"),
    };
    assert_eq!(outcome.event.decision, "passthrough");
    assert_eq!(outcome.event.status, Some(200));
    assert_eq!(outcome.response.status, 200);
    assert!(header(&outcome.response.headers, "connection").is_none());
    assert_eq!(header(&outcome.response.headers, "content-length").as_deref(), Some("2"));

    let outcome = match finish_forward(context(&["a"]), None, true, 404, upstream.clone(), Vec::new()) {
        Ok(o) => o,
        Err(_) => panic!("expected an outcome"),
    };
    assert_eq!(outcome.event.decision, "matched-passthrough");
    assert_eq!(outcome.event.notes, strings(&["a"]));

    let edit = TransformOps {
        set_headers: vec![("x-edited".to_string(), "1".to_string())],
        remove_headers: Vec::new(),
        replace_body: Some("changed".to_string()),
        json_set: Vec::new(),
    };
    let outcome = match finish_forward(context(&["a"]), Some(edit), true, 200, upstream.clone(), b"ok".to_vec()) {
        Ok(o) => o,
        Err(_) => panic!("expected an outcome"),
    };
    assert_eq!(outcome.event.decision, "rewritten");
    assert_eq!(outcome.event.notes, strings(&["a", "setHeader:x-edited", "replaceBody"]));
    assert_eq!(outcome.response.body, b"changed".to_vec());
    assert_eq!(header(&outcome.response.headers, "content-length").as_deref(), Some("7"));

    let bad = TransformOps {
        set_headers: Vec::new(),
        remove_headers: Vec::new(),
        replace_body: None,
        json_set: vec![("k".to_string(), serde_json::Value::from(1))],
    };
    match finish_forward(context(&[]), Some(bad), true, 200, upstream, b"[]".to_vec()) {
        Err(ProxyError::Transform(TransformError::BodyNotObject)) => {}
        _ => panic!("expected a transform failure"),
    }
}

#[test]
fn finish_request_logs_and_answers() {
    let mut s = state();
    let outcome = mocked_outcome(context(&[]), simple_response(200, "fine"));
    let reply = finish_request(&mut s, &"GET".to_string(), &"/a".to_string(), Ok(outcome));
    assert_eq!(reply.status, 200);
    assert_eq!(s.events.len(), 1);
    assert_eq!(s.events[0].decision, "mocked");
    assert!(s.flags.last_error.is_none());

    let reply = finish_request(&mut s, &"GET".to_string(), &"/a".to_string(), Err(ProxyError::MissingHost));
    assert_eq!(reply.status, 502);
    assert_eq!(reply.body, b"interceptkit proxy failed to process request".to_vec());
    assert_eq!(
        s.flags.last_error.as_deref(),
        Some("proxy processing error: missing host header for origin-form request")
    );
    let event = s.events.back().unwrap();
    assert_eq!(event.decision, "error");
    assert_eq!(event.status, Some(502));
    assert_eq!(event.url, "/a");
    assert_eq!(event.notes, strings(&["missing host header for origin-form request"]));
    assert_eq!(s.events.len(), 2);
}

#[test]
fn connect_needs_an_authority() {
    let mut s = state();
    let reply = handle_connect(&mut s, &"CONNECT".to_string(), &"".to_string(), &String::new(), &"127.0.0.1:5000".to_string());
    assert_eq!(reply.status, 400);
    assert_eq!(reply.body, b"missing CONNECT authority".to_vec());
    assert!(s.events.is_empty());

    let reply = handle_connect(
        &mut s,
        &"CONNECT".to_string(),
        &"example.com:443".to_string(),
        &"example.com:443".to_string(),
        &"127.0.0.1:5000".to_string(),
    );
    assert_eq!(reply.status, 200);
    assert!(reply.headers.is_empty() && reply.body.is_empty());
    let event = s.events.back().unwrap();
    assert_eq!(event.decision, "connect-tunnel");
    assert_eq!(event.status, Some(200));
    assert_eq!(event.notes, strings(&["remote=127.0.0.1:5000"]));
    assert_eq!(event.method, "CONNECT");
}

#[test]
fn error_messages() {
    assert_eq!(ProxyError::Upstream("upstream request failed".to_string()).message(), "upstream request failed");
    assert_eq!(
        ProxyError::Transform(TransformError::BodyNotObject).message(),
        "jsonSet requires JSON object body"
    );
}

#[test]
fn stripping_twice_changes_nothing_more() {
    let mut headers = http::HeaderMap::new();
    headers.insert("upgrade", http::HeaderValue::from_static("websocket"));
    headers.insert("x-a", http::HeaderValue::from_static("1"));
    strip_hop_by_hop_headers(&mut headers);
    let once = headers.clone();
    strip_hop_by_hop_headers(&mut headers);
    assert_eq!(headers, once);
    assert_eq!(headers.len(), 1);
}

#[test]
fn plan_reads_the_body_as_text() {
    let mut s = state();
    let mut m = RuleMatcher {
        methods: Some(strings(&["post"])),
        url_pattern: "*".to_string(),
        header_equals: vec![("X-Mode".to_string(), "test".to_string())],
        query_equals: vec![("v".to_string(), "1".to_string())],
        body_contains: Some("needle".to_string()),
    };
    let mut r = rule("r", "*", RuleAction::MockResponse(mock(200)));
    r.matcher = m.clone();
    s.rules.push(r);
    let mut headers = http::HeaderMap::new();
    headers.insert("x-mode", http::HeaderValue::from_static("test"));
    let mut body = vec![0xff];
    body.extend_from_slice(b" a needle ");
    let plan = plan_request(&mut s, &"post".to_string(), &"http://example.com/?v=1".to_string(), headers, body);
    assert_eq!(
        plan.context.notes,
        strings(&[
            "method=POST matched",
            "urlPattern=* matched",
            "header x-mode matched",
            "query v matched",
            "bodyContains matched",
            "action=mockResponse",
        ])
    );
    m.body_contains = Some("absent".to_string());
    s.rules[0].matcher = m;
    let plan = plan_request(&mut s, &"POST".to_string(), &"http://example.com/?v=1".to_string(), http::HeaderMap::new(), Vec::new());
    assert!(plan.context.matched_rule_id.is_none());
}

#[test]
fn prepared_request_is_planned() {
    let mut s = state();
    s.rules.push(rule("r", "http://example.com/*", RuleAction::MockResponse(mock(202))));
    let mut headers = http::HeaderMap::new();
    headers.insert("keep-alive", http::HeaderValue::from_static("5"));
    headers.insert("X-Trace", http::HeaderValue::from_static("t1"));
    let method = "delete".to_string();
    let url = "http://example.com/items?id=7".to_string();
    let body = b"payload".to_vec();
    let normalized = prepare_request(&method, &url, &mut headers, &body);
    assert_eq!(normalized.method, "DELETE");
    assert_eq!(normalized.headers, vec![("x-trace".to_string(), "t1".to_string())]);
    assert_eq!(normalized.query, vec![("id".to_string(), "7".to_string())]);
    assert_eq!(normalized.body_text, "payload");
    assert_eq!(headers.len(), 1);
    let plan = plan_prepared(&mut s, &method, &url, &normalized, headers, body);
    assert_eq!(plan.context.method, "delete");
    assert!(matches!(plan.step, PlanStep::Respond(ref reply) if reply.status == 202));
}

#[test]
fn unreadable_host_is_missing() {
    let origin = RequestTarget {
        has_scheme: false,
        has_authority: false,
        text: "/p".to_string(),
        path_and_query: Some("/p".to_string()),
    };
    let mut headers = http::HeaderMap::new();
    headers.insert("host", http::HeaderValue::from_bytes(&[0x80, b'a']).unwrap());
    assert!(matches!(absolute_uri(&origin, &headers), Err(ProxyError::MissingHost)));
}

#[test]
fn readiness_only_matters_with_interception_on() {
    let mut s = state();
    let mut big = mock(200);
    big.headers = (0..6600).map(|n| (format!("x-{n}"), "v".to_string())).collect();
    s.rules.push(rule("big", "*", RuleAction::MockResponse(big)));
    assert!(!ready_to_plan(&s, &http::HeaderMap::new()));
    s.rules[0].enabled = false;
    assert!(ready_to_plan(&s, &http::HeaderMap::new()));
    s.rules[0].enabled = true;
    s.flags.interception_enabled = false;
    assert!(ready_to_plan(&s, &http::HeaderMap::new()));
}

#[test]
fn the_first_host_value_is_read() {
    let origin = RequestTarget {
        has_scheme: false,
        has_authority: false,
        text: "/p".to_string(),
        path_and_query: Some("/p".to_string()),
    };
    let mut headers = http::HeaderMap::new();
    headers.append("host", http::HeaderValue::from_static("first.test"));
    headers.append("host", http::HeaderValue::from_static("second.test"));
    assert_eq!(absolute_uri(&origin, &headers).unwrap(), "http://first.test/p");
    let mut unreadable_first = http::HeaderMap::new();
    unreadable_first.append("host", http::HeaderValue::from_bytes(&[0x80]).unwrap());
    unreadable_first.append("host", http::HeaderValue::from_static("second.test"));
    assert!(matches!(absolute_uri(&origin, &unreadable_first), Err(ProxyError::MissingHost)));
}
