use interceptkit_proxy::models::TransformOps;
use interceptkit_proxy::rewrite::{apply_transform, TransformError};

fn ops() -> TransformOps {
    TransformOps { set_headers: Vec::new(), remove_headers: Vec::new(), replace_body: None, json_set: Vec::new() }
}

fn header(map: &http::HeaderMap, name: &str) -> Option<String> {
    map.get(name).map(|v| v.to_str().unwrap().to_string())
}

fn strings(v: &[&str]) -> Vec<String> {
    v.iter().map(|s| s.to_string()).collect()
}

#[test]
fn header_edits_and_body_replacement() {
    let mut headers = http::HeaderMap::new();
    headers.insert("x-old", http::HeaderValue::from_static("1"));
    headers.insert("x-keep", http::HeaderValue::from_static("2"));
    let mut body = b"initial".to_vec();
    let mut t = ops();
    t.set_headers = vec![("X-New".to_string(), "fresh".to_string()), ("bad name".to_string(), "v".to_string())];
    t.remove_headers = strings(&["X-Old"]);
    t.replace_body = Some("replaced!".to_string());
    let notes = apply_transform(&mut headers, &mut body, &t).unwrap();
    assert_eq!(notes, strings(&["setHeader:x-new", "removeHeader:x-old", "replaceBody"]));
    assert_eq!(body, b"replaced!".to_vec());
    assert_eq!(header(&headers, "x-new").as_deref(), Some("fresh"));
    assert_eq!(header(&headers, "x-old"), None);
    assert_eq!(header(&headers, "x-keep").as_deref(), Some("2"));
    assert_eq!(header(&headers, "content-length").as_deref(), Some("9"));
    assert!(header(&headers, "bad name").is_none());
}

#[test]
fn no_edits_still_sets_content_length() {
    let mut headers = http::HeaderMap::new();
    headers.insert("content-length", http::HeaderValue::from_static("999"));
    let mut body = b"abc".to_vec();
    let notes = apply_transform(&mut headers, &mut body, &ops()).unwrap();
    assert!(notes.is_empty());
    assert_eq!(body, b"abc".to_vec());
    assert_eq!(header(&headers, "content-length").as_deref(), Some("3"));
    assert_eq!(headers.len(), 1);
}

#[test]
fn json_set_on_object_body() {
    let mut headers = http::HeaderMap::new();
    let mut body = br#"{"a":1}"#.to_vec();
    let mut t = ops();
    t.json_set = vec![("b".to_string(), serde_json::Value::from(2)), ("a".to_string(), serde_json::Value::from("x"))];
    let notes = apply_transform(&mut headers, &mut body, &t).unwrap();
    assert_eq!(notes, strings(&["jsonSet:b", "jsonSet:a"]));
    let parsed: serde_json::Value = serde_json::from_slice(&body).unwrap();
    let expected: serde_json::Value = serde_json::from_str(r#"{"a":"x","b":2}"#).unwrap();
    assert_eq!(parsed, expected);
    assert_eq!(header(&headers, "content-type").as_deref(), Some("application/json"));
    assert_eq!(header(&headers, "content-length"), Some(body.len().to_string()));
}

#[test]
fn json_set_keeps_existing_content_type() {
    let mut headers = http::HeaderMap::new();
    headers.insert("content-type", http::HeaderValue::from_static("application/vnd.api+json"));
    let mut body = Vec::new();
    let mut t = ops();
    t.json_set = vec![("ok".to_string(), serde_json::Value::from(true))];
    apply_transform(&mut headers, &mut body, &t).unwrap();
    assert_eq!(body, br#"{"ok":true}"#.to_vec());
    assert_eq!(header(&headers, "content-type").as_deref(), Some("application/vnd.api+json"));
    assert_eq!(header(&headers, "content-length").as_deref(), Some("11"));
}

#[test]
fn json_set_refuses_bodies_that_are_not_objects() {
    let mut t = ops();
    t.json_set = vec![("k".to_string(), serde_json::Value::from(1))];

    let mut headers = http::HeaderMap::new();
    let mut body = b"not json".to_vec();
    let err = apply_transform(&mut headers, &mut body, &t).unwrap_err();
    assert!(matches!(err, TransformError::BodyNotJson));
    assert_eq!(err.message(), "failed to parse body as JSON for jsonSet transform");
    assert_eq!(body, b"not json".to_vec());
    assert!(header(&headers, "content-length").is_none());

    let mut body = b"[1,2]".to_vec();
    let err = apply_transform(&mut headers, &mut body, &t).unwrap_err();
    assert!(matches!(err, TransformError::BodyNotObject));
    assert_eq!(err.message(), "jsonSet requires JSON object body");
}

#[test]
fn json_set_after_body_replacement() {
    let mut headers = http::HeaderMap::new();
    let mut body = b"ignored".to_vec();
    let mut t = ops();
    t.replace_body = Some(r#"{"n":0}"#.to_string());
    t.json_set = vec![("n".to_string(), serde_json::Value::from(1))];
    let notes = apply_transform(&mut headers, &mut body, &t).unwrap();
    assert_eq!(notes, strings(&["replaceBody", "jsonSet:n"]));
    assert_eq!(body, br#"{"n":1}"#.to_vec());
}

#[test]
fn applying_edits_twice_is_applying_them_once() {
    let mut t = ops();
    t.set_headers = vec![("X-New".to_string(), "v".to_string()), ("content-length".to_string(), "1".to_string())];
    t.remove_headers = strings(&["x-old", "content-type"]);
    t.replace_body = Some(r#"{"a":1}"#.to_string());
    t.json_set = vec![("b".to_string(), serde_json::Value::from(2))];
    let mut headers = http::HeaderMap::new();
    headers.insert("x-old", http::HeaderValue::from_static("1"));
    headers.insert("x-keep", http::HeaderValue::from_static("k"));
    let mut body = b"anything".to_vec();
    let first = apply_transform(&mut headers, &mut body, &t).unwrap();
    let (h1, b1) = (headers.clone(), body.clone());
    let second = apply_transform(&mut headers, &mut body, &t).unwrap();
    assert_eq!(first, second);
    assert_eq!(headers, h1);
    assert_eq!(body, b1);
}
