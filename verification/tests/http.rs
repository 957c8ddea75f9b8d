use mcp_filesystem::http::{
    accepts, enabled_tool_count, is_json_content_type, origin_allowed, parse_allowed_origins,
    reject_protocol_version, request_rejection, session_of, Rejection,
};
use mcp_filesystem::tools::ToolCategory;

#[test]
fn validates_same_origin_or_allowlist() {
    let host = Some("example.com");
    assert!(origin_allowed(Some("https://example.com"), host, &vec![]));

    assert!(origin_allowed(
        Some("https://apps.example.net"),
        host,
        &vec!["https://apps.example.net".into()]
    ));
    assert!(!origin_allowed(Some("https://apps.example.net"), host, &vec![]));
}

#[test]
fn parses_accept_headers() {
    let accept = Some("application/json, text/event-stream");
    assert!(accepts(accept, "application/json"));
    assert!(accepts(accept, "text/event-stream"));
}

#[test]
fn rejects_unknown_protocol_versions() {
    assert!(reject_protocol_version(Some("1900-01-01")).is_some());
}

#[test]
fn origin_edge_cases() {
    assert!(origin_allowed(None, None, &vec![]));
    assert!(!origin_allowed(Some("null"), Some("x"), &vec!["null".into()]));
    assert!(origin_allowed(Some("http://EXAMPLE.com"), Some("example.COM"), &vec![]));
    assert!(!origin_allowed(Some("example.com"), Some("example.com"), &vec![]));
    assert!(!origin_allowed(Some("https://example.com"), None, &vec![]));
}

#[test]
fn accept_and_content_type_details() {
    assert!(accepts(Some("text/html;q=0.9, */*;q=0.1"), "application/json"));
    assert!(!accepts(Some("text/html"), "application/json"));
    assert!(!accepts(None, "application/json"));
    assert!(is_json_content_type(Some("application/json; charset=utf-8")));
    assert!(!is_json_content_type(Some("text/plain")));
    assert!(!is_json_content_type(None));
    assert_eq!(
        reject_protocol_version(Some("1900-01-01")).unwrap(),
        "Unsupported MCP-Protocol-Version: 1900-01-01"
    );
    assert!(reject_protocol_version(Some("2025-06-18")).is_none());
    assert!(reject_protocol_version(None).is_none());
}

#[test]
fn admission_and_sessions() {
    assert_eq!(
        parse_allowed_origins(" https://a.example , ,https://b.example,"),
        vec!["https://a.example".to_string(), "https://b.example".to_string()]
    );
    assert_eq!(session_of(Some("")), None);
    assert_eq!(session_of(Some("abc")).unwrap(), "abc");
    assert_eq!(
        request_rejection(true, false, false, true, false),
        Some(Rejection::UnsupportedMediaType)
    );
    assert_eq!(request_rejection(false, false, false, true, false), Some(Rejection::Forbidden));
    assert_eq!(request_rejection(false, true, true, true, false), Some(Rejection::Unauthorized));
    assert_eq!(request_rejection(true, true, true, false, false), None);
    assert_eq!(enabled_tool_count(&[]), 0);
    assert_eq!(enabled_tool_count(&[ToolCategory::Delete]), 2);
    assert_eq!(enabled_tool_count(&ToolCategory::all()), 41);
}
