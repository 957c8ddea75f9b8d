use mcp_filesystem::server::{finish_line};
use mcp_filesystem::config::{AccessMode, Config};
use mcp_filesystem::server::{
    gate_tool_call, has_browser_ui, human_title, is_supported_protocol_version, line_step,
    maybe_shrink_buffer, negotiate_protocol_version, route_method, success_layout, timeout_error,
    token_matches, tool_hints, LineStep, MCPServer, Method, ResultLayout, SuccessLayout, ToolGate,
    LATEST_PROTOCOL_VERSION,
};
use mcp_filesystem::tools::ToolCategory;

#[test]
fn token_comparison_accepts_bearer() {
    assert!(token_matches("secret", "secret"));
    assert!(token_matches("Bearer secret", "secret"));
    assert!(!token_matches("wrong", "secret"));
}

#[test]
fn protocol_versions_are_negotiated() {
    for v in ["2025-11-25", "2025-06-18", "2025-03-26", "2024-11-05"] {
        assert!(is_supported_protocol_version(v));
        assert_eq!(negotiate_protocol_version(Some(v)), v);
    }
    assert!(!is_supported_protocol_version("1900-01-01"));
    assert_eq!(negotiate_protocol_version(Some("1900-01-01")), LATEST_PROTOCOL_VERSION);
    assert_eq!(negotiate_protocol_version(None), "2025-11-25");
}

#[test]
fn methods_are_routed() {
    assert_eq!(route_method("tools/call"), Method::ToolsCall);
    assert_eq!(route_method("notifications/initialized"), Method::Notification);
    assert_eq!(route_method("resources/templates/list"), Method::ResourceTemplatesList);
    assert_eq!(route_method("no/such/method"), Method::Unknown);
}

#[test]
fn tool_calls_are_gated() {
    let mut cfg = Config::default();
    match gate_tool_call("read_text_file", &cfg.server) {
        ToolGate::Unavailable(e) => assert_eq!(e.error_code(), -32601),
        _ => panic!("a disabled tool must be unavailable"),
    }
    cfg.server.enabled_categories = vec![ToolCategory::Read, ToolCategory::Write];
    assert!(matches!(gate_tool_call("read_text_file", &cfg.server), ToolGate::Allowed));
    assert!(matches!(gate_tool_call("no_such_tool", &cfg.server), ToolGate::Unavailable(_)));
    cfg.server.access_mode = AccessMode::ReadOnly;
    match gate_tool_call("write_file", &cfg.server) {
        ToolGate::ReadOnly(m) => {
            assert_eq!(m, "Operation 'write_file' is not allowed in read-only mode")
        }
        _ => panic!("write tools are refused in read-only mode"),
    }
    let server = MCPServer::new(cfg);
    assert_eq!(server.config().server.access_mode, AccessMode::ReadOnly);
}

#[test]
fn descriptors_get_titles_and_hints() {
    assert_eq!(human_title("list_directory_with_sizes"), "List Directory With Sizes");
    assert_eq!(human_title("a__b_"), "A  B ");
    assert_eq!(human_title(""), "");
    let h = tool_hints("read_text_file");
    assert!(h.read_only && !h.destructive && !h.idempotent);
    let h = tool_hints("write_file");
    assert!(!h.read_only && h.destructive && h.idempotent);
    assert!(tool_hints("csv_select_column_range").read_only);
    assert!(has_browser_ui("list_directory"));
    assert!(!has_browser_ui("write_file"));
}

#[test]
fn capped_line_steps() {
    assert_eq!(line_step(0, b"", 10), LineStep::Eof);
    assert_eq!(line_step(3, b"", 10), LineStep::Finish);
    assert_eq!(line_step(0, b"ab\ncd", 10), LineStep::Complete { take: 3 });
    assert_eq!(line_step(8, b"ab\ncd", 10), LineStep::TooLong { consume: 3 });
    assert_eq!(line_step(0, &[b'a'; 1024], 100), LineStep::TooLong { consume: 1024 });
    assert_eq!(line_step(0, b"abc", 10), LineStep::Continue { take: 3 });
}

#[test]
fn errors_for_timeouts_and_shrinking() {
    assert_eq!(
        timeout_error(30).to_string(),
        "Filesystem error: Request timed out after 30s"
    );
    let mut big: Vec<u8> = Vec::with_capacity(2 << 20);
    big.extend_from_slice(b"xyz");
    maybe_shrink_buffer(&mut big);
    assert!(big.is_empty() || big == b"xyz");
    let mut small: Vec<u8> = b"abc".to_vec();
    maybe_shrink_buffer(&mut small);
    assert_eq!(small, b"abc");
}

#[test]
fn tool_results_include_structured_content_and_ui_meta() {
    assert_eq!(
        success_layout("list_directory", false, false, true),
        SuccessLayout { layout: ResultLayout::Wrapped { structured: true }, ui_meta: true }
    );
    assert_eq!(
        success_layout("read_text_file", true, false, true),
        SuccessLayout { layout: ResultLayout::PassThrough { add_is_error: true }, ui_meta: true }
    );
    assert_eq!(
        success_layout("write_file", true, true, true),
        SuccessLayout { layout: ResultLayout::PassThrough { add_is_error: false }, ui_meta: false }
    );
    assert_eq!(
        success_layout("hash_file", false, false, false),
        SuccessLayout { layout: ResultLayout::Wrapped { structured: false }, ui_meta: false }
    );
}

#[test]
fn browser_tools_reference_ui_resource() {
    assert!(has_browser_ui("list_directory"));
    assert!(has_browser_ui("csv_read"));
    assert!(!has_browser_ui("write_file"));
    assert_eq!(mcp_filesystem::resources::UI_RESOURCE_URI, "ui://filesystem/browser-v1.html");
}

#[test]
fn capped_reader_rejects_oversize_lines() {
    let data = vec![b'a'; 1_024];
    assert!(matches!(line_step(0, &data, 100), LineStep::TooLong { .. }));
}

#[test]
fn finished_lines_are_decoded_lossily() {
    assert_eq!(finish_line(b"{\"a\":1}\n"), "{\"a\":1}\n");
    assert_eq!(finish_line(b"ok\xffno"), "ok\u{FFFD}no");
}
