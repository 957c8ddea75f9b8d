use mcp_filesystem::config::{allowed_directories_for, build_allowed_trie, AccessMode, Config};
use mcp_filesystem::tools::ToolCategory;
use mcp_filesystem::Args;

#[test]
fn test_config_defaults() {
    let cfg = Config::default();
    assert_eq!(cfg.server.host, "127.0.0.1");
    assert_eq!(cfg.server.http_port, 3001);
    assert_eq!(cfg.max_file_size, 100 * 1024 * 1024);
    assert!(!cfg.server.follow_symlinks);
}

#[test]
fn test_access_mode_parse() {
    assert_eq!(
        "unrestricted".parse::<AccessMode>().unwrap(),
        AccessMode::Unrestricted
    );
    assert_eq!(
        "readonly".parse::<AccessMode>().unwrap(),
        AccessMode::ReadOnly
    );
    assert_eq!(
        "read-only".parse::<AccessMode>().unwrap(),
        AccessMode::ReadOnly
    );
    assert!("invalid".parse::<AccessMode>().is_err());
}

fn args() -> Args {
    Args {
        directories: vec![],
        host: "127.0.0.1".to_string(),
        http_port: 3001,
        log_level: "info".to_string(),
        max_file_size: 100,
        max_decompressed_size: 1024,
        stdio: false,
        health: false,
        access_mode: AccessMode::Unrestricted,
        follow_symlinks: false,
        request_timeout: 30,
        max_request_bytes: 16777216,
        max_http_body_bytes: 16777216,
        auth_token: None,
        tls_cert: None,
        tls_key: None,
        enable_all: false,
        enable_read: false,
        enable_write: false,
        enable_delete: false,
        enable_compress: false,
        enable_crypto: false,
        enable_csv: false,
    }
}

#[test]
fn access_mode_names_and_errors() {
    assert_eq!("READ-ONLY".parse::<AccessMode>().unwrap(), AccessMode::ReadOnly);
    assert_eq!(
        "x".parse::<AccessMode>().unwrap_err(),
        "Invalid access mode: x. Use 'unrestricted' or 'readonly'"
    );
    assert_eq!(AccessMode::ReadOnly.to_string(), "readonly");
}

#[test]
fn enabled_categories_follow_flags() {
    let mut a = args();
    assert!(a.enabled_categories().is_empty());
    a.enable_csv = true;
    a.enable_read = true;
    assert_eq!(
        a.enabled_categories(),
        vec![ToolCategory::Read, ToolCategory::Csv]
    );
    a.enable_all = true;
    assert_eq!(a.enabled_categories(), ToolCategory::all());
}

#[test]
fn config_from_args_scales_sizes_and_checks_tls() {
    let mut a = args();
    let cfg = Config::from_args(&a, "/work", None, None, vec!["/work".to_string()], Vec::new()).unwrap();
    assert_eq!(cfg.allowed_directories, vec!["/work".to_string()]);
    assert_eq!(cfg.max_file_size, 100 * 1024 * 1024);
    assert_eq!(cfg.max_decompressed_size, 1024 * 1024 * 1024);
    assert!(cfg.allowed_trie().contains("/work/x"));
    a.tls_cert = Some("cert.pem".to_string());
    let err = Config::from_args(&a, "/work", None, None, vec!["/work".to_string()], Vec::new()).err().unwrap();
    assert!(err.contains("--tls-cert and --tls-key"));
    let ok = Config::from_args(&a, "/work", None, Some("key.pem".to_string()), vec!["/work".to_string()], Vec::new()).unwrap();
    assert_eq!(ok.server.tls_key.as_deref(), Some("key.pem"));
    a.tls_cert = Some(String::new());
    assert!(Config::from_args(&a, "/work", None, None, vec!["/work".to_string()], Vec::new()).is_ok());
}

#[test]
fn allowed_directories_default_to_cwd() {
    let mut a = args();
    assert_eq!(allowed_directories_for(&a, "/cwd"), vec!["/cwd".to_string()]);
    a.directories = vec!["/x".to_string(), "y".to_string()];
    assert_eq!(allowed_directories_for(&a, "/cwd"), a.directories);
    let trie = build_allowed_trie(&vec!["/x".to_string()]);
    assert!(trie.contains("/x/y"));
    assert!(!trie.contains("/y"));
}

#[test]
fn rebuilding_the_trie_changes_what_is_allowed() {
    let mut cfg = Config::default();
    assert!(!cfg.allowed_trie().contains("/data/file"));
    cfg.rebuild_trie(vec!["/data".to_string()]);
    assert!(cfg.allowed_trie_ref().contains("/data/file"));
}

#[test]
fn config_keeps_the_tools_list_payload() {
    assert_eq!(Config::default().tools_list_bytes.as_slice(), br#"{"tools":[]}"#);
    let payload = br#"{"tools":[{"name":"read_text_file"}]}"#.to_vec();
    let cfg = Config::from_args(&args(), "/work", None, None, vec!["/work".to_string()], payload.clone()).unwrap();
    assert_eq!(*cfg.tools_list_bytes, payload);
}
