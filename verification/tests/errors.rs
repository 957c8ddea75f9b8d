use mcp_filesystem::errors::MCSError;

#[test]
fn test_error_codes() {
    assert_eq!(MCSError::ParseError("".into()).error_code(), -32700);
    assert_eq!(MCSError::MethodNotFound("".into()).error_code(), -32601);
    assert_eq!(MCSError::InvalidParams("".into()).error_code(), -32602);
    assert_eq!(MCSError::FilesystemError("".into()).error_code(), -32000);
    assert_eq!(MCSError::PathNotAllowed("".into()).error_code(), -32004);
    assert_eq!(MCSError::PathNotFound("".into()).error_code(), -32005);
}

#[test]
fn test_io_error_conversion() {
    let io_err = std::io::Error::new(std::io::ErrorKind::NotFound, "file not found");
    let mcs_err: MCSError = io_err.into();
    assert_eq!(mcs_err.error_code(), -32003);
}

#[test]
fn error_messages_carry_their_label() {
    assert_eq!(
        MCSError::PathNotFound("x".into()).to_string(),
        "Path not found: x"
    );
    assert_eq!(
        MCSError::InvalidRequest("bad".into()).to_string(),
        "Invalid request: bad"
    );
    let io = std::io::Error::new(std::io::ErrorKind::Other, "boom");
    assert_eq!(MCSError::from(io).to_string(), "IO error: boom");
    let json = serde_json::from_str::<serde_json::Value>("{").unwrap_err();
    let e = MCSError::from(json);
    assert_eq!(e.error_code(), -32700);
    assert!(e.to_string().starts_with("JSON error: "));
}
