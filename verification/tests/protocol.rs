use mcp_filesystem::protocol::{IdShape, JsonRpcRequest, JsonRpcResponse, RequestShape};
use serde_json::Value;

fn shape(is_object: bool, v2: bool, method: Option<&str>, id: IdShape) -> RequestShape {
    RequestShape {
        is_object,
        jsonrpc_is_2_0: v2,
        method: method.map(|m| m.to_string()),
        id,
    }
}

#[test]
fn validates_jsonrpc_request() {
    assert!(JsonRpcRequest::from_parts(
        shape(true, true, Some("ping"), IdShape::Valid),
        None,
        Some(Value::Number(1.into()))
    )
    .is_ok());
    assert!(JsonRpcRequest::from_parts(shape(true, false, Some("ping"), IdShape::Absent), None, None).is_err());
    assert!(JsonRpcRequest::from_parts(shape(false, false, None, IdShape::Absent), None, None).is_err());
}

#[test]
fn test_response_success() {
    let mut obj = serde_json::Map::new();
    obj.insert("content".to_string(), Value::String("hello".to_string()));
    let resp = JsonRpcResponse::success(Some(Value::Number(1.into())), Value::Object(obj));
    assert_eq!(resp.jsonrpc, "2.0");
    assert!(resp.result.is_some());
    assert!(resp.error.is_none());
}

#[test]
fn test_response_error() {
    let resp = JsonRpcResponse::error(
        Some(Value::Number(1.into())),
        -32602,
        "Invalid params".into(),
    );
    assert!(resp.result.is_none());
    let err = resp.error.unwrap();
    assert_eq!(err.code, -32602);
}

#[test]
fn request_validation_messages() {
    let e = JsonRpcRequest::from_parts(shape(true, true, Some(""), IdShape::Valid), None, None)
        .err()
        .unwrap();
    assert_eq!(e.to_string(), "Invalid request: method must be a non-empty string");
    assert_eq!(e.error_code(), -32600);
    let e = JsonRpcRequest::from_parts(shape(true, true, Some("x"), IdShape::Invalid), None, None)
        .err()
        .unwrap();
    assert_eq!(e.to_string(), "Invalid request: id must be a string, number, or null");
    let ok = JsonRpcRequest::from_parts(shape(true, true, Some("tools/list"), IdShape::Absent), None, None)
        .unwrap();
    assert_eq!(ok.method, "tools/list");
    assert!(ok.id.is_none());
}
