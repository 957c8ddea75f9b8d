//! JSON-RPC 2.0 messages: what makes a request valid, and the shape of
//! responses.

use vstd::prelude::*;

use crate::errors::MCSError;

verus! {

#[verifier::external_type_specification]
#[verifier::external_body]
pub struct ExJsonValue(serde_json::Value);

/// A JSON-RPC request.
pub struct JsonRpcRequest {
    pub jsonrpc: String,
    pub method: String,
    pub params: Option<serde_json::Value>,
    pub id: Option<serde_json::Value>,
}

/// A JSON-RPC error object.
pub struct JsonRpcError {
    pub code: i64,
    pub message: String,
    pub data: Option<serde_json::Value>,
}

/// A JSON-RPC response: a result or an error, for the request's id.
pub struct JsonRpcResponse {
    pub jsonrpc: String,
    pub result: Option<serde_json::Value>,
    pub error: Option<JsonRpcError>,
    pub id: Option<serde_json::Value>,
}

/// The `id` member of a message, as validation sees it.
#[derive(Debug, Clone, Copy, PartialEq, Eq, Structural)]
pub enum IdShape {
    /// No `id` member: a notification.
    Absent,
    /// A string, a number or `null`.
    Valid,
    /// Anything else.
    Invalid,
}

/// What validation reads of a JSON message.
pub struct RequestShape {
    /// The message is a JSON object.
    pub is_object: bool,
    /// Its `jsonrpc` member is the string `2.0`.
    pub jsonrpc_is_2_0: bool,
    /// Its `method` member, when that is a string.
    pub method: Option<String>,
    pub id: IdShape,
}

/// The method of a valid request, or why the message is not one.
pub open spec fn validate_spec(s: RequestShape) -> Result<Seq<char>, Seq<char>> {
    if !s.is_object {
        Err("request must be a JSON object"@)
    } else if !s.jsonrpc_is_2_0 {
        Err("jsonrpc must be \"2.0\""@)
    } else {
        match s.method {
            Some(m) => if m@.len() == 0 {
                Err("method must be a non-empty string"@)
            } else if s.id == IdShape::Invalid {
                Err("id must be a string, number, or null"@)
            } else {
                Ok(m@)
            },
            None => Err("method must be a non-empty string"@),
        }
    }
}

/// Checks a JSON message against the JSON-RPC 2.0 request rules and gives
/// its method.
pub fn validate_request(shape: RequestShape) -> (r: Result<String, MCSError>)
    ensures
        match validate_spec(shape) {
            Ok(m) => r matches Ok(s) && s@ == m,
            Err(why) => r matches Err(e) && (e matches MCSError::InvalidRequest(t) && t@ == why),
        },
{
    if !shape.is_object {
        return Err(MCSError::InvalidRequest("request must be a JSON object".to_owned()));
    }
    if !shape.jsonrpc_is_2_0 {
        return Err(MCSError::InvalidRequest("jsonrpc must be \"2.0\"".to_owned()));
    }
    let method = match shape.method {
        Some(m) => m,
        None => return Err(MCSError::InvalidRequest("method must be a non-empty string".to_owned())),
    };
    if crate::text::str_chars(method.as_str()).len() == 0 {
        return Err(MCSError::InvalidRequest("method must be a non-empty string".to_owned()));
    }
    if shape.id == IdShape::Invalid {
        return Err(MCSError::InvalidRequest("id must be a string, number, or null".to_owned()));
    }
    Ok(method)
}

impl JsonRpcRequest {
    /// Builds a request from a validated message's parts.
    pub fn from_parts(
        shape: RequestShape,
        params: Option<serde_json::Value>,
        id: Option<serde_json::Value>,
    ) -> (r: Result<JsonRpcRequest, MCSError>)
        ensures
            match validate_spec(shape) {
                Ok(m) => r matches Ok(q) && q.method@ == m && q.jsonrpc@ == "2.0"@ && q.params == params
                    && q.id == id,
                Err(why) => r matches Err(e) && (e matches MCSError::InvalidRequest(t) && t@ == why),
            },
    {
        match validate_request(shape) {
            Ok(method) => Ok(JsonRpcRequest { jsonrpc: "2.0".to_owned(), method, params, id }),
            Err(e) => Err(e),
        }
    }
}

impl JsonRpcResponse {
    pub fn success(id: Option<serde_json::Value>, result: serde_json::Value) -> (r: Self)
        ensures
            r.jsonrpc@ == "2.0"@,
            r.result == Some(result),
            r.error is None,
            r.id == id,
    {
        JsonRpcResponse { jsonrpc: "2.0".to_owned(), result: Some(result), error: None, id }
    }

    pub fn error(id: Option<serde_json::Value>, code: i64, message: String) -> (r: Self)
        ensures
            r.jsonrpc@ == "2.0"@,
            r.result is None,
            r.error matches Some(e) && e.code == code && e.message == message && e.data is None,
            r.id == id,
    {
        JsonRpcResponse {
            jsonrpc: "2.0".to_owned(),
            result: None,
            error: Some(JsonRpcError { code, message, data: None }),
            id,
        }
    }

    /// The response reporting an error.
    pub fn from_error(id: Option<serde_json::Value>, error: &MCSError) -> (r: Self)
        ensures
            r.result is None,
            r.error matches Some(e) && e.code == crate::errors::error_code_spec(error) && (
            crate::errors::message_spec(error) matches Some(m) ==> e.message@ == m),
            r.id == id,
    {
        JsonRpcResponse::error(id, error.error_code(), error.to_string())
    }
}

} // verus!
