//! The server's error type and the JSON-RPC error code of each variant.

use vstd::prelude::*;

use crate::text::concat;

verus! {

#[verifier::external_type_specification]
#[verifier::external_body]
pub struct ExIoError(std::io::Error);

#[verifier::external_type_specification]
#[verifier::external_body]
pub struct ExJsonError(serde_json::Error);

/// What went wrong while serving a request.
#[derive(Debug)]
pub enum MCSError {
    ParseError(String),
    /// A JSON-RPC message that is not a valid request.
    InvalidRequest(String),
    MethodNotFound(String),
    InvalidParams(String),
    FilesystemError(String),
    IoError(std::io::Error),
    JsonError(serde_json::Error),
    PathNotAllowed(String),
    PathNotFound(String),
}

/// The JSON-RPC error code reported for an error.
pub open spec fn error_code_spec(e: &MCSError) -> int {
    match e {
        MCSError::ParseError(_) => -32700,
        MCSError::InvalidRequest(_) => -32600,
        MCSError::MethodNotFound(_) => -32601,
        MCSError::InvalidParams(_) => -32602,
        MCSError::FilesystemError(_) => -32000,
        MCSError::IoError(_) => -32003,
        MCSError::JsonError(_) => -32700,
        MCSError::PathNotAllowed(_) => -32004,
        MCSError::PathNotFound(_) => -32005,
    }
}

/// The message of an error that carries its own text: the variant's label,
/// then the text.
pub open spec fn message_spec(e: &MCSError) -> Option<Seq<char>> {
    match e {
        MCSError::ParseError(m) => Some("Parse error: "@ + m@),
        MCSError::InvalidRequest(m) => Some("Invalid request: "@ + m@),
        MCSError::MethodNotFound(m) => Some("Method not found: "@ + m@),
        MCSError::InvalidParams(m) => Some("Invalid params: "@ + m@),
        MCSError::FilesystemError(m) => Some("Filesystem error: "@ + m@),
        MCSError::PathNotAllowed(m) => Some("Path not allowed: "@ + m@),
        MCSError::PathNotFound(m) => Some("Path not found: "@ + m@),
        _ => None,
    }
}

/// The text of an I/O error (its `Display`). What the text says is up to
/// std and the operating system; nothing is stated of it.
#[verifier::external_body]
fn io_error_text(e: &std::io::Error) -> String {
    e.to_string()
}

/// The text of a JSON error (`serde_json::Error`'s `Display`), which names
/// the problem and where in the input it was found; nothing is stated of it.
#[verifier::external_body]
fn json_error_text(e: &serde_json::Error) -> String {
    e.to_string()
}

impl MCSError {
    pub fn error_code(&self) -> (r: i64)
        ensures
            r == error_code_spec(self),
    {
        match self {
            MCSError::ParseError(_) => -32700,
            MCSError::InvalidRequest(_) => -32600,
            MCSError::MethodNotFound(_) => -32601,
            MCSError::InvalidParams(_) => -32602,
            MCSError::FilesystemError(_) => -32000,
            MCSError::IoError(_) => -32003,
            MCSError::JsonError(_) => -32700,
            MCSError::PathNotAllowed(_) => -32004,
            MCSError::PathNotFound(_) => -32005,
        }
    }

    /// The error's message, as its `Display` writes it.
    pub fn to_string(&self) -> (r: String)
        ensures
            message_spec(self) matches Some(m) ==> r@ == m,
            self matches MCSError::IoError(_) ==> crate::text::is_prefix("IO error: "@, r@),
            self matches MCSError::JsonError(_) ==> crate::text::is_prefix("JSON error: "@, r@),
    {
        match self {
            MCSError::ParseError(m) => concat("Parse error: ", m.as_str()),
            MCSError::InvalidRequest(m) => concat("Invalid request: ", m.as_str()),
            MCSError::MethodNotFound(m) => concat("Method not found: ", m.as_str()),
            MCSError::InvalidParams(m) => concat("Invalid params: ", m.as_str()),
            MCSError::FilesystemError(m) => concat("Filesystem error: ", m.as_str()),
            MCSError::IoError(e) => {
                let t = io_error_text(e);
                let r = concat("IO error: ", t.as_str());
                assert(r@.take("IO error: "@.len() as int) =~= "IO error: "@);
                r
            },
            MCSError::JsonError(e) => {
                let t = json_error_text(e);
                let r = concat("JSON error: ", t.as_str());
                assert(r@.take("JSON error: "@.len() as int) =~= "JSON error: "@);
                r
            },
            MCSError::PathNotAllowed(m) => concat("Path not allowed: ", m.as_str()),
            MCSError::PathNotFound(m) => concat("Path not found: ", m.as_str()),
        }
    }
}

impl From<std::io::Error> for MCSError {
    fn from(e: std::io::Error) -> (r: MCSError) {
        MCSError::IoError(e)
    }
}

impl vstd::std_specs::convert::FromSpecImpl<std::io::Error> for MCSError {
    open spec fn obeys_from_spec() -> bool {
        true
    }

    open spec fn from_spec(e: std::io::Error) -> MCSError {
        MCSError::IoError(e)
    }
}

impl From<serde_json::Error> for MCSError {
    fn from(e: serde_json::Error) -> (r: MCSError) {
        MCSError::JsonError(e)
    }
}

impl vstd::std_specs::convert::FromSpecImpl<serde_json::Error> for MCSError {
    open spec fn obeys_from_spec() -> bool {
        true
    }

    open spec fn from_spec(e: serde_json::Error) -> MCSError {
        MCSError::JsonError(e)
    }
}

/// The error codes follow JSON-RPC 2.0: malformed JSON is a parse error
/// (-32700), a message that is no request an invalid request (-32600), an
/// unknown method "method not found" (-32601) and bad arguments "invalid
/// params" (-32602); the server's own failures use distinct codes of the
/// range reserved for server errors (-32099 to -32000). Every code lies in
/// the range JSON-RPC reserves (-32768 to -32000).
pub proof fn lemma_error_codes_follow_json_rpc(e: &MCSError, f: &MCSError)
    ensures
        -32768 <= error_code_spec(e) <= -32000,
        (e is ParseError || e is JsonError) <==> error_code_spec(e) == -32700,
        e is InvalidRequest <==> error_code_spec(e) == -32600,
        e is MethodNotFound <==> error_code_spec(e) == -32601,
        e is InvalidParams <==> error_code_spec(e) == -32602,
        (e is FilesystemError || e is IoError || e is PathNotAllowed || e is PathNotFound) <==> -32099
            <= error_code_spec(e) <= -32000,
        (e is FilesystemError || e is IoError || e is PathNotAllowed || e is PathNotFound) && (f is FilesystemError || f is IoError
            || f is PathNotAllowed || f is PathNotFound) && error_code_spec(e) == error_code_spec(f)
            ==> ((e is FilesystemError && f is FilesystemError) || (e is IoError && f is IoError) || (
        e is PathNotAllowed && f is PathNotAllowed) || (e is PathNotFound && f is PathNotFound)),
{
}

} // verus!
