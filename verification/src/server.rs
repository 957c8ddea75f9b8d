//! Request-level decisions of the server: protocol negotiation, method
//! routing, tool gating, tool descriptor hints, bearer-token checks and the
//! capped line reader of the stdio transport.

use std::sync::Arc;

use sha2::Digest;
use subtle::ConstantTimeEq;
use vstd::prelude::*;

use crate::config::{AccessMode, Config, ServerConfig};
use crate::errors::MCSError;
use crate::text::{concat, is_prefix, str_chars, str_eq, str_starts_with, string_from_chars, string_push_str, trim_chars, trim_spec};
use crate::tools::{
    available_spec, is_tool_available, is_write_spec, is_write_tool, lemma_find_tool, lemma_table_rows,
    lemma_tool_names_distinct, lookup_spec, tool_table, ToolCategory,
};

verus! {

/// The newest protocol version the server speaks.
pub const LATEST_PROTOCOL_VERSION: &'static str = "2025-11-25";

/// The protocol versions the server speaks, newest first.
pub open spec fn supported_versions() -> Seq<Seq<char>> {
    seq!["2025-11-25"@, "2025-06-18"@, "2025-03-26"@, "2024-11-05"@]
}

/// The protocol versions the server speaks, newest first.
pub fn supported_protocol_versions() -> (r: Vec<&'static str>)
    ensures
        r@.map_values(|s: &str| s@) == supported_versions(),
{
    let r = vec!["2025-11-25", "2025-06-18", "2025-03-26", "2024-11-05"];
    assert(r@.map_values(|s: &str| s@) =~= supported_versions());
    r
}

pub fn is_supported_protocol_version(value: &str) -> (r: bool)
    ensures
        r == supported_versions().contains(value@),
{
    let versions = supported_protocol_versions();
    let mut i: usize = 0;
    while i < versions.len()
        invariant
            versions@.map_values(|s: &str| s@) == supported_versions(),
            i <= versions@.len(),
            forall|j: int| 0 <= j < i ==> supported_versions()[j] != value@,
        decreases versions@.len() - i,
    {
        if str_eq(versions[i], value) {
            assert(supported_versions()[i as int] == value@);
            return true;
        }
        i = i + 1;
    }
    false
}

/// The version an `initialize` request is answered with: the one the
/// client asked for when the server speaks it, otherwise the newest.
pub open spec fn negotiated_spec(requested: Option<Seq<char>>) -> Seq<char> {
    match requested {
        Some(v) => if supported_versions().contains(v) {
            v
        } else {
            LATEST_PROTOCOL_VERSION@
        },
        None => LATEST_PROTOCOL_VERSION@,
    }
}

pub fn negotiate_protocol_version<'a>(requested: Option<&'a str>) -> (r: &'a str)
    ensures
        r@ == negotiated_spec(
            match requested {
                Some(v) => Some(v@),
                None => None,
            },
        ),
{
    match requested {
        Some(v) => {
            if is_supported_protocol_version(v) {
                v
            } else {
                LATEST_PROTOCOL_VERSION
            }
        },
        None => LATEST_PROTOCOL_VERSION,
    }
}

/// The server answers every `initialize` request with a version it speaks,
/// and with the client's own version whenever it speaks that one.
pub proof fn lemma_negotiated_version_supported(requested: Option<Seq<char>>)
    ensures
        supported_versions().contains(negotiated_spec(requested)),
        requested matches Some(v) ==> (supported_versions().contains(v) ==> negotiated_spec(requested) == v),
{
    assert(supported_versions()[0] == LATEST_PROTOCOL_VERSION@);
}

/// The server: its configuration, shared with the transports.
pub struct MCPServer {
    config: Arc<Config>,
}

impl MCPServer {
    pub closed spec fn config_spec(&self) -> Config {
        *self.config
    }

    pub fn new(config: Config) -> (r: Self)
        ensures
            r.config_spec() == config,
    {
        MCPServer { config: Arc::new(config) }
    }

    pub fn from_arc(config: Arc<Config>) -> (r: Self)
        ensures
            r.config_spec() == *config,
    {
        MCPServer { config }
    }

    /// The configuration the server runs with.
    pub fn config(&self) -> (r: &Arc<Config>)
        ensures
            **r == self.config_spec(),
    {
        &self.config
    }
}

/// The JSON-RPC methods the server answers.
#[derive(Debug, Clone, Copy, PartialEq, Eq, Structural)]
pub enum Method {
    Initialize,
    ToolsList,
    ToolsCall,
    PromptsList,
    ResourcesList,
    ResourcesRead,
    ResourceTemplatesList,
    Ping,
    /// A `notifications/...` message, acknowledged with nothing.
    Notification,
    /// Anything else, answered with "method not found".
    Unknown,
}

pub open spec fn route_spec(m: Seq<char>) -> Method {
    if m == "initialize"@ {
        Method::Initialize
    } else if m == "tools/list"@ {
        Method::ToolsList
    } else if m == "tools/call"@ {
        Method::ToolsCall
    } else if m == "prompts/list"@ {
        Method::PromptsList
    } else if m == "resources/list"@ {
        Method::ResourcesList
    } else if m == "resources/read"@ {
        Method::ResourcesRead
    } else if m == "resources/templates/list"@ {
        Method::ResourceTemplatesList
    } else if m == "ping"@ {
        Method::Ping
    } else if is_prefix("notifications/"@, m) {
        Method::Notification
    } else {
        Method::Unknown
    }
}

/// Each named MCP method is routed to its own handler and no other name
/// is; a `notifications/...` name is acknowledged; every other name is
/// unknown.
pub proof fn lemma_route_exact(m: Seq<char>)
    ensures
        (route_spec(m) == Method::Initialize) <==> m == "initialize"@,
        (route_spec(m) == Method::ToolsList) <==> m == "tools/list"@,
        (route_spec(m) == Method::ToolsCall) <==> m == "tools/call"@,
        (route_spec(m) == Method::PromptsList) <==> m == "prompts/list"@,
        (route_spec(m) == Method::ResourcesList) <==> m == "resources/list"@,
        (route_spec(m) == Method::ResourcesRead) <==> m == "resources/read"@,
        (route_spec(m) == Method::ResourceTemplatesList) <==> m == "resources/templates/list"@,
        (route_spec(m) == Method::Ping) <==> m == "ping"@,
        (route_spec(m) == Method::Notification) <==> is_prefix("notifications/"@, m),
        (route_spec(m) == Method::Unknown) <==> !(m == "initialize"@ || m == "tools/list"@ || m == "tools/call"@ || m == "prompts/list"@
            || m == "resources/list"@ || m == "resources/read"@ || m == "resources/templates/list"@ || m == "ping"@) && !is_prefix("notifications/"@, m),
{
    reveal_strlit("initialize");
    reveal_strlit("tools/list");
    reveal_strlit("tools/call");
    reveal_strlit("prompts/list");
    reveal_strlit("resources/list");
    reveal_strlit("resources/read");
    reveal_strlit("resources/templates/list");
    reveal_strlit("ping");
    reveal_strlit("notifications/");
    assert("initialize"@[0] != "tools/list"@[0]);
    assert("tools/list"@[6] != "tools/call"@[6]);
    assert("initialize"@[0] != "tools/call"@[0]);
    assert("resources/list"@[10] != "resources/read"@[10]);
    assert("resources/templates/list"@.len() != "initialize"@.len());
    assert("resources/templates/list"@.len() != "tools/list"@.len());
    assert("resources/templates/list"@.len() != "tools/call"@.len());
    assert("resources/templates/list"@.len() != "prompts/list"@.len());
    assert("resources/templates/list"@.len() != "resources/list"@.len());
    assert("resources/templates/list"@.len() != "resources/read"@.len());
    assert("resources/templates/list"@.len() != "ping"@.len());
    assert("ping"@.len() != "initialize"@.len());
    assert("ping"@.len() != "tools/list"@.len());
    assert("ping"@.len() != "tools/call"@.len());
    assert("ping"@.len() != "prompts/list"@.len());
    assert("ping"@.len() != "resources/list"@.len());
    assert("ping"@.len() != "resources/read"@.len());
    let n = "notifications/"@;
    if is_prefix(n, m) {
        assert(m[0] == n[0]) by {
            assert(m.take(n.len() as int)[0] == m[0]);
        }
    }
}

/// Which handler answers a request for `method`.
pub fn route_method(method: &str) -> (r: Method)
    ensures
        r == route_spec(method@),
{
    if str_eq(method, "initialize") {
        Method::Initialize
    } else if str_eq(method, "tools/list") {
        Method::ToolsList
    } else if str_eq(method, "tools/call") {
        Method::ToolsCall
    } else if str_eq(method, "prompts/list") {
        Method::PromptsList
    } else if str_eq(method, "resources/list") {
        Method::ResourcesList
    } else if str_eq(method, "resources/read") {
        Method::ResourcesRead
    } else if str_eq(method, "resources/templates/list") {
        Method::ResourceTemplatesList
    } else if str_eq(method, "ping") {
        Method::Ping
    } else if str_starts_with(method, "notifications/") {
        Method::Notification
    } else {
        Method::Unknown
    }
}

/// The error for a method or tool that does not exist.
pub fn method_not_found(name: &str) -> (r: MCSError)
    ensures
        r matches MCSError::MethodNotFound(m) && m@ == name@,
{
    MCSError::MethodNotFound(name.to_owned())
}

/// The error for a request that ran longer than `secs` seconds.
pub fn timeout_error(secs: u64) -> (r: MCSError)
    ensures
        r matches MCSError::FilesystemError(m) && m@ == "Request timed out after "@
            + crate::text::dec_spec(secs as nat) + "s"@,
{
    let mut m = "Request timed out after ".to_owned();
    let n = crate::text::u64_to_string(secs);
    string_push_str(&mut m, n.as_str());
    string_push_str(&mut m, "s");
    MCSError::FilesystemError(m)
}

/// The error for a stdio request line longer than `max` bytes.
pub fn oversize_error(max: usize) -> (r: MCSError)
    ensures
        r matches MCSError::InvalidParams(m) && m@ == "Request exceeds maximum size of "@
            + crate::text::dec_spec(max as nat) + " bytes"@,
{
    let mut m = "Request exceeds maximum size of ".to_owned();
    let n = crate::text::u64_to_string(max as u64);
    string_push_str(&mut m, n.as_str());
    string_push_str(&mut m, " bytes");
    MCSError::InvalidParams(m)
}

/// What a `tools/call` request for a tool may do.
pub enum ToolGate {
    /// The tool does not exist or its category is disabled: answered as an
    /// unknown method.
    Unavailable(MCSError),
    /// A write tool in read-only mode: answered with a tool error carrying
    /// this message.
    ReadOnly(String),
    /// The tool runs.
    Allowed,
}

/// Whether a `tools/call` request for `name` runs its tool.
pub open spec fn gate_allows(name: Seq<char>, enabled: Seq<ToolCategory>, mode: AccessMode) -> bool {
    available_spec(name, enabled) && !(mode == AccessMode::ReadOnly && is_write_spec(name))
}

/// Decides whether a `tools/call` request for `tool_name` may run, given the
/// server's settings.
pub fn gate_tool_call(tool_name: &str, server: &ServerConfig) -> (r: ToolGate)
    ensures
        !available_spec(tool_name@, server.enabled_categories@) <==> r is Unavailable,
        r matches ToolGate::Unavailable(e) ==> (e matches MCSError::MethodNotFound(m) && m@
            == tool_name@),
        r is ReadOnly <==> (available_spec(tool_name@, server.enabled_categories@)
            && server.access_mode == AccessMode::ReadOnly && is_write_spec(tool_name@)),
        r matches ToolGate::ReadOnly(m) ==> m@ == "Operation '"@ + tool_name@
            + "' is not allowed in read-only mode"@,
        r is Allowed <==> gate_allows(tool_name@, server.enabled_categories@, server.access_mode),
{
    if !is_tool_available(tool_name, server.enabled_categories.as_slice()) {
        return ToolGate::Unavailable(method_not_found(tool_name));
    }
    if server.access_mode == AccessMode::ReadOnly && is_write_tool(tool_name) {
        let mut m = concat("Operation '", tool_name);
        string_push_str(&mut m, "' is not allowed in read-only mode");
        return ToolGate::ReadOnly(m);
    }
    ToolGate::Allowed
}

/// A tool runs only when it exists, its category is enabled, and it does
/// not write while the server is read-only.
pub proof fn lemma_gate_sound(name: Seq<char>, enabled: Seq<ToolCategory>, mode: AccessMode)
    ensures
        gate_allows(name, enabled, mode) ==> available_spec(name, enabled),
        gate_allows(name, enabled, mode) && mode == AccessMode::ReadOnly ==> !is_write_spec(name),
        enabled.len() == 0 ==> !gate_allows(name, enabled, mode),
{
}

// ── Tool descriptors ─────────────────────────────────

/// Tools whose results render in the browser UI.
pub open spec fn browser_ui_tools() -> Seq<Seq<char>> {
    seq![
        "list_allowed_directories"@,
        "list_directory"@,
        "list_directory_with_sizes"@,
        "directory_tree"@,
        "search_files"@,
        "read_text_file"@,
        "read_media_file"@,
        "csv_read"@,
    ]
}

pub open spec fn read_only_listed() -> Seq<Seq<char>> {
    seq![
        "get_file_info"@,
        "get_disk_usage"@,
        "hash_file"@,
        "directory_tree"@,
        "generate_key"@,
        "csv_read"@,
        "csv_read_column_values_range"@,
        "csv_read_row_range"@,
        "csv_select_column_range"@,
    ]
}

pub open spec fn destructive_listed() -> Seq<Seq<char>> {
    seq![
        "write_file"@,
        "edit_file"@,
        "move_file"@,
        "delete_file"@,
        "delete_directory"@,
        "set_permissions"@,
        "decompress_tar"@,
        "csv_update_cell"@,
        "csv_remove_row"@,
        "csv_remove_column"@,
        "csv_rename_column"@,
    ]
}

pub open spec fn idempotent_listed() -> Seq<Seq<char>> {
    seq!["write_file"@, "create_directory"@, "set_permissions"@]
}

/// The descriptor hints agree with what the tools do: every tool hinted
/// destructive or idempotent exists and writes, and every tool hinted
/// read-only by the list or shown in the browser UI exists and writes
/// nothing (key generation aside, which writes the key it makes).
pub proof fn lemma_hints_match_tools(name: Seq<char>)
    ensures
        destructive_listed().contains(name) ==> lookup_spec(name) is Some && is_write_spec(name),
        idempotent_listed().contains(name) ==> lookup_spec(name) is Some && is_write_spec(name),
        read_only_listed().contains(name) && name != "generate_key"@ ==> lookup_spec(name) is Some
            && !is_write_spec(name),
        browser_ui_tools().contains(name) ==> lookup_spec(name) is Some && !is_write_spec(name),
{
    lemma_table_rows();
    lemma_tool_names_distinct();
    lemma_find_tool(tool_table(), name);
    assert(destructive_listed()[0] == "write_file"@);
    assert(destructive_listed()[1] == "edit_file"@);
    assert(destructive_listed()[2] == "move_file"@);
    assert(destructive_listed()[3] == "delete_file"@);
    assert(destructive_listed()[4] == "delete_directory"@);
    assert(destructive_listed()[5] == "set_permissions"@);
    assert(destructive_listed()[6] == "decompress_tar"@);
    assert(destructive_listed()[7] == "csv_update_cell"@);
    assert(destructive_listed()[8] == "csv_remove_row"@);
    assert(destructive_listed()[9] == "csv_remove_column"@);
    assert(destructive_listed()[10] == "csv_rename_column"@);
    assert(idempotent_listed()[0] == "write_file"@);
    assert(idempotent_listed()[1] == "create_directory"@);
    assert(idempotent_listed()[2] == "set_permissions"@);
    assert(read_only_listed()[0] == "get_file_info"@);
    assert(read_only_listed()[1] == "get_disk_usage"@);
    assert(read_only_listed()[2] == "hash_file"@);
    assert(read_only_listed()[3] == "directory_tree"@);
    assert(read_only_listed()[4] == "generate_key"@);
    assert(read_only_listed()[5] == "csv_read"@);
    assert(read_only_listed()[6] == "csv_read_column_values_range"@);
    assert(read_only_listed()[7] == "csv_read_row_range"@);
    assert(read_only_listed()[8] == "csv_select_column_range"@);
    assert(browser_ui_tools()[0] == "list_allowed_directories"@);
    assert(browser_ui_tools()[1] == "list_directory"@);
    assert(browser_ui_tools()[2] == "list_directory_with_sizes"@);
    assert(browser_ui_tools()[3] == "directory_tree"@);
    assert(browser_ui_tools()[4] == "search_files"@);
    assert(browser_ui_tools()[5] == "read_text_file"@);
    assert(browser_ui_tools()[6] == "read_media_file"@);
    assert(browser_ui_tools()[7] == "csv_read"@);
    if destructive_listed().contains(name) {
        let j = choose|j: int| 0 <= j < destructive_listed().len() && destructive_listed()[j] == name;
        assert(j == 0 || j == 1 || j == 2 || j == 3 || j == 4 || j == 5 || j == 6 || j == 7 || j == 8 || j == 9 || j == 10);
    }
    if idempotent_listed().contains(name) {
        let j = choose|j: int| 0 <= j < idempotent_listed().len() && idempotent_listed()[j] == name;
        assert(j == 0 || j == 1 || j == 2);
    }
    if read_only_listed().contains(name) && name != "generate_key"@ {
        let j = choose|j: int| 0 <= j < read_only_listed().len() && read_only_listed()[j] == name;
        assert(j == 0 || j == 1 || j == 2 || j == 3 || j == 4 || j == 5 || j == 6 || j == 7 || j == 8);
    }
    if browser_ui_tools().contains(name) {
        let j = choose|j: int| 0 <= j < browser_ui_tools().len() && browser_ui_tools()[j] == name;
        assert(j == 0 || j == 1 || j == 2 || j == 3 || j == 4 || j == 5 || j == 6 || j == 7);
    }
}

/// Whether `name` is one of `names`.
fn one_of(name: &str, names: &Vec<&'static str>) -> (r: bool)
    ensures
        r == names@.map_values(|s: &str| s@).contains(name@),
{
    let ghost ns = names@.map_values(|s: &str| s@);
    let mut i: usize = 0;
    while i < names.len()
        invariant
            ns == names@.map_values(|s: &str| s@),
            i <= names@.len(),
            forall|j: int| 0 <= j < i ==> ns[j] != name@,
        decreases names@.len() - i,
    {
        if str_eq(names[i], name) {
            assert(ns[i as int] == name@);
            return true;
        }
        i = i + 1;
    }
    false
}

/// Whether a tool's results render in the browser UI.
pub fn has_browser_ui(name: &str) -> (r: bool)
    ensures
        r == browser_ui_tools().contains(name@),
{
    let names = vec![
        "list_allowed_directories",
        "list_directory",
        "list_directory_with_sizes",
        "directory_tree",
        "search_files",
        "read_text_file",
        "read_media_file",
        "csv_read",
    ];
    assert(names@.map_values(|s: &str| s@) =~= browser_ui_tools());
    one_of(name, &names)
}

/// The behaviour hints a tool descriptor advertises.
pub struct ToolHints {
    pub read_only: bool,
    pub destructive: bool,
    pub idempotent: bool,
}

pub open spec fn read_only_spec(name: Seq<char>) -> bool {
    is_prefix("read"@, name) || is_prefix("list"@, name) || is_prefix("search"@, name) || is_prefix(
        "grep"@,
        name,
    ) || read_only_listed().contains(name)
}

/// The hints of the tool `name`: read-only for readers, listers, searchers
/// and the listed inspection tools; destructive and idempotent for the
/// listed tools.
pub fn tool_hints(name: &str) -> (r: ToolHints)
    ensures
        r.read_only == read_only_spec(name@),
        r.destructive == destructive_listed().contains(name@),
        r.idempotent == idempotent_listed().contains(name@),
{
    let ro_names = vec![
        "get_file_info",
        "get_disk_usage",
        "hash_file",
        "directory_tree",
        "generate_key",
        "csv_read",
        "csv_read_column_values_range",
        "csv_read_row_range",
        "csv_select_column_range",
    ];
    assert(ro_names@.map_values(|s: &str| s@) =~= read_only_listed());
    let d_names = vec![
        "write_file",
        "edit_file",
        "move_file",
        "delete_file",
        "delete_directory",
        "set_permissions",
        "decompress_tar",
        "csv_update_cell",
        "csv_remove_row",
        "csv_remove_column",
        "csv_rename_column",
    ];
    assert(d_names@.map_values(|s: &str| s@) =~= destructive_listed());
    let i_names = vec!["write_file", "create_directory", "set_permissions"];
    assert(i_names@.map_values(|s: &str| s@) =~= idempotent_listed());
    let read_only = str_starts_with(name, "read") || str_starts_with(name, "list")
        || str_starts_with(name, "search") || str_starts_with(name, "grep") || one_of(
        name,
        &ro_names,
    );
    ToolHints {
        read_only,
        destructive: one_of(name, &d_names),
        idempotent: one_of(name, &i_names),
    }
}

/// What `char::to_uppercase` gives for `c`: Unicode upper-casing, which may
/// give several characters (`ß` gives `SS`).
pub uninterp spec fn upper_of(c: char) -> Seq<char>;

/// `char::to_uppercase`.
#[verifier::external_body]
fn to_upper(c: char) -> (r: Vec<char>)
    ensures
        r@ == upper_of(c),
{
    c.to_uppercase().collect()
}

/// The title of a tool named `s`: `_` becomes a space and each part starts
/// upper-cased. `at_start` says whether `s` begins a part.
pub open spec fn title_spec(s: Seq<char>, at_start: bool) -> Seq<char>
    decreases s.len(),
{
    if s.len() == 0 {
        Seq::empty()
    } else if s[0] == '_' {
        seq![' '] + title_spec(s.drop_first(), true)
    } else if at_start {
        upper_of(s[0]) + title_spec(s.drop_first(), false)
    } else {
        seq![s[0]] + title_spec(s.drop_first(), false)
    }
}

/// A human title for a tool: the name split at `_`, each part with its
/// first character upper-cased, joined with spaces.
pub fn human_title(name: &str) -> (r: String)
    ensures
        r@ == title_spec(name@, true),
{
    let chars = str_chars(name);
    let mut out: Vec<char> = Vec::new();
    let mut at_start = true;
    let mut i: usize = 0;
    assert(chars@.skip(0) =~= chars@);
    while i < chars.len()
        invariant
            i <= chars@.len(),
            chars@ == name@,
            out@ + title_spec(chars@.skip(i as int), at_start) == title_spec(name@, true),
        decreases chars@.len() - i,
    {
        let ghost rest = chars@.skip(i as int);
        assert(rest.drop_first() =~= chars@.skip(i + 1));
        let c = chars[i];
        if c == '_' {
            out.push(' ');
            at_start = true;
        } else if at_start {
            let up = to_upper(c);
            let ghost before = out@;
            let mut k: usize = 0;
            while k < up.len()
                invariant
                    k <= up@.len(),
                    out@ == before + up@.take(k as int),
                decreases up@.len() - k,
            {
                out.push(up[k]);
                k = k + 1;
                assert(out@ =~= before + up@.take(k as int));
            }
            assert(up@.take(up@.len() as int) =~= up@);
            at_start = false;
        } else {
            out.push(c);
        }
        i = i + 1;
    }
    assert(chars@.skip(i as int) =~= Seq::<char>::empty());
    assert(out@ + Seq::<char>::empty() =~= out@);
    string_from_chars(out.as_slice())
}

// ── Bearer tokens ─────────────────────────────────────

/// The SHA-256 digest of some bytes (a function of the bytes alone).
pub uninterp spec fn sha256_of(data: Seq<u8>) -> Seq<u8>;

/// `Sha256::digest` of the `sha2` crate: the 32-byte digest of `data`.
#[verifier::external_body]
pub(crate) fn sha256_digest(data: &[u8]) -> (r: Vec<u8>)
    ensures
        r@ == sha256_of(data@),
        r@.len() == 32,
{
    sha2::Sha256::digest(data).to_vec()
}

/// `ConstantTimeEq::ct_eq` of the `subtle` crate on byte slices, turned
/// into a `bool`: true exactly when the slices are equal (different lengths
/// compare unequal).
#[verifier::external_body]
fn ct_eq(a: &[u8], b: &[u8]) -> (r: bool)
    ensures
        r == (a@ == b@),
{
    bool::from(a.ct_eq(b))
}

/// The token a client presented in an `Authorization` value: trimmed, with
/// a leading `Bearer ` removed, trimmed again.
pub open spec fn presented_token(s: Seq<char>) -> Seq<char> {
    let t = trim_spec(s);
    if is_prefix("Bearer "@, t) {
        trim_spec(t.skip(7))
    } else {
        trim_spec(t)
    }
}

/// Whether a presented credential matches the expected token. The two are
/// compared by their SHA-256 digests, in constant time.
pub fn token_matches(presented: &str, expected: &str) -> (r: bool)
    ensures
        r == (sha256_of(vstd::utf8::encode_utf8(presented_token(presented@))) == sha256_of(
            vstd::utf8::encode_utf8(expected@),
        )),
{
    let chars = str_chars(presented);
    let t = trim_chars(chars.as_slice());
    let bearer = str_chars("Bearer ");
    proof {
        reveal_strlit("Bearer ");
    }
    let stripped = if crate::text::chars_start_with(t.as_slice(), bearer.as_slice()) {
        let mut rest: Vec<char> = Vec::new();
        let mut i: usize = 7;
        while i < t.len()
            invariant
                7 <= i <= t@.len(),
                rest@ == t@.subrange(7, i as int),
            decreases t@.len() - i,
        {
            rest.push(t[i]);
            i = i + 1;
            assert(rest@ =~= t@.subrange(7, i as int));
        }
        assert(rest@ =~= t@.skip(7));
        rest
    } else {
        t
    };
    let token = trim_chars(stripped.as_slice());
    let token = string_from_chars(token.as_slice());
    let p = sha256_digest(token.as_str().as_bytes());
    let e = sha256_digest(expected.as_bytes());
    ct_eq(p.as_slice(), e.as_slice())
}

// ── Capped line reading (stdio) ─────────────────────

/// What the capped line reader does with the next chunk of input.
#[derive(Debug, Clone, Copy, PartialEq, Eq, Structural)]
pub enum LineStep {
    /// No input is left and nothing was read: the stream ended.
    Eof,
    /// No input is left: the bytes read so far form the last line.
    Finish,
    /// The line would exceed the cap: skip `consume` bytes and refuse it.
    TooLong { consume: usize },
    /// The first `take` bytes end the line (newline included): keep them
    /// and finish the line.
    Complete { take: usize },
    /// The chunk holds no newline: keep all `take` bytes and read on.
    Continue { take: usize },
}

/// The index of the first newline in `s`, if any.
pub open spec fn first_newline(s: Seq<u8>) -> Option<int> {
    if exists|i: int| 0 <= i < s.len() && s[i] == 10u8 {
        Some(choose|i: int| 0 <= i < s.len() && s[i] == 10u8 && forall|j: int| 0 <= j < i ==> s[j] != 10u8)
    } else {
        None
    }
}

pub open spec fn line_step_spec(buffered: nat, available: Seq<u8>, max: nat) -> LineStep {
    if available.len() == 0 {
        if buffered == 0 {
            LineStep::Eof
        } else {
            LineStep::Finish
        }
    } else {
        match first_newline(available) {
            Some(i) => if buffered + i + 1 > max {
                LineStep::TooLong { consume: (i + 1) as usize }
            } else {
                LineStep::Complete { take: (i + 1) as usize }
            },
            None => if buffered + available.len() > max {
                LineStep::TooLong { consume: available.len() as usize }
            } else {
                LineStep::Continue { take: available.len() as usize }
            },
        }
    }
}

/// One step of reading a line of at most `max` bytes, given how many bytes
/// of it were read so far and the chunk the reader holds now.
pub fn line_step(buffered: usize, available: &[u8], max: usize) -> (r: LineStep)
    ensures
        r == line_step_spec(buffered as nat, available@, max as nat),
{
    if available.len() == 0 {
        return if buffered == 0 {
            LineStep::Eof
        } else {
            LineStep::Finish
        };
    }
    let mut i: usize = 0;
    while i < available.len()
        invariant
            i <= available@.len(),
            forall|j: int| 0 <= j < i ==> available@[j] != 10u8,
        decreases available@.len() - i,
    {
        if available[i] == 10u8 {
            proof {
                let w = first_newline(available@);
                assert(exists|k: int| 0 <= k < available@.len() && available@[k] == 10u8);
                let c = choose|k: int| 0 <= k < available@.len() && available@[k] == 10u8 && forall|j: int| 0 <= j < k ==> available@[j] != 10u8;
                assert(c == i);
            }
            if buffered > max || i >= max - buffered {
                return LineStep::TooLong { consume: i + 1 };
            }
            return LineStep::Complete { take: i + 1 };
        }
        i = i + 1;
    }
    if buffered > max || available.len() > max - buffered {
        LineStep::TooLong { consume: available.len() }
    } else {
        LineStep::Continue { take: available.len() }
    }
}

/// What `String::from_utf8_lossy` gives for some bytes: the text they
/// encode, with each ill-formed sequence replaced by U+FFFD.
pub uninterp spec fn lossy_utf8(bytes: Seq<u8>) -> Seq<char>;

/// `String::from_utf8_lossy`: well-formed UTF-8 decodes as is.
#[verifier::external_body]
pub(crate) fn utf8_lossy(bytes: &[u8]) -> (r: String)
    ensures
        r@ == lossy_utf8(bytes@),
        vstd::utf8::valid_utf8(bytes@) ==> r@ == vstd::utf8::decode_utf8(bytes@),
{
    String::from_utf8_lossy(bytes).into_owned()
}

/// The text of a finished line.
pub fn finish_line(buffer: &[u8]) -> (r: String)
    ensures
        r@ == lossy_utf8(buffer@),
{
    utf8_lossy(buffer)
}

/// How many bytes a vector has room for. The allocator decides; nothing is
/// stated of it.
#[verifier::external_body]
fn vec_capacity(v: &Vec<u8>) -> usize {
    v.capacity()
}

/// Drops a response buffer that grew past one MiB of capacity, so a single
/// large response does not pin the memory; its contents are left as they
/// are or emptied.
pub fn maybe_shrink_buffer(buffer: &mut Vec<u8>)
    ensures
        final(buffer)@ == old(buffer)@ || final(buffer)@.len() == 0,
{
    if vec_capacity(buffer) > 1048576 {
        *buffer = Vec::with_capacity(65536);
    }
}

/// How a successful tool value becomes a `CallToolResult`.
#[derive(Debug, Clone, Copy, PartialEq, Eq, Structural)]
pub enum ResultLayout {
    /// The value already holds a `content` array and is passed on;
    /// `isError: false` is added when it has no `isError`.
    PassThrough { add_is_error: bool },
    /// The value is given as its JSON text; an object is also given as
    /// `structuredContent`.
    Wrapped { structured: bool },
}

/// The layout of a successful result, and whether it links the browser
/// view in its `_meta`.
#[derive(Debug, Clone, Copy, PartialEq, Eq, Structural)]
pub struct SuccessLayout {
    pub layout: ResultLayout,
    pub ui_meta: bool,
}

/// Lays out the value a tool returned, from what it holds: whether its
/// `content` is an array, whether it has `isError`, and whether it is an
/// object.
pub fn success_layout(tool_name: &str, content_is_array: bool, has_is_error: bool, is_object: bool) -> (r: SuccessLayout)
    ensures
        content_is_array ==> r.layout == (ResultLayout::PassThrough { add_is_error: !has_is_error }),
        !content_is_array ==> r.layout == (ResultLayout::Wrapped { structured: is_object }),
        r.ui_meta == browser_ui_tools().contains(tool_name@),
{
    let layout = if content_is_array {
        ResultLayout::PassThrough { add_is_error: !has_is_error }
    } else {
        ResultLayout::Wrapped { structured: is_object }
    };
    SuccessLayout { layout, ui_meta: has_browser_ui(tool_name) }
}

} // verus!
