//! Server configuration: access mode, transport settings, and the
//! precomputed trie of allowed directories.

use std::sync::Arc;

use vstd::prelude::*;

use crate::path::components;
use crate::structures::{contains_spec, insert_key, lemma_contains_iff_inserted_prefix, walk_key, PathTrie, TrieKey};
use crate::text::{ascii_lower_seq, is_prefix, opt_view, concat, str_chars, str_eq, string_push_str};
pub use crate::tools::ToolCategory;
use crate::Args;

verus! {

/// Whether write tools may run.
#[derive(Debug, Clone, Copy, PartialEq, Eq, Structural)]
pub enum AccessMode {
    Unrestricted,
    ReadOnly,
}

/// The access mode a flag value names, case ignored. Unicode lower-casing
/// agrees with ASCII lower-casing on these names, which hold no `k`.
pub open spec fn parse_access_mode_spec(s: Seq<char>) -> Option<AccessMode> {
    let n = ascii_lower_seq(s);
    if n == "unrestricted"@ {
        Some(AccessMode::Unrestricted)
    } else if n == "readonly"@ || n == "read-only"@ {
        Some(AccessMode::ReadOnly)
    } else {
        None
    }
}

pub open spec fn access_mode_name(m: AccessMode) -> Seq<char> {
    match m {
        AccessMode::Unrestricted => "unrestricted"@,
        AccessMode::ReadOnly => "readonly"@,
    }
}

/// Parses an access mode: `unrestricted`, `readonly` or `read-only`, in any case.
pub fn parse_access_mode(s: &str) -> (r: Result<AccessMode, String>)
    ensures
        r matches Ok(m) ==> parse_access_mode_spec(s@) == Some(m),
        r matches Err(e) ==> parse_access_mode_spec(s@) is None && e@ == "Invalid access mode: "@
            + s@ + ". Use 'unrestricted' or 'readonly'"@,
{
    let chars = str_chars(s);
    let mut n: Vec<char> = Vec::new();
    let mut i: usize = 0;
    while i < chars.len()
        invariant
            i <= chars@.len(),
            chars@ == s@,
            n@ == ascii_lower_seq(chars@.take(i as int)),
        decreases chars@.len() - i,
    {
        n.push(crate::text::to_ascii_lower(chars[i]));
        i = i + 1;
        assert(n@ =~= ascii_lower_seq(chars@.take(i as int)));
    }
    assert(chars@.take(chars@.len() as int) =~= chars@);
    let ns = crate::text::string_from_chars(n.as_slice());
    if str_eq(ns.as_str(), "unrestricted") {
        Ok(AccessMode::Unrestricted)
    } else if str_eq(ns.as_str(), "readonly") || str_eq(ns.as_str(), "read-only") {
        Ok(AccessMode::ReadOnly)
    } else {
        let mut e = concat("Invalid access mode: ", s);
        string_push_str(&mut e, ". Use 'unrestricted' or 'readonly'");
        Err(e)
    }
}

impl AccessMode {
    /// The mode's name, as `Display` writes it.
    pub fn to_string(&self) -> (r: String)
        ensures
            r@ == access_mode_name(*self),
    {
        match self {
            AccessMode::Unrestricted => "unrestricted".to_owned(),
            AccessMode::ReadOnly => "readonly".to_owned(),
        }
    }
}

impl std::str::FromStr for AccessMode {
    type Err = String;

    fn from_str(s: &str) -> (r: Result<AccessMode, String>)
        ensures
            r matches Ok(m) ==> parse_access_mode_spec(s@) == Some(m),
            r matches Err(e) ==> parse_access_mode_spec(s@) is None && e@ == "Invalid access mode: "@
                + s@ + ". Use 'unrestricted' or 'readonly'"@,
    {
        parse_access_mode(s)
    }
}

/// Transport and policy settings.
#[derive(Debug, Clone)]
pub struct ServerConfig {
    pub host: String,
    pub http_port: u16,
    /// Seconds a request may run before it is answered with a timeout error.
    pub request_timeout: u64,
    pub access_mode: AccessMode,
    pub follow_symlinks: bool,
    /// Max bytes for a single request line on the stdio transport.
    pub max_request_bytes: usize,
    /// Max bytes for a single HTTP JSON-RPC request body.
    pub max_http_body_bytes: usize,
    /// Optional bearer token for HTTP authentication.
    pub auth_token: Option<String>,
    /// Tool categories exposed by this server. Empty (the default) means no
    /// tools are advertised or callable until enabled with `--enable-*`.
    pub enabled_categories: Vec<ToolCategory>,
    /// PEM certificate chain for serving the HTTP transport over TLS (HTTPS).
    /// Engaged only when both `tls_cert` and `tls_key` are set.
    pub tls_cert: Option<String>,
    /// PEM private key matching `tls_cert`.
    pub tls_key: Option<String>,
}

/// The trie keys of a list of directories.
pub open spec fn dir_keys(dirs: Seq<String>) -> Set<TrieKey> {
    Set::new(|k: TrieKey| exists|i: int| 0 <= i < dirs.len() && k == insert_key(components(#[trigger] dirs[i]@)))
}

/// For a path without `..`, the trie built from some resolved directories
/// admits it exactly when one of those directories is (component by
/// component) a prefix of it.
pub proof fn lemma_allowed_iff_under_some_dir(resolved: Seq<String>, path: Seq<char>)
    requires
        !walk_key(components(path)).1,
    ensures
        contains_spec(dir_keys(resolved), components(path)) == exists|i: int|
            0 <= i < resolved.len() && is_prefix(
                insert_key(components(#[trigger] resolved[i]@)),
                insert_key(components(path)),
            ),
{
    let k = insert_key(components(path));
    lemma_contains_iff_inserted_prefix(dir_keys(resolved), path);
    if exists|m: TrieKey| dir_keys(resolved).contains(m) && is_prefix(m, k) {
        let m = choose|m: TrieKey| dir_keys(resolved).contains(m) && is_prefix(m, k);
        let i = choose|i: int| 0 <= i < resolved.len() && m == insert_key(components(#[trigger] resolved[i]@));
        assert(is_prefix(insert_key(components(resolved[i]@)), k));
    }
    if exists|i: int| 0 <= i < resolved.len() && is_prefix(insert_key(components(#[trigger] resolved[i]@)), k) {
        let i = choose|i: int| 0 <= i < resolved.len() && is_prefix(insert_key(components(#[trigger] resolved[i]@)), k);
        assert(dir_keys(resolved).contains(insert_key(components(resolved[i]@))));
    }
}

/// Builds the trie of allowed directories from their resolved (absolute,
/// canonical where possible) forms.
pub fn build_allowed_trie(resolved: &Vec<String>) -> (r: PathTrie)
    ensures
        r.wf(),
        r.view() == dir_keys(resolved@),
{
    let mut trie = PathTrie::new();
    let mut i: usize = 0;
    while i < resolved.len()
        invariant
            trie.wf(),
            i <= resolved@.len(),
            trie.view() == dir_keys(resolved@.take(i as int)),
        decreases resolved@.len() - i,
    {
        let ghost before = trie.view();
        trie.insert(resolved[i].as_str());
        proof {
            assert(resolved@.take(i + 1) =~= resolved@.take(i as int).push(resolved@[i as int]));
            assert(trie.view() =~= dir_keys(resolved@.take(i + 1))) by {
                assert forall|k: TrieKey| trie.view().contains(k) == dir_keys(resolved@.take(i + 1)).contains(k) by {
                    let t = resolved@.take(i + 1);
                    if k == insert_key(components(resolved@[i as int]@)) {
                        assert(t[i as int] == resolved@[i as int]);
                    }
                    if dir_keys(t).contains(k) {
                        let j = choose|j: int| 0 <= j < t.len() && k == insert_key(components(#[trigger] t[j]@));
                        if j < i {
                            assert(resolved@.take(i as int)[j] == t[j]);
                        }
                    }
                    if before.contains(k) {
                        let j = choose|j: int| 0 <= j < i && k == insert_key(components(#[trigger] resolved@.take(i as int)[j]@));
                        assert(t[j] == resolved@.take(i as int)[j]);
                    }
                }
            }
        }
        i = i + 1;
    }
    assert(resolved@.take(resolved@.len() as int) =~= resolved@);
    trie
}

/// A copy of a list of strings.
pub fn clone_strings(v: &Vec<String>) -> (r: Vec<String>)
    ensures
        r@ == v@,
{
    let mut r: Vec<String> = Vec::new();
    let mut i: usize = 0;
    while i < v.len()
        invariant
            i <= v@.len(),
            r@ == v@.take(i as int),
        decreases v@.len() - i,
    {
        r.push(v[i].clone());
        i = i + 1;
        assert(r@ =~= v@.take(i as int));
    }
    assert(v@.take(v@.len() as int) =~= v@);
    r
}

/// A copy of an optional string.
pub fn clone_opt_string(v: &Option<String>) -> (r: Option<String>)
    ensures
        r == *v,
{
    match v {
        Some(s) => Some(s.clone()),
        None => None,
    }
}

/// Everything the server needs to know to serve requests.
pub struct Config {
    pub allowed_directories: Vec<String>,
    pub server: ServerConfig,
    pub max_file_size: u64,
    /// Cap on decompression/extraction output size, in bytes.
    pub max_decompressed_size: u64,
    /// Precomputed trie of the resolved `allowed_directories`. Rebuild with
    /// `Config::rebuild_trie` if `allowed_directories` is mutated.
    allowed_trie: Arc<PathTrie>,
    /// The serialized `{"tools":[...]}` payload of `tools/list`, made once
    /// for the enabled categories.
    pub tools_list_bytes: Arc<Vec<u8>>,
}

/// The `tools/list` payload when no category is enabled: `{"tools":[]}`.
pub open spec fn empty_tools_list() -> Seq<u8> {
    seq![123u8, 34u8, 116u8, 111u8, 111u8, 108u8, 115u8, 34u8, 58u8, 91u8, 93u8, 125u8]
}

/// The decompression cap a configuration gets when none is given: one GiB.
pub open spec fn default_decompressed_size() -> u64 {
    1073741824
}

/// The directories a server started with `args` allows: those given, or the
/// working directory when none is.
pub open spec fn allowed_dirs_spec(args: Args, cwd: Seq<char>) -> Seq<Seq<char>> {
    if args.directories@.len() > 0 {
        args.directories@.map_values(|s: String| s@)
    } else {
        seq![cwd]
    }
}

/// A TLS setting: the flag's value, else the environment's, ignored when empty.
pub open spec fn tls_setting(flag: Option<String>, env: Option<String>) -> Option<Seq<char>> {
    let v = match flag {
        Some(s) => Some(s@),
        None => match env {
            Some(s) => Some(s@),
            None => None,
        },
    };
    match v {
        Some(s) => if s.len() > 0 { Some(s) } else { None },
        None => None,
    }
}

impl Config {
    /// The trie is consistent.
    pub closed spec fn wf(&self) -> bool {
        (*self.allowed_trie).wf()
    }

    /// The keys the allowed-directory trie holds.
    pub closed spec fn trie_keys(&self) -> Set<TrieKey> {
        (*self.allowed_trie).view()
    }

    /// The allowed-directory trie.
    pub closed spec fn trie(&self) -> PathTrie {
        *self.allowed_trie
    }

    pub closed spec fn dirs(&self) -> Seq<String> {
        self.allowed_directories@
    }

    pub closed spec fn settings(&self) -> ServerConfig {
        self.server
    }

    pub closed spec fn file_cap(&self) -> u64 {
        self.max_file_size
    }

    pub closed spec fn decompressed_cap(&self) -> u64 {
        self.max_decompressed_size
    }

    /// The serialized `tools/list` payload kept.
    pub closed spec fn tools_list(&self) -> Seq<u8> {
        self.tools_list_bytes@
    }

    /// Construct a `Config`, building the precomputed allowed-directory trie
    /// from `resolved`, the resolved forms of `allowed_directories`, and
    /// keeping `tools_list`, the serialized `tools/list` payload for
    /// `server`'s enabled categories.
    pub fn new(
        allowed_directories: Vec<String>,
        server: ServerConfig,
        max_file_size: u64,
        resolved: Vec<String>,
        tools_list: Vec<u8>,
    ) -> (r: Config)
        requires
            resolved@.len() == allowed_directories@.len(),
        ensures
            r.wf(),
            r.trie_keys() == dir_keys(resolved@),
            r.dirs() == allowed_directories@,
            r.settings() == server,
            r.file_cap() == max_file_size,
            r.decompressed_cap() == default_decompressed_size(),
            r.tools_list() == tools_list@,
    {
        let trie = build_allowed_trie(&resolved);
        Config {
            allowed_directories,
            server,
            max_file_size,
            max_decompressed_size: 1024 * 1024 * 1024,
            allowed_trie: Arc::new(trie),
            tools_list_bytes: Arc::new(tools_list),
        }
    }

    /// Borrow the precomputed allowed-directory trie.
    pub fn allowed_trie(&self) -> (r: &PathTrie)
        ensures
            *r == self.trie(),
            r.view() == self.trie_keys(),
            self.wf() ==> r.wf(),
    {
        &self.allowed_trie
    }

    /// Borrow the precomputed allowed-directory trie (alias).
    pub fn allowed_trie_ref(&self) -> (r: &Arc<PathTrie>)
        ensures
            **r == self.trie(),
            (**r).view() == self.trie_keys(),
            self.wf() ==> (**r).wf(),
    {
        &self.allowed_trie
    }

    /// Rebuild the precomputed trie from `resolved`, the resolved forms of
    /// the current `allowed_directories`.
    pub fn rebuild_trie(&mut self, resolved: Vec<String>)
        requires
            resolved@.len() == old(self).dirs().len(),
        ensures
            final(self).wf(),
            final(self).trie_keys() == dir_keys(resolved@),
            final(self).dirs() == old(self).dirs(),
            final(self).settings() == old(self).settings(),
            final(self).file_cap() == old(self).file_cap(),
            final(self).decompressed_cap() == old(self).decompressed_cap(),
            final(self).tools_list() == old(self).tools_list(),
    {
        self.allowed_trie = Arc::new(build_allowed_trie(&resolved));
    }

    /// Builds the configuration for command-line `args`. `cwd` is the working
    /// directory, `env_tls_cert` and `env_tls_key` the `MCP_TLS_CERT` and
    /// `MCP_TLS_KEY` environment variables, and `resolved` the resolved forms
    /// of [`allowed_directories_for`]`(args, cwd)`; `tools_list` is the
    /// serialized `tools/list` payload for the categories `args` enables. A
    /// TLS certificate without a key, or a key without a certificate, is
    /// refused.
    pub fn from_args(
        args: &Args,
        cwd: &str,
        env_tls_cert: Option<String>,
        env_tls_key: Option<String>,
        resolved: Vec<String>,
        tools_list: Vec<u8>,
    ) -> (r: Result<Config, String>)
        requires
            resolved@.len() == allowed_dirs_spec(*args, cwd@).len(),
            args.max_file_size <= 17592186044415,
            args.max_decompressed_size <= 17592186044415,
        ensures
            tls_setting(args.tls_cert, env_tls_cert) is Some != tls_setting(args.tls_key, env_tls_key) is Some
                <==> r is Err,
            r matches Err(e) ==> e@ == "--tls-cert and --tls-key must be provided together (or both omitted for plaintext HTTP)"@,
            r matches Ok(c) ==> {
                &&& c.wf()
                &&& c.trie_keys() == dir_keys(resolved@)
                &&& c.dirs().map_values(|s: String| s@) == allowed_dirs_spec(*args, cwd@)
                &&& c.settings().host == args.host
                &&& c.settings().http_port == args.http_port
                &&& c.settings().request_timeout == args.request_timeout
                &&& c.settings().access_mode == args.access_mode
                &&& c.settings().follow_symlinks == args.follow_symlinks
                &&& c.settings().max_request_bytes == args.max_request_bytes
                &&& c.settings().max_http_body_bytes == args.max_http_body_bytes
                &&& c.settings().auth_token == args.auth_token
                &&& c.settings().enabled_categories@ == crate::enabled_spec(*args)
                &&& opt_view(c.settings().tls_cert) == tls_setting(args.tls_cert, env_tls_cert)
                &&& opt_view(c.settings().tls_key) == tls_setting(args.tls_key, env_tls_key)
                &&& c.file_cap() == args.max_file_size * 1048576
                &&& c.decompressed_cap() == args.max_decompressed_size * 1048576
                &&& c.tools_list() == tools_list@
            },
    {
        let allowed_dirs = allowed_directories_for(args, cwd);
        let tls_cert = pick_tls_setting(&args.tls_cert, env_tls_cert);
        let tls_key = pick_tls_setting(&args.tls_key, env_tls_key);
        if tls_cert.is_some() != tls_key.is_some() {
            return Err(
                "--tls-cert and --tls-key must be provided together (or both omitted for plaintext HTTP)".to_owned(),
            );
        }
        let trie = build_allowed_trie(&resolved);
        let enabled_categories = args.enabled_categories();
        Ok(Config {
            allowed_directories: allowed_dirs,
            server: ServerConfig {
                host: args.host.clone(),
                http_port: args.http_port,
                request_timeout: args.request_timeout,
                access_mode: args.access_mode,
                follow_symlinks: args.follow_symlinks,
                max_request_bytes: args.max_request_bytes,
                max_http_body_bytes: args.max_http_body_bytes,
                auth_token: clone_opt_string(&args.auth_token),
                enabled_categories,
                tls_cert,
                tls_key,
            },
            max_file_size: args.max_file_size * 1024 * 1024,
            max_decompressed_size: args.max_decompressed_size * 1024 * 1024,
            allowed_trie: Arc::new(trie),
            tools_list_bytes: Arc::new(tools_list),
        })
    }
}

/// The directories a server started with `args` allows: those given, or the
/// working directory `cwd` when none is.
pub fn allowed_directories_for(args: &Args, cwd: &str) -> (r: Vec<String>)
    ensures
        r@.map_values(|s: String| s@) == allowed_dirs_spec(*args, cwd@),
{
    if args.directories.len() > 0 {
        let r = clone_strings(&args.directories);
        assert(r@.map_values(|s: String| s@) =~= args.directories@.map_values(|s: String| s@));
        r
    } else {
        let r = vec![cwd.to_owned()];
        assert(r@.map_values(|s: String| s@) =~= seq![cwd@]);
        r
    }
}

/// A TLS setting from its flag, falling back on the environment, dropped
/// when empty.
fn pick_tls_setting(flag: &Option<String>, env: Option<String>) -> (r: Option<String>)
    ensures
        opt_view(r) == tls_setting(*flag, env),
{
    let v = match flag {
        Some(s) => Some(s.clone()),
        None => env,
    };
    match v {
        Some(s) => {
            if str_chars(s.as_str()).len() > 0 {
                Some(s)
            } else {
                None
            }
        },
        None => None,
    }
}

impl Default for Config {
    /// The defaults of the command line, allowing `.`. The allowed-directory
    /// trie starts empty: resolving `.` needs the filesystem, so callers
    /// rebuild it with `rebuild_trie` from the resolved form.
    fn default() -> (r: Config)
        ensures
            r.wf(),
            r.trie_keys() == Set::<TrieKey>::empty(),
            r.dirs().len() == 1,
            r.dirs()[0]@ == "."@,
            r.settings().host@ == "127.0.0.1"@,
            r.settings().http_port == 3001,
            r.settings().request_timeout == 30,
            r.settings().access_mode == AccessMode::Unrestricted,
            !r.settings().follow_symlinks,
            r.settings().max_request_bytes == 16777216,
            r.settings().max_http_body_bytes == 16777216,
            r.settings().auth_token is None,
            r.settings().enabled_categories@.len() == 0,
            r.settings().tls_cert is None,
            r.settings().tls_key is None,
            r.file_cap() == 104857600,
            r.decompressed_cap() == default_decompressed_size(),
            r.tools_list() == empty_tools_list(),
    {
        Config {
            allowed_directories: vec![".".to_owned()],
            server: ServerConfig {
                host: "127.0.0.1".to_owned(),
                http_port: 3001,
                request_timeout: 30,
                access_mode: AccessMode::Unrestricted,
                follow_symlinks: false,
                max_request_bytes: 16 * 1024 * 1024,
                max_http_body_bytes: 16 * 1024 * 1024,
                auth_token: None,
                enabled_categories: Vec::new(),
                tls_cert: None,
                tls_key: None,
            },
            max_file_size: 100 * 1024 * 1024,
            max_decompressed_size: 1024 * 1024 * 1024,
            allowed_trie: Arc::new(PathTrie::new()),
            tools_list_bytes: Arc::new(
                vec![123u8, 34u8, 116u8, 111u8, 111u8, 108u8, 115u8, 34u8, 58u8, 91u8, 93u8, 125u8],
            ),
        }
    }
}

/// An access mode's name parses back to the mode, in any letter case.
pub proof fn lemma_access_mode_round_trip(m: AccessMode, s: Seq<char>)
    requires
        ascii_lower_seq(s) == access_mode_name(m),
    ensures
        parse_access_mode_spec(s) == Some(m),
        parse_access_mode_spec(access_mode_name(m)) == Some(m),
{
    reveal_strlit("unrestricted");
    reveal_strlit("readonly");
    reveal_strlit("read-only");
    let n = access_mode_name(m);
    assert(ascii_lower_seq(n) =~= n);
    assert("unrestricted"@.len() != "readonly"@.len());
}

} // verus!
