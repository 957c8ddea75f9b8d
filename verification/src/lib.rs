//! A sandboxed filesystem server for the Model Context Protocol: its
//! configuration, tool catalogue, request logic and data structures.

pub mod actions;
pub mod config;
pub mod errors;
pub mod http;
pub mod path;
pub mod protocol;
pub mod resources;
pub mod server;
pub mod structures;
pub mod text;
pub mod tools;

use vstd::prelude::*;

use crate::config::AccessMode;
use crate::tools::ToolCategory;

verus! {

/// The command line of the server.
pub struct Args {
    /// Directories to allow access to (can specify multiple)
    pub directories: Vec<String>,
    /// Server host (used by the HTTP transport)
    pub host: String,
    /// HTTP server port
    pub http_port: u16,
    /// Log level
    pub log_level: String,
    /// Maximum file size in MB for read operations
    pub max_file_size: u64,
    /// Maximum decompressed output size in MB (guards against decompression bombs)
    pub max_decompressed_size: u64,
    /// Run in stdio mode for MCP compatibility
    pub stdio: bool,
    /// Print a local health payload and exit without starting a transport
    pub health: bool,
    /// Access mode: unrestricted or readonly
    pub access_mode: AccessMode,
    /// Follow symbolic links
    pub follow_symlinks: bool,
    /// Request timeout in seconds
    pub request_timeout: u64,
    /// Maximum size in bytes of a single JSON-RPC request line (stdio)
    pub max_request_bytes: usize,
    /// Maximum size in bytes of a single HTTP JSON-RPC request body
    pub max_http_body_bytes: usize,
    /// Optional bearer token required to access HTTP transports
    pub auth_token: Option<String>,
    /// Path to a PEM certificate chain for HTTPS. Requires --tls-key.
    pub tls_cert: Option<String>,
    /// Path to the PEM private key matching --tls-cert.
    pub tls_key: Option<String>,
    /// Expose all tool categories.
    pub enable_all: bool,
    /// Enable read/list/search/hash tools.
    pub enable_read: bool,
    /// Enable write/edit/copy/move tools.
    pub enable_write: bool,
    /// Enable delete tools.
    pub enable_delete: bool,
    /// Enable compression tools.
    pub enable_compress: bool,
    /// Enable cryptography tools.
    pub enable_crypto: bool,
    /// Enable CSV tools.
    pub enable_csv: bool,
}

/// The category if its flag is set, else nothing.
pub open spec fn flag_cat(on: bool, c: ToolCategory) -> Seq<ToolCategory> {
    if on {
        seq![c]
    } else {
        Seq::empty()
    }
}

/// The categories the flags of `args` enable: all of them with
/// `--enable-all`, otherwise those whose flag is set, in declaration order.
pub open spec fn enabled_spec(args: Args) -> Seq<ToolCategory> {
    if args.enable_all {
        crate::tools::all_categories()
    } else {
        flag_cat(args.enable_read, ToolCategory::Read) + flag_cat(args.enable_write, ToolCategory::Write)
            + flag_cat(args.enable_delete, ToolCategory::Delete) + flag_cat(
            args.enable_compress,
            ToolCategory::Compress,
        ) + flag_cat(args.enable_crypto, ToolCategory::Crypto) + flag_cat(
            args.enable_csv,
            ToolCategory::Csv,
        )
    }
}

fn push_if(categories: &mut Vec<ToolCategory>, enabled: bool, category: ToolCategory)
    ensures
        final(categories)@ == old(categories)@ + flag_cat(enabled, category),
{
    if enabled {
        categories.push(category);
    }
    assert(final(categories)@ =~= old(categories)@ + flag_cat(enabled, category)) by {
        if !enabled {
            assert(old(categories)@ + flag_cat(enabled, category) =~= old(categories)@);
        }
    }
}

impl Args {
    /// The tool categories the flags enable.
    pub fn enabled_categories(&self) -> (r: Vec<ToolCategory>)
        ensures
            r@ == enabled_spec(*self),
    {
        if self.enable_all {
            return ToolCategory::all();
        }
        let mut categories: Vec<ToolCategory> = Vec::new();
        push_if(&mut categories, self.enable_read, ToolCategory::Read);
        push_if(&mut categories, self.enable_write, ToolCategory::Write);
        push_if(&mut categories, self.enable_delete, ToolCategory::Delete);
        push_if(&mut categories, self.enable_compress, ToolCategory::Compress);
        push_if(&mut categories, self.enable_crypto, ToolCategory::Crypto);
        push_if(&mut categories, self.enable_csv, ToolCategory::Csv);
        assert(categories@ =~= enabled_spec(*self));
        categories
    }
}

/// The flag of `args` that enables the category `c`.
pub open spec fn category_flag(args: Args, c: ToolCategory) -> bool {
    match c {
        ToolCategory::Read => args.enable_read,
        ToolCategory::Write => args.enable_write,
        ToolCategory::Delete => args.enable_delete,
        ToolCategory::Compress => args.enable_compress,
        ToolCategory::Crypto => args.enable_crypto,
        ToolCategory::Csv => args.enable_csv,
    }
}

/// A category is enabled exactly when `--enable-all` or its own flag is set.
pub proof fn lemma_enabled_iff_flag(args: Args, c: ToolCategory)
    ensures
        enabled_spec(args).contains(c) <==> (args.enable_all || category_flag(args, c)),
{
    let all = crate::tools::all_categories();
    if args.enable_all {
        match c {
            ToolCategory::Read => assert(all[0] == c),
            ToolCategory::Write => assert(all[1] == c),
            ToolCategory::Delete => assert(all[2] == c),
            ToolCategory::Compress => assert(all[3] == c),
            ToolCategory::Crypto => assert(all[4] == c),
            ToolCategory::Csv => assert(all[5] == c),
        }
    } else {
        let e = enabled_spec(args);
        if category_flag(args, c) {
            assert(e.contains(c)) by {
                let a = flag_cat(args.enable_read, ToolCategory::Read);
                let b = a + flag_cat(args.enable_write, ToolCategory::Write);
                let d = b + flag_cat(args.enable_delete, ToolCategory::Delete);
                let f = d + flag_cat(args.enable_compress, ToolCategory::Compress);
                let g = f + flag_cat(args.enable_crypto, ToolCategory::Crypto);
                let h = g + flag_cat(args.enable_csv, ToolCategory::Csv);
                assert(e == h);
                match c {
                    ToolCategory::Read => assert(h[0] == c),
                    ToolCategory::Write => assert(h[a.len() as int] == c),
                    ToolCategory::Delete => assert(h[b.len() as int] == c),
                    ToolCategory::Compress => assert(h[d.len() as int] == c),
                    ToolCategory::Crypto => assert(h[f.len() as int] == c),
                    ToolCategory::Csv => assert(h[g.len() as int] == c),
                }
            }
        } else {
            assert(!e.contains(c)) by {
                assert forall|k: int| 0 <= k < e.len() implies e[k] != c by {
                    assert(category_flag(args, e[k]));
                }
            }
        }
    }
}

} // verus!
