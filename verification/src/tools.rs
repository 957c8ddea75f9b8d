//! Single source of truth for all MCP tools and their categories.
//!
//! Tools are grouped into [`ToolCategory`] banners. No tool is exposed by
//! default: each category must be explicitly enabled at startup with the
//! matching `--enable-<slug>` flag (or `--enable-all`). A tool whose category is
//! disabled is hidden from `tools/list` and rejected from `tools/call` as if it
//! did not exist.

use vstd::prelude::*;

use crate::text::{ascii_lower, is_prefix, concat, is_white_space, str_chars, str_eq, trim_chars, trim_spec, trim_start_spec};

verus! {

/// Coarse capability groups used to selectively expose tools at startup.
/// Maps one-to-one to a `--enable-<slug>` flag; keep at or below ten variants.
#[derive(Debug, Clone, Copy, PartialEq, Eq, Structural, Hash)]
pub enum ToolCategory {
    /// Read-only inspection: read files, list/search/stat, hashes, disk usage.
    Read,
    /// Mutating filesystem ops: write/edit, create dir, move/copy, perms, symlink.
    Write,
    /// Destructive removal: delete file/directory.
    Delete,
    /// Compression & archives: gzip, zstd, tar.
    Compress,
    /// Encryption: encrypt/decrypt files and key generation.
    Crypto,
    /// CSV read/write helpers.
    Csv,
}

/// Every category, in declaration order.
pub open spec fn all_categories() -> Seq<ToolCategory> {
    seq![
        ToolCategory::Read,
        ToolCategory::Write,
        ToolCategory::Delete,
        ToolCategory::Compress,
        ToolCategory::Crypto,
        ToolCategory::Csv,
    ]
}

/// The flag name of a category.
pub open spec fn slug_spec(c: ToolCategory) -> Seq<char> {
    match c {
        ToolCategory::Read => "read"@,
        ToolCategory::Write => "write"@,
        ToolCategory::Delete => "delete"@,
        ToolCategory::Compress => "compress"@,
        ToolCategory::Crypto => "crypto"@,
        ToolCategory::Csv => "csv"@,
    }
}

/// A character as category parsing sees it: ASCII capitals lowered and `_`
/// read as `-`.
pub open spec fn category_char(c: char) -> char {
    if c == '_' {
        '-'
    } else {
        ascii_lower(c)
    }
}

/// The category a flag value names: the value is trimmed, lower-cased and
/// has `_` read as `-`, then compared with the slugs.
pub open spec fn parse_category_spec(s: Seq<char>) -> Option<ToolCategory> {
    let n = trim_spec(s).map_values(|c: char| category_char(c));
    if n == "read"@ {
        Some(ToolCategory::Read)
    } else if n == "write"@ {
        Some(ToolCategory::Write)
    } else if n == "delete"@ {
        Some(ToolCategory::Delete)
    } else if n == "compress"@ {
        Some(ToolCategory::Compress)
    } else if n == "crypto"@ {
        Some(ToolCategory::Crypto)
    } else if n == "csv"@ {
        Some(ToolCategory::Csv)
    } else {
        None
    }
}

impl ToolCategory {
    /// Every category, in declaration order.
    pub fn all() -> (r: Vec<ToolCategory>)
        ensures
            r@ == all_categories(),
    {
        let r = vec![
            ToolCategory::Read,
            ToolCategory::Write,
            ToolCategory::Delete,
            ToolCategory::Compress,
            ToolCategory::Crypto,
            ToolCategory::Csv,
        ];
        assert(r@ =~= all_categories());
        r
    }

    pub fn slug(self) -> (r: &'static str)
        ensures
            r@ == slug_spec(self),
    {
        match self {
            ToolCategory::Read => "read",
            ToolCategory::Write => "write",
            ToolCategory::Delete => "delete",
            ToolCategory::Compress => "compress",
            ToolCategory::Crypto => "crypto",
            ToolCategory::Csv => "csv",
        }
    }

    /// The slug as an owned string (what `Display` writes).
    pub fn to_string(self) -> (r: String)
        ensures
            r@ == slug_spec(self),
    {
        self.slug().to_owned()
    }
}

/// Parses a category name: surrounding white space is ignored, case does not
/// matter. Unicode lower-casing agrees with ASCII lower-casing here: the only
/// non-ASCII character that lower-cases to an ASCII letter is the Kelvin sign,
/// which lowers to `k`, and no slug holds a `k`.
pub fn parse_category(s: &str) -> (r: Result<ToolCategory, String>)
    ensures
        r matches Ok(c) ==> parse_category_spec(s@) == Some(c),
        r matches Err(e) ==> parse_category_spec(s@) is None && e@ == "Unknown tool category: "@
            + s@,
{
    let chars = str_chars(s);
    let t = trim_chars(chars.as_slice());
    let mut n: Vec<char> = Vec::new();
    let mut i: usize = 0;
    while i < t.len()
        invariant
            i <= t@.len(),
            n@ == t@.take(i as int).map_values(|c: char| category_char(c)),
        decreases t@.len() - i,
    {
        let c = t[i];
        let d = if c == '_' {
            '-'
        } else {
            crate::text::to_ascii_lower(c)
        };
        n.push(d);
        i = i + 1;
        assert(n@ =~= t@.take(i as int).map_values(|c: char| category_char(c)));
    }
    assert(t@.take(t@.len() as int) =~= t@);
    let ns = crate::text::string_from_chars(n.as_slice());
    let ns = ns.as_str();
    if str_eq(ns, "read") {
        Ok(ToolCategory::Read)
    } else if str_eq(ns, "write") {
        Ok(ToolCategory::Write)
    } else if str_eq(ns, "delete") {
        Ok(ToolCategory::Delete)
    } else if str_eq(ns, "compress") {
        Ok(ToolCategory::Compress)
    } else if str_eq(ns, "crypto") {
        Ok(ToolCategory::Crypto)
    } else if str_eq(ns, "csv") {
        Ok(ToolCategory::Csv)
    } else {
        Err(concat("Unknown tool category: ", s))
    }
}

impl std::str::FromStr for ToolCategory {
    type Err = String;

    fn from_str(s: &str) -> (r: Result<ToolCategory, String>)
        ensures
            r matches Ok(c) ==> parse_category_spec(s@) == Some(c),
            r matches Err(e) ==> parse_category_spec(s@) is None && e@ == "Unknown tool category: "@
                + s@,
    {
        parse_category(s)
    }
}

/// A tool: its name, its category, and whether it changes the filesystem.
#[derive(Clone, Copy)]
pub struct ToolMeta {
    pub name: &'static str,
    pub category: ToolCategory,
    pub write: bool,
}

impl View for ToolMeta {
    type V = (Seq<char>, ToolCategory, bool);

    open spec fn view(&self) -> (Seq<char>, ToolCategory, bool) {
        (self.name@, self.category, self.write)
    }
}

/// Every tool, with its category and whether it writes.
pub open spec fn tool_table() -> Seq<(Seq<char>, ToolCategory, bool)> {
    seq![
        ("read_text_file"@, ToolCategory::Read, false),
        ("read_media_file"@, ToolCategory::Read, false),
        ("write_file"@, ToolCategory::Write, true),
        ("edit_file"@, ToolCategory::Write, true),
        ("create_directory"@, ToolCategory::Write, true),
        ("list_directory"@, ToolCategory::Read, false),
        ("list_directory_with_sizes"@, ToolCategory::Read, false),
        ("move_file"@, ToolCategory::Write, true),
        ("copy_file"@, ToolCategory::Write, true),
        ("delete_file"@, ToolCategory::Delete, true),
        ("delete_directory"@, ToolCategory::Delete, true),
        ("search_files"@, ToolCategory::Read, false),
        ("directory_tree"@, ToolCategory::Read, false),
        ("get_file_info"@, ToolCategory::Read, false),
        ("list_allowed_directories"@, ToolCategory::Read, false),
        ("hash_file"@, ToolCategory::Read, false),
        ("grep_files"@, ToolCategory::Read, false),
        ("set_permissions"@, ToolCategory::Write, true),
        ("get_disk_usage"@, ToolCategory::Read, false),
        ("create_symlink"@, ToolCategory::Write, true),
        ("read_file_range"@, ToolCategory::Read, false),
        ("compress_gzip"@, ToolCategory::Compress, true),
        ("decompress_gzip"@, ToolCategory::Compress, true),
        ("compress_zstd"@, ToolCategory::Compress, true),
        ("decompress_zstd"@, ToolCategory::Compress, true),
        ("compress_tar"@, ToolCategory::Compress, true),
        ("decompress_tar"@, ToolCategory::Compress, true),
        ("encrypt_file"@, ToolCategory::Crypto, true),
        ("decrypt_file"@, ToolCategory::Crypto, true),
        ("generate_key"@, ToolCategory::Crypto, true),
        ("csv_create"@, ToolCategory::Csv, true),
        ("csv_read"@, ToolCategory::Csv, false),
        ("csv_add_row"@, ToolCategory::Csv, true),
        ("csv_update_cell"@, ToolCategory::Csv, true),
        ("csv_remove_row"@, ToolCategory::Csv, true),
        ("csv_add_column"@, ToolCategory::Csv, true),
        ("csv_remove_column"@, ToolCategory::Csv, true),
        ("csv_rename_column"@, ToolCategory::Csv, true),
        ("csv_read_column_values_range"@, ToolCategory::Csv, false),
        ("csv_read_row_range"@, ToolCategory::Csv, false),
        ("csv_select_column_range"@, ToolCategory::Csv, false),
    ]
}

/// The first entry of `tbl` named `name`.
pub open spec fn find_tool(tbl: Seq<(Seq<char>, ToolCategory, bool)>, name: Seq<char>) -> Option<
    (Seq<char>, ToolCategory, bool),
>
    decreases tbl.len(),
{
    if tbl.len() == 0 {
        None
    } else if tbl[0].0 == name {
        Some(tbl[0])
    } else {
        find_tool(tbl.drop_first(), name)
    }
}

/// The tool named `name`, if there is one.
pub open spec fn lookup_spec(name: Seq<char>) -> Option<(Seq<char>, ToolCategory, bool)> {
    find_tool(tool_table(), name)
}

pub open spec fn category_spec(name: Seq<char>) -> Option<ToolCategory> {
    match lookup_spec(name) {
        Some(t) => Some(t.1),
        None => None,
    }
}

pub open spec fn is_write_spec(name: Seq<char>) -> bool {
    match lookup_spec(name) {
        Some(t) => t.2,
        None => false,
    }
}

pub open spec fn available_spec(name: Seq<char>, enabled: Seq<ToolCategory>) -> bool {
    match category_spec(name) {
        Some(c) => enabled.contains(c),
        None => false,
    }
}

/// Every tool, with its category and whether it writes.
pub fn all_tools() -> (r: Vec<ToolMeta>)
    ensures
        r@.map_values(|t: ToolMeta| t@) == tool_table(),
{
    let r = vec![
        ToolMeta { name: "read_text_file", category: ToolCategory::Read, write: false },
        ToolMeta { name: "read_media_file", category: ToolCategory::Read, write: false },
        ToolMeta { name: "write_file", category: ToolCategory::Write, write: true },
        ToolMeta { name: "edit_file", category: ToolCategory::Write, write: true },
        ToolMeta { name: "create_directory", category: ToolCategory::Write, write: true },
        ToolMeta { name: "list_directory", category: ToolCategory::Read, write: false },
        ToolMeta { name: "list_directory_with_sizes", category: ToolCategory::Read, write: false },
        ToolMeta { name: "move_file", category: ToolCategory::Write, write: true },
        ToolMeta { name: "copy_file", category: ToolCategory::Write, write: true },
        ToolMeta { name: "delete_file", category: ToolCategory::Delete, write: true },
        ToolMeta { name: "delete_directory", category: ToolCategory::Delete, write: true },
        ToolMeta { name: "search_files", category: ToolCategory::Read, write: false },
        ToolMeta { name: "directory_tree", category: ToolCategory::Read, write: false },
        ToolMeta { name: "get_file_info", category: ToolCategory::Read, write: false },
        ToolMeta { name: "list_allowed_directories", category: ToolCategory::Read, write: false },
        ToolMeta { name: "hash_file", category: ToolCategory::Read, write: false },
        ToolMeta { name: "grep_files", category: ToolCategory::Read, write: false },
        ToolMeta { name: "set_permissions", category: ToolCategory::Write, write: true },
        ToolMeta { name: "get_disk_usage", category: ToolCategory::Read, write: false },
        ToolMeta { name: "create_symlink", category: ToolCategory::Write, write: true },
        ToolMeta { name: "read_file_range", category: ToolCategory::Read, write: false },
        ToolMeta { name: "compress_gzip", category: ToolCategory::Compress, write: true },
        ToolMeta { name: "decompress_gzip", category: ToolCategory::Compress, write: true },
        ToolMeta { name: "compress_zstd", category: ToolCategory::Compress, write: true },
        ToolMeta { name: "decompress_zstd", category: ToolCategory::Compress, write: true },
        ToolMeta { name: "compress_tar", category: ToolCategory::Compress, write: true },
        ToolMeta { name: "decompress_tar", category: ToolCategory::Compress, write: true },
        ToolMeta { name: "encrypt_file", category: ToolCategory::Crypto, write: true },
        ToolMeta { name: "decrypt_file", category: ToolCategory::Crypto, write: true },
        ToolMeta { name: "generate_key", category: ToolCategory::Crypto, write: true },
        ToolMeta { name: "csv_create", category: ToolCategory::Csv, write: true },
        ToolMeta { name: "csv_read", category: ToolCategory::Csv, write: false },
        ToolMeta { name: "csv_add_row", category: ToolCategory::Csv, write: true },
        ToolMeta { name: "csv_update_cell", category: ToolCategory::Csv, write: true },
        ToolMeta { name: "csv_remove_row", category: ToolCategory::Csv, write: true },
        ToolMeta { name: "csv_add_column", category: ToolCategory::Csv, write: true },
        ToolMeta { name: "csv_remove_column", category: ToolCategory::Csv, write: true },
        ToolMeta { name: "csv_rename_column", category: ToolCategory::Csv, write: true },
        ToolMeta { name: "csv_read_column_values_range", category: ToolCategory::Csv, write: false },
        ToolMeta { name: "csv_read_row_range", category: ToolCategory::Csv, write: false },
        ToolMeta { name: "csv_select_column_range", category: ToolCategory::Csv, write: false },
    ];
    assert(r@.map_values(|t: ToolMeta| t@) =~= tool_table());
    r
}

fn lookup(name: &str) -> (r: Option<ToolMeta>)
    ensures
        match r {
            Some(t) => lookup_spec(name@) == Some(t@),
            None => lookup_spec(name@) is None,
        },
{
    let tools = all_tools();
    let ghost tbl = tool_table();
    let mut i: usize = 0;
    assert(tbl.skip(0) =~= tbl);
    while i < tools.len()
        invariant
            tools@.map_values(|t: ToolMeta| t@) == tbl,
            tbl == tool_table(),
            i <= tbl.len(),
            find_tool(tbl, name@) == find_tool(tbl.skip(i as int), name@),
        decreases tbl.len() - i,
    {
        assert(tbl.skip(i as int).drop_first() =~= tbl.skip(i + 1));
        assert(tbl.skip(i as int)[0] == tools@[i as int]@);
        if str_eq(tools[i].name, name) {
            return Some(tools[i]);
        }
        i = i + 1;
    }
    None
}

pub fn is_write_tool(name: &str) -> (r: bool)
    ensures
        r == is_write_spec(name@),
{
    match lookup(name) {
        Some(t) => t.write,
        None => false,
    }
}

/// The category a tool belongs to, or `None` if the tool is unknown.
pub fn category_of(name: &str) -> (r: Option<ToolCategory>)
    ensures
        r == category_spec(name@),
{
    match lookup(name) {
        Some(t) => Some(t.category),
        None => None,
    }
}

/// Whether a tool is callable given the set of enabled categories. A tool is
/// available only if it exists *and* its category is enabled.
pub fn is_tool_available(name: &str, enabled: &[ToolCategory]) -> (r: bool)
    ensures
        r == available_spec(name@, enabled@),
{
    match category_of(name) {
        Some(c) => {
            let mut i: usize = 0;
            while i < enabled.len()
                invariant
                    i <= enabled@.len(),
                    category_spec(name@) == Some(c),
                    forall|j: int| 0 <= j < i ==> enabled@[j] != c,
                decreases enabled@.len() - i,
            {
                if enabled[i] == c {
                    assert(enabled@[i as int] == c);
                    return true;
                }
                i = i + 1;
            }
            false
        },
        None => false,
    }
}

/// Four features that tell the tools' names apart: the length, the first,
/// seventh and last characters.
spec fn name_key(s: Seq<char>) -> (nat, char, char, char) {
    (s.len(), s[0], s[6], s[s.len() - 1])
}

/// No two tools share a name.
#[verifier::spinoff_prover]
#[verifier::rlimit(100)]
pub(crate) proof fn lemma_tool_names_distinct()
    ensures
        forall|i: int, j: int|
            0 <= i < j < tool_table().len() ==> (#[trigger] tool_table()[i]).0 != (
            #[trigger] tool_table()[j]).0,
{
    reveal_strlit("read_text_file");
    reveal_strlit("read_media_file");
    reveal_strlit("write_file");
    reveal_strlit("edit_file");
    reveal_strlit("create_directory");
    reveal_strlit("list_directory");
    reveal_strlit("list_directory_with_sizes");
    reveal_strlit("move_file");
    reveal_strlit("copy_file");
    reveal_strlit("delete_file");
    reveal_strlit("delete_directory");
    reveal_strlit("search_files");
    reveal_strlit("directory_tree");
    reveal_strlit("get_file_info");
    reveal_strlit("list_allowed_directories");
    reveal_strlit("hash_file");
    reveal_strlit("grep_files");
    reveal_strlit("set_permissions");
    reveal_strlit("get_disk_usage");
    reveal_strlit("create_symlink");
    reveal_strlit("read_file_range");
    reveal_strlit("compress_gzip");
    reveal_strlit("decompress_gzip");
    reveal_strlit("compress_zstd");
    reveal_strlit("decompress_zstd");
    reveal_strlit("compress_tar");
    reveal_strlit("decompress_tar");
    reveal_strlit("encrypt_file");
    reveal_strlit("decrypt_file");
    reveal_strlit("generate_key");
    reveal_strlit("csv_create");
    reveal_strlit("csv_read");
    reveal_strlit("csv_add_row");
    reveal_strlit("csv_update_cell");
    reveal_strlit("csv_remove_row");
    reveal_strlit("csv_add_column");
    reveal_strlit("csv_remove_column");
    reveal_strlit("csv_rename_column");
    reveal_strlit("csv_read_column_values_range");
    reveal_strlit("csv_read_row_range");
    reveal_strlit("csv_select_column_range");
    assert(tool_table()[0].0 == "read_text_file"@);
    assert(tool_table()[1].0 == "read_media_file"@);
    assert(tool_table()[2].0 == "write_file"@);
    assert(tool_table()[3].0 == "edit_file"@);
    assert(tool_table()[4].0 == "create_directory"@);
    assert(tool_table()[5].0 == "list_directory"@);
    assert(tool_table()[6].0 == "list_directory_with_sizes"@);
    assert(tool_table()[7].0 == "move_file"@);
    assert(tool_table()[8].0 == "copy_file"@);
    assert(tool_table()[9].0 == "delete_file"@);
    assert(tool_table()[10].0 == "delete_directory"@);
    assert(tool_table()[11].0 == "search_files"@);
    assert(tool_table()[12].0 == "directory_tree"@);
    assert(tool_table()[13].0 == "get_file_info"@);
    assert(tool_table()[14].0 == "list_allowed_directories"@);
    assert(tool_table()[15].0 == "hash_file"@);
    assert(tool_table()[16].0 == "grep_files"@);
    assert(tool_table()[17].0 == "set_permissions"@);
    assert(tool_table()[18].0 == "get_disk_usage"@);
    assert(tool_table()[19].0 == "create_symlink"@);
    assert(tool_table()[20].0 == "read_file_range"@);
    assert(tool_table()[21].0 == "compress_gzip"@);
    assert(tool_table()[22].0 == "decompress_gzip"@);
    assert(tool_table()[23].0 == "compress_zstd"@);
    assert(tool_table()[24].0 == "decompress_zstd"@);
    assert(tool_table()[25].0 == "compress_tar"@);
    assert(tool_table()[26].0 == "decompress_tar"@);
    assert(tool_table()[27].0 == "encrypt_file"@);
    assert(tool_table()[28].0 == "decrypt_file"@);
    assert(tool_table()[29].0 == "generate_key"@);
    assert(tool_table()[30].0 == "csv_create"@);
    assert(tool_table()[31].0 == "csv_read"@);
    assert(tool_table()[32].0 == "csv_add_row"@);
    assert(tool_table()[33].0 == "csv_update_cell"@);
    assert(tool_table()[34].0 == "csv_remove_row"@);
    assert(tool_table()[35].0 == "csv_add_column"@);
    assert(tool_table()[36].0 == "csv_remove_column"@);
    assert(tool_table()[37].0 == "csv_rename_column"@);
    assert(tool_table()[38].0 == "csv_read_column_values_range"@);
    assert(tool_table()[39].0 == "csv_read_row_range"@);
    assert(tool_table()[40].0 == "csv_select_column_range"@);
    assert forall|i: int, j: int|
        0 <= i < j < tool_table().len() implies (#[trigger] tool_table()[i]).0 != (
        #[trigger] tool_table()[j]).0 by {
        // The table has 41 entries: one case for each.
        assert(i == 0 || i == 1 || i == 2 || i == 3 || i == 4 || i == 5 || i == 6 || i == 7
            || i == 8 || i == 9 || i == 10 || i == 11 || i == 12 || i == 13 || i == 14 || i == 15
            || i == 16 || i == 17 || i == 18 || i == 19 || i == 20 || i == 21 || i == 22 || i == 23
            || i == 24 || i == 25 || i == 26 || i == 27 || i == 28 || i == 29 || i == 30 || i == 31
            || i == 32 || i == 33 || i == 34 || i == 35 || i == 36 || i == 37 || i == 38 || i == 39
            || i == 40);
        assert(j == 0 || j == 1 || j == 2 || j == 3 || j == 4 || j == 5 || j == 6 || j == 7
            || j == 8 || j == 9 || j == 10 || j == 11 || j == 12 || j == 13 || j == 14 || j == 15
            || j == 16 || j == 17 || j == 18 || j == 19 || j == 20 || j == 21 || j == 22 || j == 23
            || j == 24 || j == 25 || j == 26 || j == 27 || j == 28 || j == 29 || j == 30 || j == 31
            || j == 32 || j == 33 || j == 34 || j == 35 || j == 36 || j == 37 || j == 38 || j == 39
            || j == 40);
        assert(name_key(tool_table()[i].0) != name_key(tool_table()[j].0));
    }
}

/// In a table without repeated names, the first entry named `name` is the
/// entry of that name.
pub(crate) proof fn lemma_find_tool(tbl: Seq<(Seq<char>, ToolCategory, bool)>, name: Seq<char>)
    requires
        forall|i: int, j: int| 0 <= i < j < tbl.len() ==> (#[trigger] tbl[i]).0 != (#[trigger] tbl[j]).0,
    ensures
        forall|i: int| 0 <= i < tbl.len() && (#[trigger] tbl[i]).0 == name ==> find_tool(tbl, name) == Some(tbl[i]),
        find_tool(tbl, name) matches Some(t) ==> exists|i: int| 0 <= i < tbl.len() && #[trigger] tbl[i] == t && t.0 == name,
    decreases tbl.len(),
{
    if tbl.len() > 0 {
        let rest = tbl.drop_first();
        assert forall|i: int, j: int| 0 <= i < j < rest.len() implies (#[trigger] rest[i]).0 != (#[trigger] rest[j]).0 by {
            assert(rest[i] == tbl[i + 1] && rest[j] == tbl[j + 1]);
        }
        lemma_find_tool(rest, name);
        assert forall|i: int| 0 <= i < tbl.len() && (#[trigger] tbl[i]).0 == name implies find_tool(tbl, name) == Some(tbl[i]) by {
            if i > 0 {
                assert(tbl[0].0 != tbl[i].0);
                assert(rest[i - 1] == tbl[i]);
            }
        }
        if tbl[0].0 != name {
            if let Some(t) = find_tool(rest, name) {
                let i = choose|i: int| 0 <= i < rest.len() && #[trigger] rest[i] == t && t.0 == name;
                assert(tbl[i + 1] == t);
            }
        } else {
            assert(tbl[0] == tbl[0]);
        }
    }
}

/// A tool is available exactly when the tool table lists a tool of that
/// name whose category is enabled.
pub proof fn lemma_available_iff_listed(name: Seq<char>, enabled: Seq<ToolCategory>)
    ensures
        available_spec(name, enabled) == exists|i: int|
            0 <= i < tool_table().len() && (#[trigger] tool_table()[i]).0 == name && enabled.contains(
                tool_table()[i].1,
            ),
{
    lemma_tool_names_distinct();
    lemma_find_tool(tool_table(), name);
}

/// Enabling more categories never makes an available tool unavailable.
pub proof fn lemma_available_monotone(name: Seq<char>, enabled: Seq<ToolCategory>, more: Seq<ToolCategory>)
    requires
        forall|c: ToolCategory| enabled.contains(c) ==> more.contains(c),
        available_spec(name, enabled),
    ensures
        available_spec(name, more),
{
}

/// The rows of the tool table, one by one.
pub(crate) proof fn lemma_table_rows()
    ensures
        tool_table().len() == 41,
        tool_table()[0] == ("read_text_file"@, ToolCategory::Read, false),
        tool_table()[1] == ("read_media_file"@, ToolCategory::Read, false),
        tool_table()[2] == ("write_file"@, ToolCategory::Write, true),
        tool_table()[3] == ("edit_file"@, ToolCategory::Write, true),
        tool_table()[4] == ("create_directory"@, ToolCategory::Write, true),
        tool_table()[5] == ("list_directory"@, ToolCategory::Read, false),
        tool_table()[6] == ("list_directory_with_sizes"@, ToolCategory::Read, false),
        tool_table()[7] == ("move_file"@, ToolCategory::Write, true),
        tool_table()[8] == ("copy_file"@, ToolCategory::Write, true),
        tool_table()[9] == ("delete_file"@, ToolCategory::Delete, true),
        tool_table()[10] == ("delete_directory"@, ToolCategory::Delete, true),
        tool_table()[11] == ("search_files"@, ToolCategory::Read, false),
        tool_table()[12] == ("directory_tree"@, ToolCategory::Read, false),
        tool_table()[13] == ("get_file_info"@, ToolCategory::Read, false),
        tool_table()[14] == ("list_allowed_directories"@, ToolCategory::Read, false),
        tool_table()[15] == ("hash_file"@, ToolCategory::Read, false),
        tool_table()[16] == ("grep_files"@, ToolCategory::Read, false),
        tool_table()[17] == ("set_permissions"@, ToolCategory::Write, true),
        tool_table()[18] == ("get_disk_usage"@, ToolCategory::Read, false),
        tool_table()[19] == ("create_symlink"@, ToolCategory::Write, true),
        tool_table()[20] == ("read_file_range"@, ToolCategory::Read, false),
        tool_table()[21] == ("compress_gzip"@, ToolCategory::Compress, true),
        tool_table()[22] == ("decompress_gzip"@, ToolCategory::Compress, true),
        tool_table()[23] == ("compress_zstd"@, ToolCategory::Compress, true),
        tool_table()[24] == ("decompress_zstd"@, ToolCategory::Compress, true),
        tool_table()[25] == ("compress_tar"@, ToolCategory::Compress, true),
        tool_table()[26] == ("decompress_tar"@, ToolCategory::Compress, true),
        tool_table()[27] == ("encrypt_file"@, ToolCategory::Crypto, true),
        tool_table()[28] == ("decrypt_file"@, ToolCategory::Crypto, true),
        tool_table()[29] == ("generate_key"@, ToolCategory::Crypto, true),
        tool_table()[30] == ("csv_create"@, ToolCategory::Csv, true),
        tool_table()[31] == ("csv_read"@, ToolCategory::Csv, false),
        tool_table()[32] == ("csv_add_row"@, ToolCategory::Csv, true),
        tool_table()[33] == ("csv_update_cell"@, ToolCategory::Csv, true),
        tool_table()[34] == ("csv_remove_row"@, ToolCategory::Csv, true),
        tool_table()[35] == ("csv_add_column"@, ToolCategory::Csv, true),
        tool_table()[36] == ("csv_remove_column"@, ToolCategory::Csv, true),
        tool_table()[37] == ("csv_rename_column"@, ToolCategory::Csv, true),
        tool_table()[38] == ("csv_read_column_values_range"@, ToolCategory::Csv, false),
        tool_table()[39] == ("csv_read_row_range"@, ToolCategory::Csv, false),
        tool_table()[40] == ("csv_select_column_range"@, ToolCategory::Csv, false),
{
}

/// `b` starts with the (at most six) characters of `a`, read one by one.
spec fn starts_with_chars(b: Seq<char>, a: Seq<char>) -> bool {
    &&& a.len() <= b.len()
    &&& (a.len() > 0 ==> b[0] == a[0])
    &&& (a.len() > 1 ==> b[1] == a[1])
    &&& (a.len() > 2 ==> b[2] == a[2])
    &&& (a.len() > 3 ==> b[3] == a[3])
    &&& (a.len() > 4 ==> b[4] == a[4])
    &&& (a.len() > 5 ==> b[5] == a[5])
}

proof fn lemma_prefix_chars(a: Seq<char>, b: Seq<char>)
    requires
        a.len() <= 6,
    ensures
        is_prefix(a, b) <==> starts_with_chars(b, a),
{
    if starts_with_chars(b, a) {
        assert(b.take(a.len() as int) =~= a);
    }
    if is_prefix(a, b) {
        let t = b.take(a.len() as int);
        assert(a.len() > 0 ==> t[0] == b[0]);
        assert(a.len() > 1 ==> t[1] == b[1]);
        assert(a.len() > 2 ==> t[2] == b[2]);
        assert(a.len() > 3 ==> t[3] == b[3]);
        assert(a.len() > 4 ==> t[4] == b[4]);
        assert(a.len() > 5 ==> t[5] == b[5]);
    }
}

/// A name of a reading tool: it starts with `read`, `list`, `search` or
/// `grep`.
pub open spec fn reader_name(name: Seq<char>) -> bool {
    is_prefix("read"@, name) || is_prefix("list"@, name) || is_prefix("search"@, name) || is_prefix(
        "grep"@,
        name,
    )
}

/// The category a tool's name puts it in: `csv_...` tools are CSV tools,
/// `delete...` tools delete, `compre...`/`decomp...` tools compress,
/// `encryp...`/`decryp...`/`genera...` tools are cryptographic, the other
/// writers write, and the rest read.
pub open spec fn name_category(name: Seq<char>) -> ToolCategory {
    if is_prefix("csv_"@, name) {
        ToolCategory::Csv
    } else if is_prefix("delete"@, name) {
        ToolCategory::Delete
    } else if is_prefix("compre"@, name) || is_prefix("decomp"@, name) {
        ToolCategory::Compress
    } else if is_prefix("encryp"@, name) || is_prefix("decryp"@, name) || is_prefix("genera"@, name) {
        ToolCategory::Crypto
    } else if is_prefix("write"@, name) || is_prefix("edit"@, name) || is_prefix("create"@, name)
        || is_prefix("move"@, name) || is_prefix("copy"@, name) || is_prefix("set_"@, name) {
        ToolCategory::Write
    } else {
        ToolCategory::Read
    }
}

/// How the table sorts its tools: a tool is in the Read category exactly
/// when it writes nothing and is not a CSV tool (named `csv_...`), no
/// reading tool (named `read...`, `list...`, `search...` or `grep...`)
/// writes, and every tool's category is the one its name gives.
pub proof fn lemma_read_category_is_non_writing()
    ensures
        forall|i: int|
            0 <= i < tool_table().len() ==> ((#[trigger] tool_table()[i]).1 == ToolCategory::Read <==> (
            !tool_table()[i].2 && !is_prefix("csv_"@, tool_table()[i].0))),
        forall|i: int|
            0 <= i < tool_table().len() && reader_name((#[trigger] tool_table()[i]).0) ==> !tool_table()[i].2,
        forall|i: int|
            0 <= i < tool_table().len() ==> (#[trigger] tool_table()[i]).1 == name_category(tool_table()[i].0),
{
    reveal_strlit("read_text_file");
    reveal_strlit("read_media_file");
    reveal_strlit("write_file");
    reveal_strlit("edit_file");
    reveal_strlit("create_directory");
    reveal_strlit("list_directory");
    reveal_strlit("list_directory_with_sizes");
    reveal_strlit("move_file");
    reveal_strlit("copy_file");
    reveal_strlit("delete_file");
    reveal_strlit("delete_directory");
    reveal_strlit("search_files");
    reveal_strlit("directory_tree");
    reveal_strlit("get_file_info");
    reveal_strlit("list_allowed_directories");
    reveal_strlit("hash_file");
    reveal_strlit("grep_files");
    reveal_strlit("set_permissions");
    reveal_strlit("get_disk_usage");
    reveal_strlit("create_symlink");
    reveal_strlit("read_file_range");
    reveal_strlit("compress_gzip");
    reveal_strlit("decompress_gzip");
    reveal_strlit("compress_zstd");
    reveal_strlit("decompress_zstd");
    reveal_strlit("compress_tar");
    reveal_strlit("decompress_tar");
    reveal_strlit("encrypt_file");
    reveal_strlit("decrypt_file");
    reveal_strlit("generate_key");
    reveal_strlit("csv_create");
    reveal_strlit("csv_read");
    reveal_strlit("csv_add_row");
    reveal_strlit("csv_update_cell");
    reveal_strlit("csv_remove_row");
    reveal_strlit("csv_add_column");
    reveal_strlit("csv_remove_column");
    reveal_strlit("csv_rename_column");
    reveal_strlit("csv_read_column_values_range");
    reveal_strlit("csv_read_row_range");
    reveal_strlit("csv_select_column_range");
    reveal_strlit("csv_");
    reveal_strlit("read");
    reveal_strlit("list");
    reveal_strlit("search");
    reveal_strlit("grep");
    reveal_strlit("delete");
    reveal_strlit("compre");
    reveal_strlit("decomp");
    reveal_strlit("encryp");
    reveal_strlit("decryp");
    reveal_strlit("genera");
    reveal_strlit("write");
    reveal_strlit("edit");
    reveal_strlit("create");
    reveal_strlit("move");
    reveal_strlit("copy");
    reveal_strlit("set_");
    lemma_table_rows();
    assert forall|i: int| 0 <= i < tool_table().len() implies ((#[trigger] tool_table()[i]).1
        == ToolCategory::Read <==> (!tool_table()[i].2 && !is_prefix("csv_"@, tool_table()[i].0)))
        && (reader_name(tool_table()[i].0) ==> !tool_table()[i].2)
        && tool_table()[i].1 == name_category(tool_table()[i].0) by {
        lemma_prefix_chars("csv_"@, tool_table()[i].0);
        lemma_prefix_chars("read"@, tool_table()[i].0);
        lemma_prefix_chars("list"@, tool_table()[i].0);
        lemma_prefix_chars("search"@, tool_table()[i].0);
        lemma_prefix_chars("grep"@, tool_table()[i].0);
        lemma_prefix_chars("delete"@, tool_table()[i].0);
        lemma_prefix_chars("compre"@, tool_table()[i].0);
        lemma_prefix_chars("decomp"@, tool_table()[i].0);
        lemma_prefix_chars("encryp"@, tool_table()[i].0);
        lemma_prefix_chars("decryp"@, tool_table()[i].0);
        lemma_prefix_chars("genera"@, tool_table()[i].0);
        lemma_prefix_chars("write"@, tool_table()[i].0);
        lemma_prefix_chars("edit"@, tool_table()[i].0);
        lemma_prefix_chars("create"@, tool_table()[i].0);
        lemma_prefix_chars("move"@, tool_table()[i].0);
        lemma_prefix_chars("copy"@, tool_table()[i].0);
        lemma_prefix_chars("set_"@, tool_table()[i].0);
        assert(i == 0 || i == 1 || i == 2 || i == 3 || i == 4 || i == 5 || i == 6 || i == 7
            || i == 8 || i == 9 || i == 10 || i == 11 || i == 12 || i == 13 || i == 14 || i == 15
            || i == 16 || i == 17 || i == 18 || i == 19 || i == 20 || i == 21 || i == 22 || i == 23
            || i == 24 || i == 25 || i == 26 || i == 27 || i == 28 || i == 29 || i == 30 || i == 31
            || i == 32 || i == 33 || i == 34 || i == 35 || i == 36 || i == 37 || i == 38 || i == 39
            || i == 40);
    }
}

/// Every reading tool (`read...`, `list...`, `search...`, `grep...`) is in
/// the Read category, so it is available as soon as Read is enabled.
pub proof fn lemma_reading_tools_need_read(name: Seq<char>, enabled: Seq<ToolCategory>)
    requires
        reader_name(name),
        lookup_spec(name) is Some,
    ensures
        category_spec(name) == Some(ToolCategory::Read),
        enabled.contains(ToolCategory::Read) ==> available_spec(name, enabled),
{
    lemma_tool_names_distinct();
    lemma_find_tool(tool_table(), name);
    lemma_read_category_is_non_writing();
    let t = lookup_spec(name)->0;
    let i = choose|i: int| 0 <= i < tool_table().len() && #[trigger] tool_table()[i] == t && t.0 == name;
    assert(tool_table()[i].0 == name);
    reveal_strlit("csv_");
    reveal_strlit("read");
    reveal_strlit("list");
    reveal_strlit("search");
    reveal_strlit("grep");
    lemma_prefix_chars("csv_"@, name);
    lemma_prefix_chars("read"@, name);
    lemma_prefix_chars("list"@, name);
    lemma_prefix_chars("search"@, name);
    lemma_prefix_chars("grep"@, name);
    assert(!is_prefix("csv_"@, name)) by {
        if is_prefix("csv_"@, name) {
            assert(name[0] == 'c');
        }
    }
}

/// A category's slug parses back to the category.
pub proof fn lemma_slug_roundtrip(c: ToolCategory)
    ensures
        parse_category_spec(slug_spec(c)) == Some(c),
{
    let s = slug_spec(c);
    reveal_strlit("read");
    reveal_strlit("write");
    reveal_strlit("delete");
    reveal_strlit("compress");
    reveal_strlit("crypto");
    reveal_strlit("csv");
    assert(s.len() > 0);
    assert(!is_white_space(s[0]));
    assert(trim_start_spec(s) == s);
    assert(!is_white_space(s.last()));
    assert(trim_spec(s) == s);
    assert(s.map_values(|ch: char| category_char(ch)) =~= s);
}

/// No tool is available while no category is enabled.
pub proof fn lemma_nothing_enabled_by_default(name: Seq<char>)
    ensures
        !available_spec(name, Seq::empty()),
{
}

} // verus!
