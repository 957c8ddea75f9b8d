use mcp_filesystem::actions::dirs::{EntryKind, GlobFilter, RegexFilter, SEARCH_LIMIT, TreeNode, TreeStep, admit_node, any_match, build_tree, exclude_filters, grep_lines, grep_reads, search_hit, tree_step};
use mcp_filesystem::actions::files::{detected_type, media_content, media_mime_type, MediaContent};
use mcp_filesystem::actions::compress::{
    admit_write, archive_compression, check_output_differs, check_tar_entry, check_tar_output,
    gzip_level, tar_compression, tar_entries, zstd_level, TarCompression,
};
use mcp_filesystem::actions::dirs::{
    disk_usage, entry_label, is_binary_extension, list_directory, listing_order, listing_summary,
    relative_text, sized_file_label, SizedEntry, WalkedKind,
};
use mcp_filesystem::actions::files::{
    binary_note, check_file_size, check_range_args, count_lines, file_type_name, hash_bytes,
    head_lines, join_lines, lines_of, media_kind, parse_mode, permissions_text, range_span,
    tail_lines, text_read_mode, LineWindow, MediaKind,
};
use mcp_filesystem::actions::util::{derive_output_path, is_hidden_name, Suffix};

fn strings(v: &[&str]) -> Vec<String> {
    v.iter().map(|s| s.to_string()).collect()
}

#[test]
fn read_modes_clamp_and_exclude_each_other() {
    assert_eq!(text_read_mode(None, None).unwrap(), LineWindow::All);
    assert_eq!(text_read_mode(Some(-5), None).unwrap(), LineWindow::Head(0));
    assert_eq!(text_read_mode(None, Some(1_000_000)).unwrap(), LineWindow::Tail(100_000));
    assert_eq!(
        text_read_mode(Some(1), Some(1)).unwrap_err().to_string(),
        "Invalid params: Cannot specify both head and tail simultaneously"
    );
    assert!(check_file_size(10, 10).is_ok());
    assert_eq!(
        check_file_size(11, 10).unwrap_err().to_string(),
        "Filesystem error: File size 11 exceeds maximum allowed size 10"
    );
}

#[test]
fn lines_are_split_like_str_lines() {
    assert_eq!(lines_of("a\r\nb\n\nc\r"), strings(&["a", "b", "", "c\r"]));
    assert_eq!(lines_of("x\n"), strings(&["x"]));
    assert!(lines_of("").is_empty());
    assert_eq!(count_lines("one\ntwo\nthree"), 3);
    assert_eq!(join_lines(&strings(&["a", "b", "c"])), "a\nb\nc");
    assert_eq!(join_lines(&vec![]), "");
}

#[test]
fn head_and_tail_of_lines() {
    let lines = strings(&["1", "2", "3", "4", "5"]);
    assert_eq!(head_lines(lines.clone(), 2), (strings(&["1", "2"]), 2));
    assert_eq!(head_lines(lines.clone(), 9), (lines.clone(), 5));
    assert_eq!(tail_lines(lines.clone(), 2).unwrap(), (5, strings(&["4", "5"])));
    assert_eq!(tail_lines(lines.clone(), 9).unwrap(), (5, lines.clone()));
    assert!(tail_lines(lines, 0).is_err());
    assert_eq!(tail_lines(vec![], 0).unwrap(), (0, vec![]));
}

#[test]
fn media_and_ranges() {
    assert_eq!(media_kind("image/png"), MediaKind::Image);
    assert_eq!(media_kind("audio/ogg"), MediaKind::Audio);
    assert_eq!(media_kind("application/pdf"), MediaKind::Other);
    assert_eq!(
        binary_note("application/zip", 42),
        "Binary file (application/zip, 42 bytes); base64 data in structuredContent.data"
    );
    assert!(check_range_args(0, -1).is_err());
    assert_eq!(range_span(2, 5, 4, 100).unwrap(), 2);
    assert_eq!(range_span(0, i64::MAX, 4, 100).unwrap(), 4);
    assert_eq!(range_span(4, 1, 4, 100).unwrap_err(), "Offset 4 exceeds file size 4");
    assert_eq!(
        range_span(0, 50, 40, 10).unwrap_err(),
        "Requested range 40 exceeds maximum allowed size 10"
    );
}

#[test]
fn hashes_modes_and_types() {
    assert_eq!(
        hash_bytes("sha256", b"abc").unwrap(),
        "ba7816bf8f01cfea414140de5dae2223b00361a396177a9cb410ff61f20015ad"
    );
    assert_eq!(hash_bytes("md5", b"").unwrap(), "d41d8cd98f00b204e9800998ecf8427e");
    assert_eq!(hash_bytes("sha512", b"").unwrap().len(), 128);
    assert_eq!(hash_bytes("blake3", b"").unwrap().len(), 64);
    assert_eq!(hash_bytes("crc", b"").unwrap_err(), "Unsupported hash algorithm: crc");
    assert_eq!(parse_mode("755").unwrap(), 0o755);
    assert_eq!(parse_mode("+644").unwrap(), 0o644);
    assert!(parse_mode("8").is_err());
    assert!(parse_mode("").is_err());
    assert!(parse_mode("77777777777").is_err());
    assert_eq!(permissions_text(0o100644), "644");
    assert_eq!(permissions_text(0), "0");
    assert_eq!(file_type_name(true, true), "directory");
    assert_eq!(file_type_name(false, true), "symlink");
    assert_eq!(file_type_name(false, false), "file");
}

#[test]
fn output_paths_are_derived_from_the_source() {
    assert_eq!(derive_output_path("/d/data", Suffix::Add(".gz")), "/d/data.gz");
    assert_eq!(derive_output_path("/d/data.gz", Suffix::Strip(".gz")), "/d/data");
    assert_eq!(derive_output_path("/d/data", Suffix::Strip(".gz")), "/d/data");
    assert!(is_hidden_name(".git"));
    assert!(!is_hidden_name("git"));
}

#[test]
fn compression_settings() {
    assert_eq!(gzip_level(None), 6);
    assert_eq!(gzip_level(Some(12)), 9);
    assert_eq!(zstd_level(Some(0)), 1);
    assert_eq!(zstd_level(None), 3);
    assert_eq!(tar_compression("gz"), TarCompression::Gzip);
    assert_eq!(tar_compression("zst"), TarCompression::Zstd);
    assert_eq!(tar_compression("none"), TarCompression::Plain);
    assert_eq!(archive_compression(&[0x1f, 0x8b, 0x08, 0]), TarCompression::Gzip);
    assert_eq!(archive_compression(&[0x28, 0xb5, 0x2f, 0xfd]), TarCompression::Zstd);
    assert_eq!(archive_compression(b"usta"), TarCompression::Plain);
    assert!(check_output_differs("/a/b", "/a//b/").is_err());
    assert!(check_output_differs("/a/b", "/a/c").is_ok());
    assert!(check_tar_output("/src", "/src/out.tar").is_err());
    assert!(check_tar_output("/src", "/out.tar").is_ok());
}

#[test]
fn decompression_and_extraction_guards() {
    assert!(admit_write(90, 10, 100).is_ok());
    assert_eq!(
        admit_write(91, 10, 100).unwrap_err(),
        "Decompressed output exceeds maximum allowed size of 100 bytes"
    );
    assert_eq!(
        check_tar_entry(false, "a/b.txt", 0, 5, 10, "/out").unwrap(),
        (5, "/out/a/b.txt".to_string())
    );
    assert_eq!(
        check_tar_entry(false, "../etc/passwd", 0, 5, 10, "/out").unwrap_err(),
        "Unsafe tar path: ../etc/passwd"
    );
    assert!(check_tar_entry(false, "/etc/passwd", 0, 5, 10, "/out").is_err());
    assert!(check_tar_entry(true, "a", 0, 5, 10, "/out").is_err());
    assert_eq!(
        check_tar_entry(false, "a", 8, 5, 10, "/out").unwrap_err(),
        "Tar extraction exceeds maximum allowed size of 10 bytes"
    );
    assert_eq!(
        tar_entries("/s", true, strings(&["/s", "/s/a", "/s/b"])),
        strings(&["/s/a", "/s/b"])
    );
    assert_eq!(tar_entries("/f.txt", false, vec![]), strings(&["/f.txt"]));
}

#[test]
fn listings_are_labelled_and_sorted() {
    let entries = vec![
        ("zeta".to_string(), false),
        ("alpha".to_string(), true),
        ("beta".to_string(), false),
    ];
    assert_eq!(
        list_directory(&entries),
        strings(&["[DIR] alpha", "[FILE] beta", "[FILE] zeta"])
    );
    assert_eq!(entry_label("x", true), "[DIR] x");
    assert_eq!(sized_file_label("f", 12), "[FILE] f (12 B)");
    let sized = vec![
        SizedEntry { name: "b".into(), is_dir: false, size: 5 },
        SizedEntry { name: "a".into(), is_dir: true, size: 0 },
        SizedEntry { name: "c".into(), is_dir: false, size: 5 },
        SizedEntry { name: "d".into(), is_dir: false, size: 9 },
    ];
    assert_eq!(listing_order(&sized, "size"), vec![3, 0, 2, 1]);
    assert_eq!(listing_order(&sized, "name"), vec![1, 0, 2, 3]);
    let s = listing_summary(&sized);
    assert_eq!((s.total_files, s.total_dirs, s.combined_size), (3, 1, 19));
}

#[test]
fn walks_are_summed_and_paths_made_relative() {
    let u = disk_usage(&vec![
        WalkedKind::Dir,
        WalkedKind::File(Some(10)),
        WalkedKind::File(None),
        WalkedKind::Other,
        WalkedKind::File(Some(5)),
    ]);
    assert_eq!((u.total_size, u.file_count, u.dir_count), (15, 2, 1));
    assert_eq!(relative_text("/root/a/b.txt", "/root"), "a/b.txt");
    assert_eq!(relative_text("/root", "/root"), "");
    assert_eq!(relative_text("/other/x", "/root"), "/other/x");
    assert!(is_binary_extension("png"));
    assert!(!is_binary_extension("PNG"));
    assert!(!is_binary_extension("rs"));
}

#[test]
fn admitted_chunks_never_pass_the_limit() {
    let limit = 100u64;
    let mut written = 0u64;
    let mut refused = 0;
    for len in [40usize, 30, 20, 20, 10, 5] {
        if admit_write(written, len, limit).is_ok() {
            written += len as u64;
        } else {
            refused += 1;
        }
        assert!(written <= limit);
    }
    assert_eq!(written, 100);
    assert_eq!(refused, 2);
}

#[test]
fn extracted_entries_stay_inside_the_output() {
    for (output, path, target) in [
        ("/out", "a/b.txt", "/out/a/b.txt"),
        ("/out/", "a", "/out/a"),
        ("out", "./x/./y", "out/./x/./y"),
        ("", "rel/z", "rel/z"),
    ] {
        let (_, t) = check_tar_entry(false, path, 0, 1, 10, output).unwrap();
        assert_eq!(t, target);
        assert!(t.starts_with(output));
    }
    assert!(check_tar_entry(false, "a/../../x", 0, 1, 10, "/out").is_err());
    assert!(check_tar_entry(false, "a/..", 0, 1, 10, "/out").is_err());
}

struct FakeTree;

impl mcp_filesystem::actions::dirs::TreeSource for FakeTree {
    fn kind(&self, path: &str) -> Option<mcp_filesystem::actions::dirs::EntryKind> {
        match path {
            "/r" | "/r/sub" | "/r/.hidden" => Some(EntryKind::Dir),
            "/r/a.txt" | "/r/sub/b.txt" => Some(EntryKind::File),
            "/r/sub/x" => Some(EntryKind::Other),
            _ => None,
        }
    }

    fn children(&self, path: &str) -> Option<Vec<String>> {
        match path {
            "/r" => Some(strings(&["/r/a.txt", "/r/.hidden", "/r/sub", "/r/gone"])),
            "/r/sub" => Some(strings(&["/r/sub/b.txt", "/r/sub/x"])),
            _ => None,
        }
    }
}

fn shape(node: &mcp_filesystem::actions::dirs::TreeNode) -> String {
    match node {
        TreeNode::File { name } => name.clone(),
        TreeNode::Directory { name, children, truncated } => {
            let inner: Vec<String> = children.iter().map(shape).collect();
            format!("{name}{}[{}]", if *truncated { "!" } else { "" }, inner.join(","))
        }
    }
}

#[test]
fn directory_trees_skip_hidden_excluded_and_unreadable_entries() {
    let mut nodes = 0usize;
    let tree = build_tree(&FakeTree, "/r", "/r", &vec![], 0, &mut nodes).unwrap();
    assert_eq!(shape(&tree), "r[a.txt,sub[b.txt]]");
    assert_eq!(nodes, 6);

    let excludes = exclude_filters(&strings(&["sub"]));
    let mut nodes = 0usize;
    let tree = build_tree(&FakeTree, "/r", "/r", &excludes, 0, &mut nodes).unwrap();
    assert_eq!(shape(&tree), "r[a.txt]");
    assert_eq!(nodes, 3);

    let mut nodes = 100_000usize;
    assert!(build_tree(&FakeTree, "/r", "/r", &vec![], 0, &mut nodes).is_none());
    assert_eq!(nodes, 100_001);
}

#[test]
fn tree_steps_and_budget() {
    assert_eq!(admit_node(true, 7), (false, 7));
    assert_eq!(admit_node(false, 7), (true, 8));
    assert_eq!(admit_node(false, 100_000), (false, 100_001));
    assert_eq!(admit_node(false, usize::MAX), (false, usize::MAX));
    assert!(matches!(tree_step(None, "a".into(), 0), TreeStep::Skip));
    assert!(matches!(tree_step(Some(EntryKind::Other), "a".into(), 0), TreeStep::Skip));
    assert!(matches!(tree_step(Some(EntryKind::File), "f".into(), 0), TreeStep::Leaf(TreeNode::File { .. })));
    assert!(matches!(tree_step(Some(EntryKind::Dir), "d".into(), 3), TreeStep::Descend(ref n) if n == "d"));
    match tree_step(Some(EntryKind::Dir), "deep".into(), 64) {
        TreeStep::Leaf(TreeNode::Directory { name, children, truncated }) => {
            assert_eq!(name, "deep");
            assert!(children.is_empty());
            assert!(truncated);
        }
        _ => panic!("a directory at the depth limit is a truncated leaf"),
    }
}

const PNG: &[u8] = &[
    0x89, 0x50, 0x4E, 0x47, 0x0D, 0x0A, 0x1A, 0x0A, 0x00, 0x00, 0x00, 0x0D, 0x49, 0x48, 0x44, 0x52,
    0x00, 0x00, 0x00, 0x01, 0x00, 0x00, 0x00, 0x01, 0x08, 0x06, 0x00, 0x00, 0x00, 0x1F, 0x15, 0xC4,
    0x89,
];

#[test]
fn read_media_file_returns_typed_image_content() {
    assert_eq!(media_mime_type(PNG), "image/png");
    assert_eq!(media_kind(&media_mime_type(PNG)), MediaKind::Image);
    assert_eq!(media_mime_type(b"plain words"), "application/octet-stream");
    assert_eq!(detected_type(b"plain words"), "text/plain");
    assert_eq!(detected_type(b"\x00\x01\x02binary"), "application/octet-stream");
    match media_content(PNG, 33) {
        MediaContent::Typed { kind, mime_type, data } => {
            assert_eq!(kind, MediaKind::Image);
            assert_eq!(mime_type, "image/png");
            assert!(data.starts_with("iVBORw0KGgo"));
        }
        MediaContent::Other { .. } => panic!("a PNG is typed image content"),
    }
    match media_content(b"hello", 5) {
        MediaContent::Other { note, mime_type, data, detected_type } => {
            assert_eq!(note, "Binary file (application/octet-stream, 5 bytes); base64 data in structuredContent.data");
            assert_eq!(mime_type, "application/octet-stream");
            assert_eq!(data, "aGVsbG8=");
            assert_eq!(detected_type, "text/plain");
        }
        MediaContent::Typed { .. } => panic!("plain text is not typed media"),
    }
}

#[test]
fn globs_select_search_hits() {
    let glob = GlobFilter::new("**/*.rs").unwrap();
    let excludes = exclude_filters(&strings(&["target/**", "[bad"]));
    assert_eq!(excludes.len(), 1);
    assert!(search_hit("src/main.rs", &glob, &excludes));
    assert!(!search_hit("target/debug/build.rs", &glob, &excludes));
    assert!(!search_hit("README.md", &glob, &excludes));
    assert!(any_match(&excludes, "target/x"));
    assert!(GlobFilter::new("[bad").is_err());
}

#[test]
fn grep_numbers_matching_lines_within_the_limit() {
    let re = RegexFilter::new("^fn \\w+").unwrap();
    let lines = strings(&["use x;", "fn main() {}", "", "fn helper() {}"]);
    let hits = grep_lines(&lines, &re, 0);
    let found: Vec<(usize, String)> = hits.iter().map(|h| (h.line, h.content.clone())).collect();
    assert_eq!(found, vec![(2, "fn main() {}".to_string()), (4, "fn helper() {}".to_string())]);
    assert_eq!(grep_lines(&lines, &re, SEARCH_LIMIT - 1).len(), 1);
    assert!(grep_lines(&lines, &re, SEARCH_LIMIT).is_empty());
    assert!(RegexFilter::new("(unclosed").is_err());
    assert!(grep_reads(true, "a.rs", "rs", 10, 100, &vec![]));
    assert!(!grep_reads(true, "a.png", "png", 10, 100, &vec![]));
    assert!(!grep_reads(true, "a.rs", "rs", 101, 100, &vec![]));
    assert!(!grep_reads(false, "dir", "", 0, 100, &vec![]));
}
