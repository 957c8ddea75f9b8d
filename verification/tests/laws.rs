use mcp_filesystem::actions::dirs::{
    directory_children, listed_entry_visible, results_full, GlobFilter, RegexFilter, TreeNode, SEARCH_LIMIT,
};
use mcp_filesystem::actions::files::file_text;
use mcp_filesystem::config::Config;
use mcp_filesystem::resources::{
    decode_uri_path, encode_uri_path, inside_some_root, listing_full, path_to_file_uri, resource_body, ResourceBody,
    MAX_LISTED_FILES,
};
use mcp_filesystem::server::{line_step, LineStep};
use mcp_filesystem::structures::{PathTrie, RingBuffer};
use mcp_filesystem::tools::{is_tool_available, ToolCategory};

fn strings(v: &[&str]) -> Vec<String> {
    v.iter().map(|x| x.to_string()).collect()
}

#[test]
fn trie_contains_inserted_prefixes_only() {
    let mut t = PathTrie::new();
    t.insert("/home/user/projects");
    assert!(t.contains("/home/user/projects"));
    assert!(t.contains("/home/user/projects/a/b.rs"));
    assert!(!t.contains("/home/user"));
    assert!(!t.contains("/home/user/other"));
    assert!(!t.contains("/home/user/projects2"));
}

#[test]
fn trie_insert_adds_exactly_the_new_subtree() {
    let mut t = PathTrie::new();
    t.insert("/a");
    assert!(!t.contains("/b/c"));
    t.insert("/b");
    assert!(t.contains("/a/x"));
    assert!(t.contains("/b/c"));
    assert!(!t.contains("/c"));
}

#[test]
fn trie_longest_prefix_none_exactly_when_not_contained() {
    let mut t = PathTrie::new();
    t.extend(strings(&["/a", "/a/b/c"]));
    assert_eq!(t.longest_prefix("/a/b/c/d").as_deref(), Some("/a/b/c"));
    assert_eq!(t.longest_prefix("/a/b/x").as_deref(), Some("/a"));
    assert!(t.contains("/a/b/x"));
    assert_eq!(t.longest_prefix("/z"), None);
    assert!(!t.contains("/z"));
}

#[test]
fn trie_extend_matches_repeated_inserts() {
    let paths = strings(&["/srv/www", "/tmp", "/srv/data/x"]);
    let mut extended = PathTrie::new();
    extended.extend(paths.clone());
    let mut inserted = PathTrie::new();
    for p in &paths {
        inserted.insert(p);
    }
    for probe in ["/srv", "/srv/www/index.html", "/tmp/a", "/srv/data", "/srv/data/x/y", "/etc"] {
        assert_eq!(extended.contains(probe), inserted.contains(probe));
        assert_eq!(extended.longest_prefix(probe), inserted.longest_prefix(probe));
    }
}

#[test]
fn ring_buffer_length_stays_within_capacity() {
    let mut r = RingBuffer::new(3);
    for i in 0..10 {
        r.push(i);
        assert!(r.len() <= r.capacity());
    }
    assert_eq!(r.len(), 3);
    assert_eq!(r.to_vec(), vec![&7, &8, &9]);
    r.pop();
    assert_eq!(r.len(), 2);
}

#[test]
fn tool_availability_grows_with_enabled_categories() {
    let some = [ToolCategory::Read];
    let more = [ToolCategory::Read, ToolCategory::Csv];
    assert!(is_tool_available("read_text_file", &some));
    assert!(is_tool_available("read_text_file", &more));
    assert!(!is_tool_available("csv_read", &some));
    assert!(is_tool_available("csv_read", &more));
    assert!(!is_tool_available("no_such_tool", &more));
}

#[test]
fn uri_paths_round_trip() {
    for s in ["", "/plain/path", "a b", "100%", "ü/€/𝄞", "x?y#z&q=1", "\\back\\slash", "%41"] {
        let encoded = encode_uri_path(s);
        assert!(encoded
            .chars()
            .all(|c| c == '%' || c.is_ascii_alphanumeric() || "-._~/:".contains(c)));
        assert_eq!(decode_uri_path(&encoded).unwrap(), s);
    }
    assert_eq!(encode_uri_path("%41"), "%2541");
}

#[test]
fn config_trie_follows_the_resolved_directories() {
    let mut cfg = Config::default();
    cfg.rebuild_trie(vec!["/srv/data".to_string()]);
    assert!(cfg.allowed_trie().contains("/srv/data"));
    assert!(cfg.allowed_trie().contains("/srv/data/report.csv"));
    assert!(!cfg.allowed_trie().contains("/srv"));
    assert!(!cfg.allowed_trie().contains("/srv/database"));
}

#[test]
fn glob_filters_match_what_they_were_built_from() {
    let rs = GlobFilter::new("*.rs").unwrap();
    assert!(rs.is_match("main.rs"));
    assert!(!rs.is_match("main.py"));
    let py = GlobFilter::new("*.py").unwrap();
    assert!(py.is_match("main.py"));
    assert!(!py.is_match("main.rs"));
    let err = GlobFilter::new("a{b").err().unwrap();
    assert!(!err.is_empty());
    let re = RegexFilter::new("^x+$").unwrap();
    assert!(re.is_match("xxx"));
    assert!(!re.is_match("xy"));
    assert!(RegexFilter::new("a)").err().is_some());
}

#[test]
fn result_limits_stop_the_walks() {
    assert!(!results_full(SEARCH_LIMIT - 1));
    assert!(results_full(SEARCH_LIMIT));
    assert!(!listing_full(MAX_LISTED_FILES - 1));
    assert!(listing_full(MAX_LISTED_FILES));
}

#[test]
fn followed_links_stay_inside_the_roots() {
    let roots = strings(&["/srv/data", "/tmp"]);
    assert!(inside_some_root("/srv/data/a.txt", &roots));
    assert!(inside_some_root("/tmp", &roots));
    assert!(!inside_some_root("/srv/database/a.txt", &roots));
    assert!(!inside_some_root("/etc/passwd", &roots));
    assert!(!inside_some_root("/tmp/x", &Vec::new()));
}

#[test]
fn whole_files_decode_leniently() {
    assert_eq!(file_text(b"plain\ntext"), "plain\ntext");
    assert_eq!(file_text("grüß".as_bytes()), "grüß");
    assert_eq!(file_text(b"a\xffb"), "a\u{FFFD}b");
}

#[test]
fn line_step_refuses_an_overfull_buffer() {
    assert_eq!(line_step(10, b"x\n", 5), LineStep::TooLong { consume: 2 });
    assert_eq!(line_step(10, b"xyz", 5), LineStep::TooLong { consume: 3 });
    assert_eq!(line_step(10, b"", 5), LineStep::Finish);
    assert_eq!(line_step(2, b"ab\ncd", 5), LineStep::Complete { take: 3 });
    assert_eq!(line_step(2, b"abcd", 5), LineStep::TooLong { consume: 4 });
}

#[test]
fn base64_bodies_pad_the_last_group() {
    let cases: [(&[u8], &str); 4] =
        [(b"\x00Man", "AE1hbg=="), (b"\x00M", "AE0="), (b"\x00", "AA=="), (b"\x00\xfb\xff", "APv/")];
    for (bytes, expected) in cases {
        match resource_body(bytes, "application/octet-stream") {
            ResourceBody::Blob(b) => assert_eq!(b, expected),
            ResourceBody::Text(_) => panic!("binary is returned as base64"),
        }
    }
}

#[test]
fn longest_prefix_gives_an_inserted_path() {
    let mut t = PathTrie::new();
    t.insert("/srv/./data//");
    t.insert("/srv");
    assert_eq!(t.longest_prefix("/srv/data/x/y").as_deref(), Some("/srv/data"));
    assert_eq!(t.longest_prefix("/srv/other").as_deref(), Some("/srv"));
    let mut rel = PathTrie::new();
    rel.insert("./work/src");
    assert_eq!(rel.longest_prefix("work/src/main.rs").as_deref(), Some("work/src"));
}

#[test]
fn file_uris_escape_with_upper_case_hex() {
    assert_eq!(path_to_file_uri("/tmp/data folder/readme.md"), "file:///tmp/data%20folder/readme.md");
    assert_eq!(encode_uri_path("é#"), "%C3%A9%23");
    assert_eq!(decode_uri_path("%c3%a9").unwrap(), "é");
}

fn node_names(nodes: &[TreeNode]) -> Vec<String> {
    nodes
        .iter()
        .map(|n| match n {
            TreeNode::File { name } => name.clone(),
            TreeNode::Directory { name, .. } => format!("{name}/"),
        })
        .collect()
}

#[test]
fn directory_children_keep_visible_subtrees_in_order() {
    let listing = strings(&["/r/b.txt", "/r/.git", "/r/a", "/r/gone", "/r/."]);
    let subtrees = vec![
        Some(TreeNode::File { name: "b.txt".to_string() }),
        Some(TreeNode::Directory { name: ".git".to_string(), children: vec![], truncated: false }),
        Some(TreeNode::Directory { name: "a".to_string(), children: vec![], truncated: false }),
        None,
        Some(TreeNode::File { name: ".".to_string() }),
    ];
    let children = directory_children(&listing, subtrees);
    assert_eq!(node_names(&children), vec!["b.txt", "a/", "."]);
    assert!(listed_entry_visible("/r/a"));
    assert!(listed_entry_visible("/"));
    assert!(!listed_entry_visible("/r/.git"));
    assert!(listed_entry_visible("/r/."));
}
