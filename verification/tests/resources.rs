use mcp_filesystem::resources::{
    civil_from_days, decode_uri_path, detect_mime, encode_uri_path, extension_of, file_name_of,
    file_uri_to_path, format_modified, is_hidden, is_text, path_starts_with, path_to_file_uri,
    preview, resource_page, check_resource,
};

#[test]
fn file_uri_round_trip() {
    let path = "/tmp/data folder/readme.md";
    let uri = path_to_file_uri(path);
    assert!(uri.starts_with("file:///"));
    assert_eq!(file_uri_to_path(&uri).unwrap(), path);
}

#[test]
fn detects_common_text_types() {
    assert_eq!(detect_mime("README.md", b"# Hello"), "text/markdown");
    assert_eq!(detect_mime("data.json", br#"{"ok":true}"#), "application/json");
}

#[test]
fn uri_encoding_escapes_reserved_bytes() {
    assert_eq!(encode_uri_path("/a b/ü?"), "/a%20b/%C3%BC%3F");
    assert_eq!(decode_uri_path("/a%20b/%C3%BC%3F").unwrap(), "/a b/ü?");
    assert_eq!(decode_uri_path("%+a").unwrap(), "\n");
    assert_eq!(
        decode_uri_path("abc%4").unwrap_err().to_string(),
        "Invalid params: Incomplete percent escape in resource URI"
    );
    assert_eq!(
        decode_uri_path("%zz!").unwrap_err().to_string(),
        "Invalid params: Invalid percent escape in resource URI"
    );
    assert_eq!(
        decode_uri_path("%FF").unwrap_err().to_string(),
        "Invalid params: Resource URI is not valid UTF-8"
    );
    assert!(file_uri_to_path("http://x").is_err());
    assert_eq!(path_to_file_uri("rel\\x"), "file:///rel/x");
}

#[test]
fn civil_dates_of_known_days() {
    assert_eq!(civil_from_days(0), (1970, 1, 1));
    assert_eq!(civil_from_days(-1), (1969, 12, 31));
    assert_eq!(civil_from_days(11016), (2000, 2, 29));
    assert_eq!(civil_from_days(19723), (2024, 1, 1));
}

#[test]
fn timestamps_are_rfc3339() {
    assert_eq!(format_modified(0), "1970-01-01T00:00:00Z");
    assert_eq!(format_modified(951782400 + 3723), "2000-02-29T01:02:03Z");
    assert_eq!(format_modified(-1), "1969-12-31T23:59:59Z");
}

#[test]
fn hidden_entries_below_root() {
    assert!(is_hidden("/r/.git/config", "/r"));
    assert!(!is_hidden("/r/src/main.rs", "/r"));
    assert!(!is_hidden("/.r/x", "/.r"));
    assert!(!is_hidden("/elsewhere/.x", "/r"));
    assert!(path_starts_with("/r/a", "/r"));
    assert!(!path_starts_with("/ra", "/r"));
}

#[test]
fn names_and_extensions() {
    assert_eq!(file_name_of("/a/b.txt").unwrap(), vec!['b', '.', 't', 'x', 't']);
    assert!(file_name_of("/").is_none());
    assert_eq!(extension_of("/a/b.tar.gz").unwrap(), vec!['g', 'z']);
    assert!(extension_of("/a/.bashrc").is_none());
    assert!(extension_of("/a/noext").is_none());
    assert_eq!(extension_of("/a/b.").unwrap(), Vec::<char>::new());
}

#[test]
fn text_detection_and_preview() {
    assert!(is_text("text/plain", b"\x00\x01"));
    assert!(is_text("application/json", b""));
    assert!(!is_text("application/octet-stream", b"ab\x00cd"));
    assert_eq!(preview(b"hello", "text/plain").unwrap(), "hello");
    assert!(preview(b"a\x00b", "application/octet-stream").is_none());
    assert_eq!(detect_mime("x.unknown", b"plain words"), "text/plain");
    assert_eq!(detect_mime("x.unknown", b"a\x00b"), "application/octet-stream");
    assert_eq!(detect_mime("IMAGE.PNG", b"not really"), "image/png");
}

#[test]
fn resource_pages() {
    let p = resource_page(None, 600).unwrap();
    assert_eq!((p.start, p.end), (0, 250));
    assert_eq!(p.next_cursor.unwrap(), "250");
    let p = resource_page(Some("500"), 600).unwrap();
    assert_eq!((p.start, p.end), (500, 600));
    assert!(p.next_cursor.is_none());
    assert!(resource_page(Some("601"), 600).is_err());
    assert!(resource_page(Some("x"), 600).is_err());
    assert!(resource_page(Some("+5"), 600).is_ok());
    assert!(check_resource("file:///a", false, 0, 10).is_err());
    assert_eq!(
        check_resource("file:///a", true, 11, 10).unwrap_err().to_string(),
        "Filesystem error: Resource size 11 exceeds maximum allowed size 10"
    );
    assert!(check_resource("file:///a", true, 10, 10).is_ok());
}

#[test]
fn next_cursor_resumes_where_the_page_ended() {
    let total = 1000;
    let mut cursor: Option<String> = None;
    let mut seen = 0;
    loop {
        let p = resource_page(cursor.as_deref(), total).unwrap();
        assert_eq!(p.start, seen);
        seen = p.end;
        match p.next_cursor {
            Some(c) => cursor = Some(c),
            None => break,
        }
    }
    assert_eq!(seen, total);
}

#[test]
fn resource_bodies_are_text_or_base64() {
    match mcp_filesystem::resources::resource_body(b"hi\xff", "text/plain") {
        mcp_filesystem::resources::ResourceBody::Text(t) => assert_eq!(t, "hi\u{FFFD}"),
        mcp_filesystem::resources::ResourceBody::Blob(_) => panic!("text is returned as text"),
    }
    match mcp_filesystem::resources::resource_body(b"\x00\x01\x02", "application/octet-stream") {
        mcp_filesystem::resources::ResourceBody::Blob(b) => assert_eq!(b, "AAEC"),
        mcp_filesystem::resources::ResourceBody::Text(_) => panic!("binary is returned as base64"),
    }
}
