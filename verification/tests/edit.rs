use mcp_filesystem::actions::edit::{
    apply_edits, ceil_char_boundary, detect_indent, find_bytes, floor_char_boundary,
    normalize_whitespace, replace_chars, EditOutcome, EditRequest,
};

fn edit(old: &str, new: &str) -> EditRequest {
    EditRequest { old_text: old.to_string(), new_text: new.to_string() }
}

fn applied(o: &EditOutcome) -> (usize, String) {
    match o {
        EditOutcome::Applied { position, context } => (*position, context.clone()),
        EditOutcome::NotFound => panic!("edit was not applied"),
    }
}

#[test]
fn char_boundaries_round_to_whole_characters() {
    let s = "héllo";
    assert_eq!(floor_char_boundary(s, 0), 0);
    assert_eq!(floor_char_boundary(s, 1), 1);
    assert_eq!(floor_char_boundary(s, 2), 1);
    assert_eq!(floor_char_boundary(s, 3), 3);
    assert_eq!(floor_char_boundary(s, 10), 6);
    assert_eq!(ceil_char_boundary(s, 2), 3);
    assert_eq!(ceil_char_boundary(s, 3), 3);
    assert_eq!(ceil_char_boundary(s, 6), 6);
    assert_eq!(ceil_char_boundary(s, 9), 9);
}

#[test]
fn indentation_is_detected_by_line_counts() {
    assert_eq!(detect_indent("a\n\tb\n\tc\n  d\n"), "\t");
    assert_eq!(detect_indent("  a\n\tb\n"), "    ");
    assert_eq!(detect_indent(""), "    ");
    assert_eq!(detect_indent("\tx\r\n\ty\r\n  z"), "\t");
}

#[test]
fn whitespace_follows_the_file_indentation() {
    assert_eq!(normalize_whitespace("\tx", "    "), "    x");
    assert_eq!(normalize_whitespace("        y", "\t"), "\t\ty");
    assert_eq!(normalize_whitespace("     z", "\t"), "\t z");
    assert_eq!(normalize_whitespace("plain", "\t"), "plain");
    let r = replace_chars(&['a', 'a', 'a'], &['a', 'a'], &['b']);
    assert_eq!(r, vec!['b', 'a']);
}

#[test]
fn find_bytes_gives_the_first_occurrence() {
    assert_eq!(find_bytes(b"abcabc", b"bc"), Some(1));
    assert_eq!(find_bytes(b"abcabc", b""), Some(0));
    assert_eq!(find_bytes(b"abc", b"abcd"), None);
    assert_eq!(find_bytes(b"abc", b"x"), None);
    assert_eq!(find_bytes(b"aab", b"ab"), Some(1));
}

#[test]
fn edit_replaces_first_occurrence_with_context() {
    let content = "fn main() {\n    let x = 1;\n}\n";
    let (result, outcomes) = apply_edits(content, &vec![edit("let x = 1;", "let x = 2;")]);
    assert_eq!(result, "fn main() {\n    let x = 2;\n}\n");
    assert_eq!(outcomes.len(), 1);
    let (position, context) = applied(&outcomes[0]);
    assert_eq!(position, 16);
    assert_eq!(context, "...fn main() {\\n    let x = 1;\\n}\\n...");
}

#[test]
fn edit_not_found_leaves_content() {
    let content = "alpha\nbeta\n";
    let (result, outcomes) = apply_edits(content, &vec![edit("gamma", "delta")]);
    assert_eq!(result, content);
    assert!(matches!(outcomes[0], EditOutcome::NotFound));
}

#[test]
fn edits_apply_in_order_on_the_edited_text() {
    let (result, outcomes) = apply_edits("aaa", &vec![edit("a", "b"), edit("a", "c")]);
    assert_eq!(result, "bca");
    assert_eq!(applied(&outcomes[0]).0, 0);
    assert_eq!(applied(&outcomes[1]).0, 1);
    let (result, _) = apply_edits("xyz", &vec![edit("", "-")]);
    assert_eq!(result, "-xyz");
}

#[test]
fn edit_patterns_take_the_file_indentation() {
    let content = "\tone\n\ttwo\n";
    let (result, outcomes) = apply_edits(content, &vec![edit("    two", "    three")]);
    assert_eq!(result, "\tone\n\tthree\n");
    assert_eq!(applied(&outcomes[0]).0, 5);
}

#[test]
fn edit_context_widens_to_character_boundaries() {
    let e = "é".repeat(30);
    let content = format!("{e}aX{e}");
    let (result, outcomes) = apply_edits(&content, &vec![edit("X", "Y")]);
    assert_eq!(result, format!("{e}aY{e}"));
    let (position, context) = applied(&outcomes[0]);
    assert_eq!(position, 61);
    assert_eq!(context, format!("...{}aX{}...", "é".repeat(20), "é".repeat(20)));

    let content = format!("Xa{e}");
    let (_, outcomes) = apply_edits(&content, &vec![edit("X", "Z")]);
    let (position, context) = applied(&outcomes[0]);
    assert_eq!(position, 0);
    assert_eq!(context, format!("...Xa{}...", "é".repeat(20)));
}
