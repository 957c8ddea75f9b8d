use mcp_filesystem::tools::{all_tools, category_of, is_tool_available, is_write_tool, ToolCategory};

#[test]
fn test_is_write_tool() {
    assert!(is_write_tool("write_file"));
    assert!(is_write_tool("delete_file"));
    assert!(!is_write_tool("read_text_file"));
    assert!(!is_write_tool("list_allowed_directories"));
}

#[test]
fn test_all_tools_unique() {
    let tools = all_tools();
    let mut names: Vec<&str> = tools.iter().map(|t| t.name).collect();
    names.sort();
    names.dedup();
    assert_eq!(names.len(), tools.len(), "Duplicate tool names");
}

#[test]
fn test_every_tool_has_category() {
    for meta in all_tools() {
        assert_eq!(category_of(meta.name), Some(meta.category));
    }
    assert_eq!(category_of("nonexistent_tool"), None);
}

#[test]
fn test_is_tool_available_gating() {
    assert!(!is_tool_available("read_text_file", &[]));
    assert!(is_tool_available("read_text_file", &[ToolCategory::Read]));
    assert!(!is_tool_available("read_text_file", &[ToolCategory::Write]));
    assert!(!is_tool_available("nonexistent_tool", &ToolCategory::all()));
}

#[test]
fn test_category_slug_roundtrip() {
    for cat in ToolCategory::all() {
        assert_eq!(cat.slug().parse::<ToolCategory>().unwrap(), cat);
    }
    assert!("bogus".parse::<ToolCategory>().is_err());
}

#[test]
fn test_categories_within_limit() {
    assert!(ToolCategory::all().len() <= 10);
}

#[test]
fn category_parsing_trims_and_ignores_case() {
    assert_eq!(" CSV ".parse::<ToolCategory>().unwrap(), ToolCategory::Csv);
    assert_eq!("\tWrite\n".parse::<ToolCategory>().unwrap(), ToolCategory::Write);
    assert_eq!(
        "re_ad".parse::<ToolCategory>().unwrap_err(),
        "Unknown tool category: re_ad"
    );
    assert_eq!(ToolCategory::Compress.to_string(), "compress");
}

#[test]
fn every_category_has_tools() {
    for cat in ToolCategory::all() {
        assert!(all_tools().iter().any(|t| t.category == cat));
    }
    assert_eq!(all_tools().len(), 41);
}
