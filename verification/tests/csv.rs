use mcp_filesystem::actions::csv::{
    add_rows, check_create_rows, check_create_target, check_csv_size, check_range, copy_rows, csv_add_column,
    csv_bytes, csv_page, csv_remove_column, csv_remove_row, csv_rename_column, csv_update_cell,
    find_column, find_columns, parse_csv, project_rows, range_bounds, resolve_column, CsvData,
    RowInput,
};

fn s(v: &[&str]) -> Vec<String> {
    v.iter().map(|x| x.to_string()).collect()
}

fn table() -> CsvData {
    parse_csv(b"name,age\nalice,30\nbob,25\n").unwrap()
}

#[test]
fn parses_and_writes_csv() {
    let d = table();
    assert_eq!(d.headers, s(&["name", "age"]));
    assert_eq!(d.rows, vec![s(&["alice", "30"]), s(&["bob", "25"])]);
    let bytes = csv_bytes(&d).unwrap();
    assert_eq!(bytes, b"name,age\nalice,30\nbob,25\n".to_vec());
    let again = parse_csv(&bytes).unwrap();
    assert_eq!(again.rows, d.rows);
    let ragged = parse_csv(b"a,b\n1\n1,2,3\n").unwrap();
    assert_eq!(ragged.rows, vec![s(&["1"]), s(&["1", "2", "3"])]);
}

#[test]
fn columns_are_found_by_name_or_index() {
    let d = table();
    assert_eq!(find_column(&d, "age").unwrap(), 1);
    assert_eq!(
        find_column(&d, "city").unwrap_err().to_string(),
        "Invalid params: Column not found: 'city'. Available: name, age"
    );
    assert_eq!(resolve_column(&d, None, Some(0)).unwrap(), 0);
    assert_eq!(
        resolve_column(&d, None, Some(2)).unwrap_err().to_string(),
        "Invalid params: Column index 2 out of range (0..2)"
    );
    assert_eq!(
        resolve_column(&d, None, None).unwrap_err().to_string(),
        "Invalid params: Missing required: specify 'column' (name) or 'columnIndex' (number)"
    );
    assert_eq!(find_columns(&d, &s(&["age", "name"])).unwrap(), vec![1, 0]);
    assert!(find_columns(&d, &s(&["age", "zip"])).is_err());
    let dup = parse_csv(b"x,y,x\n1,2,3\n").unwrap();
    assert_eq!(find_column(&dup, "x").unwrap(), 2);
}

#[test]
fn creating_checks_target_and_widths() {
    assert!(check_create_target(false, false, "a.csv").is_ok());
    assert!(check_create_target(true, true, "a.csv").is_ok());
    assert_eq!(
        check_create_target(true, false, "a.csv").unwrap_err().to_string(),
        "Filesystem error: File already exists: a.csv. Set 'overwrite': true to replace."
    );
    assert_eq!(
        check_create_rows(&vec![], &vec![]).unwrap_err().to_string(),
        "Invalid params: 'headers' must be a non-empty array"
    );
    assert!(check_create_rows(&s(&["a", "b"]), &vec![s(&["1", "2"])]).is_ok());
    assert_eq!(
        check_create_rows(&s(&["a", "b"]), &vec![s(&["1", "2"]), s(&["3"])])
            .unwrap_err()
            .to_string(),
        "Invalid params: Row 1 has 1 values, expected 2"
    );
}

#[test]
fn pages_and_ranges_are_cut_to_the_table() {
    assert_eq!(csv_page(5, 0, None), (0, 5));
    assert_eq!(csv_page(5, 3, Some(1)), (3, 4));
    assert_eq!(csv_page(5, 9, Some(1)), (5, 5));
    assert_eq!(csv_page(20000, 0, Some(50000)), (0, 10000));
    assert_eq!(csv_page(5, u64::MAX, Some(10)), (5, 5));
    assert!(check_range(2, None, 10).is_ok());
    assert_eq!(
        check_range(5, Some(2), 10).unwrap_err().to_string(),
        "Invalid params: end (2) must be >= start (5)"
    );
    assert_eq!(
        check_range(0, Some(20), 10).unwrap_err().to_string(),
        "Invalid params: Range too large: 20 - 0 = 20 exceeds maximum of 10 rows"
    );
    assert_eq!(range_bounds(10, 2, Some(5), 100), (2, 5));
    assert_eq!(range_bounds(10, 8, None, 100), (8, 10));
    assert_eq!(range_bounds(10, 12, None, 100), (10, 10));
    let d = table();
    assert_eq!(copy_rows(&d, 1, 2), vec![s(&["bob", "25"])]);
    assert_eq!(project_rows(&d, 0, 2, &vec![1, 5]), vec![s(&["30", ""]), s(&["25", ""])]);
}

#[test]
fn cells_rows_and_columns_are_edited() {
    let mut d = table();
    assert_eq!(csv_update_cell(&mut d, 1, "26".to_string(), Some("age"), None).unwrap(), "age");
    assert_eq!(d.rows[1], s(&["bob", "26"]));
    assert_eq!(
        csv_update_cell(&mut d, 5, "x".to_string(), Some("age"), None).unwrap_err().to_string(),
        "Invalid params: Row index 5 out of range. File has 2 data rows (0..1)"
    );
    let mut short = parse_csv(b"a,b,c\n1\n").unwrap();
    csv_update_cell(&mut short, 0, "z".to_string(), None, Some(2)).unwrap();
    assert_eq!(short.rows[0], s(&["1", "", "z"]));

    csv_add_column(&mut d, "city".to_string(), "Paris").unwrap();
    assert_eq!(d.headers, s(&["name", "age", "city"]));
    assert_eq!(d.rows[0], s(&["alice", "30", "Paris"]));
    assert_eq!(
        csv_add_column(&mut d, "city".to_string(), "").unwrap_err().to_string(),
        "Invalid params: Column already exists: 'city'"
    );

    csv_rename_column(&mut d, "city", "town".to_string()).unwrap();
    assert_eq!(d.headers[2], "town");
    assert_eq!(
        csv_rename_column(&mut d, "zip", "code".to_string()).unwrap_err().to_string(),
        "Invalid params: Column not found: 'zip'"
    );
    assert_eq!(
        csv_rename_column(&mut d, "town", "age".to_string()).unwrap_err().to_string(),
        "Invalid params: Target column name already exists: 'age'"
    );

    assert_eq!(csv_remove_column(&mut d, Some("age"), None).unwrap(), "age");
    assert_eq!(d.headers, s(&["name", "town"]));
    assert_eq!(d.rows[1], s(&["bob", "Paris"]));

    csv_remove_row(&mut d, 0).unwrap();
    assert_eq!(d.rows, vec![s(&["bob", "Paris"])]);
    assert_eq!(
        csv_remove_row(&mut d, 3).unwrap_err().to_string(),
        "Invalid params: Row index 3 out of range. File has 1 data rows (0..0)"
    );
}

#[test]
fn rows_are_added_from_objects_and_arrays() {
    let mut d = table();
    let rows = vec![
        RowInput::Array(s(&["carol", "41"])),
        RowInput::Object(vec![("age".to_string(), "7".to_string()), ("name".to_string(), "dan".to_string())]),
        RowInput::Object(vec![("name".to_string(), "eve".to_string())]),
    ];
    assert_eq!(add_rows(&mut d, &rows).unwrap(), 3);
    assert_eq!(d.rows.len(), 5);
    assert_eq!(d.rows[2], s(&["carol", "41"]));
    assert_eq!(d.rows[3], s(&["dan", "7"]));
    assert_eq!(d.rows[4], s(&["eve", ""]));

    let mut d = table();
    assert_eq!(
        add_rows(&mut d, &vec![]).unwrap_err().to_string(),
        "Invalid params: 'rows' must be a non-empty array"
    );
    assert_eq!(
        add_rows(&mut d, &vec![RowInput::Array(s(&["x"]))]).unwrap_err().to_string(),
        "Invalid params: Row 0 has 1 values, expected 2"
    );
    assert_eq!(
        add_rows(&mut d, &vec![RowInput::Array(s(&["a", "1"])), RowInput::Invalid])
            .unwrap_err()
            .to_string(),
        "Invalid params: Row 1 must be an object or array"
    );
    assert_eq!(
        add_rows(&mut d, &vec![RowInput::Object(vec![("zip".to_string(), "1".to_string())])])
            .unwrap_err()
            .to_string(),
        "Invalid params: Column not found: 'zip'. Available: name, age"
    );
}

#[test]
fn csv_files_over_the_cap_are_refused() {
    assert!(check_csv_size(10, 10).is_ok());
    assert_eq!(
        check_csv_size(11, 10).unwrap_err(),
        "CSV file size 11 exceeds maximum allowed size 10"
    );
}
