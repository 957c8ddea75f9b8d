//! CSV tools: a table of headers and rows, read and written with the `csv`
//! crate, and the edits and range reads the tools make on it.

use vstd::prelude::*;

use crate::actions::files::views;
use crate::errors::MCSError;
use crate::text::{concat, opt_str_view, dec_spec, str_eq, string_push_str, u64_to_string};

verus! {

/// A CSV table: its header row and its data rows (rows may be ragged).
pub struct CsvData {
    pub headers: Vec<String>,
    pub rows: Vec<Vec<String>>,
}

/// A table as characters.
pub open spec fn rows_view(rows: Seq<Vec<String>>) -> Seq<Seq<Seq<char>>> {
    rows.map_values(|r: Vec<String>| views(r@))
}

impl CsvData {
    pub open spec fn header_view(&self) -> Seq<Seq<char>> {
        views(self.headers@)
    }

    pub open spec fn row_view(&self) -> Seq<Seq<Seq<char>>> {
        rows_view(self.rows@)
    }
}

/// The index a column name stands for: its last occurrence among the
/// headers (later headers of the same name take the name over).
pub open spec fn column_index(headers: Seq<Seq<char>>, name: Seq<char>) -> Option<int>
    decreases headers.len(),
{
    if headers.len() == 0 {
        None
    } else if headers.last() == name {
        Some(headers.len() - 1)
    } else {
        column_index(headers.drop_last(), name)
    }
}

proof fn lemma_column_index_bounds(headers: Seq<Seq<char>>, name: Seq<char>)
    ensures
        column_index(headers, name) matches Some(i) ==> 0 <= i < headers.len() && headers[i] == name,
        column_index(headers, name) is None ==> !headers.contains(name),
    decreases headers.len(),
{
    if headers.len() > 0 {
        lemma_column_index_bounds(headers.drop_last(), name);
        if column_index(headers, name) is None {
            assert forall|k: int| 0 <= k < headers.len() implies headers[k] != name by {
                if k < headers.len() - 1 {
                    assert(headers.drop_last()[k] == headers[k]);
                }
            }
        }
    }
}

/// Headers joined with `, `.
pub open spec fn join_comma(hs: Seq<Seq<char>>) -> Seq<char>
    decreases hs.len(),
{
    if hs.len() == 0 {
        Seq::empty()
    } else if hs.len() == 1 {
        hs[0]
    } else {
        join_comma(hs.drop_last()) + ", "@ + hs.last()
    }
}

/// The error for an unknown column.
pub open spec fn column_not_found(name: Seq<char>, headers: Seq<Seq<char>>) -> Seq<char> {
    "Column not found: '"@ + name + "'. Available: "@ + join_comma(headers)
}

fn join_headers(headers: &Vec<String>) -> (r: String)
    ensures
        r@ == join_comma(views(headers@)),
{
    let mut out = String::new();
    let mut i: usize = 0;
    while i < headers.len()
        invariant
            i <= headers@.len(),
            out@ == join_comma(views(headers@.take(i as int))),
        decreases headers@.len() - i,
    {
        assert(views(headers@.take(i + 1)).drop_last() =~= views(headers@.take(i as int)));
        if i > 0 {
            string_push_str(&mut out, ", ");
        }
        string_push_str(&mut out, headers[i].as_str());
        proof {
            if i == 0 {
                assert(out@ =~= views(headers@.take(1))[0]);
            }
        }
        i = i + 1;
    }
    assert(headers@.take(i as int) =~= headers@);
    out
}

/// The column `name` stands for.
pub fn find_column(data: &CsvData, name: &str) -> (r: Result<usize, MCSError>)
    ensures
        r is Ok <==> column_index(data.header_view(), name@) is Some,
        r matches Ok(i) ==> column_index(data.header_view(), name@) == Some(i as int),
        r matches Err(e) ==> (e matches MCSError::InvalidParams(m) && m@ == column_not_found(
            name@,
            data.header_view(),
        )),
{
    let ghost hv = data.header_view();
    let mut i: usize = data.headers.len();
    assert(hv.take(i as int) =~= hv);
    while i > 0
        invariant
            i <= hv.len(),
            hv == data.header_view(),
            column_index(hv, name@) == column_index(hv.take(i as int), name@),
        decreases i,
    {
        assert(hv.take(i as int).drop_last() =~= hv.take(i - 1));
        if str_eq(data.headers[i - 1].as_str(), name) {
            return Ok(i - 1);
        }
        i = i - 1;
    }
    let mut m = concat("Column not found: '", name);
    string_push_str(&mut m, "'. Available: ");
    string_push_str(&mut m, join_headers(&data.headers).as_str());
    Err(MCSError::InvalidParams(m))
}

/// Whether a column named `name` exists.
pub fn has_column(data: &CsvData, name: &str) -> (r: bool)
    ensures
        r == column_index(data.header_view(), name@) is Some,
{
    find_column(data, name).is_ok()
}

/// The column a request names: by `column` (a name), else by `columnIndex`.
pub open spec fn resolve_spec(headers: Seq<Seq<char>>, column: Option<Seq<char>>, index: Option<u64>) -> Result<
    int,
    Seq<char>,
> {
    match column {
        Some(name) => match column_index(headers, name) {
            Some(i) => Ok(i),
            None => Err(column_not_found(name, headers)),
        },
        None => match index {
            Some(i) => if i >= headers.len() {
                Err("Column index "@ + dec_spec(i as nat) + " out of range (0.."@ + dec_spec(
                    headers.len(),
                ) + ")"@)
            } else {
                Ok(i as int)
            },
            None => Err("Missing required: specify 'column' (name) or 'columnIndex' (number)"@),
        },
    }
}

/// The column a request names, by name or by index.
pub fn resolve_column(data: &CsvData, column: Option<&str>, column_index: Option<u64>) -> (r: Result<usize, MCSError>)
    ensures
        match resolve_spec(data.header_view(), opt_str_view(column), column_index) {
            Ok(i) => r matches Ok(c) && c as int == i,
            Err(m) => r matches Err(e) && (e matches MCSError::InvalidParams(t) && t@ == m),
        },
{
    match column {
        Some(name) => find_column(data, name),
        None => match column_index {
            Some(idx) => {
                if idx >= data.headers.len() as u64 {
                    let mut m = "Column index ".to_owned();
                    string_push_str(&mut m, u64_to_string(idx).as_str());
                    string_push_str(&mut m, " out of range (0..");
                    string_push_str(&mut m, u64_to_string(data.headers.len() as u64).as_str());
                    string_push_str(&mut m, ")");
                    Err(MCSError::InvalidParams(m))
                } else {
                    Ok(idx as usize)
                }
            },
            None => Err(
                MCSError::InvalidParams(
                    "Missing required: specify 'column' (name) or 'columnIndex' (number)".to_owned(),
                ),
            ),
        },
    }
}

// ── Reading and writing CSV text ──────────────────────

/// Refuses a CSV file larger than `max` bytes.
pub fn check_csv_size(file_size: u64, max: u64) -> (r: Result<(), String>)
    ensures
        file_size <= max <==> r is Ok,
        r matches Err(m) ==> m@ == "CSV file size "@ + dec_spec(file_size as nat)
            + " exceeds maximum allowed size "@ + dec_spec(max as nat),
{
    if file_size > max {
        let mut m = "CSV file size ".to_owned();
        string_push_str(&mut m, u64_to_string(file_size).as_str());
        string_push_str(&mut m, " exceeds maximum allowed size ");
        string_push_str(&mut m, u64_to_string(max).as_str());
        return Err(m);
    }
    Ok(())
}

/// What the `csv` crate reads from some bytes, with a header row and
/// records of any width: the headers and the records, or which of the two
/// failed (`true` for the headers) and the error's text.
pub uninterp spec fn csv_parsed(data: Seq<u8>) -> Result<
    (Seq<Seq<char>>, Seq<Seq<Seq<char>>>),
    (bool, Seq<char>),
>;

/// `csv::ReaderBuilder::new().has_headers(true).flexible(true)`, reading
/// `headers()` then every record of `records()`.
#[verifier::external_body]
fn read_records(data: &[u8]) -> (r: Result<(Vec<String>, Vec<Vec<String>>), (bool, String)>)
    ensures
        match csv_parsed(data@) {
            Ok((h, rows)) => r matches Ok((hv, rv)) && views(hv@) == h && rows_view(rv@) == rows,
            Err((stage, text)) => r matches Err((s, t)) && s == stage && t@ == text,
        },
{
    let mut rdr = csv::ReaderBuilder::new().has_headers(true).flexible(true).from_reader(data);
    let headers: Vec<String> = match rdr.headers() {
        Ok(h) => h.iter().map(|s| s.to_string()).collect(),
        Err(e) => return Err((true, e.to_string())),
    };
    let mut rows = Vec::new();
    for result in rdr.records() {
        match result {
            Ok(record) => rows.push(record.iter().map(|s| s.to_string()).collect()),
            Err(e) => return Err((false, e.to_string())),
        }
    }
    Ok((headers, rows))
}

/// The table some CSV bytes hold.
pub fn parse_csv(data: &[u8]) -> (r: Result<CsvData, String>)
    ensures
        match csv_parsed(data@) {
            Ok((h, rows)) => r matches Ok(d) && d.header_view() == h && d.row_view() == rows,
            Err((true, text)) => r matches Err(m) && m@ == "Cannot read CSV headers: "@ + text,
            Err((false, text)) => r matches Err(m) && m@ == "Cannot read CSV record: "@ + text,
        },
{
    match read_records(data) {
        Ok((headers, rows)) => Ok(CsvData { headers, rows }),
        Err((true, text)) => Err(concat("Cannot read CSV headers: ", text.as_str())),
        Err((false, text)) => Err(concat("Cannot read CSV record: ", text.as_str())),
    }
}

/// What the `csv` crate writes for a header row and records (every record
/// as wide as the first), or, when it refuses, whether it was the header
/// row that it refused, and the error's text.
pub uninterp spec fn csv_written(headers: Seq<Seq<char>>, rows: Seq<Seq<Seq<char>>>) -> Result<
    Seq<u8>,
    (bool, Seq<char>),
>;

/// `csv::Writer::from_writer` over a byte buffer, `write_record` for the
/// headers and each row, then the buffer.
#[verifier::external_body]
fn write_records(headers: &Vec<String>, rows: &Vec<Vec<String>>) -> (r: Result<Vec<u8>, (bool, String)>)
    ensures
        match csv_written(views(headers@), rows_view(rows@)) {
            Ok(bytes) => r matches Ok(b) && b@ == bytes,
            Err((at_headers, text)) => r matches Err((h, t)) && h == at_headers && t@ == text,
        },
{
    let mut wtr = csv::Writer::from_writer(Vec::new());
    if let Err(e) = wtr.write_record(headers) {
        return Err((true, e.to_string()));
    }
    for row in rows {
        if let Err(e) = wtr.write_record(row) {
            return Err((false, e.to_string()));
        }
    }
    match wtr.into_inner() {
        Ok(bytes) => Ok(bytes),
        Err(e) => Err((false, e.to_string())),
    }
}

/// The bytes of a table written as CSV.
pub fn csv_bytes(data: &CsvData) -> (r: Result<Vec<u8>, String>)
    ensures
        match csv_written(data.header_view(), data.row_view()) {
            Ok(bytes) => r matches Ok(b) && b@ == bytes,
            Err((at_headers, text)) => r matches Err(m) && m@ == (if at_headers {
                "Cannot write headers: "@
            } else {
                "Cannot write row: "@
            }) + text,
        },
{
    match write_records(&data.headers, &data.rows) {
        Ok(b) => Ok(b),
        Err((true, text)) => Err(concat("Cannot write headers: ", text.as_str())),
        Err((false, text)) => Err(concat("Cannot write row: ", text.as_str())),
    }
}

// ── Creating ──────────────────────────────────────────

/// Refuses to create over an existing file unless asked to overwrite.
pub fn check_create_target(exists: bool, overwrite: bool, path: &str) -> (r: Result<(), MCSError>)
    ensures
        (exists && !overwrite) <==> r is Err,
        r matches Err(e) ==> (e matches MCSError::FilesystemError(m) && m@ == "File already exists: "@
            + path@ + ". Set 'overwrite': true to replace."@),
{
    if exists && !overwrite {
        let mut m = concat("File already exists: ", path);
        string_push_str(&mut m, ". Set 'overwrite': true to replace.");
        return Err(MCSError::FilesystemError(m));
    }
    Ok(())
}

/// The error for a row of the wrong width.
pub open spec fn row_width_error(i: nat, n: nat, m: nat) -> Seq<char> {
    "Row "@ + dec_spec(i) + " has "@ + dec_spec(n) + " values, expected "@ + dec_spec(m)
}

fn width_error(i: usize, n: usize, m: usize) -> (r: MCSError)
    ensures
        r matches MCSError::InvalidParams(t) && t@ == row_width_error(i as nat, n as nat, m as nat),
{
    let mut t = "Row ".to_owned();
    string_push_str(&mut t, u64_to_string(i as u64).as_str());
    string_push_str(&mut t, " has ");
    string_push_str(&mut t, u64_to_string(n as u64).as_str());
    string_push_str(&mut t, " values, expected ");
    string_push_str(&mut t, u64_to_string(m as u64).as_str());
    MCSError::InvalidParams(t)
}

/// The first row whose width differs from `width`.
pub open spec fn first_bad_row(rows: Seq<Seq<Seq<char>>>, width: nat) -> Option<int> {
    if exists|i: int| 0 <= i < rows.len() && rows[i].len() != width {
        Some(choose|i: int| 0 <= i < rows.len() && rows[i].len() != width && forall|j: int| 0 <= j < i ==> rows[j].len() == width)
    } else {
        None
    }
}

/// Checks a table to create: it needs headers, and every row as wide as
/// they are.
pub fn check_create_rows(headers: &Vec<String>, rows: &Vec<Vec<String>>) -> (r: Result<(), MCSError>)
    ensures
        headers@.len() == 0 ==> (r matches Err(e) && (e matches MCSError::InvalidParams(m) && m@
            == "'headers' must be a non-empty array"@)),
        headers@.len() > 0 ==> match first_bad_row(rows_view(rows@), headers@.len()) {
            None => r is Ok,
            Some(i) => r matches Err(e) && (e matches MCSError::InvalidParams(m) && m@
                == row_width_error(i as nat, rows@[i]@.len(), headers@.len())),
        },
{
    if headers.len() == 0 {
        return Err(MCSError::InvalidParams("'headers' must be a non-empty array".to_owned()));
    }
    let ghost rv = rows_view(rows@);
    let mut i: usize = 0;
    while i < rows.len()
        invariant
            i <= rows@.len(),
            headers@.len() > 0,
            rv == rows_view(rows@),
            forall|j: int| 0 <= j < i ==> rv[j].len() == headers@.len(),
        decreases rows@.len() - i,
    {
        assert(rv[i as int].len() == rows@[i as int]@.len());
        if rows[i].len() != headers.len() {
            proof {
                let w = headers@.len();
                assert(exists|k: int| 0 <= k < rv.len() && rv[k].len() != w);
                let c = choose|k: int| 0 <= k < rv.len() && rv[k].len() != w && forall|j: int| 0 <= j < k ==> rv[j].len() == w;
                assert(c == i);
            }
            return Err(width_error(i, rows[i].len(), headers.len()));
        }
        i = i + 1;
    }
    Ok(())
}

// ── Reading pages and ranges ──────────────────────────

/// `min(a, b)` on naturals.
pub open spec fn min_nat(a: nat, b: nat) -> nat {
    if a < b {
        a
    } else {
        b
    }
}

/// The rows a `csv_read` returns: `limit` (10000 at most) rows from `offset`.
pub open spec fn read_page_bounds(total: nat, offset: u64, limit: Option<u64>) -> (nat, nat) {
    let lim = min_nat(
        match limit {
            Some(l) => l as nat,
            None => u64::MAX as nat,
        },
        10000,
    );
    let end: nat = if offset + lim <= u64::MAX {
        (offset + lim) as nat
    } else {
        u64::MAX as nat
    };
    (min_nat(offset as nat, total), min_nat(end, total))
}

/// The first and last row a `csv_read` returns.
pub fn csv_page(total: usize, offset: u64, limit: Option<u64>) -> (r: (usize, usize))
    ensures
        (r.0 as nat, r.1 as nat) == read_page_bounds(total as nat, offset, limit),
        r.0 <= r.1 <= total,
{
    let lim: u64 = match limit {
        Some(l) => if l < 10000 {
            l
        } else {
            10000
        },
        None => 10000,
    };
    let end: u64 = match offset.checked_add(lim) {
        Some(e) => e,
        None => u64::MAX,
    };
    let start = if offset < total as u64 {
        offset as usize
    } else {
        total
    };
    let stop = if end < total as u64 {
        end as usize
    } else {
        total
    };
    (start, stop)
}

/// Cell `i` of a row, empty when the row is shorter.
pub open spec fn cell(row: Seq<Seq<char>>, i: int) -> Seq<char> {
    if 0 <= i < row.len() {
        row[i]
    } else {
        Seq::empty()
    }
}

/// A row reduced to the columns `cols`.
pub open spec fn project(row: Seq<Seq<char>>, cols: Seq<usize>) -> Seq<Seq<char>> {
    cols.map_values(|c: usize| cell(row, c as int))
}

fn project_row(row: &Vec<String>, cols: &Vec<usize>) -> (r: Vec<String>)
    ensures
        views(r@) == project(views(row@), cols@),
{
    let mut out: Vec<String> = Vec::new();
    let mut k: usize = 0;
    while k < cols.len()
        invariant
            k <= cols@.len(),
            views(out@) == project(views(row@), cols@.take(k as int)),
        decreases cols@.len() - k,
    {
        let c = cols[k];
        let v = if c < row.len() {
            row[c].clone()
        } else {
            String::new()
        };
        let ghost before = views(out@);
        out.push(v);
        assert(views(out@) =~= before.push(v@));
        k = k + 1;
        assert(project(views(row@), cols@.take(k as int)) =~= before.push(cell(views(row@), c as int)));
    }
    assert(cols@.take(k as int) =~= cols@);
    out
}

/// The indices of some named columns; the first unknown name is refused.
pub fn find_columns(data: &CsvData, names: &Vec<String>) -> (r: Result<Vec<usize>, MCSError>)
    ensures
        r matches Ok(v) ==> v@.len() == names@.len() && forall|k: int|
            0 <= k < names@.len() ==> column_index(data.header_view(), #[trigger] names@[k]@)
                == Some(v@[k] as int),
        r is Err ==> exists|k: int|
            0 <= k < names@.len() && column_index(data.header_view(), #[trigger] names@[k]@) is None,
        r matches Err(e) ==> (e matches MCSError::InvalidParams(m) && exists|k: int|
            0 <= k < names@.len() && column_index(data.header_view(), #[trigger] names@[k]@) is None
                && m@ == column_not_found(names@[k]@, data.header_view()) && forall|j: int|
                0 <= j < k ==> column_index(data.header_view(), names@[j]@) is Some),
{
    let mut out: Vec<usize> = Vec::new();
    let mut k: usize = 0;
    while k < names.len()
        invariant
            k <= names@.len(),
            out@.len() == k,
            forall|j: int|
                0 <= j < k ==> column_index(data.header_view(), #[trigger] names@[j]@) == Some(
                    out@[j] as int,
                ),
        decreases names@.len() - k,
    {
        match find_column(data, names[k].as_str()) {
            Ok(i) => {
                proof {
                    lemma_column_index_bounds(data.header_view(), names@[k as int]@);
                }
                out.push(i);
                assert(column_index(data.header_view(), names@[k as int]@) == Some(out@[k as int] as int));
            },
            Err(e) => {
                return Err(e);
            },
        }
        k = k + 1;
    }
    Ok(out)
}

/// Rows `start..end` of a table, each reduced to the columns `cols`.
pub fn project_rows(data: &CsvData, start: usize, end: usize, cols: &Vec<usize>) -> (r: Vec<Vec<String>>)
    requires
        start <= end <= data.rows@.len(),
    ensures
        rows_view(r@) == data.row_view().subrange(start as int, end as int).map_values(
            |row: Seq<Seq<char>>| project(row, cols@),
        ),
{
    let mut out: Vec<Vec<String>> = Vec::new();
    let mut i: usize = start;
    while i < end
        invariant
            start <= i <= end <= data.rows@.len(),
            rows_view(out@) == data.row_view().subrange(start as int, i as int).map_values(
                |row: Seq<Seq<char>>| project(row, cols@),
            ),
        decreases end - i,
    {
        let p = project_row(&data.rows[i], cols);
        let ghost before = rows_view(out@);
        out.push(p);
        assert(rows_view(out@) =~= before.push(views(p@)));
        i = i + 1;
        assert(data.row_view().subrange(start as int, i as int).map_values(
            |row: Seq<Seq<char>>| project(row, cols@),
        ) =~= before.push(project(data.row_view()[i - 1], cols@)));
    }
    out
}

/// Rows `start..end` of a table.
pub fn copy_rows(data: &CsvData, start: usize, end: usize) -> (r: Vec<Vec<String>>)
    requires
        start <= end <= data.rows@.len(),
    ensures
        rows_view(r@) == data.row_view().subrange(start as int, end as int),
{
    let mut out: Vec<Vec<String>> = Vec::new();
    let mut i: usize = start;
    while i < end
        invariant
            start <= i <= end <= data.rows@.len(),
            rows_view(out@) == data.row_view().subrange(start as int, i as int),
        decreases end - i,
    {
        let row = clone_row(&data.rows[i]);
        let ghost before = rows_view(out@);
        out.push(row);
        assert(rows_view(out@) =~= before.push(views(data.rows@[i as int]@)));
        i = i + 1;
        assert(data.row_view().subrange(start as int, i as int) =~= before.push(data.row_view()[i - 1]));
    }
    out
}

fn clone_row(row: &Vec<String>) -> (r: Vec<String>)
    ensures
        views(r@) == views(row@),
{
    let mut out: Vec<String> = Vec::new();
    let mut k: usize = 0;
    while k < row.len()
        invariant
            k <= row@.len(),
            views(out@) == views(row@.take(k as int)),
        decreases row@.len() - k,
    {
        let v = row[k].clone();
        let ghost before = views(out@);
        out.push(v);
        assert(views(out@) =~= before.push(v@));
        k = k + 1;
        assert(views(row@.take(k as int)) =~= before.push(row@[k - 1]@));
    }
    assert(row@.take(k as int) =~= row@);
    out
}

/// Checks the range of a range read: `end` not before `start`, and at most
/// `max_rows` rows.
pub fn check_range(start: usize, end: Option<usize>, max_rows: usize) -> (r: Result<(), MCSError>)
    ensures
        match end {
            None => r is Ok,
            Some(e) => if e < start {
                r matches Err(x) && (x matches MCSError::InvalidParams(m) && m@ == "end ("@ + dec_spec(
                    e as nat,
                ) + ") must be >= start ("@ + dec_spec(start as nat) + ")"@)
            } else if e - start > max_rows {
                r matches Err(x) && (x matches MCSError::InvalidParams(m) && m@ == "Range too large: "@
                    + dec_spec(e as nat) + " - "@ + dec_spec(start as nat) + " = "@ + dec_spec(
                    (e - start) as nat,
                ) + " exceeds maximum of "@ + dec_spec(max_rows as nat) + " rows"@)
            } else {
                r is Ok
            },
        },
{
    match end {
        None => Ok(()),
        Some(e) => {
            if e < start {
                let mut m = "end (".to_owned();
                string_push_str(&mut m, u64_to_string(e as u64).as_str());
                string_push_str(&mut m, ") must be >= start (");
                string_push_str(&mut m, u64_to_string(start as u64).as_str());
                string_push_str(&mut m, ")");
                return Err(MCSError::InvalidParams(m));
            }
            if e - start > max_rows {
                let mut m = "Range too large: ".to_owned();
                string_push_str(&mut m, u64_to_string(e as u64).as_str());
                string_push_str(&mut m, " - ");
                string_push_str(&mut m, u64_to_string(start as u64).as_str());
                string_push_str(&mut m, " = ");
                string_push_str(&mut m, u64_to_string((e - start) as u64).as_str());
                string_push_str(&mut m, " exceeds maximum of ");
                string_push_str(&mut m, u64_to_string(max_rows as u64).as_str());
                string_push_str(&mut m, " rows");
                return Err(MCSError::InvalidParams(m));
            }
            Ok(())
        },
    }
}

/// The rows a range read covers: from `start`, up to `end` (exclusive)
/// when given, else `default_count` rows; cut at the end of the table.
pub open spec fn range_rows(total: nat, start: nat, end: Option<usize>, default_count: nat) -> (nat, nat) {
    let count = match end {
        Some(e) => if e >= start {
            (e - start) as nat
        } else {
            0
        },
        None => default_count,
    };
    let s = min_nat(start, total);
    (s, min_nat(if start + count <= usize::MAX { start + count } else { usize::MAX as nat }, total))
}

/// The first and last row a range read covers.
pub fn range_bounds(total: usize, start: usize, end: Option<usize>, default_count: usize) -> (r: (usize, usize))
    ensures
        (r.0 as nat, r.1 as nat) == range_rows(total as nat, start as nat, end, default_count as nat),
        r.0 <= r.1 <= total,
{
    let count: usize = match end {
        Some(e) => if e >= start {
            e - start
        } else {
            0
        },
        None => default_count,
    };
    let s = if start < total {
        start
    } else {
        total
    };
    let stop = match start.checked_add(count) {
        Some(x) => x,
        None => usize::MAX,
    };
    let stop = if stop < total {
        stop
    } else {
        total
    };
    (s, stop)
}

// ── Edits ─────────────────────────────────────────────

/// The error for a row index past the table.
pub open spec fn row_range_error(row: nat, n: nat) -> Seq<char> {
    "Row index "@ + dec_spec(row) + " out of range. File has "@ + dec_spec(n) + " data rows (0.."@
        + dec_spec(if n > 0 {
        (n - 1) as nat
    } else {
        0
    }) + ")"@
}

fn row_error(row: usize, n: usize) -> (r: MCSError)
    ensures
        r matches MCSError::InvalidParams(m) && m@ == row_range_error(row as nat, n as nat),
{
    let mut m = "Row index ".to_owned();
    string_push_str(&mut m, u64_to_string(row as u64).as_str());
    string_push_str(&mut m, " out of range. File has ");
    string_push_str(&mut m, u64_to_string(n as u64).as_str());
    string_push_str(&mut m, " data rows (0..");
    string_push_str(&mut m, u64_to_string(if n > 0 { (n - 1) as u64 } else { 0 }).as_str());
    string_push_str(&mut m, ")");
    MCSError::InvalidParams(m)
}

/// A row with cell `col` set to `value`, padded with empty cells to the
/// width of the header (or past `col`) when it is shorter.
pub open spec fn set_cell(row: Seq<Seq<char>>, col: int, width: nat, value: Seq<char>) -> Seq<Seq<char>> {
    let padded = if col < row.len() {
        row
    } else {
        let w = if width > col + 1 {
            width
        } else {
            (col + 1) as nat
        };
        row + Seq::new((w - row.len()) as nat, |k: int| Seq::<char>::empty())
    };
    padded.update(col, value)
}

/// Sets one cell: the column as `resolve_column` finds it, the row by index.
/// Returns the column's header.
pub fn csv_update_cell(
    data: &mut CsvData,
    row_idx: usize,
    value: String,
    column: Option<&str>,
    column_index: Option<u64>,
) -> (r: Result<String, MCSError>)
    ensures
        match resolve_spec(old(data).header_view(), opt_str_view(column), column_index) {
            Err(m) => r matches Err(e) && (e matches MCSError::InvalidParams(t) && t@ == m)
                && final(data).row_view() == old(data).row_view(),
            Ok(c) => if row_idx >= old(data).rows@.len() {
                r matches Err(e) && (e matches MCSError::InvalidParams(t) && t@ == row_range_error(
                    row_idx as nat,
                    old(data).rows@.len(),
                )) && final(data).row_view() == old(data).row_view()
            } else {
                r matches Ok(h) && h@ == old(data).header_view()[c] && final(data).row_view()
                    == old(data).row_view().update(
                    row_idx as int,
                    set_cell(old(data).row_view()[row_idx as int], c, old(data).headers@.len(), value@),
                )
            },
        },
        final(data).header_view() == old(data).header_view(),
{
    let col = match resolve_column(data, column, column_index) {
        Ok(c) => c,
        Err(e) => return Err(e),
    };
    proof {
        if let Some(c) = column {
            lemma_column_index_bounds(data.header_view(), c@);
        }
    }
    if row_idx >= data.rows.len() {
        return Err(row_error(row_idx, data.rows.len()));
    }
    let column_name = data.headers[col].clone();
    let target_len = data.headers.len();
    let ghost old_rows = data.row_view();
    let mut row: Vec<String> = Vec::new();
    std::mem::swap(&mut row, &mut data.rows[row_idx]);
    let ghost old_row = views(row@);
    if col >= row.len() {
        let w = if target_len > col + 1 {
            target_len
        } else {
            col + 1
        };
        while row.len() < w
            invariant
                old_row.len() <= row@.len() <= w,
                views(row@) == old_row + Seq::new((row@.len() - old_row.len()) as nat, |k: int| Seq::<char>::empty()),
            decreases w - row@.len(),
        {
            let ghost before = views(row@);
            let e = String::new();
            assert(e@ == Seq::<char>::empty());
            row.push(e);
            assert(views(row@) =~= before.push(Seq::<char>::empty()));
            assert(views(row@) =~= old_row + Seq::new((row@.len() - old_row.len()) as nat, |k: int| Seq::<char>::empty()));
        }
    }
    let ghost padded = views(row@);
    row.set(col, value);
    assert(views(row@) =~= padded.update(col as int, value@));
    assert(views(row@) =~= set_cell(old_row, col as int, target_len as nat, value@));
    data.rows.set(row_idx, row);
    assert(data.row_view() =~= old_rows.update(row_idx as int, set_cell(old_row, col as int, target_len as nat, value@)));
    Ok(column_name)
}

/// Removes one row by index.
pub fn csv_remove_row(data: &mut CsvData, row_idx: usize) -> (r: Result<(), MCSError>)
    ensures
        row_idx >= old(data).rows@.len() ==> (r matches Err(e) && (e matches MCSError::InvalidParams(
            t,
        ) && t@ == row_range_error(row_idx as nat, old(data).rows@.len())) && final(data).row_view()
            == old(data).row_view()),
        row_idx < old(data).rows@.len() ==> r is Ok && final(data).row_view() == old(
            data,
        ).row_view().remove(row_idx as int),
        final(data).header_view() == old(data).header_view(),
{
    if row_idx >= data.rows.len() {
        return Err(row_error(row_idx, data.rows.len()));
    }
    let ghost before = data.rows@;
    data.rows.remove(row_idx);
    assert(data.row_view() =~= rows_view(before).remove(row_idx as int));
    Ok(())
}

/// Adds a column, with `default_val` in every row; an existing name is refused.
pub fn csv_add_column(data: &mut CsvData, column: String, default_val: &str) -> (r: Result<(), MCSError>)
    ensures
        column_index(old(data).header_view(), column@) is Some ==> (r matches Err(e) && (e matches MCSError::InvalidParams(
            t,
        ) && t@ == "Column already exists: '"@ + column@ + "'"@) && final(data).header_view()
            == old(data).header_view() && final(data).row_view() == old(data).row_view()),
        column_index(old(data).header_view(), column@) is None ==> r is Ok && final(data).header_view()
            == old(data).header_view().push(column@) && final(data).row_view() == old(
            data,
        ).row_view().map_values(|row: Seq<Seq<char>>| row.push(default_val@)),
{
    if has_column(data, column.as_str()) {
        let mut m = concat("Column already exists: '", column.as_str());
        string_push_str(&mut m, "'");
        return Err(MCSError::InvalidParams(m));
    }
    let ghost old_h = data.header_view();
    let ghost cv = column@;
    data.headers.push(column);
    assert(data.header_view() =~= old_h.push(cv));
    let ghost old_rows = data.row_view();
    let mut i: usize = 0;
    while i < data.rows.len()
        invariant
            i <= data.rows@.len(),
            data.rows@.len() == old_rows.len(),
            data.header_view() == old_h.push(column@),
            forall|k: int| 0 <= k < i ==> views(#[trigger] data.rows@[k]@) == old_rows[k].push(default_val@),
            forall|k: int| i <= k < data.rows@.len() ==> views(#[trigger] data.rows@[k]@) == old_rows[k],
        decreases data.rows@.len() - i,
    {
        let mut row: Vec<String> = Vec::new();
        std::mem::swap(&mut row, &mut data.rows[i]);
        let ghost before = views(row@);
        row.push(default_val.to_owned());
        assert(views(row@) =~= before.push(default_val@));
        data.rows.set(i, row);
        i = i + 1;
    }
    assert(data.row_view() =~= old_rows.map_values(|row: Seq<Seq<char>>| row.push(default_val@)));
    Ok(())
}

/// A row without cell `col` (rows too short to have it stay as they are).
pub open spec fn without_cell(row: Seq<Seq<char>>, col: int) -> Seq<Seq<char>> {
    if col < row.len() {
        row.remove(col)
    } else {
        row
    }
}

/// Removes a column, named or indexed, from the headers and every row.
/// Returns the removed header.
pub fn csv_remove_column(data: &mut CsvData, column: Option<&str>, column_index: Option<u64>) -> (r: Result<String, MCSError>)
    ensures
        match resolve_spec(old(data).header_view(), opt_str_view(column), column_index) {
            Err(m) => r matches Err(e) && (e matches MCSError::InvalidParams(t) && t@ == m)
                && final(data).header_view() == old(data).header_view() && final(data).row_view()
                == old(data).row_view(),
            Ok(c) => r matches Ok(h) && h@ == old(data).header_view()[c] && final(data).header_view()
                == old(data).header_view().remove(c) && final(data).row_view() == old(
                data,
            ).row_view().map_values(|row: Seq<Seq<char>>| without_cell(row, c)),
        },
{
    let col = match resolve_column(data, column, column_index) {
        Ok(c) => c,
        Err(e) => return Err(e),
    };
    proof {
        if let Some(c) = column {
            lemma_column_index_bounds(data.header_view(), c@);
        }
    }
    let ghost old_h = data.headers@;
    let name = data.headers.remove(col);
    assert(data.header_view() =~= views(old_h).remove(col as int));
    let ghost old_rows = data.row_view();
    let mut i: usize = 0;
    while i < data.rows.len()
        invariant
            i <= data.rows@.len(),
            data.rows@.len() == old_rows.len(),
            data.header_view() == views(old_h).remove(col as int),
            forall|k: int| 0 <= k < i ==> views(#[trigger] data.rows@[k]@) == without_cell(old_rows[k], col as int),
            forall|k: int| i <= k < data.rows@.len() ==> views(#[trigger] data.rows@[k]@) == old_rows[k],
        decreases data.rows@.len() - i,
    {
        let mut row: Vec<String> = Vec::new();
        std::mem::swap(&mut row, &mut data.rows[i]);
        let ghost before = row@;
        if col < row.len() {
            row.remove(col);
            assert(views(row@) =~= views(before).remove(col as int));
        }
        data.rows.set(i, row);
        i = i + 1;
    }
    assert(data.row_view() =~= old_rows.map_values(|row: Seq<Seq<char>>| without_cell(row, col as int)));
    Ok(name)
}

/// Renames a column: the old name must exist and the new one must not
/// (unless they are the same). The header renamed is the one the old name
/// stands for.
pub fn csv_rename_column(data: &mut CsvData, old_name: &str, new_name: String) -> (r: Result<(), MCSError>)
    ensures
        column_index(old(data).header_view(), old_name@) is None ==> (r matches Err(e) && (e matches MCSError::InvalidParams(
            t,
        ) && t@ == "Column not found: '"@ + old_name@ + "'"@) && final(data).header_view() == old(
            data,
        ).header_view()),
        column_index(old(data).header_view(), old_name@) is Some && column_index(
            old(data).header_view(),
            new_name@,
        ) is Some && old_name@ != new_name@ ==> (r matches Err(e) && (e matches MCSError::InvalidParams(
            t,
        ) && t@ == "Target column name already exists: '"@ + new_name@ + "'"@) && final(data).header_view()
            == old(data).header_view()),
        column_index(old(data).header_view(), old_name@) matches Some(i) ==> ((column_index(
            old(data).header_view(),
            new_name@,
        ) is None || old_name@ == new_name@) ==> (r is Ok && final(data).header_view() == old(
            data,
        ).header_view().update(i, new_name@))),
        final(data).row_view() == old(data).row_view(),
{
    let idx = match find_column(data, old_name) {
        Ok(i) => i,
        Err(_) => {
            let mut m = concat("Column not found: '", old_name);
            string_push_str(&mut m, "'");
            return Err(MCSError::InvalidParams(m));
        },
    };
    proof {
        lemma_column_index_bounds(data.header_view(), old_name@);
    }
    if has_column(data, new_name.as_str()) && !str_eq(old_name, new_name.as_str()) {
        let mut m = concat("Target column name already exists: '", new_name.as_str());
        string_push_str(&mut m, "'");
        return Err(MCSError::InvalidParams(m));
    }
    let ghost old_h = data.header_view();
    let ghost nv = new_name@;
    data.headers.set(idx, new_name);
    assert(data.header_view() =~= old_h.update(idx as int, nv));
    Ok(())
}

/// A row to add, as the request gives it.
pub enum RowInput {
    /// Values by column name.
    Object(Vec<(String, String)>),
    /// Values in column order.
    Array(Vec<String>),
    /// Anything else.
    Invalid,
}

/// Name and value pairs as characters.
pub open spec fn pair_views(pairs: Seq<(String, String)>) -> Seq<(Seq<char>, Seq<char>)> {
    pairs.map_values(|p: (String, String)| (p.0@, p.1@))
}

/// The row an object makes: empty cells, then each named column set in
/// turn (a later pair for the same column wins); the first unknown name
/// is refused.
pub open spec fn object_row(headers: Seq<Seq<char>>, pairs: Seq<(Seq<char>, Seq<char>)>) -> Result<
    Seq<Seq<char>>,
    Seq<char>,
>
    decreases pairs.len(),
{
    if pairs.len() == 0 {
        Ok(Seq::new(headers.len(), |k: int| Seq::<char>::empty()))
    } else {
        match object_row(headers, pairs.drop_last()) {
            Err(m) => Err(m),
            Ok(row) => match column_index(headers, pairs.last().0) {
                Some(c) => Ok(row.update(c, pairs.last().1)),
                None => Err(column_not_found(pairs.last().0, headers)),
            },
        }
    }
}

/// The row that input `i` makes, or why it is refused.
pub open spec fn input_row(headers: Seq<Seq<char>>, i: nat, input: RowInput) -> Result<
    Seq<Seq<char>>,
    Seq<char>,
> {
    match input {
        RowInput::Object(pairs) => object_row(headers, pair_views(pairs@)),
        RowInput::Array(values) => if values@.len() != headers.len() {
            Err(row_width_error(i, values@.len(), headers.len()))
        } else {
            Ok(views(values@))
        },
        RowInput::Invalid => Err("Row "@ + dec_spec(i) + " must be an object or array"@),
    }
}

/// The rows a batch of inputs makes, or the refusal of its first bad one.
pub open spec fn batch_rows(headers: Seq<Seq<char>>, inputs: Seq<RowInput>) -> Result<
    Seq<Seq<Seq<char>>>,
    Seq<char>,
>
    decreases inputs.len(),
{
    if inputs.len() == 0 {
        Ok(Seq::empty())
    } else {
        match batch_rows(headers, inputs.drop_last()) {
            Err(m) => Err(m),
            Ok(done) => match input_row(headers, (inputs.len() - 1) as nat, inputs.last()) {
                Err(m) => Err(m),
                Ok(row) => Ok(done.push(row)),
            },
        }
    }
}

proof fn lemma_object_row_error_stays(headers: Seq<Seq<char>>, pairs: Seq<(Seq<char>, Seq<char>)>, k: int)
    requires
        0 <= k <= pairs.len(),
        object_row(headers, pairs.take(k)) is Err,
    ensures
        object_row(headers, pairs) == object_row(headers, pairs.take(k)),
    decreases pairs.len() - k,
{
    if k < pairs.len() {
        assert(pairs.take(k + 1).drop_last() =~= pairs.take(k));
        lemma_object_row_error_stays(headers, pairs, k + 1);
    } else {
        assert(pairs.take(k) =~= pairs);
    }
}

proof fn lemma_batch_error_stays(headers: Seq<Seq<char>>, inputs: Seq<RowInput>, k: int)
    requires
        0 <= k <= inputs.len(),
        batch_rows(headers, inputs.take(k)) is Err,
    ensures
        batch_rows(headers, inputs) == batch_rows(headers, inputs.take(k)),
    decreases inputs.len() - k,
{
    if k < inputs.len() {
        assert(inputs.take(k + 1).drop_last() =~= inputs.take(k));
        lemma_batch_error_stays(headers, inputs, k + 1);
    } else {
        assert(inputs.take(k) =~= inputs);
    }
}

proof fn lemma_object_row_width(headers: Seq<Seq<char>>, pairs: Seq<(Seq<char>, Seq<char>)>)
    ensures
        object_row(headers, pairs) matches Ok(row) ==> row.len() == headers.len(),
    decreases pairs.len(),
{
    if pairs.len() > 0 {
        lemma_object_row_width(headers, pairs.drop_last());
        lemma_column_index_bounds(headers, pairs.last().0);
    }
}

/// The row an object input makes.
fn object_input_row(data: &CsvData, pairs: &Vec<(String, String)>) -> (r: Result<Vec<String>, MCSError>)
    ensures
        match object_row(data.header_view(), pair_views(pairs@)) {
            Ok(row) => r matches Ok(v) && views(v@) == row,
            Err(m) => r matches Err(e) && (e matches MCSError::InvalidParams(t) && t@ == m),
        },
{
    let ghost h = data.header_view();
    let ghost pv = pair_views(pairs@);
    let mut row: Vec<String> = Vec::new();
    let mut j: usize = 0;
    while j < data.headers.len()
        invariant
            j <= data.headers@.len(),
            views(row@) == Seq::new(j as nat, |k: int| Seq::<char>::empty()),
        decreases data.headers@.len() - j,
    {
        let ghost before = views(row@);
        let e = String::new();
        row.push(e);
        assert(views(row@) =~= before.push(e@));
        j = j + 1;
        assert(views(row@) =~= Seq::new(j as nat, |k: int| Seq::<char>::empty()));
    }
    assert(pv.take(0) =~= Seq::<(Seq<char>, Seq<char>)>::empty());
    let mut p: usize = 0;
    while p < pairs.len()
        invariant
            p <= pairs@.len(),
            h == data.header_view(),
            pv == pair_views(pairs@),
            object_row(h, pv.take(p as int)) == Ok::<Seq<Seq<char>>, Seq<char>>(views(row@)),
        decreases pairs@.len() - p,
    {
        assert(pv.take(p + 1).drop_last() =~= pv.take(p as int));
        assert(pv.take(p + 1).last() == (pairs@[p as int].0@, pairs@[p as int].1@));
        let idx = match find_column(data, pairs[p].0.as_str()) {
            Ok(i) => i,
            Err(e) => {
                proof {
                    lemma_object_row_error_stays(h, pv, p + 1);
                    assert(pv.take(pv.len() as int) =~= pv);
                }
                return Err(e);
            },
        };
        proof {
            lemma_column_index_bounds(h, pairs@[p as int].0@);
            lemma_object_row_width(h, pv.take(p as int));
        }
        let ghost before = views(row@);
        row.set(idx, pairs[p].1.clone());
        assert(views(row@) =~= before.update(idx as int, pairs@[p as int].1@));
        p = p + 1;
    }
    assert(pv.take(p as int) =~= pv);
    Ok(row)
}

/// The row input `i` makes.
fn input_row_of(data: &CsvData, i: usize, input: &RowInput) -> (r: Result<Vec<String>, MCSError>)
    ensures
        match input_row(data.header_view(), i as nat, *input) {
            Ok(row) => r matches Ok(v) && views(v@) == row,
            Err(m) => r matches Err(e) && (e matches MCSError::InvalidParams(t) && t@ == m),
        },
{
    match input {
        RowInput::Object(pairs) => object_input_row(data, pairs),
        RowInput::Array(values) => {
            if values.len() != data.headers.len() {
                return Err(width_error(i, values.len(), data.headers.len()));
            }
            Ok(clone_row(values))
        },
        RowInput::Invalid => {
            let mut m = "Row ".to_owned();
            string_push_str(&mut m, u64_to_string(i as u64).as_str());
            string_push_str(&mut m, " must be an object or array");
            Err(MCSError::InvalidParams(m))
        },
    }
}

/// Adds rows: an object fills the named columns of an empty row, an array
/// must be exactly as wide as the header. The first bad row refuses the
/// batch. Returns how many rows were added.
pub fn add_rows(data: &mut CsvData, rows: &Vec<RowInput>) -> (r: Result<usize, MCSError>)
    ensures
        final(data).header_view() == old(data).header_view(),
        rows@.len() == 0 ==> (r matches Err(e) && (e matches MCSError::InvalidParams(m) && m@
            == "'rows' must be a non-empty array"@)),
        rows@.len() > 0 ==> match batch_rows(old(data).header_view(), rows@) {
            Ok(added) => r == Ok::<usize, MCSError>(rows@.len() as usize) && final(data).row_view()
                == old(data).row_view() + added,
            Err(m) => r matches Err(e) && (e matches MCSError::InvalidParams(t) && t@ == m),
        },
{
    if rows.len() == 0 {
        return Err(MCSError::InvalidParams("'rows' must be a non-empty array".to_owned()));
    }
    let ghost old_rows = data.row_view();
    let ghost h = data.header_view();
    let mut count: usize = 0;
    assert(rows@.take(0) =~= Seq::<RowInput>::empty());
    assert(old_rows + Seq::<Seq<Seq<char>>>::empty() =~= old_rows);
    while count < rows.len()
        invariant
            count <= rows@.len(),
            data.header_view() == h,
            h == old(data).header_view(),
            old_rows == old(data).row_view(),
            batch_rows(h, rows@.take(count as int)) matches Ok(done) && data.row_view() == old_rows
                + done,
        decreases rows@.len() - count,
    {
        assert(rows@.take(count + 1).drop_last() =~= rows@.take(count as int));
        assert(rows@.take(count + 1).last() == rows@[count as int]);
        let new_row = match input_row_of(data, count, &rows[count]) {
            Ok(v) => v,
            Err(e) => {
                proof {
                    lemma_batch_error_stays(h, rows@, count + 1);
                }
                return Err(e);
            },
        };
        let ghost before = data.row_view();
        let ghost nv = views(new_row@);
        data.rows.push(new_row);
        assert(data.row_view() =~= before.push(nv));
        proof {
            let done = batch_rows(h, rows@.take(count as int))->Ok_0;
            assert(old_rows + done.push(nv) =~= (old_rows + done).push(nv));
        }
        count = count + 1;
    }
    assert(rows@.take(count as int) =~= rows@);
    Ok(count)
}

} // verus!
