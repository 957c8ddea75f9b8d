//! Directory-oriented tools: listings and their order, glob search, regex
//! grep, disk-usage totals and the bounded directory tree.

use vstd::prelude::*;

use crate::actions::files::views;
use crate::errors::MCSError;
use crate::path::join_path;
use crate::actions::util::comp_names;
use crate::resources::{strip_prefix_spec};
use crate::text::{concat, dec_spec, str_chars, str_eq, string_from_chars, string_push_str, u64_to_string};

verus! {

// ── Order of listings ─────────────────────────────────

/// `a` comes no later than `b` in lexicographic character order (the order
/// of `str`, since UTF-8 keeps code point order).
pub open spec fn lex_le(a: Seq<char>, b: Seq<char>) -> bool
    decreases a.len(),
{
    if a.len() == 0 {
        true
    } else if b.len() == 0 {
        false
    } else if a[0] != b[0] {
        a[0] < b[0]
    } else {
        lex_le(a.drop_first(), b.drop_first())
    }
}

proof fn lemma_lex_total(a: Seq<char>, b: Seq<char>)
    ensures
        lex_le(a, b) || lex_le(b, a),
    decreases a.len(),
{
    if a.len() > 0 && b.len() > 0 && a[0] == b[0] {
        lemma_lex_total(a.drop_first(), b.drop_first());
    }
}

proof fn lemma_lex_refl(a: Seq<char>)
    ensures
        lex_le(a, a),
    decreases a.len(),
{
    if a.len() > 0 {
        lemma_lex_refl(a.drop_first());
    }
}

proof fn lemma_lex_trans(a: Seq<char>, b: Seq<char>, c: Seq<char>)
    requires
        lex_le(a, b),
        lex_le(b, c),
    ensures
        lex_le(a, c),
    decreases a.len(),
{
    if a.len() > 0 && b.len() > 0 && c.len() > 0 && a[0] == b[0] && b[0] == c[0] {
        lemma_lex_trans(a.drop_first(), b.drop_first(), c.drop_first());
    }
}

proof fn lemma_lex_antisym(a: Seq<char>, b: Seq<char>)
    requires
        lex_le(a, b),
        lex_le(b, a),
    ensures
        a == b,
    decreases a.len(),
{
    if a.len() > 0 && b.len() > 0 {
        lemma_lex_antisym(a.drop_first(), b.drop_first());
        assert(a =~= seq![a[0]] + a.drop_first());
        assert(b =~= seq![b[0]] + b.drop_first());
    } else if a.len() == 0 && b.len() == 0 {
        assert(a =~= b);
    }
}

/// Whether `a` comes no later than `b`.
pub fn chars_le(a: &[char], b: &[char]) -> (r: bool)
    ensures
        r == lex_le(a@, b@),
{
    let mut i: usize = 0;
    assert(a@.skip(0) =~= a@);
    assert(b@.skip(0) =~= b@);
    while i < a.len() && i < b.len()
        invariant
            i <= a@.len(),
            i <= b@.len(),
            lex_le(a@, b@) == lex_le(a@.skip(i as int), b@.skip(i as int)),
        decreases a@.len() - i,
    {
        assert(a@.skip(i as int).drop_first() =~= a@.skip(i + 1));
        assert(b@.skip(i as int).drop_first() =~= b@.skip(i + 1));
        if a[i] != b[i] {
            return a[i] < b[i];
        }
        i = i + 1;
    }
    i == a.len()
}

/// `p` lists each of `0..n` once.
pub open spec fn is_perm(p: Seq<usize>, n: nat) -> bool {
    &&& p.len() == n
    &&& forall|k: int| 0 <= k < p.len() ==> p[k] < n
    &&& forall|a: int, b: int| 0 <= a < b < p.len() ==> p[a] != p[b]
}

/// `p` orders the keys ascending, equal keys in their input order.
pub open spec fn stable_ascending(keys: Seq<Seq<char>>, p: Seq<usize>) -> bool {
    &&& forall|a: int, b: int| 0 <= a < b < p.len() ==> lex_le(keys[p[a] as int], keys[p[b] as int])
    &&& forall|a: int, b: int|
        0 <= a < b < p.len() && keys[p[a] as int] == keys[p[b] as int] ==> p[a] < p[b]
}

/// `p` orders the sizes descending, equal sizes in their input order.
pub open spec fn stable_descending(sizes: Seq<u64>, p: Seq<usize>) -> bool {
    &&& forall|a: int, b: int| 0 <= a < b < p.len() ==> sizes[p[a] as int] >= sizes[p[b] as int]
    &&& forall|a: int, b: int|
        0 <= a < b < p.len() && sizes[p[a] as int] == sizes[p[b] as int] ==> p[a] < p[b]
}

/// The order that sorts `names` ascending, keeping equal names in their
/// input order (what a stable sort does).
pub fn order_by_name(names: &Vec<String>) -> (r: Vec<usize>)
    ensures
        is_perm(r@, names@.len()),
        stable_ascending(views(names@), r@),
{
    let ghost keys = views(names@);
    let mut p: Vec<usize> = Vec::new();
    let mut i: usize = 0;
    while i < names.len()
        invariant
            keys == views(names@),
            i <= names@.len(),
            is_perm(p@, i as nat),
            stable_ascending(keys, p@),
        decreases names@.len() - i,
    {
        let x = str_chars(names[i].as_str());
        assert(x@ == keys[i as int]);
        let mut pos: usize = 0;
        while pos < p.len() && chars_le(str_chars(names[p[pos]].as_str()).as_slice(), x.as_slice())
            invariant
                keys == views(names@),
                i < names@.len(),
                x@ == keys[i as int],
                is_perm(p@, i as nat),
                pos <= p@.len(),
                forall|k: int| 0 <= k < pos ==> lex_le(keys[p@[k] as int], keys[i as int]),
            decreases p@.len() - pos,
        {
            pos = pos + 1;
        }
        proof {
            if pos < p.len() {
                assert(!lex_le(keys[p@[pos as int] as int], keys[i as int]));
            }
        }
        let ghost old_p = p@;
        p.insert(pos, i);
        proof {
            assert(p@ =~= old_p.insert(pos as int, i));
            assert forall|k: int| 0 <= k < p@.len() implies p@[k] < i + 1 by {}
            assert forall|a: int, b: int| 0 <= a < b < p@.len() implies p@[a] != p@[b] by {}
            assert forall|a: int, b: int| 0 <= a < b < p@.len() implies lex_le(
                keys[p@[a] as int],
                keys[p@[b] as int],
            ) by {
                if a == pos {
                    let y = keys[old_p[pos as int] as int];
                    lemma_lex_total(keys[i as int], y);
                    if b > pos + 1 {
                        assert(lex_le(y, keys[old_p[b - 1] as int]));
                        lemma_lex_trans(keys[i as int], y, keys[p@[b] as int]);
                    }
                } else if a < pos && b > pos {
                    assert(lex_le(keys[old_p[a] as int], keys[old_p[b - 1] as int]));
                } else if a > pos {
                    assert(lex_le(keys[old_p[a - 1] as int], keys[old_p[b - 1] as int]));
                } else if b < pos {
                    assert(lex_le(keys[old_p[a] as int], keys[old_p[b] as int]));
                }
            }
            assert forall|a: int, b: int|
                0 <= a < b < p@.len() && keys[p@[a] as int] == keys[p@[b] as int] implies p@[a]
                < p@[b] by {
                if a == pos {
                    let y = keys[old_p[pos as int] as int];
                    if b > pos + 1 {
                        assert(lex_le(y, keys[old_p[b - 1] as int]));
                    } else {
                        lemma_lex_refl(y);
                    }
                } else if a < pos && b > pos {
                    assert(old_p[a] < old_p[b - 1]);
                } else if a > pos {
                    assert(old_p[a - 1] < old_p[b - 1]);
                } else if b < pos {
                    assert(old_p[a] < old_p[b]);
                }
            }
        }
        i = i + 1;
    }
    p
}

/// The order that sorts `sizes` descending, keeping equal sizes in their
/// input order.
pub fn order_by_size_desc(sizes: &Vec<u64>) -> (r: Vec<usize>)
    ensures
        is_perm(r@, sizes@.len()),
        stable_descending(sizes@, r@),
{
    let mut p: Vec<usize> = Vec::new();
    let mut i: usize = 0;
    while i < sizes.len()
        invariant
            i <= sizes@.len(),
            is_perm(p@, i as nat),
            stable_descending(sizes@, p@),
        decreases sizes@.len() - i,
    {
        let x = sizes[i];
        let mut pos: usize = 0;
        while pos < p.len() && sizes[p[pos]] >= x
            invariant
                i < sizes@.len(),
                x == sizes@[i as int],
                is_perm(p@, i as nat),
                pos <= p@.len(),
                forall|k: int| 0 <= k < pos ==> sizes@[p@[k] as int] >= x,
            decreases p@.len() - pos,
        {
            pos = pos + 1;
        }
        let ghost old_p = p@;
        p.insert(pos, i);
        proof {
            assert(p@ =~= old_p.insert(pos as int, i));
            assert forall|k: int| 0 <= k < p@.len() implies p@[k] < i + 1 by {}
            assert forall|a: int, b: int| 0 <= a < b < p@.len() implies p@[a] != p@[b] by {}
        }
        i = i + 1;
    }
    p
}

/// The items of `v` in the order `p`.
pub open spec fn permuted<T>(v: Seq<T>, p: Seq<usize>) -> Seq<T> {
    Seq::new(p.len(), |k: int| v[p[k] as int])
}

/// Sorts strings ascending (`sort_unstable`: equal strings are alike, so
/// their order does not show).
pub fn sort_strings(v: Vec<String>) -> (r: Vec<String>)
    ensures
        exists|p: Seq<usize>| is_perm(p, v@.len()) && r@ == permuted(v@, p),
        forall|a: int, b: int| 0 <= a < b < r@.len() ==> lex_le(r@[a]@, r@[b]@),
{
    let p = order_by_name(&v);
    let mut out: Vec<String> = Vec::new();
    let mut k: usize = 0;
    while k < p.len()
        invariant
            is_perm(p@, v@.len()),
            k <= p@.len(),
            out@ == permuted(v@, p@.take(k as int)),
        decreases p@.len() - k,
    {
        out.push(v[p[k]].clone());
        k = k + 1;
        assert(out@ =~= permuted(v@, p@.take(k as int)));
    }
    assert(p@.take(p@.len() as int) =~= p@);
    assert(forall|a: int| 0 <= a < out@.len() ==> out@[a]@ == views(v@)[p@[a] as int]);
    out
}

// ── Listings ──────────────────────────────────────────

/// How a listing shows an entry: `[DIR] name` or `[FILE] name`.
pub fn entry_label(name: &str, is_dir: bool) -> (r: String)
    ensures
        r@ == (if is_dir {
            "[DIR] "@
        } else {
            "[FILE] "@
        }) + name@,
{
    if is_dir {
        concat("[DIR] ", name)
    } else {
        concat("[FILE] ", name)
    }
}

/// How a sized listing shows a file: `[FILE] name (size B)`.
pub fn sized_file_label(name: &str, size: u64) -> (r: String)
    ensures
        r@ == "[FILE] "@ + name@ + " ("@ + dec_spec(size as nat) + " B)"@,
{
    let mut m = concat("[FILE] ", name);
    string_push_str(&mut m, " (");
    string_push_str(&mut m, u64_to_string(size).as_str());
    string_push_str(&mut m, " B)");
    m
}

/// The labels of a directory's entries, sorted.
pub fn list_directory(entries: &Vec<(String, bool)>) -> (r: Vec<String>)
    ensures
        exists|p: Seq<usize>|
            is_perm(p, entries@.len()) && #[trigger] views(r@) == permuted(
                entries@.map_values(|e: (String, bool)| (if e.1 {
                    "[DIR] "@
                } else {
                    "[FILE] "@
                }) + e.0@),
                p,
            ),
        forall|a: int, b: int| 0 <= a < b < r@.len() ==> lex_le(r@[a]@, r@[b]@),
{
    let ghost labels_spec = entries@.map_values(|e: (String, bool)| (if e.1 {
        "[DIR] "@
    } else {
        "[FILE] "@
    }) + e.0@);
    let mut labels: Vec<String> = Vec::new();
    let mut i: usize = 0;
    while i < entries.len()
        invariant
            i <= entries@.len(),
            labels_spec == entries@.map_values(|e: (String, bool)| (if e.1 {
                "[DIR] "@
            } else {
                "[FILE] "@
            }) + e.0@),
            views(labels@) == labels_spec.take(i as int),
        decreases entries@.len() - i,
    {
        let l = entry_label(entries[i].0.as_str(), entries[i].1);
        assert(l@ == labels_spec[i as int]);
        let ghost before = views(labels@);
        labels.push(l);
        assert(views(labels@) =~= before.push(l@));
        i = i + 1;
        assert(views(labels@) =~= labels_spec.take(i as int));
    }
    assert(labels_spec.take(i as int) =~= labels_spec);
    let r = sort_strings(labels);
    proof {
        let p = choose|p: Seq<usize>| is_perm(p, labels@.len()) && r@ == permuted(labels@, p);
        assert(views(r@) =~= permuted(labels_spec, p));
    }
    r
}

/// An entry of a sized listing.
pub struct SizedEntry {
    pub name: String,
    pub is_dir: bool,
    /// The size of a file (0 when it cannot be read); directories have none.
    pub size: u64,
}

/// The totals of a sized listing.
pub struct ListingSummary {
    pub total_files: u64,
    pub total_dirs: u64,
    pub combined_size: u64,
}

/// The number of files among `entries`.
pub open spec fn file_count(entries: Seq<SizedEntry>) -> nat
    decreases entries.len(),
{
    if entries.len() == 0 {
        0
    } else {
        file_count(entries.drop_last()) + if entries.last().is_dir {
            0nat
        } else {
            1nat
        }
    }
}

/// The combined size of the files among `entries`.
pub open spec fn file_bytes(entries: Seq<SizedEntry>) -> nat
    decreases entries.len(),
{
    if entries.len() == 0 {
        0
    } else {
        file_bytes(entries.drop_last()) + if entries.last().is_dir {
            0nat
        } else {
            entries.last().size as nat
        }
    }
}

/// The totals of a directory's entries.
pub fn listing_summary(entries: &Vec<SizedEntry>) -> (r: ListingSummary)
    requires
        file_bytes(entries@) <= u64::MAX,
    ensures
        r.total_files == file_count(entries@),
        r.total_dirs == entries@.len() - file_count(entries@),
        r.combined_size == file_bytes(entries@),
{
    let mut files: u64 = 0;
    let mut dirs: u64 = 0;
    let mut bytes: u64 = 0;
    let mut i: usize = 0;
    while i < entries.len()
        invariant
            i <= entries@.len(),
            file_bytes(entries@) <= u64::MAX,
            files == file_count(entries@.take(i as int)),
            dirs == i - file_count(entries@.take(i as int)),
            bytes == file_bytes(entries@.take(i as int)),
        decreases entries@.len() - i,
    {
        proof {
            assert(entries@.take(i + 1).drop_last() =~= entries@.take(i as int));
            lemma_file_bytes_prefix(entries@, i + 1);
            lemma_file_count_le(entries@.take(i + 1));
        }
        if entries[i].is_dir {
            dirs = dirs + 1;
        } else {
            files = files + 1;
            bytes = bytes + entries[i].size;
        }
        i = i + 1;
    }
    assert(entries@.take(i as int) =~= entries@);
    ListingSummary { total_files: files, total_dirs: dirs, combined_size: bytes }
}

proof fn lemma_file_count_le(entries: Seq<SizedEntry>)
    ensures
        file_count(entries) <= entries.len(),
    decreases entries.len(),
{
    if entries.len() > 0 {
        lemma_file_count_le(entries.drop_last());
    }
}

proof fn lemma_file_bytes_prefix(entries: Seq<SizedEntry>, k: int)
    requires
        0 <= k <= entries.len(),
    ensures
        file_bytes(entries.take(k)) <= file_bytes(entries),
    decreases entries.len() - k,
{
    if k < entries.len() {
        assert(entries.drop_last().take(k) =~= entries.take(k));
        lemma_file_bytes_prefix(entries.drop_last(), k);
    } else {
        assert(entries.take(k) =~= entries);
    }
}

/// The order of a sized listing: by size, largest first, for `size`;
/// by name otherwise.
pub fn listing_order(entries: &Vec<SizedEntry>, sort_by: &str) -> (r: Vec<usize>)
    ensures
        is_perm(r@, entries@.len()),
        sort_by@ == "size"@ ==> stable_descending(
            entries@.map_values(|e: SizedEntry| if e.is_dir { 0u64 } else { e.size }),
            r@,
        ),
        sort_by@ != "size"@ ==> stable_ascending(entries@.map_values(|e: SizedEntry| e.name@), r@),
{
    if str_eq(sort_by, "size") {
        let mut sizes: Vec<u64> = Vec::new();
        let mut i: usize = 0;
        while i < entries.len()
            invariant
                i <= entries@.len(),
                sizes@ == entries@.take(i as int).map_values(|e: SizedEntry| if e.is_dir { 0u64 } else { e.size }),
            decreases entries@.len() - i,
        {
            sizes.push(if entries[i].is_dir { 0 } else { entries[i].size });
            i = i + 1;
            assert(sizes@ =~= entries@.take(i as int).map_values(|e: SizedEntry| if e.is_dir { 0u64 } else { e.size }));
        }
        assert(entries@.take(i as int) =~= entries@);
        order_by_size_desc(&sizes)
    } else {
        let mut names: Vec<String> = Vec::new();
        let mut i: usize = 0;
        while i < entries.len()
            invariant
                i <= entries@.len(),
                views(names@) == entries@.take(i as int).map_values(|e: SizedEntry| e.name@),
            decreases entries@.len() - i,
        {
            let n = entries[i].name.clone();
            let ghost before = views(names@);
            names.push(n);
            assert(views(names@) =~= before.push(n@));
            i = i + 1;
            assert(views(names@) =~= entries@.take(i as int).map_values(|e: SizedEntry| e.name@));
        }
        assert(entries@.take(i as int) =~= entries@);
        order_by_name(&names)
    }
}

// ── Binary extensions ─────────────────────────────────

pub open spec fn binary_extensions() -> Seq<Seq<char>> {
    seq![
        "bin"@, "exe"@, "dll"@, "so"@, "dylib"@, "o"@, "class"@, "pyc"@, "jpg"@, "jpeg"@, "png"@,
        "gif"@, "bmp"@, "ico"@, "mp3"@, "mp4"@, "avi"@, "mov"@, "zip"@, "tar"@, "gz"@, "bz2"@,
        "xz"@, "zst"@, "7z"@, "rar"@, "pdf"@, "wasm"@,
    ]
}

/// The extensions grep treats as binary are exactly these: executables
/// and objects, compiled classes, images, audio and video, archives and
/// compressed files, PDF and WebAssembly. Source files (`c`, `rs`, `py`,
/// ...) and text are read.
pub proof fn lemma_binary_extensions_exact(e: Seq<char>)
    ensures
        binary_extensions().contains(e) <==> (e == "bin"@ || e == "exe"@ || e == "dll"@ || e == "so"@ || e == "dylib"@ || e == "o"@
            || e == "class"@ || e == "pyc"@ || e == "jpg"@ || e == "jpeg"@ || e == "png"@ || e == "gif"@
            || e == "bmp"@ || e == "ico"@ || e == "mp3"@ || e == "mp4"@ || e == "avi"@ || e == "mov"@
            || e == "zip"@ || e == "tar"@ || e == "gz"@ || e == "bz2"@ || e == "xz"@ || e == "zst"@
            || e == "7z"@ || e == "rar"@ || e == "pdf"@ || e == "wasm"@),
{
    assert(binary_extensions()[0] == "bin"@);
    assert(binary_extensions()[1] == "exe"@);
    assert(binary_extensions()[2] == "dll"@);
    assert(binary_extensions()[3] == "so"@);
    assert(binary_extensions()[4] == "dylib"@);
    assert(binary_extensions()[5] == "o"@);
    assert(binary_extensions()[6] == "class"@);
    assert(binary_extensions()[7] == "pyc"@);
    assert(binary_extensions()[8] == "jpg"@);
    assert(binary_extensions()[9] == "jpeg"@);
    assert(binary_extensions()[10] == "png"@);
    assert(binary_extensions()[11] == "gif"@);
    assert(binary_extensions()[12] == "bmp"@);
    assert(binary_extensions()[13] == "ico"@);
    assert(binary_extensions()[14] == "mp3"@);
    assert(binary_extensions()[15] == "mp4"@);
    assert(binary_extensions()[16] == "avi"@);
    assert(binary_extensions()[17] == "mov"@);
    assert(binary_extensions()[18] == "zip"@);
    assert(binary_extensions()[19] == "tar"@);
    assert(binary_extensions()[20] == "gz"@);
    assert(binary_extensions()[21] == "bz2"@);
    assert(binary_extensions()[22] == "xz"@);
    assert(binary_extensions()[23] == "zst"@);
    assert(binary_extensions()[24] == "7z"@);
    assert(binary_extensions()[25] == "rar"@);
    assert(binary_extensions()[26] == "pdf"@);
    assert(binary_extensions()[27] == "wasm"@);
    if binary_extensions().contains(e) {
        let i = choose|i: int| 0 <= i < binary_extensions().len() && binary_extensions()[i] == e;
        assert(i == 0 || i == 1 || i == 2 || i == 3 || i == 4 || i == 5 || i == 6 || i == 7
            || i == 8 || i == 9 || i == 10 || i == 11 || i == 12 || i == 13 || i == 14 || i == 15
            || i == 16 || i == 17 || i == 18 || i == 19 || i == 20 || i == 21 || i == 22 || i == 23
            || i == 24 || i == 25 || i == 26 || i == 27);
    }
}

/// Exact match against a static set of common binary file extensions.
pub fn is_binary_extension(ext: &str) -> (r: bool)
    ensures
        r == binary_extensions().contains(ext@),
{
    let exts = vec![
        "bin", "exe", "dll", "so", "dylib", "o", "class", "pyc", "jpg", "jpeg", "png", "gif",
        "bmp", "ico", "mp3", "mp4", "avi", "mov", "zip", "tar", "gz", "bz2", "xz", "zst", "7z",
        "rar", "pdf", "wasm",
    ];
    assert(exts@.map_values(|s: &str| s@) =~= binary_extensions());
    let mut i: usize = 0;
    while i < exts.len()
        invariant
            i <= exts@.len(),
            exts@.map_values(|s: &str| s@) == binary_extensions(),
            forall|j: int| 0 <= j < i ==> binary_extensions()[j] != ext@,
        decreases exts@.len() - i,
    {
        if str_eq(exts[i], ext) {
            assert(binary_extensions()[i as int] == ext@);
            return true;
        }
        i = i + 1;
    }
    false
}

// ── Relative paths ────────────────────────────────────

/// The path of `path` relative to `root`, as text (`strip_prefix` then
/// `to_string_lossy`); a path outside `root` stays as it is.
pub open spec fn relative_spec(path: Seq<char>, root: Seq<char>) -> Seq<char> {
    match strip_prefix_spec(path, root) {
        Some(rest) => join_path(comp_names(rest)),
        None => path,
    }
}

pub fn relative_text(path: &str, root: &str) -> (r: String)
    ensures
        r@ == relative_spec(path@, root@),
{
    match crate::resources::strip_components_of(path, root) {
        Some(rest) => {
            let ghost m = rest@.map_values(|c: crate::path::PathComponent| c@);
            let ghost names = comp_names(m);
            let mut out: Vec<char> = Vec::new();
            let mut i: usize = 0;
            while i < rest.len()
                invariant
                    i <= rest@.len(),
                    m == rest@.map_values(|c: crate::path::PathComponent| c@),
                    names == comp_names(m),
                    out@ == join_path(names.take(i as int)),
                decreases rest@.len() - i,
            {
                let name = crate::actions::util::component_name(&rest[i]);
                assert(name@ == names[i as int]);
                crate::path::push_path_exec(&mut out, name.as_slice());
                assert(names.take(i + 1).drop_last() =~= names.take(i as int));
                i = i + 1;
            }
            assert(names.take(i as int) =~= names);
            string_from_chars(out.as_slice())
        },
        None => path.to_owned(),
    }
}

// ── Glob and regex filters ────────────────────────────

#[verifier::external_type_specification]
#[verifier::external_body]
pub struct ExGlobSet(globset::GlobSet);

#[verifier::external_type_specification]
#[verifier::external_body]
pub struct ExRegex(regex::Regex);

/// Glob patterns are shorter than this many characters. Globs this long
/// are far past what globset's regex engine compiles within its size limit
/// (where a single `GlobMatcher` panics); the limit also keeps the literal
/// automata that a glob set builds within their state count, past which
/// building one panics.
pub const GLOB_PATTERN_LIMIT: usize = 0x1000_0000;

/// Why a glob set made of `pattern` alone is refused, by `Glob::new` (the
/// syntax) or by `GlobSetBuilder::build` (the size of the compiled
/// matcher): the error's text. Nothing when it is accepted.
pub uninterp spec fn glob_error(pattern: Seq<char>) -> Option<Seq<char>>;

/// Whether the glob set made of `pattern` alone matches `path`
/// (`GlobSet::is_match`).
pub uninterp spec fn glob_matches(pattern: Seq<char>, path: Seq<char>) -> bool;

/// Why `regex::Regex::new` refuses a pattern (its error's text), or
/// nothing when it accepts it.
pub uninterp spec fn regex_error(pattern: Seq<char>) -> Option<Seq<char>>;

/// Whether the regular expression `pattern` matches somewhere in `text`
/// (`Regex::is_match`).
pub uninterp spec fn regex_matches(pattern: Seq<char>, text: Seq<char>) -> bool;

/// A compiled glob, with the pattern it was compiled from. Only
/// `compile_glob` builds one, so the two always go together.
pub struct GlobFilter {
    set: globset::GlobSet,
    pattern: Ghost<Seq<char>>,
}

/// A compiled regular expression, with the pattern it was compiled from.
/// Only `compile_regex` builds one, so the two always go together.
pub struct RegexFilter {
    re: regex::Regex,
    pattern: Ghost<Seq<char>>,
}

/// `globset::Glob::new(pattern)`, added alone to a `GlobSetBuilder` and
/// built; the set is kept with the pattern it came from. Claimed: it is
/// refused exactly when `glob_error` names a reason, with that text.
#[verifier::external_body]
fn compile_glob(pattern: &str) -> (r: Result<GlobFilter, String>)
    requires
        pattern@.len() < GLOB_PATTERN_LIMIT,
    ensures
        match glob_error(pattern@) {
            None => r matches Ok(f) && f.pattern() == pattern@,
            Some(e) => r matches Err(m) && m@ == e,
        },
{
    let glob = match globset::Glob::new(pattern) {
        Ok(g) => g,
        Err(e) => return Err(e.to_string()),
    };
    match globset::GlobSetBuilder::new().add(glob).build() {
        Ok(set) => Ok(GlobFilter { set, pattern: Ghost(pattern@) }),
        Err(e) => Err(e.to_string()),
    }
}

/// `regex::Regex::new(pattern)`; the expression is kept with the pattern it
/// came from. Claimed: it is refused exactly when `regex_error` names a
/// reason, with that text.
#[verifier::external_body]
fn compile_regex(pattern: &str) -> (r: Result<RegexFilter, String>)
    ensures
        match regex_error(pattern@) {
            None => r matches Ok(f) && f.pattern() == pattern@,
            Some(e) => r matches Err(m) && m@ == e,
        },
{
    match regex::Regex::new(pattern) {
        Ok(re) => Ok(RegexFilter { re, pattern: Ghost(pattern@) }),
        Err(e) => Err(e.to_string()),
    }
}

/// `GlobSet::is_match` on the set that `compile_glob` built from `f`'s
/// pattern.
#[verifier::external_body]
fn glob_is_match(f: &GlobFilter, path: &str) -> (r: bool)
    ensures
        r == glob_matches(f.pattern(), path@),
{
    f.set.is_match(path)
}

/// `Regex::is_match` on the expression that `compile_regex` built from `f`'s
/// pattern.
#[verifier::external_body]
fn regex_is_match(f: &RegexFilter, text: &str) -> (r: bool)
    ensures
        r == regex_matches(f.pattern(), text@),
{
    f.re.is_match(text)
}

impl GlobFilter {
    pub closed spec fn pattern(&self) -> Seq<char> {
        self.pattern@
    }

    /// Compiles a glob; a bad pattern is refused with the glob error's text.
    pub fn new(pattern: &str) -> (r: Result<GlobFilter, String>)
        requires
            pattern@.len() < GLOB_PATTERN_LIMIT,
        ensures
            match glob_error(pattern@) {
                None => r matches Ok(f) && f.pattern() == pattern@,
                Some(e) => r matches Err(m) && m@ == e,
            },
    {
        compile_glob(pattern)
    }

    pub fn is_match(&self, path: &str) -> (r: bool)
        ensures
            r == glob_matches(self.pattern(), path@),
    {
        glob_is_match(self, path)
    }
}

impl RegexFilter {
    pub closed spec fn pattern(&self) -> Seq<char> {
        self.pattern@
    }

    /// Compiles a regular expression; a bad pattern is refused with the
    /// regex error's text.
    pub fn new(pattern: &str) -> (r: Result<RegexFilter, String>)
        ensures
            match regex_error(pattern@) {
                None => r matches Ok(f) && f.pattern() == pattern@,
                Some(e) => r matches Err(m) && m@ == e,
            },
    {
        compile_regex(pattern)
    }

    pub fn is_match(&self, text: &str) -> (r: bool)
        ensures
            r == regex_matches(self.pattern(), text@),
    {
        regex_is_match(self, text)
    }
}

/// The patterns among `ps` that compile, in order.
pub open spec fn valid_globs(ps: Seq<Seq<char>>) -> Seq<Seq<char>>
    decreases ps.len(),
{
    if ps.len() == 0 {
        Seq::empty()
    } else if glob_error(ps.last()) is None {
        valid_globs(ps.drop_last()).push(ps.last())
    } else {
        valid_globs(ps.drop_last())
    }
}

/// The patterns of some compiled globs.
pub open spec fn glob_patterns(fs: Seq<GlobFilter>) -> Seq<Seq<char>> {
    fs.map_values(|f: GlobFilter| f.pattern())
}

/// Compiles exclusion globs; patterns that do not compile are skipped.
pub fn exclude_filters(patterns: &Vec<String>) -> (r: Vec<GlobFilter>)
    requires
        forall|k: int| 0 <= k < patterns@.len() ==> (#[trigger] patterns@[k])@.len() < GLOB_PATTERN_LIMIT,
    ensures
        glob_patterns(r@) == valid_globs(views(patterns@)),
{
    let mut out: Vec<GlobFilter> = Vec::new();
    let mut i: usize = 0;
    while i < patterns.len()
        invariant
            i <= patterns@.len(),
            forall|k: int| 0 <= k < patterns@.len() ==> (#[trigger] patterns@[k])@.len() < GLOB_PATTERN_LIMIT,
            glob_patterns(out@) == valid_globs(views(patterns@.take(i as int))),
        decreases patterns@.len() - i,
    {
        let ghost before = glob_patterns(out@);
        proof {
            assert(views(patterns@.take(i + 1)).drop_last() =~= views(patterns@.take(i as int)));
            assert(views(patterns@.take(i + 1)).last() == patterns@[i as int]@);
        }
        match GlobFilter::new(patterns[i].as_str()) {
            Ok(f) => {
                let ghost fp = f.pattern();
                out.push(f);
                assert(glob_patterns(out@) =~= before.push(fp));
            },
            Err(_) => {},
        }
        i = i + 1;
    }
    assert(patterns@.take(i as int) =~= patterns@);
    out
}

/// Whether some pattern of `ps` matches `path`.
pub open spec fn any_glob_matches(ps: Seq<Seq<char>>, path: Seq<char>) -> bool {
    exists|k: int| 0 <= k < ps.len() && glob_matches(#[trigger] ps[k], path)
}

/// Whether one of the filters matches `path`.
pub fn any_match(filters: &Vec<GlobFilter>, path: &str) -> (r: bool)
    ensures
        r == any_glob_matches(glob_patterns(filters@), path@),
{
    let ghost ps = glob_patterns(filters@);
    let mut i: usize = 0;
    while i < filters.len()
        invariant
            i <= filters@.len(),
            ps == glob_patterns(filters@),
            forall|k: int| 0 <= k < i ==> !glob_matches(#[trigger] ps[k], path@),
        decreases filters@.len() - i,
    {
        if filters[i].is_match(path) {
            assert(glob_matches(ps[i as int], path@));
            return true;
        }
        i = i + 1;
    }
    false
}

// ── Search and grep ───────────────────────────────────

/// Results a search or grep returns at most.
pub const SEARCH_LIMIT: usize = 100000;

/// Whether a search or grep that has found `found` results stops walking.
pub fn results_full(found: usize) -> (r: bool)
    ensures
        r == (found >= SEARCH_LIMIT),
{
    found >= SEARCH_LIMIT
}

/// Whether a walked entry is a search result: its path relative to the
/// search root matches the glob and no exclusion.
pub fn search_hit(relative: &str, glob: &GlobFilter, excludes: &Vec<GlobFilter>) -> (r: bool)
    ensures
        r == (!any_glob_matches(glob_patterns(excludes@), relative@) && glob_matches(
            glob.pattern(),
            relative@,
        )),
{
    if any_match(excludes, relative) {
        return false;
    }
    glob.is_match(relative)
}

/// Whether grep reads a walked entry: a regular file, not excluded, without
/// a binary extension, and no larger than the read cap.
pub fn grep_reads(
    is_file: bool,
    relative: &str,
    extension: &str,
    size: u64,
    max_bytes: u64,
    excludes: &Vec<GlobFilter>,
) -> (r: bool)
    ensures
        r == (is_file && !any_glob_matches(glob_patterns(excludes@), relative@)
            && !binary_extensions().contains(extension@) && size <= max_bytes),
{
    is_file && !any_match(excludes, relative) && !is_binary_extension(extension) && size
        <= max_bytes
}

/// A line grep found.
pub struct GrepHit {
    /// The line's number, counting from 1.
    pub line: usize,
    pub content: String,
}

/// The lines of `lines` (numbered from `first`) that match `pattern`, at
/// most `room` of them.
pub open spec fn grep_spec(lines: Seq<Seq<char>>, pattern: Seq<char>, room: nat, first: nat) -> Seq<(nat, Seq<char>)>
    decreases lines.len(),
{
    if lines.len() == 0 || room == 0 {
        Seq::empty()
    } else if regex_matches(pattern, lines[0]) {
        seq![(first, lines[0])] + grep_spec(lines.drop_first(), pattern, (room - 1) as nat, first + 1)
    } else {
        grep_spec(lines.drop_first(), pattern, room, first + 1)
    }
}

/// The numbers and contents of some hits.
pub open spec fn hit_views(hits: Seq<GrepHit>) -> Seq<(nat, Seq<char>)> {
    hits.map_values(|h: GrepHit| (h.line as nat, h.content@))
}

/// The lines of a file that match, given that `found` results were found
/// before it; the total stays within the search limit.
pub fn grep_lines(lines: &Vec<String>, re: &RegexFilter, found: usize) -> (r: Vec<GrepHit>)
    ensures
        hit_views(r@) == grep_spec(
            views(lines@),
            re.pattern(),
            if found < SEARCH_LIMIT {
                (SEARCH_LIMIT - found) as nat
            } else {
                0
            },
            1,
        ),
{
    let room: usize = if found < SEARCH_LIMIT {
        SEARCH_LIMIT - found
    } else {
        0
    };
    let ghost ls = views(lines@);
    let ghost total = grep_spec(ls, re.pattern(), room as nat, 1);
    let mut out: Vec<GrepHit> = Vec::new();
    let mut i: usize = 0;
    assert(ls.skip(0) =~= ls);
    while i < lines.len() && out.len() < room
        invariant
            i <= lines@.len(),
            ls == views(lines@),
            out@.len() <= room,
            room <= SEARCH_LIMIT,
            hit_views(out@) + grep_spec(ls.skip(i as int), re.pattern(), (room - out@.len()) as nat, (i + 1) as nat) == total,
        decreases lines@.len() - i,
    {
        assert(ls.skip(i as int).drop_first() =~= ls.skip(i + 1));
        assert(ls.skip(i as int)[0] == lines@[i as int]@);
        if re.is_match(lines[i].as_str()) {
            let ghost before = hit_views(out@);
            let h = GrepHit { line: i + 1, content: lines[i].clone() };
            out.push(h);
            assert(hit_views(out@) =~= before.push(((i + 1) as nat, lines@[i as int]@)));
            assert(before + (seq![((i + 1) as nat, lines@[i as int]@)] + grep_spec(
                ls.skip(i + 1),
                re.pattern(),
                (room - out@.len()) as nat,
                (i + 2) as nat,
            )) =~= hit_views(out@) + grep_spec(
                ls.skip(i + 1),
                re.pattern(),
                (room - out@.len()) as nat,
                (i + 2) as nat,
            ));
        }
        i = i + 1;
    }
    proof {
        if i >= lines@.len() {
            assert(ls.skip(i as int) =~= Seq::<Seq<char>>::empty());
        }
        assert(hit_views(out@) + Seq::<(nat, Seq<char>)>::empty() =~= hit_views(out@));
    }
    out
}

// ── Disk usage ────────────────────────────────────────

/// An entry of a walk: a directory, a file with its size (when its
/// metadata can be read), or something else.
pub enum WalkedKind {
    Dir,
    File(Option<u64>),
    Other,
}

/// The totals of a disk-usage walk.
pub struct DiskUsage {
    pub total_size: u64,
    pub file_count: u64,
    pub dir_count: u64,
}

/// Bytes, files (with readable metadata) and directories among `es`.
pub open spec fn usage_spec(es: Seq<WalkedKind>) -> (nat, nat, nat)
    decreases es.len(),
{
    if es.len() == 0 {
        (0, 0, 0)
    } else {
        let (b, f, d) = usage_spec(es.drop_last());
        match es.last() {
            WalkedKind::Dir => (b, f, d + 1),
            WalkedKind::File(Some(n)) => (b + n as nat, f + 1, d),
            _ => (b, f, d),
        }
    }
}

proof fn lemma_usage_prefix(es: Seq<WalkedKind>, k: int)
    requires
        0 <= k <= es.len(),
    ensures
        usage_spec(es.take(k)).0 <= usage_spec(es).0,
        usage_spec(es.take(k)).1 <= usage_spec(es).1,
        usage_spec(es.take(k)).2 <= usage_spec(es).2,
        usage_spec(es).1 + usage_spec(es).2 <= es.len(),
    decreases es.len(),
{
    if k < es.len() {
        assert(es.drop_last().take(k) =~= es.take(k));
        lemma_usage_prefix(es.drop_last(), k);
    } else {
        assert(es.take(k) =~= es);
        if es.len() > 0 {
            lemma_usage_prefix(es.drop_last(), es.len() - 1);
        }
    }
}

/// The size, file count and directory count of a walk.
pub fn disk_usage(entries: &Vec<WalkedKind>) -> (r: DiskUsage)
    requires
        usage_spec(entries@).0 <= u64::MAX,
    ensures
        r.total_size == usage_spec(entries@).0,
        r.file_count == usage_spec(entries@).1,
        r.dir_count == usage_spec(entries@).2,
{
    let mut u = DiskUsage { total_size: 0, file_count: 0, dir_count: 0 };
    let mut i: usize = 0;
    while i < entries.len()
        invariant
            i <= entries@.len(),
            usage_spec(entries@).0 <= u64::MAX,
            (u.total_size as nat, u.file_count as nat, u.dir_count as nat) == usage_spec(entries@.take(i as int)),
        decreases entries@.len() - i,
    {
        proof {
            assert(entries@.take(i + 1).drop_last() =~= entries@.take(i as int));
            lemma_usage_prefix(entries@, i + 1);
            lemma_usage_prefix(entries@.take(i + 1), i + 1);
        }
        match &entries[i] {
            WalkedKind::Dir => {
                u.dir_count = u.dir_count + 1;
            },
            WalkedKind::File(Some(n)) => {
                u.total_size = u.total_size + *n;
                u.file_count = u.file_count + 1;
            },
            _ => {},
        }
        i = i + 1;
    }
    assert(entries@.take(i as int) =~= entries@);
    u
}

// ── Directory tree ────────────────────────────────────

/// Depth below the root at which the tree stops descending.
pub const MAX_TREE_DEPTH: usize = 64;

/// Nodes the tree visits at most.
pub const MAX_TREE_NODES: usize = 100000;

/// The kind of a filesystem entry.
#[derive(Debug, Clone, Copy, PartialEq, Eq, Structural)]
pub enum EntryKind {
    Dir,
    File,
    Other,
}

/// What the directory tree reads from the filesystem. Nothing is assumed of
/// the answers: the tree is built soundly whatever they are.
pub trait TreeSource {
    /// The kind of the entry at `path` (links followed), or `None` when its
    /// metadata cannot be read.
    fn kind(&self, path: &str) -> Option<EntryKind>;

    /// The paths of the entries of the directory `path`, or `None` when it
    /// cannot be read.
    fn children(&self, path: &str) -> Option<Vec<String>>;
}

/// A node of the directory tree.
pub enum TreeNode {
    Directory { name: String, children: Vec<TreeNode>, truncated: bool },
    File { name: String },
}

pub open spec fn node_name(n: TreeNode) -> Seq<char> {
    match n {
        TreeNode::Directory { name, .. } => name@,
        TreeNode::File { name } => name@,
    }
}

/// A name that the tree hides: it starts with `.` and is not `.` itself.
pub open spec fn hidden_name(s: Seq<char>) -> bool {
    s.len() > 0 && s[0] == '.' && s != seq!['.']
}

/// What the tree does with an entry once its kind is read.
pub enum TreeStep {
    /// Unreadable, or neither a file nor a directory: left out.
    Skip,
    /// A node with nothing more to read.
    Leaf(TreeNode),
    /// A directory whose children are read next.
    Descend(String),
}

/// The node count after an entry that is not excluded.
pub open spec fn admit_node_count(nodes: usize) -> int {
    if nodes < usize::MAX {
        nodes + 1
    } else {
        nodes as int
    }
}

/// Whether an entry enters the tree, and the node count after it: an
/// excluded entry does not count; any other counts (saturating) and enters
/// while the count stays within the budget.
pub fn admit_node(excluded: bool, nodes: usize) -> (r: (bool, usize))
    ensures
        excluded ==> r == (false, nodes),
        !excluded ==> r.1 == admit_node_count(nodes) && r.0 == (r.1 <= MAX_TREE_NODES),
{
    if excluded {
        return (false, nodes);
    }
    let n = nodes.saturating_add(1);
    (n <= MAX_TREE_NODES, n)
}

/// The step for an entry named `name` at `depth`, from its kind: files are
/// leaves, directories at the depth limit are truncated leaves, other
/// directories are descended into, and everything else is left out.
pub fn tree_step(kind: Option<EntryKind>, name: String, depth: usize) -> (r: TreeStep)
    ensures
        match kind {
            Some(EntryKind::File) => r matches TreeStep::Leaf(TreeNode::File { name: n }) && n@ == name@,
            Some(EntryKind::Dir) => if depth >= MAX_TREE_DEPTH {
                r matches TreeStep::Leaf(TreeNode::Directory { name: n, children, truncated })
                    && n@ == name@ && children@.len() == 0 && truncated
            } else {
                r matches TreeStep::Descend(n) && n@ == name@
            },
            _ => r is Skip,
        },
{
    match kind {
        Some(EntryKind::File) => TreeStep::Leaf(TreeNode::File { name }),
        Some(EntryKind::Dir) => if depth >= MAX_TREE_DEPTH {
            TreeStep::Leaf(TreeNode::Directory { name, children: Vec::new(), truncated: true })
        } else {
            TreeStep::Descend(name)
        },
        _ => TreeStep::Skip,
    }
}

/// Whether the tree visits a listed entry: its file name is not hidden.
pub open spec fn listed_visible(path: Seq<char>) -> bool {
    match crate::resources::file_name_spec(path) {
        Some(n) => !hidden_name(n),
        None => true,
    }
}

/// The name a tree node gets for the entry at `path`: its file name, or
/// nothing when it has none.
pub open spec fn tree_name(path: Seq<char>) -> Seq<char> {
    match crate::resources::file_name_spec(path) {
        Some(n) => n,
        None => Seq::empty(),
    }
}

/// The children of a directory listed as `listing`, whose entries' subtrees
/// came out as `subtrees`: in listing order, the subtree of each visited
/// entry that gave one.
pub open spec fn children_spec(listing: Seq<Seq<char>>, subtrees: Seq<Option<TreeNode>>) -> Seq<TreeNode>
    decreases subtrees.len(),
{
    if subtrees.len() == 0 {
        Seq::empty()
    } else {
        let rest = children_spec(listing, subtrees.drop_last());
        let k = subtrees.len() - 1;
        if listed_visible(listing[k]) && subtrees[k] is Some {
            rest.push(subtrees[k]->0)
        } else {
            rest
        }
    }
}

/// Every child is the subtree of a visited entry.
proof fn lemma_children_from(listing: Seq<Seq<char>>, subtrees: Seq<Option<TreeNode>>)
    ensures
        forall|j: int|
            0 <= j < children_spec(listing, subtrees).len() ==> exists|k: int|
                0 <= k < subtrees.len() && listed_visible(listing[k]) && subtrees[k] == Some(
                    #[trigger] children_spec(listing, subtrees)[j],
                ),
    decreases subtrees.len(),
{
    if subtrees.len() > 0 {
        let front = subtrees.drop_last();
        lemma_children_from(listing, front);
        let c = children_spec(listing, subtrees);
        assert forall|j: int| 0 <= j < c.len() implies exists|k: int|
            0 <= k < subtrees.len() && listed_visible(listing[k]) && subtrees[k] == Some(
                #[trigger] c[j],
            ) by {
            let k0 = subtrees.len() - 1;
            if j < children_spec(listing, front).len() {
                assert(c[j] == children_spec(listing, front)[j]);
                let k = choose|k: int|
                    0 <= k < front.len() && listed_visible(listing[k]) && front[k] == Some(
                        #[trigger] children_spec(listing, front)[j],
                    );
                assert(subtrees[k] == front[k]);
            } else {
                assert(subtrees[k0] == Some(c[j]));
            }
        }
    }
}

/// The children keep every subtree of a visited entry, and only those, in
/// listing order: whatever a subtree holds (an empty directory too), it is
/// the next child after those of the entries before it.
pub proof fn lemma_children_keep_visible_subtrees(listing: Seq<Seq<char>>, subtrees: Seq<Option<TreeNode>>, k: int)
    requires
        listing.len() == subtrees.len(),
        0 <= k < subtrees.len(),
    ensures
        children_spec(listing, subtrees.take(k)).len() <= children_spec(listing, subtrees.take(k + 1)).len() <= children_spec(listing, subtrees.take(k)).len() + 1,
        children_spec(listing, subtrees.take(k + 1)) == (if listed_visible(listing[k]) && subtrees[k] is Some {
            children_spec(listing, subtrees.take(k)).push(subtrees[k]->0)
        } else {
            children_spec(listing, subtrees.take(k))
        }),
        children_spec(listing, subtrees.take(k)).len() <= children_spec(listing, subtrees).len(),
        listed_visible(listing[k]) && subtrees[k] is Some ==> children_spec(listing, subtrees)[children_spec(
            listing,
            subtrees.take(k),
        ).len() as int] == subtrees[k]->0,
{
    let t = subtrees.take(k + 1);
    assert(t.drop_last() =~= subtrees.take(k));
    assert(t[t.len() - 1] == subtrees[k]);
    lemma_children_prefix(listing, subtrees, k + 1);
    let a = children_spec(listing, subtrees.take(k));
    let b = children_spec(listing, t);
    if listed_visible(listing[k]) && subtrees[k] is Some {
        assert(b[a.len() as int] == subtrees[k]->0);
    }
}

/// The children made from a prefix of the subtrees are a prefix of all the
/// children.
proof fn lemma_children_prefix(listing: Seq<Seq<char>>, subtrees: Seq<Option<TreeNode>>, n: int)
    requires
        0 <= n <= subtrees.len(),
    ensures
        is_prefix_of(children_spec(listing, subtrees.take(n)), children_spec(listing, subtrees)),
    decreases subtrees.len() - n,
{
    if n < subtrees.len() {
        lemma_children_prefix(listing, subtrees, n + 1);
        let t = subtrees.take(n + 1);
        assert(t.drop_last() =~= subtrees.take(n));
        assert(t[t.len() - 1] == subtrees[n]);
        let a = children_spec(listing, subtrees.take(n));
        let b = children_spec(listing, t);
        let c = children_spec(listing, subtrees);
        assert forall|i: int| 0 <= i < a.len() implies #[trigger] a[i] == c[i] by {
            assert(a[i] == b[i]);
            assert(b[i] == c[i]);
        }
    } else {
        assert(subtrees.take(n) =~= subtrees);
    }
}

/// `a` is a prefix of `b`.
pub open spec fn is_prefix_of<A>(a: Seq<A>, b: Seq<A>) -> bool {
    a.len() <= b.len() && forall|i: int| 0 <= i < a.len() ==> #[trigger] a[i] == b[i]
}

/// Whether the tree visits the listed entry `path` (hidden names are not).
pub fn listed_entry_visible(path: &str) -> (r: bool)
    ensures
        r == listed_visible(path@),
{
    match crate::resources::file_name_of(path) {
        Some(n) => {
            proof {
                assert(n@.len() == 1 && n@[0] == '.' ==> n@ =~= seq!['.']);
            }
            !(n.len() > 0 && n[0] == '.' && !(n.len() == 1))
        },
        None => true,
    }
}

/// The children of a directory listed as `listing`, from the subtrees its
/// entries gave (`None` for an entry not visited or left out).
pub fn directory_children(listing: &Vec<String>, subtrees: Vec<Option<TreeNode>>) -> (r: Vec<TreeNode>)
    requires
        listing@.len() == subtrees@.len(),
    ensures
        r@ == children_spec(views(listing@), subtrees@),
{
    let ghost subs = subtrees@;
    let ghost names = views(listing@);
    let n: usize = listing.len();
    let mut out: Vec<TreeNode> = Vec::new();
    let mut i: usize = 0;
    for s in it: subtrees.into_iter()
        invariant
            i == it.index(),
            i <= subs.len(),
            n == subs.len(),
            it.seq() == subs,
            subs.len() == listing@.len(),
            names == views(listing@),
            out@ == children_spec(names, subs.take(i as int)),
    {
        proof {
            assert(subs.take(i + 1).drop_last() =~= subs.take(i as int));
            assert(subs.take(i + 1).len() == i + 1);
            assert(subs.take(i + 1)[i as int] == subs[i as int]);
        }
        let visible = listed_entry_visible(listing[i].as_str());
        match s {
            Some(node) => {
                if visible {
                    out.push(node);
                }
            },
            None => {},
        }
        i = i + 1;
    }
    proof {
        assert(subs.take(i as int) =~= subs);
    }
    out
}

/// The source answered `k` when asked for the kind of the entry `path`.
pub open spec fn source_kind<S: TreeSource>(src: &S, path: Seq<char>, k: Option<EntryKind>) -> bool {
    exists|p: &str| p@ == path && #[trigger] call_ensures(S::kind, (src, p), k)
}

/// The source answered `l` (the listed paths, or `None` for an unreadable
/// directory) when asked for the entries of the directory `path`.
pub open spec fn source_lists<S: TreeSource>(src: &S, path: Seq<char>, l: Option<Seq<Seq<char>>>) -> bool {
    exists|p: &str, v: Option<Vec<String>>|
        p@ == path && #[trigger] call_ensures(S::children, (src, p), v) && match v {
            Some(e) => l == Some(views(e@)),
            None => l is None,
        }
}

/// The source's own answers leave the entry `path`, met at `depth`, out of
/// the tree: its kind is unreadable or neither file nor directory, or it is
/// a directory to descend into whose entries cannot be read.
pub open spec fn source_refuses<S: TreeSource>(src: &S, path: Seq<char>, depth: int) -> bool {
    ||| exists|k: Option<EntryKind>|
        #[trigger] source_kind(src, path, k) && k != Some(EntryKind::File) && k != Some(EntryKind::Dir)
    ||| depth < MAX_TREE_DEPTH && source_kind(src, path, Some(EntryKind::Dir)) && source_lists(
        src,
        path,
        None,
    )
}

/// Whether the exclusion globs leave out the entry `path` below `root`.
pub open spec fn tree_excluded(excludes: Seq<GlobFilter>, path: Seq<char>, root: Seq<char>) -> bool {
    any_glob_matches(glob_patterns(excludes), relative_spec(path, root))
}

/// The kind of `path`, asked of the source.
fn ask_kind<S: TreeSource>(src: &S, path: &str) -> (r: Option<EntryKind>)
    ensures
        source_kind(src, path@, r),
{
    let kind_of = S::kind;
    let r = kind_of(src, path);
    assert(call_ensures(S::kind, (src, path), r));
    r
}

/// The entries of the directory `path`, asked of the source.
fn ask_children<S: TreeSource>(src: &S, path: &str) -> (r: Option<Vec<String>>)
    ensures
        source_lists(
            src,
            path@,
            match r {
                Some(e) => Some(views(e@)),
                None => None,
            },
        ),
{
    let children_of = S::children;
    let r = children_of(src, path);
    assert(call_ensures(S::children, (src, path), r));
    r
}

/// The tree of the entry `current` below `root`: excluded entries (by their
/// path relative to `root`), unreadable ones, and entries past the node
/// budget are left out, as are hidden children; directories at the depth
/// limit are given no children and marked truncated. What the source
/// answers is taken as it comes: `admit_node` and `tree_step` decide on an
/// entry from its kind, and `directory_children` makes a directory's
/// children from the source's listing of it and the subtrees its entries
/// gave. An entry is left out only for a reason: it is excluded, the budget
/// is spent, or the source's own answers refuse it.
pub fn build_tree<S: TreeSource>(
    src: &S,
    root: &str,
    current: &str,
    excludes: &Vec<GlobFilter>,
    depth: usize,
    nodes: &mut usize,
) -> (r: Option<TreeNode>)
    requires
        depth <= MAX_TREE_DEPTH,
    ensures
        any_glob_matches(glob_patterns(excludes@), relative_spec(current@, root@)) ==> r is None
            && *final(nodes) == *old(nodes),
        !any_glob_matches(glob_patterns(excludes@), relative_spec(current@, root@)) ==> *final(nodes)
            >= admit_node_count(*old(nodes)),
        *final(nodes) >= *old(nodes),
        r is Some ==> *old(nodes) < MAX_TREE_NODES,
        r is None ==> tree_excluded(excludes@, current@, root@) || *old(nodes) >= MAX_TREE_NODES
            || source_refuses(src, current@, depth as int),
        r matches Some(TreeNode::Directory { truncated, children, .. }) ==> (truncated
            <==> depth >= MAX_TREE_DEPTH) && (truncated ==> children@.len() == 0),
        r matches Some(TreeNode::Directory { children, .. }) ==> forall|k: int|
            0 <= k < children@.len() ==> !hidden_name(#[trigger] node_name(children@[k])),
        r matches Some(TreeNode::Directory { children, truncated: false, .. }) ==> exists|
            listing: Seq<Seq<char>>,
            subtrees: Seq<Option<TreeNode>>,
        |
            {
                &&& listing.len() == subtrees.len()
                &&& children@ == #[trigger] children_spec(listing, subtrees)
                &&& forall|k: int|
                    0 <= k < subtrees.len() && subtrees[k] is Some ==> listed_visible(listing[k])
                        && node_name(subtrees[k]->0) == tree_name(listing[k])
            },
        r matches Some(TreeNode::Directory { children, truncated: false, .. }) ==> exists|
            listing: Seq<Seq<char>>,
            subtrees: Seq<Option<TreeNode>>,
            counts: Seq<usize>,
        |
            #![trigger source_lists(src, current@, Some(listing)), children_spec(listing, subtrees), counts.len()]
            {
                &&& source_lists(src, current@, Some(listing))
                &&& listing.len() == subtrees.len() && listing.len() == counts.len()
                &&& children@ == children_spec(listing, subtrees)
                &&& forall|k: int|
                    0 <= k < subtrees.len() && listed_visible(listing[k]) && subtrees[k] is None
                        ==> tree_excluded(excludes@, listing[k], root@) || counts[k] >= MAX_TREE_NODES
                        || source_refuses(src, listing[k], depth + 1)
            },
        r is Some ==> node_name(r->0) == tree_name(current@),
    decreases MAX_TREE_DEPTH - depth,
{
    let relative = relative_text(current, root);
    let (admitted, count) = admit_node(any_match(excludes, relative.as_str()), *nodes);
    *nodes = count;
    if !admitted {
        return None;
    }
    let name = match crate::resources::file_name_of(current) {
        Some(n) => string_from_chars(n.as_slice()),
        None => String::new(),
    };
    let kind = ask_kind(src, current);
    match tree_step(kind, name, depth) {
        TreeStep::Skip => {
            proof {
                assert(source_kind(src, current@, kind));
            }
            None
        },
        TreeStep::Leaf(node) => Some(node),
        TreeStep::Descend(name) => {
            let entries = match ask_children(src, current) {
                Some(e) => e,
                None => return None,
            };
            let ghost listing = views(entries@);
            let ghost mut counts: Seq<usize> = Seq::empty();
            let mut subtrees: Vec<Option<TreeNode>> = Vec::new();
            let mut i: usize = 0;
            while i < entries.len()
                invariant
                    depth < MAX_TREE_DEPTH,
                    i <= entries@.len(),
                    listing == views(entries@),
                    subtrees@.len() == i,
                    counts.len() == i,
                    *nodes >= admit_node_count(*old(nodes)),
                    forall|k: int|
                        0 <= k < i && (#[trigger] subtrees@[k]) is Some ==> listed_visible(listing[k])
                            && node_name(subtrees@[k]->0) == tree_name(listing[k]),
                    forall|k: int|
                        0 <= k < i && listed_visible(listing[k]) && (#[trigger] subtrees@[k]) is None
                            ==> tree_excluded(excludes@, listing[k], root@) || counts[k] >= MAX_TREE_NODES
                            || source_refuses(src, listing[k], depth + 1),
                decreases entries@.len() - i,
            {
                let child_path = entries[i].as_str();
                proof {
                    counts = counts.push(*nodes);
                }
                if listed_entry_visible(child_path) {
                    let sub = build_tree(src, root, child_path, excludes, depth + 1, nodes);
                    subtrees.push(sub);
                } else {
                    subtrees.push(None);
                }
                i = i + 1;
            }
            let ghost subs = subtrees@;
            let children = directory_children(&entries, subtrees);
            proof {
                lemma_children_from(listing, subs);
                assert forall|k: int| 0 <= k < children@.len() implies !hidden_name(
                    #[trigger] node_name(children@[k]),
                ) by {
                    let j = choose|j: int|
                        0 <= j < subs.len() && listed_visible(listing[j]) && subs[j] == Some(
                            #[trigger] children_spec(listing, subs)[k],
                        );
                    assert(subs[j] is Some);
                }
                assert(listing.len() == subs.len() && children@ == children_spec(listing, subs));
                assert(source_lists(src, current@, Some(listing)));
            }
            Some(TreeNode::Directory { name, children, truncated: false })
        },
    }
}

} // verus!
