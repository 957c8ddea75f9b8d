//! Text edits: replacing the first occurrence of each pattern in a file,
//! with the indentation of the patterns adapted to the file's own, and
//! a short context around each replacement for the report.

use vstd::prelude::*;
use vstd::string::StringSliceAdditionalSpecFns;
use vstd::utf8::*;

use crate::actions::files::lines_spec;
use crate::text::{str_chars, str_eq, string_from_chars};

verus! {

broadcast use {encode_utf8_valid_utf8, vstd::slice::group_slice_axioms};

// ── Character boundaries ──────────────────────────────

/// The largest character boundary of `b` at or before `i` (the length of
/// `b` when `i` is past its end).
pub open spec fn floor_boundary(b: Seq<u8>, i: int) -> int
    decreases i,
{
    if i >= b.len() {
        b.len() as int
    } else if i <= 0 {
        0
    } else if is_char_boundary(b, i) {
        i
    } else {
        floor_boundary(b, i - 1)
    }
}

/// The smallest character boundary of `b` at or after `i` (`i` itself when
/// it is past the end).
pub open spec fn ceil_boundary(b: Seq<u8>, i: int) -> int
    decreases b.len() + 1 - i,
{
    if i >= b.len() || is_char_boundary(b, i) {
        i
    } else {
        ceil_boundary(b, i + 1)
    }
}

proof fn lemma_floor_boundary(b: Seq<u8>, i: int)
    requires
        valid_utf8(b),
        i < b.len(),
    ensures
        0 <= floor_boundary(b, i) <= (if i < 0 { 0 } else { i }),
        is_char_boundary(b, floor_boundary(b, i)),
        forall|k: int| floor_boundary(b, i) < k <= i ==> !is_char_boundary(b, k),
    decreases i,
{
    is_char_boundary_start_end_of_seq(b);
    if i > 0 && !is_char_boundary(b, i) {
        lemma_floor_boundary(b, i - 1);
    }
}

proof fn lemma_ceil_boundary(b: Seq<u8>, i: int)
    requires
        valid_utf8(b),
        0 <= i <= b.len(),
    ensures
        i <= ceil_boundary(b, i) <= b.len(),
        is_char_boundary(b, ceil_boundary(b, i)),
        forall|k: int| i <= k < ceil_boundary(b, i) ==> !is_char_boundary(b, k),
    decreases b.len() + 1 - i,
{
    is_char_boundary_start_end_of_seq(b);
    if i < b.len() && !is_char_boundary(b, i) {
        lemma_ceil_boundary(b, i + 1);
    }
}

/// The largest character boundary of `s` at or before byte `i`; the length
/// of `s` when `i` is past its end.
pub fn floor_char_boundary(s: &str, i: usize) -> (r: usize)
    ensures
        r == floor_boundary(s.spec_bytes(), i as int),
        r <= s.spec_bytes().len(),
        is_char_boundary(s.spec_bytes(), r as int),
        i < s.spec_bytes().len() ==> r <= i,
        forall|k: int| r < k <= i ==> !is_char_boundary(s.spec_bytes(), k),
{
    let ghost b = s.spec_bytes();
    proof {
        is_char_boundary_start_end_of_seq(b);
    }
    let n = s.as_bytes().len();
    if i >= n {
        return n;
    }
    proof {
        lemma_floor_boundary(b, i as int);
    }
    let mut j = i;
    while j > 0 && !s.is_char_boundary(j)
        invariant
            j <= i < b.len(),
            b == s.spec_bytes(),
            floor_boundary(b, i as int) == floor_boundary(b, j as int),
        decreases j,
    {
        j = j - 1;
    }
    j
}

/// The smallest character boundary of `s` at or after byte `i`.
pub fn ceil_char_boundary(s: &str, i: usize) -> (r: usize)
    ensures
        r == ceil_boundary(s.spec_bytes(), i as int),
        i <= r,
        i <= s.spec_bytes().len() ==> r <= s.spec_bytes().len() && is_char_boundary(
            s.spec_bytes(),
            r as int,
        ),
        forall|k: int| i <= k < r ==> !is_char_boundary(s.spec_bytes(), k),
{
    let ghost b = s.spec_bytes();
    proof {
        if i <= b.len() {
            lemma_ceil_boundary(b, i as int);
        }
    }
    let n = s.as_bytes().len();
    let mut j = i;
    while j < n && !s.is_char_boundary(j)
        invariant
            i <= j,
            n == b.len(),
            b == s.spec_bytes(),
            ceil_boundary(b, i as int) == ceil_boundary(b, j as int),
            forall|k: int| i <= k < j ==> !is_char_boundary(b, k),
        decreases n - j,
    {
        j = j + 1;
    }
    j
}

// ── Indentation ───────────────────────────────────────

/// Whether a line begins with a tab.
pub open spec fn starts_with_tab(l: Seq<char>) -> bool {
    l.len() > 0 && l[0] == '\t'
}

/// Whether a line begins with two spaces.
pub open spec fn starts_with_two_spaces(l: Seq<char>) -> bool {
    l.len() > 1 && l[0] == ' ' && l[1] == ' '
}

/// How many of the lines begin with a tab.
pub open spec fn tab_lines(ls: Seq<Seq<char>>) -> nat
    decreases ls.len(),
{
    if ls.len() == 0 {
        0
    } else {
        tab_lines(ls.drop_last()) + if starts_with_tab(ls.last()) {
            1nat
        } else {
            0nat
        }
    }
}

/// How many of the lines begin with two spaces (and not with a tab).
pub open spec fn space_lines(ls: Seq<Seq<char>>) -> nat
    decreases ls.len(),
{
    if ls.len() == 0 {
        0
    } else {
        space_lines(ls.drop_last()) + if !starts_with_tab(ls.last()) && starts_with_two_spaces(
            ls.last(),
        ) {
            1nat
        } else {
            0nat
        }
    }
}

/// The indentation of a text: a tab when more of its lines begin with a
/// tab than with two spaces, else four spaces.
pub open spec fn indent_spec(s: Seq<char>) -> Seq<char> {
    let ls = lines_spec(s);
    if tab_lines(ls) > space_lines(ls) {
        seq!['\t']
    } else {
        seq![' ', ' ', ' ', ' ']
    }
}

/// The indentation a text uses, by a count of its lines.
pub fn detect_indent(content: &str) -> (r: &'static str)
    ensures
        r@ == indent_spec(content@),
{
    let lines = crate::actions::files::lines_of(content);
    let ghost ls = lines_spec(content@);
    let mut tabs: usize = 0;
    let mut spaces: usize = 0;
    let mut i: usize = 0;
    while i < lines.len()
        invariant
            i <= lines@.len(),
            ls.len() == lines@.len(),
            forall|k: int| 0 <= k < ls.len() ==> #[trigger] ls[k] == lines@[k]@,
            tabs == tab_lines(ls.take(i as int)),
            spaces == space_lines(ls.take(i as int)),
            tabs + spaces <= i,
        decreases lines@.len() - i,
    {
        let l = str_chars(lines[i].as_str());
        assert(ls.take(i + 1).drop_last() =~= ls.take(i as int));
        assert(ls.take(i + 1).last() == ls[i as int]);
        if l.len() > 0 && l[0] == '\t' {
            tabs = tabs + 1;
        } else if l.len() > 1 && l[0] == ' ' && l[1] == ' ' {
            spaces = spaces + 1;
        }
        i = i + 1;
    }
    assert(ls.take(i as int) =~= ls);
    proof {
        reveal_strlit("\t");
        reveal_strlit("    ");
    }
    if tabs > spaces {
        "\t"
    } else {
        "    "
    }
}

// ── Replacing ─────────────────────────────────────────

/// `s` with each occurrence of `from`, found from left to right without
/// overlap, replaced by `to` (`str::replace` for a non-empty `from`).
pub open spec fn replace_spec(s: Seq<char>, from: Seq<char>, to: Seq<char>) -> Seq<char>
    decreases s.len(),
{
    if s.len() == 0 || from.len() == 0 {
        s
    } else if from.len() <= s.len() && s.take(from.len() as int) == from {
        to + replace_spec(s.skip(from.len() as int), from, to)
    } else {
        seq![s[0]] + replace_spec(s.skip(1), from, to)
    }
}

/// Whether `p` occurs in `s` at `i`.
fn chars_match_at(s: &[char], i: usize, p: &[char]) -> (r: bool)
    requires
        i + p@.len() <= s@.len(),
    ensures
        r == (s@.subrange(i as int, i + p@.len()) == p@),
{
    let n = s.len();
    let mut k: usize = 0;
    while k < p.len()
        invariant
            n == s@.len(),
            i + p@.len() <= s@.len(),
            k <= p@.len(),
            forall|j: int| 0 <= j < k ==> s@[i + j] == p@[j],
        decreases p@.len() - k,
    {
        if s[i + k] != p[k] {
            assert(s@.subrange(i as int, i + p@.len())[k as int] != p@[k as int]);
            return false;
        }
        k = k + 1;
    }
    assert(s@.subrange(i as int, i + p@.len()) =~= p@);
    true
}

/// `s` with each occurrence of `from` replaced by `to`.
pub fn replace_chars(s: &[char], from: &[char], to: &[char]) -> (r: Vec<char>)
    requires
        from@.len() > 0,
    ensures
        r@ == replace_spec(s@, from@, to@),
{
    let mut out: Vec<char> = Vec::new();
    let mut i: usize = 0;
    assert(s@.skip(0) =~= s@);
    while i < s.len()
        invariant
            i <= s@.len(),
            from@.len() > 0,
            out@ + replace_spec(s@.skip(i as int), from@, to@) == replace_spec(s@, from@, to@),
        decreases s@.len() - i,
    {
        let ghost rest = s@.skip(i as int);
        if from.len() <= s.len() - i && chars_match_at(s, i, from) {
            assert(rest.take(from@.len() as int) =~= s@.subrange(i as int, i + from@.len()));
            assert(rest.skip(from@.len() as int) =~= s@.skip(i + from@.len()));
            let ghost before = out@;
            let mut k: usize = 0;
            while k < to.len()
                invariant
                    k <= to@.len(),
                    out@ == before + to@.take(k as int),
                decreases to@.len() - k,
            {
                out.push(to[k]);
                k = k + 1;
                assert(out@ =~= before + to@.take(k as int));
            }
            assert(to@.take(to@.len() as int) =~= to@);
            assert(before + (to@ + replace_spec(s@.skip(i + from@.len()), from@, to@)) =~= out@
                + replace_spec(s@.skip(i + from@.len()), from@, to@));
            i = i + from.len();
        } else {
            proof {
                if from@.len() <= rest.len() {
                    assert(rest.take(from@.len() as int) =~= s@.subrange(i as int, i + from@.len()));
                }
            }
            assert(rest.skip(1) =~= s@.skip(i + 1));
            assert(rest[0] == s@[i as int]);
            let ghost before = out@;
            out.push(s[i]);
            assert(before + (seq![s@[i as int]] + replace_spec(s@.skip(i + 1), from@, to@)) =~= out@
                + replace_spec(s@.skip(i + 1), from@, to@));
            i = i + 1;
        }
    }
    assert(s@.skip(i as int) =~= Seq::<char>::empty());
    assert(out@ + Seq::<char>::empty() =~= out@);
    out
}

/// A pattern with its indentation brought to `indent`: runs of four
/// spaces become tabs when the indentation is a tab, and tabs become four
/// spaces otherwise.
pub open spec fn normalize_spec(text: Seq<char>, indent: Seq<char>) -> Seq<char> {
    if indent == seq!['\t'] {
        replace_spec(text, seq![' ', ' ', ' ', ' '], seq!['\t'])
    } else {
        replace_spec(text, seq!['\t'], seq![' ', ' ', ' ', ' '])
    }
}

/// `text` with its indentation brought to `indent`.
pub fn normalize_whitespace(text: &str, indent: &str) -> (r: String)
    ensures
        r@ == normalize_spec(text@, indent@),
{
    let chars = str_chars(text);
    let tab: Vec<char> = vec!['\t'];
    let four: Vec<char> = vec![' ', ' ', ' ', ' '];
    assert(tab@ =~= seq!['\t']);
    assert(four@ =~= seq![' ', ' ', ' ', ' ']);
    proof {
        reveal_strlit("\t");
    }
    assert("\t"@ =~= seq!['\t']);
    let out = if str_eq(indent, "\t") {
        replace_chars(chars.as_slice(), four.as_slice(), tab.as_slice())
    } else {
        replace_chars(chars.as_slice(), tab.as_slice(), four.as_slice())
    };
    string_from_chars(out.as_slice())
}

// ── Finding ───────────────────────────────────────────

/// Whether `p` occurs in `t` at byte `i`.
pub open spec fn occurs_at(t: Seq<u8>, p: Seq<u8>, i: int) -> bool {
    0 <= i && i + p.len() <= t.len() && t.subrange(i, i + p.len()) == p
}

/// The first byte at or after `i` where `p` occurs in `t`.
pub open spec fn first_match_from(t: Seq<u8>, p: Seq<u8>, i: int) -> Option<int>
    decreases t.len() + 1 - i,
{
    if i < 0 || i + p.len() > t.len() {
        None
    } else if t.subrange(i, i + p.len()) == p {
        Some(i)
    } else {
        first_match_from(t, p, i + 1)
    }
}

/// The first byte where `p` occurs in `t` (`str::find`).
pub open spec fn first_match(t: Seq<u8>, p: Seq<u8>) -> Option<int> {
    first_match_from(t, p, 0)
}

proof fn lemma_first_match_from(t: Seq<u8>, p: Seq<u8>, i: int)
    requires
        0 <= i,
    ensures
        first_match_from(t, p, i) matches Some(k) ==> i <= k && occurs_at(t, p, k) && forall|
            j: int,
        | i <= j < k ==> !occurs_at(t, p, j),
        first_match_from(t, p, i) is None ==> forall|j: int| i <= j ==> !occurs_at(t, p, j),
    decreases t.len() + 1 - i,
{
    if i + p.len() <= t.len() && t.subrange(i, i + p.len()) != p {
        lemma_first_match_from(t, p, i + 1);
    }
}

/// The first position of `p` in `t` is where it occurs first.
pub proof fn lemma_first_match(t: Seq<u8>, p: Seq<u8>)
    ensures
        first_match(t, p) matches Some(k) ==> occurs_at(t, p, k) && forall|j: int|
            0 <= j < k ==> !occurs_at(t, p, j),
        first_match(t, p) is None ==> forall|j: int| !occurs_at(t, p, j),
{
    lemma_first_match_from(t, p, 0);
}

/// Whether `p` occurs in `t` at `i`.
fn bytes_match_at(t: &[u8], i: usize, p: &[u8]) -> (r: bool)
    requires
        i + p@.len() <= t@.len(),
    ensures
        r == (t@.subrange(i as int, i + p@.len()) == p@),
{
    let n = t.len();
    let mut k: usize = 0;
    while k < p.len()
        invariant
            n == t@.len(),
            i + p@.len() <= t@.len(),
            k <= p@.len(),
            forall|j: int| 0 <= j < k ==> t@[i + j] == p@[j],
        decreases p@.len() - k,
    {
        if t[i + k] != p[k] {
            assert(t@.subrange(i as int, i + p@.len())[k as int] != p@[k as int]);
            return false;
        }
        k = k + 1;
    }
    assert(t@.subrange(i as int, i + p@.len()) =~= p@);
    true
}

/// The first byte where `p` occurs in `t`.
pub fn find_bytes(t: &[u8], p: &[u8]) -> (r: Option<usize>)
    ensures
        match r {
            Some(i) => first_match(t@, p@) == Some(i as int),
            None => first_match(t@, p@) is None,
        },
{
    if p.len() > t.len() {
        return None;
    }
    let last = t.len() - p.len();
    let mut i: usize = 0;
    while i <= last
        invariant
            last + p@.len() == t@.len(),
            i <= last + 1,
            first_match(t@, p@) == first_match_from(t@, p@, i as int),
        decreases last + 1 - i,
    {
        if bytes_match_at(t, i, p) {
            return Some(i);
        }
        if i == last {
            return None;
        }
        i = i + 1;
    }
    None
}

// ── UTF-8 around a replacement ────────────────────────

/// What follows a UTF-8 prefix of UTF-8 bytes is UTF-8 too.
proof fn lemma_valid_after_prefix(x: Seq<u8>, y: Seq<u8>)
    requires
        valid_utf8(x),
        valid_utf8(x + y),
    ensures
        valid_utf8(y),
    decreases x.len(),
{
    if x.len() == 0 {
        assert(x + y =~= y);
    } else {
        let xy = x + y;
        assert(xy[0] == x[0]);
        assert(pop_first_scalar(xy) =~= pop_first_scalar(x) + y);
        lemma_valid_after_prefix(pop_first_scalar(x), y);
    }
}

/// A non-empty UTF-8 pattern can only occur at a character boundary.
proof fn lemma_occurrence_on_boundary(t: Seq<u8>, p: Seq<u8>, i: int)
    requires
        valid_utf8(t),
        valid_utf8(p),
        p.len() > 0,
        occurs_at(t, p, i),
    ensures
        is_char_boundary(t, i),
{
    assert(p[0] == t.subrange(i, i + p.len())[0]);
    is_char_boundary_iff_not_is_continuation_byte(t, i);
}

/// The bytes between two character boundaries are UTF-8.
proof fn lemma_valid_between(t: Seq<u8>, a: int, b: int)
    requires
        valid_utf8(t),
        0 <= a <= b <= t.len(),
        is_char_boundary(t, a),
        is_char_boundary(t, b),
    ensures
        valid_utf8(t.subrange(a, b)),
{
    valid_utf8_split(t, a);
    let rest = t.subrange(a, t.len() as int);
    is_char_boundary_start_end_of_seq(rest);
    if b < t.len() {
        is_char_boundary_iff_not_is_continuation_byte(t, b);
        is_char_boundary_iff_not_is_continuation_byte(rest, b - a);
    }
    assert(rest.len() == t.len() - a);
    if b == t.len() {
        assert(b - a == rest.len());
    }
    valid_utf8_split(rest, b - a);
    assert(rest.subrange(0, b - a) =~= t.subrange(a, b));
}

/// Replacing an occurrence of a UTF-8 pattern by UTF-8 bytes keeps UTF-8.
proof fn lemma_splice_valid(t: Seq<u8>, p: Seq<u8>, n: Seq<u8>, i: int)
    requires
        valid_utf8(t),
        valid_utf8(p),
        valid_utf8(n),
        occurs_at(t, p, i),
        p.len() == 0 ==> i == 0,
    ensures
        valid_utf8(t.take(i) + n + t.skip(i + p.len())),
{
    is_char_boundary_start_end_of_seq(t);
    if p.len() > 0 {
        lemma_occurrence_on_boundary(t, p, i);
    }
    valid_utf8_split(t, i);
    let rest = t.subrange(i, t.len() as int);
    assert(rest =~= p + t.skip(i + p.len()));
    lemma_valid_after_prefix(p, t.skip(i + p.len()));
    assert(t.take(i) =~= t.subrange(0, i));
    valid_utf8_concat(t.take(i), n);
    valid_utf8_concat(t.take(i) + n, t.skip(i + p.len()));
}

// ── Applying edits ────────────────────────────────────

/// One edit: the text to find and the text to put in its place.
pub struct EditRequest {
    pub old_text: String,
    pub new_text: String,
}

/// What became of one edit.
pub enum EditOutcome {
    /// The text was found at byte `position` and replaced; `context` shows
    /// the text around it before the replacement.
    Applied { position: usize, context: String },
    /// The text does not occur in the file.
    NotFound,
}

/// The bytes an edit looks for, its indentation brought to the file's.
pub open spec fn pattern_bytes(e: EditRequest, indent: Seq<char>) -> Seq<u8> {
    encode_utf8(normalize_spec(e.old_text@, indent))
}

/// The bytes an edit puts in place, its indentation brought to the file's.
pub open spec fn replacement_bytes(e: EditRequest, indent: Seq<char>) -> Seq<u8> {
    encode_utf8(normalize_spec(e.new_text@, indent))
}

/// `t` with the first occurrence of `p` replaced by `n`, or unchanged when
/// `p` does not occur.
pub open spec fn replace_first(t: Seq<u8>, p: Seq<u8>, n: Seq<u8>) -> Seq<u8> {
    match first_match(t, p) {
        Some(i) => t.take(i) + n + t.skip(i + p.len()),
        None => t,
    }
}

/// The text after the edits, applied in order.
pub open spec fn edited(t: Seq<u8>, edits: Seq<EditRequest>, indent: Seq<char>) -> Seq<u8>
    decreases edits.len(),
{
    if edits.len() == 0 {
        t
    } else {
        replace_first(
            edited(t, edits.drop_last(), indent),
            pattern_bytes(edits.last(), indent),
            replacement_bytes(edits.last(), indent),
        )
    }
}

/// The saturated start of the context of an occurrence at `i`.
pub open spec fn context_start(t: Seq<u8>, i: int) -> int {
    floor_boundary(t, if i >= 40 { i - 40 } else { 0 })
}

/// The end of the context of an occurrence at `i` of `len` bytes.
pub open spec fn context_end(t: Seq<u8>, i: int, len: int) -> int {
    ceil_boundary(t, if i + len + 40 <= t.len() { i + len + 40 } else { t.len() as int })
}

/// The context shown for an occurrence at `i` of `len` bytes: up to forty
/// bytes on each side, widened to whole characters, newlines written as
/// `\n`, between `...` marks.
pub open spec fn context_text(t: Seq<u8>, i: int, len: int) -> Seq<char> {
    seq!['.', '.', '.'] + replace_spec(
        decode_utf8(t.subrange(context_start(t, i), context_end(t, i, len))),
        seq!['\n'],
        seq!['\\', 'n'],
    ) + seq!['.', '.', '.']
}

/// Whether `o` reports an edit looking for `p` in the text `t`.
pub open spec fn reports(o: EditOutcome, t: Seq<u8>, p: Seq<u8>) -> bool {
    match first_match(t, p) {
        Some(i) => o matches EditOutcome::Applied { position, context } && position == i
            && context@ == context_text(t, i, p.len() as int),
        None => o is NotFound,
    }
}

/// `t[a..b]` as a vector.
fn copy_range(t: &[u8], a: usize, b: usize) -> (r: Vec<u8>)
    requires
        a <= b <= t@.len(),
    ensures
        r@ == t@.subrange(a as int, b as int),
{
    let mut out: Vec<u8> = Vec::new();
    let mut k = a;
    while k < b
        invariant
            a <= k <= b <= t@.len(),
            out@ == t@.subrange(a as int, k as int),
        decreases b - k,
    {
        out.push(t[k]);
        k = k + 1;
        assert(out@ =~= t@.subrange(a as int, k as int));
    }
    out
}

/// Appends `t[a..b]` to `out`.
fn push_range(out: &mut Vec<u8>, t: &[u8], a: usize, b: usize)
    requires
        a <= b <= t@.len(),
    ensures
        final(out)@ == old(out)@ + t@.subrange(a as int, b as int),
{
    let ghost start = out@;
    let mut k = a;
    while k < b
        invariant
            a <= k <= b <= t@.len(),
            out@ == start + t@.subrange(a as int, k as int),
        decreases b - k,
    {
        out.push(t[k]);
        k = k + 1;
        assert(out@ =~= start + t@.subrange(a as int, k as int));
    }
}

/// The context text of an occurrence at `i` of `len` bytes in `text`.
fn context_of(text: &str, i: usize, len: usize) -> (r: String)
    requires
        i + len <= text.spec_bytes().len(),
    ensures
        r@ == context_text(text.spec_bytes(), i as int, len as int),
{
    let ghost t = text.spec_bytes();
    let bytes = text.as_bytes();
    let n = bytes.len();
    let from = if i >= 40 {
        i - 40
    } else {
        0
    };
    let to = if n - (i + len) >= 40 {
        i + len + 40
    } else {
        n
    };
    let a = floor_char_boundary(text, from);
    let b = ceil_char_boundary(text, to);
    proof {
        lemma_valid_between(t, a as int, b as int);
    }
    let window = match crate::resources::string_from_utf8(copy_range(bytes, a, b)) {
        Some(w) => w,
        None => String::new(),
    };
    let chars = str_chars(window.as_str());
    let newline: Vec<char> = vec!['\n'];
    let escaped: Vec<char> = vec!['\\', 'n'];
    assert(newline@ =~= seq!['\n']);
    assert(escaped@ =~= seq!['\\', 'n']);
    let body = replace_chars(chars.as_slice(), newline.as_slice(), escaped.as_slice());
    let mut out: Vec<char> = vec!['.', '.', '.'];
    let ghost start = out@;
    let mut k: usize = 0;
    while k < body.len()
        invariant
            k <= body@.len(),
            out@ == start + body@.take(k as int),
        decreases body@.len() - k,
    {
        out.push(body[k]);
        k = k + 1;
        assert(out@ =~= start + body@.take(k as int));
    }
    assert(body@.take(body@.len() as int) =~= body@);
    out.push('.');
    out.push('.');
    out.push('.');
    assert(out@ =~= seq!['.', '.', '.'] + body@ + seq!['.', '.', '.']);
    string_from_chars(out.as_slice())
}

/// Applies the edits in order to `content`: each replaces the first
/// occurrence of its old text (indentation brought to the file's) by its
/// new text, and is reported at the place it was found, or as not found.
pub fn apply_edits(content: &str, edits: &Vec<EditRequest>) -> (r: (String, Vec<EditOutcome>))
    ensures
        r.1@.len() == edits@.len(),
        forall|k: int|
            0 <= k < edits@.len() ==> reports(
                #[trigger] r.1@[k],
                edited(encode_utf8(content@), edits@.take(k), indent_spec(content@)),
                pattern_bytes(edits@[k], indent_spec(content@)),
            ),
        encode_utf8(r.0@) == edited(encode_utf8(content@), edits@, indent_spec(content@)),
        r.0@ == decode_utf8(edited(encode_utf8(content@), edits@, indent_spec(content@))),
{
    let indent = detect_indent(content);
    let ghost ind = indent_spec(content@);
    let ghost t0 = encode_utf8(content@);
    let mut result: String = content.to_owned();
    let mut outcomes: Vec<EditOutcome> = Vec::new();
    let mut i: usize = 0;
    assert(edits@.take(0) =~= Seq::<EditRequest>::empty());
    while i < edits.len()
        invariant
            i <= edits@.len(),
            indent@ == ind,
            outcomes@.len() == i,
            encode_utf8(result@) == edited(t0, edits@.take(i as int), ind),
            forall|k: int|
                0 <= k < i ==> reports(
                    #[trigger] outcomes@[k],
                    edited(t0, edits@.take(k), ind),
                    pattern_bytes(edits@[k], ind),
                ),
        decreases edits@.len() - i,
    {
        let e = &edits[i];
        let old_norm = normalize_whitespace(e.old_text.as_str(), indent);
        let new_norm = normalize_whitespace(e.new_text.as_str(), indent);
        let ghost t = encode_utf8(result@);
        let ghost p = pattern_bytes(edits@[i as int], ind);
        let ghost nb = replacement_bytes(edits@[i as int], ind);
        assert(edits@.take(i + 1).drop_last() =~= edits@.take(i as int));
        assert(edits@.take(i + 1).last() == edits@[i as int]);
        let rb = result.as_str().as_bytes();
        let ob = old_norm.as_str().as_bytes();
        let found = find_bytes(rb, ob);
        match found {
            Some(pos) => {
                assert(rb@ == t);
                assert(ob@ == p);
                proof {
                    lemma_first_match(t, p);
                    if p.len() == 0 {
                        assert(t.subrange(0, 0) =~= p);
                    }
                }
                let rlen = rb.len();
                let olen = ob.len();
                assert(pos + olen <= rlen);
                let end = pos + olen;
                let context = context_of(result.as_str(), pos, ob.len());
                let nbytes = new_norm.as_str().as_bytes();
                let mut spliced: Vec<u8> = Vec::new();
                push_range(&mut spliced, rb, 0, pos);
                let mut k: usize = 0;
                let ghost before = spliced@;
                while k < nbytes.len()
                    invariant
                        k <= nbytes@.len(),
                        spliced@ == before + nbytes@.take(k as int),
                    decreases nbytes@.len() - k,
                {
                    spliced.push(nbytes[k]);
                    k = k + 1;
                    assert(spliced@ =~= before + nbytes@.take(k as int));
                }
                assert(nbytes@.take(nbytes@.len() as int) =~= nbytes@);
                push_range(&mut spliced, rb, end, rb.len());
                assert(t.take(pos as int) =~= t.subrange(0, pos as int));
                assert(t.skip(end as int) =~= t.subrange(end as int, t.len() as int));
                assert(spliced@ =~= t.take(pos as int) + nb + t.skip(pos + p.len()));
                proof {
                    lemma_splice_valid(t, p, nb, pos as int);
                    decode_utf8_encode_utf8(spliced@);
                }
                result = match crate::resources::string_from_utf8(spliced) {
                    Some(s) => s,
                    None => String::new(),
                };
                outcomes.push(EditOutcome::Applied { position: pos, context });
            },
            None => {
                outcomes.push(EditOutcome::NotFound);
            },
        }
        i = i + 1;
    }
    assert(edits@.take(i as int) =~= edits@);
    proof {
        encode_utf8_decode_utf8(result@);
    }
    (result, outcomes)
}

} // verus!
