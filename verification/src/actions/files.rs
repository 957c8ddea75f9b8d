//! Single-file tools: reading text by lines, media typing, byte ranges,
//! hashing, permission modes and file descriptions.

use sha2::Digest;
use vstd::prelude::*;

use crate::errors::MCSError;
use crate::structures::{lemma_push_keeps_newest, newest, push_all_spec, RingBuffer};
use crate::text::{concat, dec_spec, str_chars, str_eq, str_starts_with, string_from_chars, string_push_str, u64_to_string};

verus! {

// ── Reading text ──────────────────────────────────────

/// Which lines of a text file a read returns.
#[derive(Debug, Clone, Copy, PartialEq, Eq, Structural)]
pub enum LineWindow {
    /// The whole file.
    All,
    /// The first `n` lines.
    Head(usize),
    /// The last `n` lines.
    Tail(usize),
}

/// `v` clamped to `0..=100000`.
pub open spec fn clamp_lines(v: i64) -> usize {
    if v < 0 {
        0
    } else if v > 100000 {
        100000
    } else {
        v as usize
    }
}

/// The lines a `read_text_file` request asks for: `head` and `tail` are
/// clamped to `0..=100000`, and asking for both is refused.
pub fn text_read_mode(head: Option<i64>, tail: Option<i64>) -> (r: Result<LineWindow, MCSError>)
    ensures
        head is Some && tail is Some <==> r is Err,
        r matches Err(e) ==> (e matches MCSError::InvalidParams(m) && m@
            == "Cannot specify both head and tail simultaneously"@),
        head matches Some(h) ==> (tail is None ==> r == Ok::<LineWindow, MCSError>(LineWindow::Head(clamp_lines(h)))),
        tail matches Some(t) ==> (head is None ==> r == Ok::<LineWindow, MCSError>(LineWindow::Tail(clamp_lines(t)))),
        head is None && tail is None ==> r == Ok::<LineWindow, MCSError>(LineWindow::All),
{
    match (head, tail) {
        (Some(_), Some(_)) => Err(
            MCSError::InvalidParams("Cannot specify both head and tail simultaneously".to_owned()),
        ),
        (Some(h), None) => Ok(LineWindow::Head(clamp(h))),
        (None, Some(t)) => Ok(LineWindow::Tail(clamp(t))),
        (None, None) => Ok(LineWindow::All),
    }
}

fn clamp(v: i64) -> (r: usize)
    ensures
        r == clamp_lines(v),
{
    if v < 0 {
        0
    } else if v > 100000 {
        100000
    } else {
        v as usize
    }
}

/// The error for a file larger than the read cap.
pub open spec fn size_error_message(size: u64, max: u64) -> Seq<char> {
    "File size "@ + dec_spec(size as nat) + " exceeds maximum allowed size "@ + dec_spec(max as nat)
}

/// Refuses a file larger than `max` bytes.
pub fn check_file_size(size: u64, max: u64) -> (r: Result<(), MCSError>)
    ensures
        size <= max <==> r is Ok,
        r matches Err(e) ==> (e matches MCSError::FilesystemError(m) && m@ == size_error_message(
            size,
            max,
        )),
{
    if size > max {
        let mut m = "File size ".to_owned();
        string_push_str(&mut m, u64_to_string(size).as_str());
        string_push_str(&mut m, " exceeds maximum allowed size ");
        string_push_str(&mut m, u64_to_string(max).as_str());
        return Err(MCSError::FilesystemError(m));
    }
    Ok(())
}

/// The views of some strings.
pub open spec fn views(v: Seq<String>) -> Seq<Seq<char>> {
    v.map_values(|s: String| s@)
}

/// A line without the `\r` of a `\r\n` ending.
pub open spec fn strip_cr(l: Seq<char>) -> Seq<char> {
    if l.len() > 0 && l.last() == '\r' {
        l.drop_last()
    } else {
        l
    }
}

/// The lines of `s`, where `cur` is the part of the current line already
/// read: lines end at `\n` (a `\r` before it is dropped), and a final line
/// without `\n` counts when it is not empty.
pub open spec fn lines_from(s: Seq<char>, cur: Seq<char>) -> Seq<Seq<char>>
    decreases s.len(),
{
    if s.len() == 0 {
        if cur.len() == 0 {
            Seq::empty()
        } else {
            seq![cur]
        }
    } else if s[0] == '\n' {
        seq![strip_cr(cur)] + lines_from(s.drop_first(), Seq::empty())
    } else {
        lines_from(s.drop_first(), cur.push(s[0]))
    }
}

/// The lines of a text, as `str::lines` and `BufRead::lines` give them.
pub open spec fn lines_spec(s: Seq<char>) -> Seq<Seq<char>> {
    lines_from(s, Seq::empty())
}

/// The text of a whole file: its bytes decoded as UTF-8, each ill-formed
/// sequence replaced by U+FFFD.
pub fn file_text(bytes: &[u8]) -> (r: String)
    ensures
        r@ == crate::server::lossy_utf8(bytes@),
        vstd::utf8::valid_utf8(bytes@) ==> r@ == vstd::utf8::decode_utf8(bytes@),
{
    crate::server::utf8_lossy(bytes)
}

/// The lines of a text.
pub fn lines_of(text: &str) -> (r: Vec<String>)
    ensures
        views(r@) == lines_spec(text@),
{
    let chars = str_chars(text);
    let mut out: Vec<String> = Vec::new();
    let mut cur: Vec<char> = Vec::new();
    let mut i: usize = 0;
    assert(chars@.skip(0) =~= chars@);
    while i < chars.len()
        invariant
            i <= chars@.len(),
            chars@ == text@,
            views(out@) + lines_from(chars@.skip(i as int), cur@) == lines_spec(text@),
        decreases chars@.len() - i,
    {
        assert(chars@.skip(i as int).drop_first() =~= chars@.skip(i + 1));
        let c = chars[i];
        if c == '\n' {
            let line = if cur.len() > 0 && cur[cur.len() - 1] == '\r' {
                let mut l = cur;
                l.pop();
                l
            } else {
                cur
            };
            let ghost lv = line@;
            let ghost before = views(out@);
            out.push(string_from_chars(line.as_slice()));
            assert(views(out@) =~= before.push(lv));
            assert(before + (seq![lv] + lines_from(chars@.skip(i + 1), Seq::empty())) =~= before.push(lv)
                + lines_from(chars@.skip(i + 1), Seq::empty()));
            cur = Vec::new();
            assert(cur@ =~= Seq::<char>::empty());
        } else {
            cur.push(c);
        }
        i = i + 1;
    }
    assert(chars@.skip(i as int) =~= Seq::<char>::empty());
    if cur.len() > 0 {
        let ghost before = views(out@);
        let ghost cv = cur@;
        out.push(string_from_chars(cur.as_slice()));
        assert(views(out@) =~= before.push(cv));
        assert(before + seq![cv] =~= before.push(cv));
    } else {
        assert(views(out@) + Seq::<Seq<char>>::empty() =~= views(out@));
    }
    out
}

/// How many lines a text has.
pub fn count_lines(text: &str) -> (r: usize)
    ensures
        r == lines_spec(text@).len(),
{
    lines_of(text).len()
}

/// Lines joined with `\n`.
pub open spec fn join_spec(lines: Seq<Seq<char>>) -> Seq<char>
    decreases lines.len(),
{
    if lines.len() == 0 {
        Seq::empty()
    } else if lines.len() == 1 {
        lines[0]
    } else {
        join_spec(lines.drop_last()) + seq!['\n'] + lines.last()
    }
}

/// Lines joined with `\n`.
pub fn join_lines(lines: &Vec<String>) -> (r: String)
    ensures
        r@ == join_spec(views(lines@)),
{
    let mut out = String::new();
    let mut i: usize = 0;
    while i < lines.len()
        invariant
            i <= lines@.len(),
            out@ == join_spec(views(lines@.take(i as int))),
        decreases lines@.len() - i,
    {
        let ghost prev = views(lines@.take(i as int));
        assert(views(lines@.take(i + 1)) =~= prev.push(lines@[i as int]@));
        assert(views(lines@.take(i + 1)).drop_last() =~= prev);
        if i > 0 {
            string_push_str(&mut out, "\n");
        }
        string_push_str(&mut out, lines[i].as_str());
        proof {
            reveal_strlit("\n");
            if i == 0 {
                assert(prev =~= Seq::<Seq<char>>::empty());
                assert(out@ =~= lines@[0]@);
            }
        }
        i = i + 1;
    }
    assert(lines@.take(lines@.len() as int) =~= lines@);
    out
}

/// The first `h` lines, and how many there are.
pub fn head_lines(lines: Vec<String>, h: usize) -> (r: (Vec<String>, usize))
    ensures
        r.1 == if lines@.len() < h { lines@.len() } else { h as nat },
        r.0@ == lines@.take(r.1 as int),
{
    let mut out: Vec<String> = Vec::new();
    let mut count: usize = 0;
    while count < h && count < lines.len()
        invariant
            count <= h,
            count <= lines@.len(),
            out@ == lines@.take(count as int),
        decreases lines@.len() - count,
    {
        out.push(lines[count].clone());
        count = count + 1;
        assert(out@ =~= lines@.take(count as int));
    }
    (out, count)
}

/// The last `t` lines, and how many lines there are. Taking the tail of
/// zero lines of a non-empty text fails: the reading task panics on it.
pub fn tail_lines(lines: Vec<String>, t: usize) -> (r: Result<(usize, Vec<String>), MCSError>)
    ensures
        t == 0 && lines@.len() > 0 <==> r is Err,
        r matches Ok((total, v)) ==> total == lines@.len() && v@ == newest(lines@, t as nat),
        r matches Err(e) ==> (e matches MCSError::FilesystemError(m) && crate::text::is_prefix(
            "read_text_file task failed"@,
            m@,
        )),
{
    if t == 0 {
        if lines.len() > 0 {
            let m = "read_text_file task failed: the tail of zero lines cannot hold a line".to_owned();
            proof {
                reveal_strlit("read_text_file task failed");
                reveal_strlit("read_text_file task failed: the tail of zero lines cannot hold a line");
                assert(m@.take(26) =~= "read_text_file task failed"@);
            }
            return Err(MCSError::FilesystemError(m));
        }
        assert(newest(lines@, 0) =~= lines@);
        return Ok((0, Vec::new()));
    }
    let mut ring: RingBuffer<String> = RingBuffer::new(t);
    let mut total: usize = 0;
    let ghost all = lines@;
    while total < lines.len()
        invariant
            all == lines@,
            t > 0,
            ring.wf(),
            ring.cap() == t,
            total <= all.len(),
            ring.view() == push_all_spec(Seq::empty(), t as nat, all.take(total as int)),
        decreases all.len() - total,
    {
        let l = lines[total].clone();
        proof {
            assert(all.take(total + 1).drop_last() =~= all.take(total as int));
            assert(all.take(total + 1).last() == l);
        }
        ring.push(l);
        total = total + 1;
    }
    proof {
        assert(all.take(total as int) =~= all);
        lemma_push_keeps_newest(Seq::<String>::empty(), t as nat, all);
        assert(Seq::<String>::empty() + all =~= all);
    }
    Ok((total, ring.into_vec()))
}

// ── Media ─────────────────────────────────────────────

/// How a media file is returned.
#[derive(Debug, Clone, Copy, PartialEq, Eq, Structural)]
pub enum MediaKind {
    Image,
    Audio,
    /// Anything else: a text note, with the data in `structuredContent`.
    Other,
}

pub open spec fn media_kind_spec(mime: Seq<char>) -> MediaKind {
    if crate::text::is_prefix("image/"@, mime) {
        MediaKind::Image
    } else if crate::text::is_prefix("audio/"@, mime) {
        MediaKind::Audio
    } else {
        MediaKind::Other
    }
}

pub fn media_kind(mime: &str) -> (r: MediaKind)
    ensures
        r == media_kind_spec(mime@),
{
    if str_starts_with(mime, "image/") {
        MediaKind::Image
    } else if str_starts_with(mime, "audio/") {
        MediaKind::Audio
    } else {
        MediaKind::Other
    }
}

/// The MIME type of media data: what its magic numbers say, else
/// `application/octet-stream`.
pub fn media_mime_type(data: &[u8]) -> (r: String)
    ensures
        r@ == match crate::resources::inferred_mime(data@) {
            Some(m) => m,
            None => "application/octet-stream"@,
        },
{
    match crate::resources::infer_mime(data) {
        Some(m) => m,
        None => "application/octet-stream".to_owned(),
    }
}

/// What binary media data looks like when not recognised: text unless its
/// content is binary.
pub fn detected_type(data: &[u8]) -> (r: &'static str)
    ensures
        r@ == if crate::resources::binary_spec(data@) {
            "application/octet-stream"@
        } else {
            "text/plain"@
        },
{
    if crate::resources::content_is_binary(data) {
        "application/octet-stream"
    } else {
        "text/plain"
    }
}

/// The note returned with unrecognised media.
pub fn binary_note(mime: &str, size: u64) -> (r: String)
    ensures
        r@ == "Binary file ("@ + mime@ + ", "@ + dec_spec(size as nat)
            + " bytes); base64 data in structuredContent.data"@,
{
    let mut m = concat("Binary file (", mime);
    string_push_str(&mut m, ", ");
    string_push_str(&mut m, u64_to_string(size).as_str());
    string_push_str(&mut m, " bytes); base64 data in structuredContent.data");
    m
}

/// The base64 digit for `v < 64`: `A-Z`, `a-z`, `0-9`, `+`, `/`.
pub open spec fn base64_digit(v: nat) -> char {
    if v < 26 {
        ((65 + v) as u32) as char
    } else if v < 52 {
        ((97 + v - 26) as u32) as char
    } else if v < 62 {
        ((48 + v - 52) as u32) as char
    } else if v == 62 {
        '+'
    } else {
        '/'
    }
}

/// The standard base64 encoding (with padding) of some bytes: each group of
/// three bytes, read as 24 bits, gives four digits of six bits; a last group
/// of one or two bytes is padded with zero bits and `=`.
pub open spec fn base64_of(data: Seq<u8>) -> Seq<char>
    decreases data.len(),
{
    if data.len() == 0 {
        Seq::empty()
    } else if data.len() == 1 {
        seq![base64_digit((data[0] / 4) as nat), base64_digit(((data[0] % 4) * 16) as nat), '=', '=']
    } else if data.len() == 2 {
        seq![
            base64_digit((data[0] / 4) as nat),
            base64_digit(((data[0] % 4) * 16 + data[1] / 16) as nat),
            base64_digit(((data[1] % 16) * 4) as nat),
            '=',
        ]
    } else {
        seq![
            base64_digit((data[0] / 4) as nat),
            base64_digit(((data[0] % 4) * 16 + data[1] / 16) as nat),
            base64_digit(((data[1] % 16) * 4 + data[2] / 64) as nat),
            base64_digit((data[2] % 64) as nat),
        ] + base64_of(data.skip(3))
    }
}

/// `base64_simd::STANDARD.encode_to_string`: the padded standard base64
/// text of `data`.
#[verifier::external_body]
pub(crate) fn base64_encode(data: &[u8]) -> (r: String)
    ensures
        r@ == base64_of(data@),
{
    base64_simd::STANDARD.encode_to_string(data)
}

/// What a `read_media_file` returns for some data.
pub enum MediaContent {
    /// Image or audio content, typed by its MIME type.
    Typed { kind: MediaKind, mime_type: String, data: String },
    /// Anything else: a note, and the data with the type its content
    /// looks like.
    Other { note: String, mime_type: String, data: String, detected_type: &'static str },
}

/// The MIME type media data is given: what its magic numbers say, else
/// `application/octet-stream`.
pub open spec fn media_mime_spec(data: Seq<u8>) -> Seq<char> {
    match crate::resources::inferred_mime(data) {
        Some(m) => m,
        None => "application/octet-stream"@,
    }
}

/// The content of a media file of `size` bytes holding `data`: typed image
/// or audio content, or a note with the data otherwise; the data is base64.
pub fn media_content(data: &[u8], size: u64) -> (r: MediaContent)
    ensures
        media_kind_spec(media_mime_spec(data@)) == MediaKind::Other ==> (r matches MediaContent::Other {
            note,
            mime_type,
            data: d,
            detected_type,
        } && note@ == "Binary file ("@ + media_mime_spec(data@) + ", "@ + dec_spec(size as nat)
            + " bytes); base64 data in structuredContent.data"@ && mime_type@ == media_mime_spec(
            data@,
        ) && d@ == base64_of(data@) && detected_type@ == (if crate::resources::binary_spec(data@) {
            "application/octet-stream"@
        } else {
            "text/plain"@
        })),
        media_kind_spec(media_mime_spec(data@)) != MediaKind::Other ==> (r matches MediaContent::Typed {
            kind,
            mime_type,
            data: d,
        } && kind == media_kind_spec(media_mime_spec(data@)) && mime_type@ == media_mime_spec(data@)
            && d@ == base64_of(data@)),
{
    let mime_type = media_mime_type(data);
    let encoded = base64_encode(data);
    match media_kind(mime_type.as_str()) {
        MediaKind::Other => {
            let note = binary_note(mime_type.as_str(), size);
            MediaContent::Other { note, mime_type, data: encoded, detected_type: detected_type(data) }
        },
        kind => MediaContent::Typed { kind, mime_type, data: encoded },
    }
}

// ── Byte ranges ───────────────────────────────────────

/// Refuses a negative offset or length.
pub fn check_range_args(offset: i64, length: i64) -> (r: Result<(), MCSError>)
    ensures
        (offset >= 0 && length >= 0) <==> r is Ok,
        r matches Err(e) ==> (e matches MCSError::InvalidParams(m) && m@
            == "offset and length must be non-negative"@),
{
    if offset < 0 || length < 0 {
        return Err(MCSError::InvalidParams("offset and length must be non-negative".to_owned()));
    }
    Ok(())
}

/// The number of bytes a range read returns: from `offset`, `length`
/// bytes, cut at the end of the file.
pub open spec fn range_len_spec(offset: nat, length: nat, file_size: nat) -> nat {
    let end = if offset + length < file_size {
        offset + length
    } else {
        file_size
    };
    if end > offset {
        (end - offset) as nat
    } else {
        0
    }
}

/// How many bytes a range read of a file of `file_size` bytes returns;
/// refused when the offset is not inside the file or the range exceeds the
/// read cap.
pub fn range_span(offset: i64, length: i64, file_size: u64, max_size: u64) -> (r: Result<u64, String>)
    requires
        offset >= 0,
        length >= 0,
        file_size <= i64::MAX,
    ensures
        offset >= file_size ==> (r matches Err(m) && m@ == "Offset "@ + dec_spec(offset as nat)
            + " exceeds file size "@ + dec_spec(file_size as nat)),
        offset < file_size && range_len_spec(offset as nat, length as nat, file_size as nat)
            > max_size ==> (r matches Err(m) && m@ == "Requested range "@ + dec_spec(
            range_len_spec(offset as nat, length as nat, file_size as nat),
        ) + " exceeds maximum allowed size "@ + dec_spec(max_size as nat)),
        offset < file_size && range_len_spec(offset as nat, length as nat, file_size as nat)
            <= max_size ==> r == Ok::<u64, String>(
            range_len_spec(offset as nat, length as nat, file_size as nat) as u64,
        ),
{
    if offset as u64 >= file_size {
        let mut m = "Offset ".to_owned();
        string_push_str(&mut m, u64_to_string(offset as u64).as_str());
        string_push_str(&mut m, " exceeds file size ");
        string_push_str(&mut m, u64_to_string(file_size).as_str());
        return Err(m);
    }
    let sum = (offset as u64).saturating_add(length as u64);
    let end = if sum < file_size {
        sum
    } else {
        file_size
    };
    let actual = end.saturating_sub(offset as u64);
    if actual > max_size {
        let mut m = "Requested range ".to_owned();
        string_push_str(&mut m, u64_to_string(actual).as_str());
        string_push_str(&mut m, " exceeds maximum allowed size ");
        string_push_str(&mut m, u64_to_string(max_size).as_str());
        return Err(m);
    }
    Ok(actual)
}

// ── Hashing ───────────────────────────────────────────

/// Lower-case hexadecimal digit for `d < 16`.
pub open spec fn hex_lower(d: nat) -> char {
    if d < 10 {
        crate::text::digit_char(d)
    } else {
        ((d - 10 + 97) as u32) as char
    }
}

/// The lower-case hexadecimal text of some bytes, two digits a byte.
pub open spec fn hex_spec(b: Seq<u8>) -> Seq<char>
    decreases b.len(),
{
    if b.len() == 0 {
        Seq::empty()
    } else {
        seq![hex_lower((b[0] / 16) as nat), hex_lower((b[0] % 16) as nat)] + hex_spec(
            b.drop_first(),
        )
    }
}

/// `hex::encode`: two lower-case hexadecimal digits for each byte.
#[verifier::external_body]
fn hex_encode(data: &[u8]) -> (r: String)
    ensures
        r@ == hex_spec(data@),
{
    hex::encode(data)
}

/// The SHA-512 digest of some bytes.
pub uninterp spec fn sha512_of(data: Seq<u8>) -> Seq<u8>;

/// The MD5 digest of some bytes.
pub uninterp spec fn md5_of(data: Seq<u8>) -> Seq<u8>;

/// The BLAKE3 hash of some bytes.
pub uninterp spec fn blake3_of(data: Seq<u8>) -> Seq<u8>;

/// `Sha512::new`, `update`, `finalize` of the `sha2` crate: the 64-byte digest.
#[verifier::external_body]
fn sha512(data: &[u8]) -> (r: Vec<u8>)
    ensures
        r@ == sha512_of(data@),
        r@.len() == 64,
{
    let mut hasher = sha2::Sha512::new();
    hasher.update(data);
    hasher.finalize().to_vec()
}

/// `Md5::new`, `update`, `finalize` of the `md-5` crate: the 16-byte digest.
#[verifier::external_body]
fn md5(data: &[u8]) -> (r: Vec<u8>)
    ensures
        r@ == md5_of(data@),
        r@.len() == 16,
{
    let mut hasher = md5::Md5::new();
    hasher.update(data);
    hasher.finalize().to_vec()
}

/// `blake3::hash(data).to_hex()`: the lower-case hexadecimal text of the
/// 32-byte BLAKE3 hash.
#[verifier::external_body]
fn blake3_hex(data: &[u8]) -> (r: String)
    ensures
        r@ == hex_spec(blake3_of(data@)),
{
    blake3::hash(data).to_hex().to_string()
}

/// The hash of `data` with the algorithm named `alg`, in lower-case
/// hexadecimal; unknown algorithms are refused.
pub open spec fn hash_spec(alg: Seq<char>, data: Seq<u8>) -> Result<Seq<char>, Seq<char>> {
    if alg == "sha256"@ {
        Ok(hex_spec(crate::server::sha256_of(data)))
    } else if alg == "sha512"@ {
        Ok(hex_spec(sha512_of(data)))
    } else if alg == "md5"@ {
        Ok(hex_spec(md5_of(data)))
    } else if alg == "blake3"@ {
        Ok(hex_spec(blake3_of(data)))
    } else {
        Err("Unsupported hash algorithm: "@ + alg)
    }
}

pub fn hash_bytes(alg: &str, data: &[u8]) -> (r: Result<String, String>)
    ensures
        match hash_spec(alg@, data@) {
            Ok(h) => r matches Ok(s) && s@ == h,
            Err(m) => r matches Err(s) && s@ == m,
        },
{
    if str_eq(alg, "sha256") {
        let d = crate::server::sha256_digest(data);
        Ok(hex_encode(d.as_slice()))
    } else if str_eq(alg, "sha512") {
        let d = sha512(data);
        Ok(hex_encode(d.as_slice()))
    } else if str_eq(alg, "md5") {
        let d = md5(data);
        Ok(hex_encode(d.as_slice()))
    } else if str_eq(alg, "blake3") {
        Ok(blake3_hex(data))
    } else {
        Err(concat("Unsupported hash algorithm: ", alg))
    }
}

// ── Permissions and descriptions ─────────────────────

/// Reads a permission mode written in octal, as `u32::from_str_radix(.., 8)`.
pub fn parse_mode(mode_str: &str) -> (r: Result<u32, MCSError>)
    ensures
        match crate::text::parse_unsigned_spec(mode_str@, 8, u32::MAX as nat) {
            Some(v) => r == Ok::<u32, MCSError>(v as u32),
            None => r matches Err(e) && (e matches MCSError::InvalidParams(m) && m@
                == "Invalid mode: "@ + mode_str@ + ". Use octal format (e.g. 644, 755)"@),
        },
{
    let chars = str_chars(mode_str);
    match crate::text::parse_unsigned(chars.as_slice(), 8, u32::MAX as u64) {
        Some(v) => Ok(v as u32),
        None => {
            let mut m = concat("Invalid mode: ", mode_str);
            string_push_str(&mut m, ". Use octal format (e.g. 644, 755)");
            Err(MCSError::InvalidParams(m))
        },
    }
}

/// The octal representation of `n`, without leading zeros.
pub open spec fn oct_spec(n: nat) -> Seq<char>
    decreases n,
{
    if n < 8 {
        seq![crate::text::digit_char(n)]
    } else {
        oct_spec(n / 8).push(crate::text::digit_char(n % 8))
    }
}

fn push_oct(out: &mut Vec<char>, n: u32)
    ensures
        final(out)@ == old(out)@ + oct_spec(n as nat),
    decreases n,
{
    if n >= 8 {
        push_oct(out, n / 8);
    }
    let d: u8 = (n % 8) as u8;
    out.push(crate::text::char_from_ascii(d + 48));
    assert(final(out)@ =~= old(out)@ + oct_spec(n as nat));
}

/// The permission bits of a mode, in octal (`{:o}` of `mode & 0o777`).
pub fn permissions_text(mode: u32) -> (r: String)
    ensures
        r@ == oct_spec((mode % 512) as nat),
{
    let bits = mode & 511u32;
    assert(mode & 511u32 == mode % 512) by (bit_vector);
    let mut v: Vec<char> = Vec::new();
    push_oct(&mut v, bits);
    assert(v@ =~= oct_spec((mode % 512) as nat));
    string_from_chars(v.as_slice())
}

/// What kind of entry a path is, as `get_file_info` reports it.
pub fn file_type_name(is_dir: bool, is_symlink: bool) -> (r: &'static str)
    ensures
        r@ == if is_dir {
            "directory"@
        } else if is_symlink {
            "symlink"@
        } else {
            "file"@
        },
{
    if is_dir {
        "directory"
    } else if is_symlink {
        "symlink"
    } else {
        "file"
    }
}

/// The error for a path that is not a regular file.
pub fn not_a_file(path: &str) -> (r: MCSError)
    ensures
        r matches MCSError::InvalidParams(m) && m@ == "Path is not a file: "@ + path@,
{
    MCSError::InvalidParams(concat("Path is not a file: ", path))
}

/// The error for a path that does not exist.
pub fn path_missing(path: &str) -> (r: MCSError)
    ensures
        r matches MCSError::PathNotFound(m) && m@ == "Path does not exist: "@ + path@,
{
    MCSError::PathNotFound(concat("Path does not exist: ", path))
}

} // verus!
