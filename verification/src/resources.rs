//! MCP resources exposed by the filesystem server: `file://` URIs, MIME
//! detection, previews, timestamps and paging of the resource list.

use vstd::prelude::*;
use vstd::utf8::{decode_utf8, encode_utf8, valid_utf8};

use crate::errors::MCSError;
use crate::path::{chars_eq, components, path_components, Comp, PathComponent};
use crate::text::{ascii_lower_seq, char_from_ascii, concat, dec_pad, digit_char, push_dec_pad, str_eq, str_starts_with, to_ascii_lower, is_prefix, str_chars, string_from_chars, string_push_str};

verus! {

broadcast use vstd::utf8::group_utf8_lib;

pub const UI_RESOURCE_URI: &'static str = "ui://filesystem/browser-v1.html";

pub const UI_RESOURCE_MIME: &'static str = "text/html;profile=mcp-app";

// ── Percent-encoding of paths ───────────────────────────

/// Bytes that stand for themselves in a `file://` URI: ASCII letters and
/// digits and `- . _ ~ / :`.
pub open spec fn unreserved(b: u8) -> bool {
    (48 <= b <= 57) || (65 <= b <= 90) || (97 <= b <= 122) || b == 45 || b == 46 || b == 95 || b
        == 126 || b == 47 || b == 58
}

/// The upper-case hexadecimal digit for `d < 16`.
pub open spec fn hex_upper(d: nat) -> char {
    if d < 10 {
        digit_char(d)
    } else {
        ((d - 10 + 65) as u32) as char
    }
}

/// How one byte is written in a URI path.
pub open spec fn encode_byte(b: u8) -> Seq<char> {
    if unreserved(b) {
        seq![(b as u32) as char]
    } else {
        seq!['%', hex_upper((b / 16) as nat), hex_upper((b % 16) as nat)]
    }
}

/// How bytes are written in a URI path.
pub open spec fn encode_bytes_spec(bs: Seq<u8>) -> Seq<char>
    decreases bs.len(),
{
    if bs.len() == 0 {
        Seq::empty()
    } else {
        encode_byte(bs[0]) + encode_bytes_spec(bs.drop_first())
    }
}

fn hex_digit(d: u8) -> (r: char)
    requires
        d < 16,
    ensures
        r == hex_upper(d as nat),
{
    if d < 10 {
        char_from_ascii(d + 48)
    } else {
        char_from_ascii(d - 10 + 65)
    }
}

fn is_unreserved(b: u8) -> (r: bool)
    ensures
        r == unreserved(b),
{
    (48 <= b && b <= 57) || (65 <= b && b <= 90) || (97 <= b && b <= 122) || b == 45 || b == 46
        || b == 95 || b == 126 || b == 47 || b == 58
}

/// Percent-encodes the UTF-8 bytes of `value`, keeping unreserved bytes.
pub fn encode_uri_path(value: &str) -> (r: String)
    ensures
        r@ == encode_bytes_spec(encode_utf8(value@)),
{
    let bytes = value.as_bytes();
    let ghost bs = bytes@;
    let mut out: Vec<char> = Vec::new();
    let mut i: usize = 0;
    assert(bs.skip(0) =~= bs);
    while i < bytes.len()
        invariant
            bs == bytes@,
            i <= bs.len(),
            out@ + encode_bytes_spec(bs.skip(i as int)) == encode_bytes_spec(bs),
        decreases bs.len() - i,
    {
        let ghost before = out@;
        assert(bs.skip(i as int).drop_first() =~= bs.skip(i + 1));
        let b = bytes[i];
        if is_unreserved(b) {
            out.push(char_from_ascii(b));
        } else {
            out.push('%');
            out.push(hex_digit(b / 16));
            out.push(hex_digit(b % 16));
        }
        assert(out@ =~= before + encode_byte(b));
        assert(before + (encode_byte(b) + encode_bytes_spec(bs.skip(i + 1))) =~= out@
            + encode_bytes_spec(bs.skip(i + 1)));
        i = i + 1;
    }
    assert(bs.skip(i as int) =~= Seq::<u8>::empty());
    assert(out@ + Seq::<char>::empty() =~= out@);
    string_from_chars(out.as_slice())
}

/// The value of an ASCII hexadecimal digit.
pub open spec fn hex_val(b: u8) -> Option<nat> {
    if 48 <= b <= 57 {
        Some((b - 48) as nat)
    } else if 97 <= b <= 102 {
        Some((b - 87) as nat)
    } else if 65 <= b <= 70 {
        Some((b - 55) as nat)
    } else {
        None
    }
}

/// The byte a two-byte escape `%ab` stands for: two hexadecimal digits, or
/// `+` and one digit, as `u8::from_str_radix(.., 16)` reads them.
pub open spec fn escape_value(a: u8, b: u8) -> Option<u8> {
    if a == 43 {
        match hex_val(b) {
            Some(v) => Some(v as u8),
            None => None,
        }
    } else {
        match (hex_val(a), hex_val(b)) {
            (Some(x), Some(y)) => Some((16 * x + y) as u8),
            _ => None,
        }
    }
}

/// Why a URI path does not decode.
#[derive(Debug, Clone, Copy, PartialEq, Eq, Structural)]
pub enum UriFault {
    /// A `%` with fewer than two bytes after it... or exactly two at the
    /// very end of the input: the reader wants a byte past the escape.
    Incomplete,
    /// A `%` followed by something that is not a hexadecimal byte.
    Invalid,
    /// The decoded bytes are not UTF-8.
    NotUtf8,
}

/// The bytes a percent-encoded path stands for, or the first fault.
pub open spec fn decode_bytes_spec(bs: Seq<u8>) -> Result<Seq<u8>, UriFault>
    decreases bs.len(),
{
    if bs.len() == 0 {
        Ok(Seq::empty())
    } else if bs[0] == 37 {
        if bs.len() <= 2 {
            Err(UriFault::Incomplete)
        } else {
            match escape_value(bs[1], bs[2]) {
                Some(v) => match decode_bytes_spec(bs.skip(3)) {
                    Ok(r) => Ok(seq![v] + r),
                    Err(e) => Err(e),
                },
                None => Err(UriFault::Invalid),
            }
        }
    } else {
        match decode_bytes_spec(bs.drop_first()) {
            Ok(r) => Ok(seq![bs[0]] + r),
            Err(e) => Err(e),
        }
    }
}

/// The text a percent-encoded path stands for.
pub open spec fn decode_uri_spec(s: Seq<char>) -> Result<Seq<char>, UriFault> {
    match decode_bytes_spec(encode_utf8(s)) {
        Ok(b) => if valid_utf8(b) {
            Ok(decode_utf8(b))
        } else {
            Err(UriFault::NotUtf8)
        },
        Err(e) => Err(e),
    }
}

pub open spec fn uri_fault_message(f: UriFault) -> Seq<char> {
    match f {
        UriFault::Incomplete => "Incomplete percent escape in resource URI"@,
        UriFault::Invalid => "Invalid percent escape in resource URI"@,
        UriFault::NotUtf8 => "Resource URI is not valid UTF-8"@,
    }
}

fn hex_value(b: u8) -> (r: Option<u8>)
    ensures
        match hex_val(b) {
            Some(v) => r == Some(v as u8),
            None => r is None,
        },
{
    if 48 <= b && b <= 57 {
        Some(b - 48)
    } else if 97 <= b && b <= 102 {
        Some(b - 87)
    } else if 65 <= b && b <= 70 {
        Some(b - 55)
    } else {
        None
    }
}

fn escape(a: u8, b: u8) -> (r: Option<u8>)
    ensures
        r == escape_value(a, b),
{
    if a == 43 {
        hex_value(b)
    } else {
        match (hex_value(a), hex_value(b)) {
            (Some(x), Some(y)) => Some(16 * x + y),
            _ => None,
        }
    }
}

/// `String::from_utf8`: a string exactly when the bytes are UTF-8.
#[verifier::external_body]
pub(crate) fn string_from_utf8(bytes: Vec<u8>) -> (r: Option<String>)
    ensures
        r is Some <==> valid_utf8(bytes@),
        r matches Some(s) ==> s@ == decode_utf8(bytes@),
{
    String::from_utf8(bytes).ok()
}

fn fault_error(f: UriFault) -> (r: MCSError)
    ensures
        r matches MCSError::InvalidParams(m) && m@ == uri_fault_message(f),
{
    match f {
        UriFault::Incomplete => MCSError::InvalidParams(
            "Incomplete percent escape in resource URI".to_owned(),
        ),
        UriFault::Invalid => MCSError::InvalidParams(
            "Invalid percent escape in resource URI".to_owned(),
        ),
        UriFault::NotUtf8 => MCSError::InvalidParams("Resource URI is not valid UTF-8".to_owned()),
    }
}

/// Decodes a percent-encoded path.
pub fn decode_uri_path(value: &str) -> (r: Result<String, MCSError>)
    ensures
        match decode_uri_spec(value@) {
            Ok(t) => r matches Ok(s) && s@ == t,
            Err(f) => r matches Err(e) && (e matches MCSError::InvalidParams(m) && m@
                == uri_fault_message(f)),
        },
{
    let bytes = value.as_bytes();
    let ghost bs = bytes@;
    let mut output: Vec<u8> = Vec::new();
    let mut index: usize = 0;
    assert(bs.skip(0) =~= bs);
    while index < bytes.len()
        invariant
            bs == bytes@,
            bs == encode_utf8(value@),
            index <= bs.len(),
            decode_bytes_spec(bs) == match decode_bytes_spec(bs.skip(index as int)) {
                Ok(r) => Ok(output@ + r),
                Err(e) => Err(e),
            },
        decreases bs.len() - index,
    {
        let ghost rest = bs.skip(index as int);
        if bytes[index] == 37 {
            if bytes.len() - index <= 2 {
                return Err(fault_error(UriFault::Incomplete));
            }
            match escape(bytes[index + 1], bytes[index + 2]) {
                Some(v) => {
                    assert(rest.skip(3) =~= bs.skip(index + 3));
                    assert(rest[1] == bs[index + 1] && rest[2] == bs[index + 2]);
                    proof {
                        let ghost o = output@;
                        match decode_bytes_spec(bs.skip(index + 3)) {
                            Ok(r) => {
                                assert(o + (seq![v] + r) =~= o.push(v) + r);
                            },
                            Err(_) => {},
                        }
                    }
                    output.push(v);
                    index = index + 3;
                },
                None => {
                    return Err(fault_error(UriFault::Invalid));
                },
            }
        } else {
            assert(rest.drop_first() =~= bs.skip(index + 1));
            proof {
                let ghost o = output@;
                match decode_bytes_spec(bs.skip(index + 1)) {
                    Ok(r) => {
                        assert(o + (seq![bs[index as int]] + r) =~= o.push(bs[index as int]) + r);
                    },
                    Err(_) => {},
                }
            }
            output.push(bytes[index]);
            index = index + 1;
        }
    }
    assert(bs.skip(index as int) =~= Seq::<u8>::empty());
    assert(output@ + Seq::<u8>::empty() =~= output@);
    match string_from_utf8(output) {
        Some(s) => Ok(s),
        None => Err(fault_error(UriFault::NotUtf8)),
    }
}

// ── file:// URIs ──────────────────────────────────────

/// A path as a URI renders it: `\` read as `/`, and a leading `/` added
/// when missing.
pub open spec fn rendered_path(p: Seq<char>) -> Seq<char> {
    let q = p.map_values(|c: char| if c == '\\' { '/' } else { c });
    if q.len() > 0 && q[0] == '/' {
        q
    } else {
        seq!['/'] + q
    }
}

/// The `file://` URI of a path.
pub open spec fn file_uri_spec(p: Seq<char>) -> Seq<char> {
    "file://"@ + encode_bytes_spec(encode_utf8(rendered_path(p)))
}

/// The path a `file://` URI names.
pub open spec fn uri_path_spec(uri: Seq<char>) -> Option<Result<Seq<char>, UriFault>> {
    if is_prefix("file://"@, uri) {
        Some(decode_uri_spec(uri.skip(7)))
    } else {
        None
    }
}

/// The `file://` URI of a path.
pub fn path_to_file_uri(path: &str) -> (r: String)
    ensures
        r@ == file_uri_spec(path@),
{
    let chars = str_chars(path);
    let mut q: Vec<char> = Vec::new();
    let mut i: usize = 0;
    while i < chars.len()
        invariant
            i <= chars@.len(),
            chars@ == path@,
            q@ == chars@.take(i as int).map_values(|c: char| if c == '\\' { '/' } else { c }),
        decreases chars@.len() - i,
    {
        let c = chars[i];
        q.push(if c == '\\' { '/' } else { c });
        i = i + 1;
        assert(q@ =~= chars@.take(i as int).map_values(|c: char| if c == '\\' { '/' } else { c }));
    }
    assert(chars@.take(chars@.len() as int) =~= chars@);
    let rendered = if q.len() > 0 && q[0] == '/' {
        q
    } else {
        let mut r: Vec<char> = vec!['/'];
        let mut k: usize = 0;
        while k < q.len()
            invariant
                k <= q@.len(),
                r@ == seq!['/'] + q@.take(k as int),
            decreases q@.len() - k,
        {
            r.push(q[k]);
            k = k + 1;
            assert(r@ =~= seq!['/'] + q@.take(k as int));
        }
        assert(q@.take(q@.len() as int) =~= q@);
        r
    };
    let rendered = string_from_chars(rendered.as_slice());
    let encoded = encode_uri_path(rendered.as_str());
    let mut uri = "file://".to_owned();
    string_push_str(&mut uri, encoded.as_str());
    uri
}

/// The path a `file://` URI names; other URIs are refused.
pub fn file_uri_to_path(uri: &str) -> (r: Result<String, MCSError>)
    ensures
        match uri_path_spec(uri@) {
            None => r matches Err(e) && (e matches MCSError::InvalidParams(m) && m@
                == "Only file:// and ui:// resources are supported"@),
            Some(Ok(t)) => r matches Ok(s) && s@ == t,
            Some(Err(f)) => r matches Err(e) && (e matches MCSError::InvalidParams(m) && m@
                == uri_fault_message(f)),
        },
{
    let chars = str_chars(uri);
    let prefix = str_chars("file://");
    proof {
        reveal_strlit("file://");
    }
    if !crate::text::chars_start_with(chars.as_slice(), prefix.as_slice()) {
        return Err(
            MCSError::InvalidParams("Only file:// and ui:// resources are supported".to_owned()),
        );
    }
    let mut rest: Vec<char> = Vec::new();
    let mut i: usize = 7;
    while i < chars.len()
        invariant
            7 <= i <= chars@.len(),
            rest@ == chars@.subrange(7, i as int),
        decreases chars@.len() - i,
    {
        rest.push(chars[i]);
        i = i + 1;
        assert(rest@ =~= chars@.subrange(7, i as int));
    }
    assert(rest@ =~= uri@.skip(7));
    let encoded = string_from_chars(rest.as_slice());
    decode_uri_path(encoded.as_str())
}

/// The codes of some ASCII characters.
pub open spec fn ascii_codes(cs: Seq<char>) -> Seq<u8> {
    Seq::new(cs.len(), |i: int| cs[i] as u8)
}

/// The characters a URI path encoding writes are all ASCII.
proof fn lemma_encoded_ascii(bs: Seq<u8>)
    ensures
        vstd::utf8::is_ascii_chars(encode_bytes_spec(bs)),
    decreases bs.len(),
{
    if bs.len() > 0 {
        lemma_encoded_ascii(bs.drop_first());
        let e = encode_byte(bs[0]);
        assert(vstd::utf8::is_ascii_chars(e));
        assert(vstd::utf8::is_ascii_chars(e + encode_bytes_spec(bs.drop_first())));
    }
}

/// The bytes of ASCII characters are the characters' codes.
proof fn lemma_ascii_bytes(cs: Seq<char>)
    requires
        vstd::utf8::is_ascii_chars(cs),
    ensures
        encode_utf8(cs) == ascii_codes(cs),
{
    vstd::utf8::is_ascii_chars_encode_utf8(cs);
    assert(encode_utf8(cs) =~= ascii_codes(cs));
}

/// Decoding the encoding of bytes gives the bytes back.
#[verifier::spinoff_prover]
#[verifier::rlimit(40)]
proof fn lemma_decode_encoded(bs: Seq<u8>)
    ensures
        decode_bytes_spec(ascii_codes(encode_bytes_spec(bs))) == Ok::<Seq<u8>, UriFault>(bs),
    decreases bs.len(),
{
    if bs.len() == 0 {
        assert(ascii_codes(encode_bytes_spec(bs)) =~= Seq::<u8>::empty());
        assert(bs =~= Seq::<u8>::empty());
    } else {
        let b = bs[0];
        let rest = bs.drop_first();
        lemma_decode_encoded(rest);
        let tail = ascii_codes(encode_bytes_spec(rest));
        let all = ascii_codes(encode_bytes_spec(bs));
        assert(all =~= ascii_codes(encode_byte(b)) + tail);
        if unreserved(b) {
            assert(all[0] == b);
            assert(all.drop_first() =~= tail);
            assert(decode_bytes_spec(all) == Ok::<Seq<u8>, UriFault>(seq![b] + bs.drop_first()));
            assert(seq![b] + bs.drop_first() =~= bs);
        } else {
            let hi = (b / 16) as nat;
            let lo = (b % 16) as nat;
            assert(all[0] == 37u8);
            assert(all[1] == hex_upper(hi) as u8);
            assert(all[2] == hex_upper(lo) as u8);
            assert(hex_val(hex_upper(hi) as u8) == Some(hi));
            assert(hex_val(hex_upper(lo) as u8) == Some(lo));
            assert(escape_value(all[1], all[2]) == Some(b));
            assert(all.skip(3) =~= tail);
            assert(decode_bytes_spec(all) == Ok::<Seq<u8>, UriFault>(seq![b] + rest));
            assert(seq![b] + bs.drop_first() =~= bs);
        }
    }
}

/// Every character a URI path encoding writes is `%` or an unreserved
/// ASCII character (letters, digits and `- . _ ~ / :`; the escapes' hex
/// digits are upper-case letters and digits).
proof fn lemma_encoded_chars(bs: Seq<u8>)
    ensures
        forall|i: int|
            0 <= i < encode_bytes_spec(bs).len() ==> {
                let c = #[trigger] encode_bytes_spec(bs)[i];
                c == '%' || ((c as u32) < 128 && unreserved(c as u8))
            },
    decreases bs.len(),
{
    if bs.len() > 0 {
        lemma_encoded_chars(bs.drop_first());
        let e = encode_byte(bs[0]);
        let t = encode_bytes_spec(bs.drop_first());
        assert(encode_bytes_spec(bs) == e + t);
        assert forall|i: int| 0 <= i < e.len() implies {
            let c = #[trigger] e[i];
            c == '%' || ((c as u32) < 128 && unreserved(c as u8))
        } by {
            let b = bs[0];
            if !unreserved(b) && i > 0 {
                let d = if i == 1 { (b / 16) as nat } else { (b % 16) as nat };
                assert(d < 16);
                assert(e[i] == hex_upper(d));
            }
        }
        assert forall|i: int| 0 <= i < encode_bytes_spec(bs).len() implies {
            let c = #[trigger] encode_bytes_spec(bs)[i];
            c == '%' || ((c as u32) < 128 && unreserved(c as u8))
        } by {
            if i < e.len() {
                assert(encode_bytes_spec(bs)[i] == e[i]);
            } else {
                assert(encode_bytes_spec(bs)[i] == t[i - e.len()]);
            }
        }
    }
}

/// An upper-case hexadecimal digit: `0-9` or `A-F`.
pub open spec fn upper_hex_digit(c: char) -> bool {
    ('0' <= c && c <= '9') || ('A' <= c && c <= 'F')
}

/// Each `%` that a URI path encoding writes starts an escape: two
/// upper-case hexadecimal digits follow it.
proof fn lemma_escapes_upper_hex(bs: Seq<u8>)
    ensures
        forall|i: int|
            0 <= i < encode_bytes_spec(bs).len() && #[trigger] encode_bytes_spec(bs)[i] == '%' ==> i
                + 2 < encode_bytes_spec(bs).len() && upper_hex_digit(encode_bytes_spec(bs)[i + 1])
                && upper_hex_digit(encode_bytes_spec(bs)[i + 2]),
    decreases bs.len(),
{
    if bs.len() > 0 {
        let b = bs[0];
        lemma_escapes_upper_hex(bs.drop_first());
        let e = encode_byte(b);
        let t = encode_bytes_spec(bs.drop_first());
        let all = encode_bytes_spec(bs);
        assert(all == e + t);
        let hi = (b / 16) as nat;
        let lo = (b % 16) as nat;
        assert(upper_hex_digit(hex_upper(hi)) && hex_upper(hi) != '%');
        assert(upper_hex_digit(hex_upper(lo)) && hex_upper(lo) != '%');
        assert forall|i: int|
            0 <= i < all.len() && #[trigger] all[i] == '%' implies i + 2 < all.len()
                && upper_hex_digit(all[i + 1]) && upper_hex_digit(all[i + 2]) by {
            if i < e.len() {
                if unreserved(b) {
                    assert(all[i] == ((b as u32) as char));
                    assert(false);
                } else {
                    assert(all[1] == hex_upper(hi));
                    assert(all[2] == hex_upper(lo));
                    assert(i == 0);
                }
            } else {
                let j = i - e.len();
                assert(all[i] == t[j]);
                assert(all[i + 1] == t[j + 1]);
                assert(all[i + 2] == t[j + 2]);
            }
        }
    }
}

/// Any text comes back unchanged from its percent-encoding
/// (`decode_uri_path` undoes `encode_uri_path`), and the encoding is made
/// only of unreserved ASCII characters and escapes: `%` and two upper-case
/// hexadecimal digits.
pub proof fn lemma_uri_path_round_trip(s: Seq<char>)
    ensures
        decode_uri_spec(encode_bytes_spec(encode_utf8(s))) == Ok::<Seq<char>, UriFault>(s),
        forall|i: int|
            0 <= i < encode_bytes_spec(encode_utf8(s)).len() ==> {
                let c = #[trigger] encode_bytes_spec(encode_utf8(s))[i];
                c == '%' || ((c as u32) < 128 && unreserved(c as u8))
            },
        forall|i: int|
            0 <= i < encode_bytes_spec(encode_utf8(s)).len() && #[trigger] encode_bytes_spec(
                encode_utf8(s),
            )[i] == '%' ==> i + 2 < encode_bytes_spec(encode_utf8(s)).len() && upper_hex_digit(
                encode_bytes_spec(encode_utf8(s))[i + 1],
            ) && upper_hex_digit(encode_bytes_spec(encode_utf8(s))[i + 2]),
{
    let bytes = encode_utf8(s);
    lemma_escapes_upper_hex(bytes);
    let enc = encode_bytes_spec(bytes);
    lemma_encoded_ascii(bytes);
    lemma_ascii_bytes(enc);
    lemma_decode_encoded(bytes);
    lemma_encoded_chars(bytes);
    vstd::utf8::encode_utf8_valid_utf8(s);
    vstd::utf8::encode_utf8_decode_utf8(s);
}

/// A path that starts at the root and holds no `\` comes back unchanged
/// from its `file://` URI.
pub proof fn lemma_file_uri_round_trip(p: Seq<char>)
    requires
        p.len() > 0,
        p[0] == '/',
        !p.contains('\\'),
    ensures
        uri_path_spec(file_uri_spec(p)) == Some(Ok::<Seq<char>, UriFault>(p)),
{
    let q = p.map_values(|c: char| if c == '\\' { '/' } else { c });
    assert(q =~= p);
    assert(rendered_path(p) == p);
    let bytes = encode_utf8(p);
    let enc = encode_bytes_spec(bytes);
    let uri = file_uri_spec(p);
    reveal_strlit("file://");
    assert(uri.take(7) =~= "file://"@);
    assert(uri.skip(7) =~= enc);
    lemma_encoded_ascii(bytes);
    lemma_ascii_bytes(enc);
    lemma_decode_encoded(bytes);
}

// ── Dates ─────────────────────────────────────────────

/// The proleptic Gregorian date (year, month, day) of a day counted from
/// 1970-01-01, by the era arithmetic of H. Hinnant's `civil_from_days`.
pub open spec fn civil_spec(days: int) -> (int, int, int) {
    let z = days + 719468;
    let era = z / 146097;
    let doe = z - era * 146097;
    let yoe = (doe - doe / 1460 + doe / 36524 - doe / 146096) / 365;
    let y = yoe + era * 400;
    let doy = doe - (365 * yoe + yoe / 4 - yoe / 100);
    let mp = (5 * doy + 2) / 153;
    let d = doy - (153 * mp + 2) / 5 + 1;
    let m = if mp < 10 {
        mp + 3
    } else {
        mp - 9
    };
    (if m <= 2 {
        y + 1
    } else {
        y
    }, m, d)
}

/// The date of a day counted from 1970-01-01.
pub fn civil_from_days(days_since_epoch: i64) -> (r: (i64, i64, i64))
    requires
        days_since_epoch <= i64::MAX - 719468,
    ensures
        r.0 == civil_spec(days_since_epoch as int).0,
        r.1 == civil_spec(days_since_epoch as int).1,
        r.2 == civil_spec(days_since_epoch as int).2,
        1 <= r.1 <= 12,
        1 <= r.2 <= 31,
{
    let z = days_since_epoch + 719468;
    let era: i64 = if z >= 0 {
        z / 146097
    } else {
        (z - 146096) / 146097
    };
    proof {
        let ze = z as int / 146097;
        if z >= 0 {
            assert(era == ze);
        } else {
            assert(era == ze) by (nonlinear_arith)
                requires
                    z < 0,
                    era == -((146096 - z) / 146097),
                    ze == z / 146097,
            ;
        }
        assert(0 <= z - ze * 146097 < 146097) by (nonlinear_arith)
            requires
                ze == z / 146097,
        ;
    }
    assert(era * 146097 <= z) by (nonlinear_arith)
        requires
            0 <= z - era * 146097,
    ;
    let day_of_era = z - era * 146097;
    let year_of_era = (day_of_era - day_of_era / 1460 + day_of_era / 36524 - day_of_era / 146096)
        / 365;
    assert(0 <= year_of_era <= 399) by (nonlinear_arith)
        requires
            0 <= day_of_era < 146097,
            year_of_era == (day_of_era - day_of_era / 1460 + day_of_era / 36524 - day_of_era
                / 146096) / 365,
    ;
    assert(-63130000000000000 <= era <= 63130000000000000) by (nonlinear_arith)
        requires
            0 <= z - era * 146097 < 146097,
            z <= i64::MAX,
            z >= i64::MIN + 719468,
    ;
    let mut year = year_of_era + era * 400;
    let day_of_year = day_of_era - (365 * year_of_era + year_of_era / 4 - year_of_era / 100);
    assert(0 <= day_of_year <= 365) by (nonlinear_arith)
        requires
            0 <= day_of_era < 146097,
            year_of_era == (day_of_era - day_of_era / 1460 + day_of_era / 36524 - day_of_era
                / 146096) / 365,
            day_of_year == day_of_era - (365 * year_of_era + year_of_era / 4 - year_of_era / 100),
    ;
    let month_prime = (5 * day_of_year + 2) / 153;
    let day = day_of_year - (153 * month_prime + 2) / 5 + 1;
    assert(0 <= month_prime <= 11 && 1 <= day <= 31) by (nonlinear_arith)
        requires
            0 <= day_of_year <= 365,
            month_prime == (5 * day_of_year + 2) / 153,
            day == day_of_year - (153 * month_prime + 2) / 5 + 1,
    ;
    let month = month_prime + if month_prime < 10 {
        3
    } else {
        -9
    };
    year = year + if month <= 2 {
        1
    } else {
        0
    };
    (year, month, day)
}

/// `v` in decimal, zero-padded to `width` characters with the sign counted,
/// as `{:0width$}` writes it.
pub open spec fn signed_pad(v: int, width: nat) -> Seq<char> {
    if v < 0 {
        seq!['-'] + dec_pad((-v) as nat, (width - 1) as nat)
    } else {
        dec_pad(v as nat, width)
    }
}

/// The RFC 3339 UTC timestamp of a time `secs` seconds after the epoch.
pub open spec fn timestamp_spec(secs: int) -> Seq<char> {
    let (y, m, d) = civil_spec(secs / 86400);
    let sod = secs % 86400;
    signed_pad(y, 4) + seq!['-'] + dec_pad(m as nat, 2) + seq!['-'] + dec_pad(d as nat, 2) + seq!['T']
        + dec_pad((sod / 3600) as nat, 2) + seq![':'] + dec_pad(((sod % 3600) / 60) as nat, 2)
        + seq![':'] + dec_pad((sod % 60) as nat, 2) + seq!['Z']
}

/// Formats a modification time, given as seconds since the epoch, as an
/// RFC 3339 UTC timestamp (`YYYY-MM-DDTHH:MM:SSZ`).
pub fn format_modified(seconds: i64) -> (r: String)
    ensures
        r@ == timestamp_spec(seconds as int),
{
    let mut days = seconds / 86400;
    let mut seconds_of_day = seconds % 86400;
    if seconds_of_day < 0 {
        seconds_of_day = seconds_of_day + 86400;
        days = days - 1;
    }
    proof {
        let qe = seconds as int / 86400;
        let re = seconds as int % 86400;
        assert(days == qe && seconds_of_day == re) by (nonlinear_arith)
            requires
                days * 86400 + seconds_of_day == seconds,
                0 <= seconds_of_day < 86400,
                qe == seconds as int / 86400,
                re == seconds as int % 86400,
        ;
    }
    assert(days <= i64::MAX - 719468) by (nonlinear_arith)
        requires
            days * 86400 + seconds_of_day == seconds,
            0 <= seconds_of_day < 86400,
    ;
    let (year, month, day) = civil_from_days(days);
    let hour = seconds_of_day / 3600;
    let minute = (seconds_of_day % 3600) / 60;
    let second = seconds_of_day % 60;
    let mut out: Vec<char> = Vec::new();
    if year < 0 {
        out.push('-');
        push_dec_pad(&mut out, (-year) as u64, 3);
    } else {
        push_dec_pad(&mut out, year as u64, 4);
    }
    out.push('-');
    push_dec_pad(&mut out, month as u64, 2);
    out.push('-');
    push_dec_pad(&mut out, day as u64, 2);
    out.push('T');
    push_dec_pad(&mut out, hour as u64, 2);
    out.push(':');
    push_dec_pad(&mut out, minute as u64, 2);
    out.push(':');
    push_dec_pad(&mut out, second as u64, 2);
    out.push('Z');
    assert(out@ =~= timestamp_spec(seconds as int));
    string_from_chars(out.as_slice())
}

// ── Paths of resources ────────────────────────────────

/// What is left of `path` after its leading components `base`, as
/// `Path::strip_prefix` gives it (component by component).
pub open spec fn strip_prefix_spec(path: Seq<char>, base: Seq<char>) -> Option<Seq<Comp>> {
    let pc = components(path);
    let bc = components(base);
    if is_prefix(bc, pc) {
        Some(pc.skip(bc.len() as int))
    } else {
        None
    }
}

/// A component whose name starts with `.` and is not `.` itself.
pub open spec fn dot_named(c: Comp) -> bool {
    match c {
        Comp::Parent => true,
        Comp::Normal(s) => s.len() > 0 && s[0] == '.',
        _ => false,
    }
}

/// Some component of `cs` is dot-named.
pub open spec fn has_dot_named(cs: Seq<Comp>) -> bool {
    exists|i: int| 0 <= i < cs.len() && dot_named(#[trigger] cs[i])
}

/// Whether `path`, below `root`, passes through a hidden (dot-named) entry.
pub open spec fn is_hidden_spec(path: Seq<char>, root: Seq<char>) -> bool {
    match strip_prefix_spec(path, root) {
        Some(rest) => has_dot_named(rest),
        None => false,
    }
}

/// A file or directory strictly below the root whose own name starts with
/// `.` is hidden, and a hidden path always lies below the root.
pub proof fn lemma_dot_named_entry_is_hidden(path: Seq<char>, root: Seq<char>)
    ensures
        strip_prefix_spec(path, root) matches Some(rest) && rest.len() > 0 && (
        file_name_spec(path) matches Some(n) && n.len() > 0 && n[0] == '.') ==> is_hidden_spec(
            path,
            root,
        ),
        is_hidden_spec(path, root) ==> (strip_prefix_spec(path, root) matches Some(rest) && rest.len()
            > 0),
{
    if let Some(rest) = strip_prefix_spec(path, root) {
        let pc = components(path);
        let bc = components(root);
        if rest.len() > 0 {
            assert(rest[rest.len() - 1] == pc[pc.len() - 1]);
            if let Some(n) = file_name_spec(path) {
                if n.len() > 0 && n[0] == '.' {
                    assert(dot_named(rest[rest.len() - 1]));
                }
            }
        }
    }
}

pub fn component_eq(a: &PathComponent, b: &PathComponent) -> (r: bool)
    ensures
        r == (a@ == b@),
{
    match (a, b) {
        (PathComponent::RootDir, PathComponent::RootDir) => true,
        (PathComponent::CurDir, PathComponent::CurDir) => true,
        (PathComponent::ParentDir, PathComponent::ParentDir) => true,
        (PathComponent::Normal(x), PathComponent::Normal(y)) => chars_eq(x.as_slice(), y.as_slice()),
        _ => false,
    }
}

/// The components of `path` after those of `base`, when `base` leads it.
pub fn strip_components_of(path: &str, base: &str) -> (r: Option<Vec<PathComponent>>)
    ensures
        match strip_prefix_spec(path@, base@) {
            Some(rest) => r matches Some(v) && v@.map_values(|c: PathComponent| c@) == rest,
            None => r is None,
        },
{
    let pc = path_components(str_chars(path).as_slice());
    let bc = path_components(str_chars(base).as_slice());
    let ghost ps = pc@.map_values(|c: PathComponent| c@);
    let ghost bs = bc@.map_values(|c: PathComponent| c@);
    if bc.len() > pc.len() {
        return None;
    }
    let mut i: usize = 0;
    while i < bc.len()
        invariant
            bc@.len() <= pc@.len(),
            i <= bc@.len(),
            ps == pc@.map_values(|c: PathComponent| c@),
            bs == bc@.map_values(|c: PathComponent| c@),
            ps == components(path@),
            bs == components(base@),
            forall|j: int| 0 <= j < i ==> ps[j] == bs[j],
        decreases bc@.len() - i,
    {
        if !component_eq(&pc[i], &bc[i]) {
            assert(ps.take(bs.len() as int)[i as int] != bs[i as int]);
            return None;
        }
        i = i + 1;
    }
    assert(ps.take(bs.len() as int) =~= bs);
    let mut rest: Vec<PathComponent> = Vec::new();
    let mut k: usize = bc.len();
    let ghost n = bs.len() as int;
    while k < pc.len()
        invariant
            n == bc@.len(),
            n <= k <= pc@.len(),
            ps == pc@.map_values(|c: PathComponent| c@),
            rest@.map_values(|c: PathComponent| c@) == ps.subrange(n, k as int),
        decreases pc@.len() - k,
    {
        let c = match &pc[k] {
            PathComponent::RootDir => PathComponent::RootDir,
            PathComponent::CurDir => PathComponent::CurDir,
            PathComponent::ParentDir => PathComponent::ParentDir,
            PathComponent::Normal(x) => PathComponent::Normal(x.clone()),
        };
        assert(c@ == ps[k as int]);
        let ghost before = rest@.map_values(|c: PathComponent| c@);
        let ghost cv = c@;
        rest.push(c);
        assert(rest@.map_values(|c: PathComponent| c@) =~= before.push(cv));
        k = k + 1;
        assert(ps.subrange(n, k as int) =~= ps.subrange(n, k - 1).push(ps[k - 1]));
    }
    assert(ps.subrange(n, k as int) =~= ps.skip(n));
    assert(ps == components(path@));
    Some(rest)
}

/// Whether `path` lies at or below `base`, component by component
/// (`Path::starts_with`).
pub fn path_starts_with(path: &str, base: &str) -> (r: bool)
    ensures
        r == strip_prefix_spec(path@, base@) is Some,
{
    strip_components_of(path, base).is_some()
}

/// Whether `path`, below `root`, passes through a hidden (dot-named) entry;
/// a path outside `root` is not hidden.
pub fn is_hidden(path: &str, root: &str) -> (r: bool)
    ensures
        r == is_hidden_spec(path@, root@),
{
    match strip_components_of(path, root) {
        None => false,
        Some(rest) => {
            let ghost rs = rest@.map_values(|c: PathComponent| c@);
            let mut i: usize = 0;
            while i < rest.len()
                invariant
                    i <= rest@.len(),
                    rs == rest@.map_values(|c: PathComponent| c@),
                    strip_prefix_spec(path@, root@) == Some(rs),
                    forall|j: int| 0 <= j < i ==> !dot_named(#[trigger] rs[j]),
                decreases rest@.len() - i,
            {
                let hidden = match &rest[i] {
                    PathComponent::ParentDir => true,
                    PathComponent::Normal(x) => x.len() > 0 && x[0] == '.',
                    _ => false,
                };
                assert(rs[i as int] == rest@[i as int]@);
                if hidden {
                    assert(rs.len() == rest@.len());
                    assert(0 <= i < rs.len() && dot_named(rs[i as int]));
                    assert(has_dot_named(rs));
                    return true;
                }
                i = i + 1;
            }
            false
        },
    }
}

/// The last component of `path` when it is a name (`Path::file_name`).
pub open spec fn file_name_spec(path: Seq<char>) -> Option<Seq<char>> {
    let cs = components(path);
    if cs.len() > 0 {
        match cs.last() {
            Comp::Normal(s) => Some(s),
            _ => None,
        }
    } else {
        None
    }
}

/// The name of the entry `path` names, if it names one.
pub fn file_name_of(path: &str) -> (r: Option<Vec<char>>)
    ensures
        match file_name_spec(path@) {
            Some(n) => r matches Some(v) && v@ == n,
            None => r is None,
        },
{
    let cs = path_components(str_chars(path).as_slice());
    if cs.len() == 0 {
        return None;
    }
    let ghost m = cs@.map_values(|c: PathComponent| c@);
    assert(m.last() == cs@[cs@.len() - 1]@);
    match &cs[cs.len() - 1] {
        PathComponent::Normal(x) => Some(x.clone()),
        _ => None,
    }
}

/// The index of the last `c` in `s`.
pub open spec fn last_index_of(s: Seq<char>, c: char) -> Option<int>
    decreases s.len(),
{
    if s.len() == 0 {
        None
    } else if s.last() == c {
        Some(s.len() - 1)
    } else {
        last_index_of(s.drop_last(), c)
    }
}

/// The extension of the entry `path` names: what follows the last `.` of
/// its name, unless that `.` starts the name (`Path::extension`).
pub open spec fn extension_spec(path: Seq<char>) -> Option<Seq<char>> {
    match file_name_spec(path) {
        Some(f) => match last_index_of(f, '.') {
            Some(i) => if i == 0 {
                None
            } else {
                Some(f.skip(i + 1))
            },
            None => None,
        },
        None => None,
    }
}

pub fn extension_of(path: &str) -> (r: Option<Vec<char>>)
    ensures
        match extension_spec(path@) {
            Some(e) => r matches Some(v) && v@ == e,
            None => r is None,
        },
{
    let f = match file_name_of(path) {
        Some(f) => f,
        None => return None,
    };
    let mut i: usize = f.len();
    assert(f@.take(i as int) =~= f@);
    while i > 0 && f[i - 1] != '.'
        invariant
            i <= f@.len(),
            last_index_of(f@, '.') == last_index_of(f@.take(i as int), '.'),
        decreases i,
    {
        assert(f@.take(i as int).drop_last() =~= f@.take(i - 1));
        i = i - 1;
    }
    if i == 0 {
        assert(f@.take(0) =~= Seq::<char>::empty());
        return None;
    }
    assert(last_index_of(f@.take(i as int), '.') == Some(i - 1));
    if i == 1 {
        return None;
    }
    let mut e: Vec<char> = Vec::new();
    let mut k: usize = i;
    while k < f.len()
        invariant
            i <= k <= f@.len(),
            e@ == f@.subrange(i as int, k as int),
        decreases f@.len() - k,
    {
        e.push(f[k]);
        k = k + 1;
        assert(e@ =~= f@.subrange(i as int, k as int));
    }
    assert(e@ =~= f@.skip(i as int));
    Some(e)
}

// ── Content types ─────────────────────────────────────

/// What `infer::get` recognises in some bytes by their magic numbers, as a
/// MIME type (a function of the bytes alone).
pub uninterp spec fn inferred_mime(bytes: Seq<u8>) -> Option<Seq<char>>;

/// `infer::get` followed by `Type::mime_type`.
#[verifier::external_body]
pub(crate) fn infer_mime(bytes: &[u8]) -> (r: Option<String>)
    ensures
        crate::text::opt_view(r) == inferred_mime(bytes@),
{
    match infer::get(bytes) {
        Some(t) => Some(t.mime_type().to_string()),
        None => None,
    }
}

/// The byte-order marks `content_inspector` recognises.
pub open spec fn boms() -> Seq<Seq<u8>> {
    seq![
        seq![0xEFu8, 0xBBu8, 0xBFu8],
        seq![0x00u8, 0x00u8, 0xFEu8, 0xFFu8],
        seq![0xFFu8, 0xFEu8, 0x00u8, 0x00u8],
        seq![0xFEu8, 0xFFu8],
        seq![0xFFu8, 0xFEu8],
    ]
}

/// Whether `content_inspector::inspect` calls some bytes binary: no
/// byte-order mark starts them, and a zero byte occurs in the first 1024,
/// or they start with `%PDF` or `\x89PNG`.
pub open spec fn binary_spec(b: Seq<u8>) -> bool {
    &&& !(exists|k: int| 0 <= k < boms().len() && is_prefix(#[trigger] boms()[k], b))
    &&& ((exists|i: int| 0 <= i < b.len() && i < 1024 && b[i] == 0u8)
        || is_prefix(seq![0x25u8, 0x50u8, 0x44u8, 0x46u8], b)
        || is_prefix(seq![0x89u8, 0x50u8, 0x4Eu8, 0x47u8], b))
}

/// `content_inspector::inspect(bytes) == ContentType::BINARY`.
#[verifier::external_body]
pub(crate) fn content_is_binary(bytes: &[u8]) -> (r: bool)
    ensures
        r == binary_spec(bytes@),
{
    content_inspector::inspect(bytes) == content_inspector::ContentType::BINARY
}

/// The MIME type a file extension (ASCII case ignored) stands for.
pub open spec fn mime_for_extension(e: Seq<char>) -> Option<Seq<char>> {
    if e == "md"@ || e == "markdown"@ {
        Some("text/markdown"@)
    } else if e == "txt"@ || e == "log"@ {
        Some("text/plain"@)
    } else if e == "json"@ {
        Some("application/json"@)
    } else if e == "csv"@ {
        Some("text/csv"@)
    } else if e == "html"@ || e == "htm"@ {
        Some("text/html"@)
    } else if e == "css"@ {
        Some("text/css"@)
    } else if e == "js"@ || e == "mjs"@ {
        Some("text/javascript"@)
    } else if e == "rs"@ {
        Some("text/x-rust"@)
    } else if e == "toml"@ {
        Some("application/toml"@)
    } else if e == "yaml"@ || e == "yml"@ {
        Some("application/yaml"@)
    } else if e == "xml"@ {
        Some("application/xml"@)
    } else if e == "svg"@ {
        Some("image/svg+xml"@)
    } else if e == "png"@ {
        Some("image/png"@)
    } else if e == "jpg"@ || e == "jpeg"@ {
        Some("image/jpeg"@)
    } else if e == "gif"@ {
        Some("image/gif"@)
    } else if e == "webp"@ {
        Some("image/webp"@)
    } else if e == "pdf"@ {
        Some("application/pdf"@)
    } else {
        None
    }
}

fn extension_mime(e: &str) -> (r: Option<&'static str>)
    ensures
        match mime_for_extension(e@) {
            Some(m) => r matches Some(x) && x@ == m,
            None => r is None,
        },
{
    if str_eq(e, "md") || str_eq(e, "markdown") {
        Some("text/markdown")
    } else if str_eq(e, "txt") || str_eq(e, "log") {
        Some("text/plain")
    } else if str_eq(e, "json") {
        Some("application/json")
    } else if str_eq(e, "csv") {
        Some("text/csv")
    } else if str_eq(e, "html") || str_eq(e, "htm") {
        Some("text/html")
    } else if str_eq(e, "css") {
        Some("text/css")
    } else if str_eq(e, "js") || str_eq(e, "mjs") {
        Some("text/javascript")
    } else if str_eq(e, "rs") {
        Some("text/x-rust")
    } else if str_eq(e, "toml") {
        Some("application/toml")
    } else if str_eq(e, "yaml") || str_eq(e, "yml") {
        Some("application/yaml")
    } else if str_eq(e, "xml") {
        Some("application/xml")
    } else if str_eq(e, "svg") {
        Some("image/svg+xml")
    } else if str_eq(e, "png") {
        Some("image/png")
    } else if str_eq(e, "jpg") || str_eq(e, "jpeg") {
        Some("image/jpeg")
    } else if str_eq(e, "gif") {
        Some("image/gif")
    } else if str_eq(e, "webp") {
        Some("image/webp")
    } else if str_eq(e, "pdf") {
        Some("application/pdf")
    } else {
        None
    }
}

/// The MIME type of a file: what its magic numbers say, else what its
/// extension says, else plain text unless the content looks binary.
pub open spec fn mime_spec(path: Seq<char>, bytes: Seq<u8>) -> Seq<char> {
    match inferred_mime(bytes) {
        Some(m) => m,
        None => {
            let e = match extension_spec(path) {
                Some(e) => ascii_lower_seq(e),
                None => Seq::empty(),
            };
            match mime_for_extension(e) {
                Some(m) => m,
                None => if !binary_spec(bytes) {
                    "text/plain"@
                } else {
                    "application/octet-stream"@
                },
            }
        },
    }
}

/// The MIME type of the file at `path` holding `bytes`.
pub fn detect_mime(path: &str, bytes: &[u8]) -> (r: String)
    ensures
        r@ == mime_spec(path@, bytes@),
{
    if let Some(kind) = infer_mime(bytes) {
        return kind;
    }
    let ext: Vec<char> = match extension_of(path) {
        Some(e) => {
            let mut low: Vec<char> = Vec::new();
            let mut i: usize = 0;
            while i < e.len()
                invariant
                    i <= e@.len(),
                    low@ == ascii_lower_seq(e@.take(i as int)),
                decreases e@.len() - i,
            {
                low.push(to_ascii_lower(e[i]));
                i = i + 1;
                assert(low@ =~= ascii_lower_seq(e@.take(i as int)));
            }
            assert(e@.take(e@.len() as int) =~= e@);
            low
        },
        None => {
            let v: Vec<char> = Vec::new();
            v
        },
    };
    let ext = string_from_chars(ext.as_slice());
    match extension_mime(ext.as_str()) {
        Some(m) => m.to_owned(),
        None => {
            if !content_is_binary(bytes) {
                "text/plain".to_owned()
            } else {
                "application/octet-stream".to_owned()
            }
        },
    }
}

/// MIME types other than `text/*` whose content is text.
pub open spec fn textual_mimes() -> Seq<Seq<char>> {
    seq![
        "application/json"@,
        "application/xml"@,
        "application/toml"@,
        "application/yaml"@,
        "image/svg+xml"@,
    ]
}

/// Whether content of type `mime` holding `bytes` is served as text.
pub open spec fn is_text_spec(mime: Seq<char>, bytes: Seq<u8>) -> bool {
    is_prefix("text/"@, mime) || textual_mimes().contains(mime) || !binary_spec(bytes)
}

pub fn is_text(mime: &str, bytes: &[u8]) -> (r: bool)
    ensures
        r == is_text_spec(mime@, bytes@),
{
    if str_starts_with(mime, "text/") {
        return true;
    }
    let names = vec![
        "application/json",
        "application/xml",
        "application/toml",
        "application/yaml",
        "image/svg+xml",
    ];
    assert(names@.map_values(|s: &str| s@) =~= textual_mimes());
    let mut i: usize = 0;
    while i < names.len()
        invariant
            i <= names@.len(),
            names@.map_values(|s: &str| s@) == textual_mimes(),
            forall|j: int| 0 <= j < i ==> textual_mimes()[j] != mime@,
        decreases names@.len() - i,
    {
        if str_eq(names[i], mime) {
            assert(textual_mimes()[i as int] == mime@);
            return true;
        }
        i = i + 1;
    }
    !content_is_binary(bytes)
}

/// The body of a resource: its text (decoded leniently) for textual
/// content, else its bytes in base64.
pub enum ResourceBody {
    Text(String),
    Blob(String),
}

/// The body `resources/read` returns for a file with `bytes` of type `mime`.
pub fn resource_body(bytes: &[u8], mime: &str) -> (r: ResourceBody)
    ensures
        is_text_spec(mime@, bytes@) ==> (r matches ResourceBody::Text(t) && t@
            == crate::server::lossy_utf8(bytes@)),
        !is_text_spec(mime@, bytes@) ==> (r matches ResourceBody::Blob(b) && b@
            == crate::actions::files::base64_of(bytes@)),
{
    if is_text(mime, bytes) {
        ResourceBody::Text(crate::server::utf8_lossy(bytes))
    } else {
        ResourceBody::Blob(crate::actions::files::base64_encode(bytes))
    }
}

/// The preview of a file's content: for text, the first 2000 characters of
/// the text of its first 8 KiB; nothing for binary content.
pub open spec fn preview_spec(bytes: Seq<u8>, mime: Seq<char>) -> Option<Seq<char>> {
    if !is_text_spec(mime, bytes) {
        None
    } else {
        let t = crate::server::lossy_utf8(bytes.take(if bytes.len() < 8192 {
            bytes.len() as int
        } else {
            8192
        }));
        Some(t.take(if t.len() < 2000 {
            t.len() as int
        } else {
            2000
        }))
    }
}

pub fn preview(bytes: &[u8], mime: &str) -> (r: Option<String>)
    ensures
        crate::text::opt_view(r) == preview_spec(bytes@, mime@),
{
    if !is_text(mime, bytes) {
        return None;
    }
    let n = if bytes.len() < 8192 {
        bytes.len()
    } else {
        8192
    };
    let head = slice_prefix(bytes, n);
    let text = crate::server::utf8_lossy(head.as_slice());
    let chars = str_chars(text.as_str());
    let k = if chars.len() < 2000 {
        chars.len()
    } else {
        2000
    };
    let mut out: Vec<char> = Vec::new();
    let mut i: usize = 0;
    while i < k
        invariant
            i <= k <= chars@.len(),
            out@ == chars@.take(i as int),
        decreases k - i,
    {
        out.push(chars[i]);
        i = i + 1;
        assert(out@ =~= chars@.take(i as int));
    }
    Some(string_from_chars(out.as_slice()))
}

/// The first `n` bytes of `b`.
pub fn slice_prefix(b: &[u8], n: usize) -> (r: Vec<u8>)
    requires
        n <= b@.len(),
    ensures
        r@ == b@.take(n as int),
{
    let mut out: Vec<u8> = Vec::new();
    let mut i: usize = 0;
    while i < n
        invariant
            i <= n <= b@.len(),
            out@ == b@.take(i as int),
        decreases n - i,
    {
        out.push(b[i]);
        i = i + 1;
        assert(out@ =~= b@.take(i as int));
    }
    out
}

// ── Resource listing and reading ─────────────────────

/// Resources listed per page.
pub const PAGE_SIZE: usize = 250;

/// Files a listing scans at most.
pub const MAX_LISTED_FILES: usize = 10000;

/// Whether a listing that holds `listed` files stops scanning.
pub fn listing_full(listed: usize) -> (r: bool)
    ensures
        r == (listed >= MAX_LISTED_FILES),
{
    listed >= MAX_LISTED_FILES
}

/// Whether the resolved target of a followed link, `path`, lies at or
/// below one of the (canonical) allowed roots; only such files are listed.
pub fn inside_some_root(path: &str, roots: &Vec<String>) -> (r: bool)
    ensures
        r == exists|k: int| 0 <= k < roots@.len() && strip_prefix_spec(path@, (#[trigger] roots@[k])@) is Some,
{
    let mut i: usize = 0;
    while i < roots.len()
        invariant
            i <= roots@.len(),
            forall|k: int| 0 <= k < i ==> strip_prefix_spec(path@, (#[trigger] roots@[k])@) is None,
        decreases roots@.len() - i,
    {
        if path_starts_with(path, roots[i].as_str()) {
            return true;
        }
        i = i + 1;
    }
    false
}

/// Bytes of a file read for its preview.
pub const PREVIEW_BYTES: usize = 8192;

/// Following the next cursor of a `resources/list` page continues where
/// that page ended: the cursor of end `end` reads back as `end`.
pub proof fn lemma_next_cursor_resumes(end: nat)
    requires
        end <= usize::MAX,
    ensures
        crate::text::parse_unsigned_spec(crate::text::dec_spec(end), 10, usize::MAX as nat) == Some(
            end,
        ),
{
    crate::text::lemma_dec_parse_round_trip(end, usize::MAX as nat);
}

/// One page of the resource list.
pub struct Page {
    pub start: usize,
    pub end: usize,
    /// The cursor of the next page, when there is one.
    pub next_cursor: Option<String>,
}

/// The page a `resources/list` request with `cursor` asks for, among
/// `total` resources: it starts at the cursor (`0` when absent) and holds at
/// most 250 resources.
pub fn resource_page(cursor: Option<&str>, total: usize) -> (r: Result<Page, MCSError>)
    ensures
        ({
            let c = match cursor {
                Some(s) => s@,
                None => "0"@,
            };
            match crate::text::parse_unsigned_spec(c, 10, usize::MAX as nat) {
                None => r matches Err(e) && (e matches MCSError::InvalidParams(m) && m@
                    == "resources/list cursor must be an integer"@),
                Some(v) => if v > total {
                    r matches Err(e) && (e matches MCSError::InvalidParams(m) && m@
                        == "resources/list cursor is outside the result set"@)
                } else {
                    let end: int = if v + 250 < total {
                        (v + 250) as int
                    } else {
                        total as int
                    };
                    r matches Ok(p) && p.start == v && p.end == end && (end < total ==> crate::text::opt_view(p.next_cursor)
                        == Some(crate::text::dec_spec(end as nat))) && (end >= total ==> p.next_cursor is None)
                },
            }
        }),
{
    let c = match cursor {
        Some(s) => str_chars(s),
        None => str_chars("0"),
    };
    let v = match crate::text::parse_unsigned(c.as_slice(), 10, usize::MAX as u64) {
        Some(v) => v as usize,
        None => {
            return Err(
                MCSError::InvalidParams("resources/list cursor must be an integer".to_owned()),
            )
        },
    };
    if v > total {
        return Err(
            MCSError::InvalidParams("resources/list cursor is outside the result set".to_owned()),
        );
    }
    let end = if total - v > 250 {
        v + 250
    } else {
        total
    };
    let next_cursor = if end < total {
        Some(crate::text::u64_to_string(end as u64))
    } else {
        None
    };
    Ok(Page { start: v, end, next_cursor })
}

/// Checks that a resource to read is a regular file within the size cap.
pub fn check_resource(uri: &str, is_file: bool, size: u64, max_file_size: u64) -> (r: Result<(), MCSError>)
    ensures
        !is_file ==> (r matches Err(e) && (e matches MCSError::InvalidParams(m) && m@
            == "Resource URI does not identify a regular file: "@ + uri@)),
        is_file && size > max_file_size ==> (r matches Err(e) && (e matches MCSError::FilesystemError(m)
            && m@ == "Resource size "@ + crate::text::dec_spec(size as nat)
            + " exceeds maximum allowed size "@ + crate::text::dec_spec(max_file_size as nat))),
        is_file && size <= max_file_size ==> r is Ok,
{
    if !is_file {
        return Err(MCSError::InvalidParams(concat("Resource URI does not identify a regular file: ", uri)));
    }
    if size > max_file_size {
        let mut m = "Resource size ".to_owned();
        string_push_str(&mut m, crate::text::u64_to_string(size).as_str());
        string_push_str(&mut m, " exceeds maximum allowed size ");
        string_push_str(&mut m, crate::text::u64_to_string(max_file_size).as_str());
        return Err(MCSError::FilesystemError(m));
    }
    Ok(())
}

} // verus!
