//! Request admission for the HTTP transport: content types, origins,
//! bearer tokens, accepted media types, protocol versions and sessions.

use vstd::prelude::*;

use crate::text::{concat, is_prefix, str_chars, str_eq, str_starts_with, string_from_chars, trim_chars, trim_spec};
use crate::tools::{ToolCategory, tool_table};

verus! {

/// Whether `a` and `b` are equal when ASCII letters are compared without
/// case (`eq_ignore_ascii_case`).
pub open spec fn eq_ignore_ascii_case(a: Seq<char>, b: Seq<char>) -> bool {
    crate::text::ascii_lower_seq(a) == crate::text::ascii_lower_seq(b)
}

/// `s` holds `://` at `i`.
pub open spec fn scheme_sep_at(s: Seq<char>, i: int) -> bool {
    0 <= i && i + 3 <= s.len() && s[i] == ':' && s[i + 1] == '/' && s[i + 2] == '/'
}

/// The part of `s` after the first `://`, if there is one.
pub open spec fn after_scheme(s: Seq<char>) -> Option<Seq<char>> {
    if exists|i: int| #[trigger] scheme_sep_at(s, i) {
        let i = choose|i: int| #[trigger] scheme_sep_at(s, i) && forall|j: int| 0 <= j < i ==> !scheme_sep_at(s, j);
        Some(s.skip(i + 3))
    } else {
        None
    }
}

/// Whether a request from `origin` is allowed: requests without an origin
/// are; the `null` origin is not; configured origins are; otherwise the
/// origin's authority must be the request's host.
pub open spec fn origin_allowed_spec(origin: Option<Seq<char>>, host: Option<Seq<char>>, configured: Seq<Seq<char>>) -> bool {
    match origin {
        None => true,
        Some(o) => if o == "null"@ {
            false
        } else if configured.contains(o) {
            true
        } else {
            match host {
                None => false,
                Some(h) => match after_scheme(o) {
                    Some(a) => eq_ignore_ascii_case(a, h),
                    None => false,
                },
            }
        },
    }
}

fn find_scheme_end(s: &[char]) -> (r: Option<usize>)
    ensures
        match after_scheme(s@) {
            Some(a) => r matches Some(k) && k <= s@.len() && s@.skip(k as int) == a,
            None => r is None,
        },
{
    let mut i: usize = 0;
    while s.len() >= 3 && i <= s.len() - 3
        invariant
            i <= s@.len(),
            forall|j: int| 0 <= j < i ==> !scheme_sep_at(s@, j),
        decreases s@.len() - i,
    {
        if s[i] == ':' && s[i + 1] == '/' && s[i + 2] == '/' {
            assert(scheme_sep_at(s@, i as int));
            proof {
                let c = choose|c: int| #[trigger] scheme_sep_at(s@, c) && forall|j: int| 0 <= j < c ==> !scheme_sep_at(s@, j);
                if c > i {
                    assert(!scheme_sep_at(s@, i as int));
                }
            }
            return Some(i + 3);
        }
        i = i + 1;
    }
    proof {
        if exists|k: int| #[trigger] scheme_sep_at(s@, k) {
            let k = choose|k: int| #[trigger] scheme_sep_at(s@, k);
            assert(k < i);
        }
    }
    None
}

/// Whether one of `v` is `s`.
pub fn contains_str(v: &Vec<String>, s: &str) -> (r: bool)
    ensures
        r == crate::actions::files::views(v@).contains(s@),
{
    let ghost cs = crate::actions::files::views(v@);
    let mut i: usize = 0;
    while i < v.len()
        invariant
            i <= v@.len(),
            cs == crate::actions::files::views(v@),
            forall|j: int| 0 <= j < i ==> cs[j] != s@,
        decreases v@.len() - i,
    {
        if str_eq(v[i].as_str(), s) {
            assert(cs[i as int] == s@);
            return true;
        }
        i = i + 1;
    }
    false
}

/// `s` with ASCII capitals lowered.
fn lower_chars(s: &[char]) -> (r: Vec<char>)
    ensures
        r@ == crate::text::ascii_lower_seq(s@),
{
    let mut a: Vec<char> = Vec::new();
    let mut j: usize = 0;
    while j < s.len()
        invariant
            j <= s@.len(),
            a@ == crate::text::ascii_lower_seq(s@.take(j as int)),
        decreases s@.len() - j,
    {
        a.push(crate::text::to_ascii_lower(s[j]));
        j = j + 1;
        assert(a@ =~= crate::text::ascii_lower_seq(s@.take(j as int)));
    }
    assert(s@.take(j as int) =~= s@);
    a
}

/// Whether the authority of `origin` (after `://`) is `host`, ASCII case
/// ignored.
fn authority_matches(origin: &str, host: &str) -> (r: bool)
    ensures
        r == match after_scheme(origin@) {
            Some(a) => eq_ignore_ascii_case(a, host@),
            None => false,
        },
{
    let oc = str_chars(origin);
    match find_scheme_end(oc.as_slice()) {
        None => false,
        Some(k) => {
            let mut rest: Vec<char> = Vec::new();
            let mut j: usize = k;
            while j < oc.len()
                invariant
                    k <= j <= oc@.len(),
                    rest@ == oc@.subrange(k as int, j as int),
                decreases oc@.len() - j,
            {
                rest.push(oc[j]);
                j = j + 1;
                assert(rest@ =~= oc@.subrange(k as int, j as int));
            }
            assert(rest@ =~= oc@.skip(k as int));
            let a = lower_chars(rest.as_slice());
            let b = lower_chars(str_chars(host).as_slice());
            crate::path::chars_eq(a.as_slice(), b.as_slice())
        },
    }
}

/// Whether a request from `origin` is allowed, given the request's `host`
/// and the configured origins.
pub fn origin_allowed(origin: Option<&str>, host: Option<&str>, configured: &Vec<String>) -> (r: bool)
    ensures
        r == origin_allowed_spec(
            crate::text::opt_str_view(origin),
            crate::text::opt_str_view(host),
            crate::actions::files::views(configured@),
        ),
{
    let o = match origin {
        None => return true,
        Some(o) => o,
    };
    if str_eq(o, "null") {
        return false;
    }
    if contains_str(configured, o) {
        return true;
    }
    match host {
        None => false,
        Some(h) => authority_matches(o, h),
    }
}

/// The items of a comma-separated list.
pub open spec fn split_on(s: Seq<char>, sep: char) -> Seq<Seq<char>> {
    split_from(s, sep, Seq::empty())
}

/// The items of `s` split at `sep`, where `cur` is the item read so far.
pub open spec fn split_from(s: Seq<char>, sep: char, cur: Seq<char>) -> Seq<Seq<char>>
    decreases s.len(),
{
    if s.len() == 0 {
        seq![cur]
    } else if s[0] == sep {
        seq![cur] + split_from(s.drop_first(), sep, Seq::empty())
    } else {
        split_from(s.drop_first(), sep, cur.push(s[0]))
    }
}

/// The parts of `s` split at `sep` (`str::split`).
pub fn split_chars(s: &[char], sep: char) -> (r: Vec<Vec<char>>)
    ensures
        r@.map_values(|v: Vec<char>| v@) == split_on(s@, sep),
{
    let mut out: Vec<Vec<char>> = Vec::new();
    let mut cur: Vec<char> = Vec::new();
    let mut i: usize = 0;
    assert(s@.skip(0) =~= s@);
    while i < s.len()
        invariant
            i <= s@.len(),
            out@.map_values(|v: Vec<char>| v@) + split_from(s@.skip(i as int), sep, cur@) == split_on(s@, sep),
        decreases s@.len() - i,
    {
        assert(s@.skip(i as int).drop_first() =~= s@.skip(i + 1));
        if s[i] == sep {
            let ghost before = out@.map_values(|v: Vec<char>| v@);
            let ghost cv = cur@;
            out.push(cur);
            assert(out@.map_values(|v: Vec<char>| v@) =~= before.push(cv));
            assert(before + (seq![cv] + split_from(s@.skip(i + 1), sep, Seq::empty())) =~= before.push(cv)
                + split_from(s@.skip(i + 1), sep, Seq::empty()));
            cur = Vec::new();
            assert(cur@ =~= Seq::<char>::empty());
        } else {
            cur.push(s[i]);
        }
        i = i + 1;
    }
    assert(s@.skip(i as int) =~= Seq::<char>::empty());
    let ghost before = out@.map_values(|v: Vec<char>| v@);
    let ghost cv = cur@;
    out.push(cur);
    assert(out@.map_values(|v: Vec<char>| v@) =~= before.push(cv));
    assert(before + seq![cv] =~= before.push(cv));
    out
}

/// The media type of one `Accept` item: what precedes its first `;`, trimmed.
pub open spec fn media_type_of(item: Seq<char>) -> Seq<char> {
    trim_spec(split_on(item, ';')[0])
}

/// Whether one `Accept` item admits `mime` (by name or by `*/*`).
pub open spec fn item_accepts(item: Seq<char>, mime: Seq<char>) -> bool {
    media_type_of(item) == mime || media_type_of(item) == "*/*"@
}

/// Whether the `Accept` value `v` admits `mime`: one of its items does.
pub open spec fn value_accepts(v: Seq<char>, mime: Seq<char>) -> bool {
    exists|k: int| 0 <= k < split_on(v, ',').len() && #[trigger] item_accepts(split_on(v, ',')[k], mime)
}

/// Whether an `Accept` header (when present) admits `mime`.
pub open spec fn accepts_spec(accept: Option<Seq<char>>, mime: Seq<char>) -> bool {
    match accept {
        None => false,
        Some(v) => value_accepts(v, mime),
    }
}

proof fn lemma_split_nonempty(s: Seq<char>, sep: char, cur: Seq<char>)
    ensures
        split_from(s, sep, cur).len() > 0,
    decreases s.len(),
{
    if s.len() > 0 {
        if s[0] == sep {
            lemma_split_nonempty(s.drop_first(), sep, Seq::empty());
        } else {
            lemma_split_nonempty(s.drop_first(), sep, cur.push(s[0]));
        }
    }
}

/// Whether the `Accept` header value admits `mime`.
pub fn accepts(accept: Option<&str>, mime: &str) -> (r: bool)
    ensures
        r == accepts_spec(crate::text::opt_str_view(accept), mime@),
{
    let v = match accept {
        None => return false,
        Some(v) => v,
    };
    let items = split_chars(str_chars(v).as_slice(), ',');
    let ghost parts = split_on(v@, ',');
    let mimec = str_chars(mime);
    let star = str_chars("*/*");
    let mut k: usize = 0;
    while k < items.len()
        invariant
            k <= items@.len(),
            items@.map_values(|x: Vec<char>| x@) == parts,
            parts == split_on(v@, ','),
            mimec@ == mime@,
            star@ == "*/*"@,
            crate::text::opt_str_view(accept) == Some(v@),
            forall|j: int| 0 <= j < k ==> !#[trigger] item_accepts(parts[j], mime@),
        decreases items@.len() - k,
    {
        let sub = split_chars(items[k].as_slice(), ';');
        proof {
            lemma_split_nonempty(items@[k as int]@, ';', Seq::empty());
        }
        let t = trim_chars(sub[0].as_slice());
        assert(t@ == media_type_of(parts[k as int]));
        if crate::path::chars_eq(t.as_slice(), mimec.as_slice()) || crate::path::chars_eq(
            t.as_slice(),
            star.as_slice(),
        ) {
            assert(item_accepts(parts[k as int], mime@));
            return true;
        }
        k = k + 1;
    }
    false
}

/// Whether a `Content-Type` value announces JSON.
pub fn is_json_content_type(content_type: Option<&str>) -> (r: bool)
    ensures
        r == match content_type {
            Some(v) => is_prefix("application/json"@, v@),
            None => false,
        },
{
    match content_type {
        Some(v) => str_starts_with(v, "application/json"),
        None => false,
    }
}

/// The refusal of a request naming a protocol version the server does not
/// speak; requests naming none are let through.
pub fn reject_protocol_version(version: Option<&str>) -> (r: Option<String>)
    ensures
        match version {
            None => r is None,
            Some(v) => if crate::server::supported_versions().contains(v@) {
                r is None
            } else {
                r matches Some(m) && m@ == "Unsupported MCP-Protocol-Version: "@ + v@
            },
        },
{
    match version {
        None => None,
        Some(v) => {
            if crate::server::is_supported_protocol_version(v) {
                None
            } else {
                Some(concat("Unsupported MCP-Protocol-Version: ", v))
            }
        },
    }
}

/// The origins configured in `MCP_ALLOWED_ORIGINS`: its comma-separated
/// items, trimmed, empty ones dropped.
pub open spec fn allowed_origins_spec(s: Seq<char>) -> Seq<Seq<char>> {
    split_on(s, ',').map_values(|x: Seq<char>| trim_spec(x)).filter(|x: Seq<char>| x.len() > 0)
}

pub fn parse_allowed_origins(value: &str) -> (r: Vec<String>)
    ensures
        crate::actions::files::views(r@) == allowed_origins_spec(value@),
{
    let items = split_chars(str_chars(value).as_slice(), ',');
    let ghost parts = split_on(value@, ',');
    let ghost trimmed = parts.map_values(|x: Seq<char>| trim_spec(x));
    let mut out: Vec<String> = Vec::new();
    let mut k: usize = 0;
    while k < items.len()
        invariant
            k <= items@.len(),
            items@.map_values(|x: Vec<char>| x@) == parts,
            trimmed == parts.map_values(|x: Seq<char>| trim_spec(x)),
            crate::actions::files::views(out@) == trimmed.take(k as int).filter(|x: Seq<char>| x.len() > 0),
        decreases items@.len() - k,
    {
        let t = trim_chars(items[k].as_slice());
        assert(t@ == trimmed[k as int]);
        let ghost before = crate::actions::files::views(out@);
        assert(trimmed.take(k + 1) =~= trimmed.take(k as int).push(trimmed[k as int]));
        proof {
            trimmed.take(k as int).lemma_filter_push(trimmed[k as int], |x: Seq<char>| x.len() > 0);
        }
        if t.len() > 0 {
            let s = string_from_chars(t.as_slice());
            out.push(s);
            assert(crate::actions::files::views(out@) =~= before.push(t@));
        }
        k = k + 1;
    }
    assert(trimmed.take(k as int) =~= trimmed);
    out
}

/// The session a request names: a non-empty `Mcp-Session-Id` header.
pub fn session_of(header: Option<&str>) -> (r: Option<String>)
    ensures
        crate::text::opt_view(r) == match header {
            Some(v) => if v@.len() > 0 {
                Some(v@)
            } else {
                None
            },
            None => None,
        },
{
    match header {
        Some(v) => if str_chars(v).len() > 0 {
            Some(v.to_owned())
        } else {
            None
        },
        None => None,
    }
}

/// Why a request is refused before it is read.
#[derive(Debug, Clone, Copy, PartialEq, Eq, Structural)]
pub enum Rejection {
    /// 415: the body is not announced as JSON.
    UnsupportedMediaType,
    /// 403: the origin is not allowed.
    Forbidden,
    /// 401: the bearer token is missing or wrong.
    Unauthorized,
}

/// The checks every HTTP request passes, in order: JSON content type (when
/// the endpoint takes a body), origin, then the bearer token when one is
/// configured. `token_ok` is the outcome of the token comparison.
pub fn request_rejection(require_json: bool, json_body: bool, origin_ok: bool, token_required: bool, token_ok: bool) -> (r: Option<Rejection>)
    ensures
        r == if require_json && !json_body {
            Some(Rejection::UnsupportedMediaType)
        } else if !origin_ok {
            Some(Rejection::Forbidden)
        } else if token_required && !token_ok {
            Some(Rejection::Unauthorized)
        } else {
            None
        },
{
    if require_json && !json_body {
        return Some(Rejection::UnsupportedMediaType);
    }
    if !origin_ok {
        return Some(Rejection::Forbidden);
    }
    if token_required && !token_ok {
        return Some(Rejection::Unauthorized);
    }
    None
}

/// How many tools belong to enabled categories.
pub open spec fn enabled_count_spec(tbl: Seq<(Seq<char>, ToolCategory, bool)>, enabled: Seq<ToolCategory>) -> nat
    decreases tbl.len(),
{
    if tbl.len() == 0 {
        0
    } else {
        enabled_count_spec(tbl.drop_last(), enabled) + if enabled.contains(tbl.last().1) {
            1nat
        } else {
            0nat
        }
    }
}

/// The number of tools the enabled categories expose.
pub fn enabled_tool_count(enabled: &[ToolCategory]) -> (r: usize)
    ensures
        r == enabled_count_spec(tool_table(), enabled@),
{
    let tools = crate::tools::all_tools();
    let ghost tbl = tool_table();
    let mut count: usize = 0;
    let mut i: usize = 0;
    while i < tools.len()
        invariant
            tools@.map_values(|t: crate::tools::ToolMeta| t@) == tbl,
            i <= tbl.len(),
            count == enabled_count_spec(tbl.take(i as int), enabled@),
            count <= i,
        decreases tbl.len() - i,
    {
        assert(tbl.take(i + 1).drop_last() =~= tbl.take(i as int));
        assert(tbl.take(i + 1).last() == tools@[i as int]@);
        let c = tools[i].category;
        let mut found = false;
        let mut j: usize = 0;
        while j < enabled.len()
            invariant
                j <= enabled@.len(),
                found == enabled@.take(j as int).contains(c),
            decreases enabled@.len() - j,
        {
            proof {
                let t = enabled@.take(j + 1);
                assert(t =~= enabled@.take(j as int).push(enabled@[j as int]));
                if found {
                    let w = choose|w: int| 0 <= w < j && enabled@.take(j as int)[w] == c;
                    assert(t[w] == c);
                }
                if enabled@[j as int] == c {
                    assert(t[j as int] == c);
                }
                if !found && enabled@[j as int] != c {
                    assert forall|w: int| 0 <= w < t.len() implies t[w] != c by {
                        if w < j {
                            assert(t[w] == enabled@.take(j as int)[w]);
                        }
                    }
                }
            }
            found = found || enabled[j] == c;
            j = j + 1;
        }
        assert(enabled@.take(j as int) =~= enabled@);
        if found {
            count = count + 1;
        }
        i = i + 1;
    }
    assert(tbl.take(i as int) =~= tbl);
    count
}

} // verus!
