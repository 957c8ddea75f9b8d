//! Compression and archives: levels, output paths, archive formats, the
//! decompression-bomb guard and the safety checks of tar extraction.

use vstd::prelude::*;

use crate::errors::MCSError;
use crate::path::{components, has_root, push_path, push_path_exec, scan, seg_comp, starts_with_cur_dir, Comp};
use crate::resources::strip_prefix_spec;
use crate::text::{concat, dec_spec, str_chars, str_eq, string_from_chars, string_push_str, u64_to_string};

verus! {

/// The gzip level of a request: 6 by default, clamped to `0..=9`.
pub fn gzip_level(level: Option<i64>) -> (r: u32)
    ensures
        r == match level {
            Some(l) => if l < 0 {
                0
            } else if l > 9 {
                9
            } else {
                l as u32
            },
            None => 6,
        },
{
    match level {
        Some(l) => if l < 0 {
            0
        } else if l > 9 {
            9
        } else {
            l as u32
        },
        None => 6,
    }
}

/// The zstd level of a request: 3 by default, clamped to `1..=22`.
pub fn zstd_level(level: Option<i64>) -> (r: i32)
    ensures
        r == match level {
            Some(l) => if l < 1 {
                1
            } else if l > 22 {
                22
            } else {
                l as i32
            },
            None => 3,
        },
{
    match level {
        Some(l) => if l < 1 {
            1
        } else if l > 22 {
            22
        } else {
            l as i32
        },
        None => 3,
    }
}

/// Two paths name the same place, component by component (`Path` equality).
pub open spec fn same_path(a: Seq<char>, b: Seq<char>) -> bool {
    components(a) == components(b)
}

/// Refuses an output path equal to the source.
pub fn check_output_differs(source: &str, output: &str) -> (r: Result<(), MCSError>)
    ensures
        !same_path(source@, output@) <==> r is Ok,
        r matches Err(e) ==> (e matches MCSError::InvalidParams(m) && m@
            == "Output path must differ from source"@),
{
    let a = crate::path::path_components(str_chars(source).as_slice());
    let b = crate::path::path_components(str_chars(output).as_slice());
    let ghost am = a@.map_values(|c: crate::path::PathComponent| c@);
    let ghost bm = b@.map_values(|c: crate::path::PathComponent| c@);
    let mut same = a.len() == b.len();
    assert(!same ==> am.len() != bm.len());
    let mut i: usize = 0;
    while same && i < a.len()
        invariant
            same ==> a@.len() == b@.len(),
            am == a@.map_values(|c: crate::path::PathComponent| c@),
            bm == b@.map_values(|c: crate::path::PathComponent| c@),
            !same ==> am != bm,
            i <= a@.len(),
            same ==> forall|j: int| 0 <= j < i ==> am[j] == bm[j],
        decreases a@.len() - i,
    {
        if !crate::resources::component_eq(&a[i], &b[i]) {
            assert(am[i as int] != bm[i as int]);
            same = false;
        }
        i = i + 1;
    }
    if same {
        assert(am =~= bm);
        return Err(MCSError::InvalidParams("Output path must differ from source".to_owned()));
    }
    Ok(())
}

/// Refuses a tar output that is the source or lies inside it.
pub fn check_tar_output(source: &str, output: &str) -> (r: Result<(), MCSError>)
    ensures
        strip_prefix_spec(output@, source@) is None <==> r is Ok,
        r matches Err(e) ==> (e matches MCSError::InvalidParams(m) && m@
            == "Output path must not be inside the source directory"@),
{
    if crate::resources::path_starts_with(output, source) {
        return Err(
            MCSError::InvalidParams(
                "Output path must not be inside the source directory".to_owned(),
            ),
        );
    }
    Ok(())
}

/// The compression wrapped around a created tar archive.
#[derive(Debug, Clone, Copy, PartialEq, Eq, Structural)]
pub enum TarCompression {
    Gzip,
    Zstd,
    Plain,
}

/// `gzip`/`gz` and `zstd`/`zst` name compressions; anything else none.
pub fn tar_compression(name: &str) -> (r: TarCompression)
    ensures
        r == if name@ == "gzip"@ || name@ == "gz"@ {
            TarCompression::Gzip
        } else if name@ == "zstd"@ || name@ == "zst"@ {
            TarCompression::Zstd
        } else {
            TarCompression::Plain
        },
{
    if str_eq(name, "gzip") || str_eq(name, "gz") {
        TarCompression::Gzip
    } else if str_eq(name, "zstd") || str_eq(name, "zst") {
        TarCompression::Zstd
    } else {
        TarCompression::Plain
    }
}

/// The compression of an archive to extract, by its first four bytes:
/// gzip's `1f 8b 08`, zstd's `28 b5 2f fd`, or none.
pub fn archive_compression(magic: &[u8; 4]) -> (r: TarCompression)
    ensures
        r == if magic@[0] == 0x1f && magic@[1] == 0x8b && magic@[2] == 0x08 {
            TarCompression::Gzip
        } else if magic@[0] == 0x28 && magic@[1] == 0xb5 && magic@[2] == 0x2f && magic@[3] == 0xfd {
            TarCompression::Zstd
        } else {
            TarCompression::Plain
        },
{
    if magic[0] == 0x1f && magic[1] == 0x8b && magic[2] == 0x08 {
        TarCompression::Gzip
    } else if magic[0] == 0x28 && magic[1] == 0xb5 && magic[2] == 0x2f && magic[3] == 0xfd {
        TarCompression::Zstd
    } else {
        TarCompression::Plain
    }
}

/// The message when decompressed output passes the cap.
pub open spec fn bomb_message(limit: u64) -> Seq<char> {
    "Decompressed output exceeds maximum allowed size of "@ + dec_spec(limit as nat) + " bytes"@
}

/// `a + b`, or `u64::MAX` when that overflows (`u64::saturating_add`).
pub open spec fn sat_add(a: u64, b: u64) -> u64 {
    if a + b <= u64::MAX {
        (a + b) as u64
    } else {
        u64::MAX
    }
}

fn saturating(a: u64, b: u64) -> (r: u64)
    ensures
        r == sat_add(a, b),
{
    match a.checked_add(b) {
        Some(v) => v,
        None => u64::MAX,
    }
}

/// Whether a decompressing writer that has written `written` bytes may
/// write `len` more under the cap `limit`.
pub fn admit_write(written: u64, len: usize, limit: u64) -> (r: Result<(), String>)
    ensures
        (sat_add(written, len as u64) <= limit) <==> r is Ok,
        r matches Err(m) ==> m@ == bomb_message(limit),
{
    let new_total = saturating(written, len as u64);
    if new_total > limit {
        let mut m = "Decompressed output exceeds maximum allowed size of ".to_owned();
        string_push_str(&mut m, u64_to_string(limit).as_str());
        string_push_str(&mut m, " bytes");
        return Err(m);
    }
    Ok(())
}

/// The total of some chunk lengths.
pub open spec fn total_of(lens: Seq<u64>) -> int
    decreases lens.len(),
{
    if lens.len() == 0 {
        0
    } else {
        total_of(lens.drop_last()) + lens.last()
    }
}

/// A decompressing writer that asks `admit_write` before each chunk, with
/// the total it has written so far, never writes more than the limit (a
/// limit below `u64::MAX`: at `u64::MAX` the saturating check admits all).
pub proof fn lemma_admitted_writes_within_limit(lens: Seq<u64>, limit: u64)
    requires
        limit < u64::MAX,
        forall|i: int|
            0 <= i < lens.len() ==> total_of(lens.take(i)) <= u64::MAX && sat_add(
                total_of(lens.take(i)) as u64,
                #[trigger] lens[i],
            ) <= limit,
    ensures
        total_of(lens) <= limit,
    decreases lens.len(),
{
    if lens.len() > 0 {
        let init = lens.drop_last();
        assert forall|i: int| 0 <= i < init.len() implies total_of(init.take(i)) <= u64::MAX
            && sat_add(total_of(init.take(i)) as u64, #[trigger] init[i]) <= limit by {
            assert(init.take(i) =~= lens.take(i));
            assert(init[i] == lens[i]);
        }
        lemma_admitted_writes_within_limit(init, limit);
        let k = lens.len() - 1;
        assert(lens.take(k) =~= init);
        assert(lens[k] == lens.last());
    }
}

/// Why an entry of an archive is not extracted.
pub open spec fn unsafe_entry(is_link: bool, path: Seq<char>) -> bool {
    is_link || has_root(path) || components(path).contains(Comp::Parent)
}

/// What extracting one tar entry does: refused when it is a link, when its
/// path is absolute or climbs with `..`, or when the running total passes
/// the cap; otherwise the new total and where the entry goes.
pub fn check_tar_entry(
    is_link: bool,
    path: &str,
    total: u64,
    size: u64,
    max_total: u64,
    output: &str,
) -> (r: Result<(u64, String), String>)
    ensures
        is_link ==> (r matches Err(m) && m@
            == "Tar archive contains symlink/hardlink entries, which are not allowed"@),
        !is_link && unsafe_entry(false, path@) ==> (r matches Err(m) && m@ == "Unsafe tar path: "@
            + path@),
        !unsafe_entry(is_link, path@) && sat_add(total, size) > max_total ==> (r matches Err(m) && m@
            == "Tar extraction exceeds maximum allowed size of "@ + dec_spec(max_total as nat)
            + " bytes"@),
        !unsafe_entry(is_link, path@) && sat_add(total, size) <= max_total ==> (r matches Ok((t, target))
            && t == sat_add(total, size) && target@ == push_path(output@, path@)),
{
    if is_link {
        return Err("Tar archive contains symlink/hardlink entries, which are not allowed".to_owned());
    }
    let chars = str_chars(path);
    let comps = crate::path::path_components(chars.as_slice());
    let ghost cm = comps@.map_values(|c: crate::path::PathComponent| c@);
    let mut climbs = false;
    let mut i: usize = 0;
    while i < comps.len()
        invariant
            i <= comps@.len(),
            cm == comps@.map_values(|c: crate::path::PathComponent| c@),
            climbs == cm.take(i as int).contains(Comp::Parent),
        decreases comps@.len() - i,
    {
        let is_parent = match &comps[i] {
            crate::path::PathComponent::ParentDir => true,
            _ => false,
        };
        assert(cm.take(i + 1) =~= cm.take(i as int).push(cm[i as int]));
        assert(is_parent == (cm[i as int] == Comp::Parent));
        proof {
            let t = cm.take(i + 1);
            if climbs {
                let j = choose|j: int| 0 <= j < i && cm.take(i as int)[j] == Comp::Parent;
                assert(t[j] == Comp::Parent);
            }
            if is_parent {
                assert(t[i as int] == Comp::Parent);
            }
            if !climbs && !is_parent {
                assert forall|j: int| 0 <= j < t.len() implies t[j] != Comp::Parent by {
                    if j < i {
                        assert(t[j] == cm.take(i as int)[j]);
                    }
                }
            }
        }
        climbs = climbs || is_parent;
        i = i + 1;
    }
    assert(cm.take(i as int) =~= cm);
    if (chars.len() > 0 && chars[0] == '/') || climbs {
        return Err(concat("Unsafe tar path: ", path));
    }
    let new_total = saturating(total, size);
    if new_total > max_total {
        let mut m = "Tar extraction exceeds maximum allowed size of ".to_owned();
        string_push_str(&mut m, u64_to_string(max_total).as_str());
        string_push_str(&mut m, " bytes");
        return Err(m);
    }
    let mut target = str_chars(output);
    push_path_exec(&mut target, chars.as_slice());
    Ok((new_total, string_from_chars(target.as_slice())))
}

/// The entries of a directory archived into a tar: every walked path but
/// the source itself.
pub fn tar_entries(source: &str, is_dir: bool, walked: Vec<String>) -> (r: Vec<String>)
    ensures
        !is_dir ==> r@.len() == 1 && r@[0]@ == source@,
        is_dir ==> crate::actions::files::views(r@) == crate::actions::files::views(walked@).filter(
            |p: Seq<char>| p != source@,
        ),
{
    if !is_dir {
        return vec![source.to_owned()];
    }
    let ghost ws = crate::actions::files::views(walked@);
    let mut out: Vec<String> = Vec::new();
    let mut i: usize = 0;
    while i < walked.len()
        invariant
            i <= walked@.len(),
            ws == crate::actions::files::views(walked@),
            crate::actions::files::views(out@) == ws.take(i as int).filter(|p: Seq<char>| p != source@),
        decreases walked@.len() - i,
    {
        let ghost before = crate::actions::files::views(out@);
        assert(ws.take(i + 1).drop_last() =~= ws.take(i as int));
        if !str_eq(walked[i].as_str(), source) {
            let p = walked[i].clone();
            out.push(p);
            assert(crate::actions::files::views(out@) =~= before.push(ws[i as int]));
        }
        assert(ws.take(i + 1).filter(|p: Seq<char>| p != source@) =~= (if ws[i as int] != source@ {
            ws.take(i as int).filter(|p: Seq<char>| p != source@).push(ws[i as int])
        } else {
            ws.take(i as int).filter(|p: Seq<char>| p != source@)
        })) by {
            assert(ws.take(i + 1) =~= ws.take(i as int).push(ws[i as int]));
            ws.take(i as int).lemma_filter_push(ws[i as int], |p: Seq<char>| p != source@);
        }
        i = i + 1;
    }
    assert(ws.take(i as int) =~= ws);
    out
}

/// Scanning `a`, a separator, then `b` reads the components of `a` and
/// then those of `b`.
proof fn lemma_scan_split(a: Seq<char>, b: Seq<char>, cur: Seq<char>)
    ensures
        scan(a + seq!['/'] + b, cur) == scan(a, cur) + scan(b, Seq::empty()),
    decreases a.len(),
{
    let whole = a + seq!['/'] + b;
    if a.len() == 0 {
        assert(whole.drop_first() =~= b);
    } else {
        assert(whole[0] == a[0]);
        assert(whole.drop_first() =~= a.drop_first() + seq!['/'] + b);
        if a[0] == '/' {
            lemma_scan_split(a.drop_first(), b, Seq::empty());
            assert(seg_comp(cur) + (scan(a.drop_first(), Seq::empty()) + scan(b, Seq::empty())) =~= (
            seg_comp(cur) + scan(a.drop_first(), Seq::empty())) + scan(b, Seq::empty()));
        } else {
            lemma_scan_split(a.drop_first(), b, cur.push(a[0]));
        }
    }
}

/// Scanning never reads a root component.
proof fn lemma_scan_no_root(p: Seq<char>, cur: Seq<char>)
    ensures
        !scan(p, cur).contains(Comp::Root),
    decreases p.len(),
{
    if p.len() == 0 {
        assert(!seg_comp(cur).contains(Comp::Root));
    } else if p[0] == '/' {
        lemma_scan_no_root(p.drop_first(), Seq::empty());
        assert(!seg_comp(cur).contains(Comp::Root));
        let l = seg_comp(cur);
        let r = scan(p.drop_first(), Seq::empty());
        assert forall|k: int| 0 <= k < (l + r).len() implies (l + r)[k] != Comp::Root by {
            if k < l.len() {
                assert((l + r)[k] == l[k]);
            } else {
                assert((l + r)[k] == r[k - l.len()]);
            }
        }
    } else {
        lemma_scan_no_root(p.drop_first(), cur.push(p[0]));
    }
}

/// The components of a path with something after it start as its own.
proof fn lemma_head_kept(a: Seq<char>, rest: Seq<char>)
    requires
        a.len() > 0,
        a.len() > 1 || a[0] != '.' || rest.len() == 0 || rest[0] == '/',
    ensures
        has_root(a + rest) == has_root(a),
        starts_with_cur_dir(a + rest) == starts_with_cur_dir(a),
{
    assert((a + rest)[0] == a[0]);
    if rest.len() == 0 {
        assert(a + rest =~= a);
    } else if a.len() > 1 {
        assert((a + rest)[1] == a[1]);
    } else {
        assert((a + rest)[1] == rest[0]);
    }
}

/// Extraction stays inside the output directory: the target of an entry
/// that is neither a link, nor absolute, nor climbing with `..` has the
/// components of the output directory, followed by components that never
/// climb and never restart at the root.
pub proof fn lemma_entry_stays_inside(output: Seq<char>, path: Seq<char>)
    requires
        !unsafe_entry(false, path),
    ensures
        exists|rest: Seq<Comp>|
            components(push_path(output, path)) == components(output) + rest && !rest.contains(
                Comp::Parent,
            ) && !rest.contains(Comp::Root),
{
    let sp = scan(path, Seq::empty());
    let cp = components(path);
    lemma_scan_no_root(path, Seq::empty());
    let head = if has_root(path) {
        seq![Comp::Root]
    } else if starts_with_cur_dir(path) {
        seq![Comp::Cur]
    } else {
        Seq::<Comp>::empty()
    };
    assert(cp == head + sp);
    assert(!sp.contains(Comp::Parent)) by {
        assert forall|k: int| 0 <= k < sp.len() implies sp[k] != Comp::Parent by {
            assert(cp[head.len() + k] == sp[k]);
        }
    }
    if output.len() == 0 {
        assert(push_path(output, path) =~= path);
        assert(components(output) + cp =~= cp);
        assert(!cp.contains(Comp::Root)) by {
            assert forall|k: int| 0 <= k < cp.len() implies cp[k] != Comp::Root by {
                if k >= head.len() {
                    assert(cp[k] == sp[k - head.len()]);
                }
            }
        }
    } else if output.last() == '/' {
        let o = output.drop_last();
        assert(output =~= o + seq!['/'] + Seq::<char>::empty());
        lemma_scan_split(o, Seq::empty(), Seq::empty());
        lemma_scan_split(o, path, Seq::empty());
        assert(push_path(output, path) =~= o + seq!['/'] + path);
        assert(scan(Seq::<char>::empty(), Seq::empty()) =~= Seq::<Comp>::empty());
        assert(scan(output, Seq::empty()) =~= scan(o, Seq::empty()));
        lemma_head_kept(output, path);
        assert(output + path =~= o + seq!['/'] + path);
        if path.len() > 0 || output.len() > 1 {
            assert(components(push_path(output, path)) =~= components(output) + sp);
        } else {
            assert(push_path(output, path) =~= output);
            assert(sp =~= Seq::<Comp>::empty());
            assert(components(push_path(output, path)) =~= components(output) + sp);
        }
    } else {
        lemma_scan_split(output, path, Seq::empty());
        assert(push_path(output, path) =~= output + seq!['/'] + path);
        assert(output + (seq!['/'] + path) =~= output + seq!['/'] + path);
        lemma_head_kept(output, seq!['/'] + path);
        assert(components(push_path(output, path)) =~= components(output) + sp);
    }
}

} // verus!
