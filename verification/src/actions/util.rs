//! Helpers shared by the action modules: output-path derivation and
//! hidden-entry detection.

use vstd::prelude::*;

use crate::path::{components, join_path, push_path, push_path_exec, path_components, Comp, PathComponent};
use crate::resources::{file_name_of, file_name_spec};
use crate::text::{chars_start_with, is_prefix, str_chars, string_from_chars};

verus! {

/// How to derive a default output filename from a source filename when the
/// caller did not pass an explicit `output` path.
#[derive(Clone, Copy)]
pub enum Suffix<'a> {
    /// Append `ext` to the source filename (e.g. `data` becomes `data.gz`).
    Add(&'a str),
    /// Strip `ext` from the source filename (e.g. `data.gz` becomes `data`).
    Strip(&'a str),
}

/// The names of the components of a path, as `PathBuf::push` rebuilds it.
pub open spec fn comp_names(cs: Seq<Comp>) -> Seq<Seq<char>> {
    cs.map_values(
        |c: Comp|
            match c {
                Comp::Root => seq!['/'],
                Comp::Cur => seq!['.'],
                Comp::Parent => seq!['.', '.'],
                Comp::Normal(s) => s,
            },
    )
}

/// The parent of a path: its components but the last, joined again.
pub open spec fn parent_spec(p: Seq<char>) -> Seq<char> {
    let cs = components(p);
    if cs.len() > 0 {
        join_path(comp_names(cs.take(cs.len() - 1)))
    } else {
        Seq::empty()
    }
}

/// `PathBuf::set_file_name`: the last name replaced by `name`, or `name`
/// pushed when the path ends in no name.
pub open spec fn set_file_name_spec(p: Seq<char>, name: Seq<char>) -> Seq<char> {
    match file_name_spec(p) {
        Some(_) => push_path(parent_spec(p), name),
        None => push_path(p, name),
    }
}

/// The name of the derived output file.
pub open spec fn derived_name(name: Seq<char>, suffix: Suffix) -> Seq<char> {
    match suffix {
        Suffix::Add(ext) => name + ext@,
        Suffix::Strip(ext) => if name.len() >= ext@.len() && name.skip(name.len() - ext@.len())
            == ext@ {
            name.take(name.len() - ext@.len())
        } else {
            name
        },
    }
}

/// The sibling of `source` that a transform writes when no output path is
/// given: the source's name with `suffix` added or stripped.
pub open spec fn derived_output_spec(source: Seq<char>, suffix: Suffix) -> Seq<char> {
    let name = match file_name_spec(source) {
        Some(n) => n,
        None => Seq::empty(),
    };
    set_file_name_spec(source, derived_name(name, suffix))
}

pub fn component_name(c: &PathComponent) -> (r: Vec<char>)
    ensures
        r@ == comp_names(seq![c@])[0],
{
    match c {
        PathComponent::RootDir => vec!['/'],
        PathComponent::CurDir => vec!['.'],
        PathComponent::ParentDir => vec!['.', '.'],
        PathComponent::Normal(s) => s.clone(),
    }
}

/// The parent of a path.
pub fn parent_of(p: &str) -> (r: Vec<char>)
    ensures
        r@ == parent_spec(p@),
{
    let cs = path_components(str_chars(p).as_slice());
    let ghost m = cs@.map_values(|c: PathComponent| c@);
    let n: usize = if cs.len() > 0 {
        cs.len() - 1
    } else {
        0
    };
    let ghost names = comp_names(m.take(n as int));
    assert(m == components(p@));
    assert(cs@.len() == 0 ==> names =~= Seq::<Seq<char>>::empty());
    let mut out: Vec<char> = Vec::new();
    let mut i: usize = 0;
    while i < n
        invariant
            n <= cs@.len(),
            m == cs@.map_values(|c: PathComponent| c@),
            names == comp_names(m.take(n as int)),
            i <= n,
            out@ == join_path(names.take(i as int)),
        decreases n - i,
    {
        let name = component_name(&cs[i]);
        assert(name@ == names[i as int]);
        push_path_exec(&mut out, name.as_slice());
        assert(names.take(i + 1).drop_last() =~= names.take(i as int));
        i = i + 1;
    }
    assert(names.take(n as int) =~= names);
    out
}

/// The default output path of a transform of `source`.
pub fn derive_output_path(source: &str, suffix: Suffix) -> (r: String)
    ensures
        r@ == derived_output_spec(source@, suffix),
{
    let name: Vec<char> = match file_name_of(source) {
        Some(n) => n,
        None => Vec::new(),
    };
    let new_name: Vec<char> = match suffix {
        Suffix::Add(ext) => {
            let mut v = name;
            let e = str_chars(ext);
            let ghost base = v@;
            let mut i: usize = 0;
            while i < e.len()
                invariant
                    i <= e@.len(),
                    v@ == base + e@.take(i as int),
                decreases e@.len() - i,
            {
                v.push(e[i]);
                i = i + 1;
                assert(v@ =~= base + e@.take(i as int));
            }
            assert(e@.take(e@.len() as int) =~= e@);
            v
        },
        Suffix::Strip(ext) => {
            let e = str_chars(ext);
            if name.len() >= e.len() && ends_with(name.as_slice(), e.as_slice()) {
                let k = name.len() - e.len();
                let mut v: Vec<char> = Vec::new();
                let mut i: usize = 0;
                while i < k
                    invariant
                        k <= name@.len(),
                        i <= k,
                        v@ == name@.take(i as int),
                    decreases k - i,
                {
                    v.push(name[i]);
                    i = i + 1;
                    assert(v@ =~= name@.take(i as int));
                }
                v
            } else {
                name
            }
        },
    };
    let mut out: Vec<char> = if file_name_of(source).is_some() {
        parent_of(source)
    } else {
        str_chars(source)
    };
    push_path_exec(&mut out, new_name.as_slice());
    string_from_chars(out.as_slice())
}

/// Whether `s` ends with `t`.
fn ends_with(s: &[char], t: &[char]) -> (r: bool)
    requires
        s@.len() >= t@.len(),
    ensures
        r == (s@.skip(s@.len() - t@.len()) == t@),
{
    let k = s.len() - t.len();
    let mut i: usize = 0;
    while i < t.len()
        invariant
            k == s@.len() - t@.len(),
            k + t@.len() == s@.len(),
            s@.len() == s.len(),
            t@.len() == t.len(),
            i <= t@.len(),
            forall|j: int| 0 <= j < i ==> s@[k + j] == t@[j],
        decreases t@.len() - i,
    {
        if s[k + i] != t[i] {
            assert(s@.skip(k as int)[i as int] != t@[i as int]);
            return false;
        }
        i = i + 1;
    }
    assert(s@.skip(k as int) =~= t@);
    true
}

/// Whether a directory entry's name begins with `.` (dotfile or dotdir);
/// such entries are pruned from directory walks.
pub fn is_hidden_name(name: &str) -> (r: bool)
    ensures
        r == (name@.len() > 0 && name@[0] == '.'),
{
    let c = str_chars(name);
    c.len() > 0 && c[0] == '.'
}

} // verus!
