//! A model of Unix path syntax: how a path string splits into components,
//! as `std::path::Path::components` does on Unix, and how `PathBuf::push`
//! joins them back together.

use vstd::prelude::*;

verus! {

/// One component of a path, in the abstract.
pub enum Comp {
    Root,
    Cur,
    Parent,
    Normal(Seq<char>),
}

/// One component of a path.
pub enum PathComponent {
    RootDir,
    CurDir,
    ParentDir,
    Normal(Vec<char>),
}

impl View for PathComponent {
    type V = Comp;

    open spec fn view(&self) -> Comp {
        match self {
            PathComponent::RootDir => Comp::Root,
            PathComponent::CurDir => Comp::Cur,
            PathComponent::ParentDir => Comp::Parent,
            PathComponent::Normal(s) => Comp::Normal(s@),
        }
    }
}

pub open spec fn dot() -> Seq<char> {
    seq!['.']
}

pub open spec fn dot_dot() -> Seq<char> {
    seq!['.', '.']
}

/// The component that one `/`-free segment of a path stands for: empty
/// segments and `.` vanish, `..` is the parent directory.
pub open spec fn seg_comp(s: Seq<char>) -> Seq<Comp> {
    if s.len() == 0 || s == dot() {
        Seq::empty()
    } else if s == dot_dot() {
        seq![Comp::Parent]
    } else {
        seq![Comp::Normal(s)]
    }
}

/// The components of the segments of `p`, where `cur` is the part of the
/// current segment already read.
pub open spec fn scan(p: Seq<char>, cur: Seq<char>) -> Seq<Comp>
    decreases p.len(),
{
    if p.len() == 0 {
        seg_comp(cur)
    } else if p[0] == '/' {
        seg_comp(cur) + scan(p.drop_first(), Seq::empty())
    } else {
        scan(p.drop_first(), cur.push(p[0]))
    }
}

pub open spec fn has_root(p: Seq<char>) -> bool {
    p.len() > 0 && p[0] == '/'
}

/// A relative path that starts with a `.` segment keeps it as `CurDir`.
pub open spec fn starts_with_cur_dir(p: Seq<char>) -> bool {
    p.len() > 0 && p[0] == '.' && (p.len() == 1 || p[1] == '/')
}

/// The components of a path, as `Path::components` yields them on Unix.
pub open spec fn components(p: Seq<char>) -> Seq<Comp> {
    (if has_root(p) {
        seq![Comp::Root]
    } else if starts_with_cur_dir(p) {
        seq![Comp::Cur]
    } else {
        Seq::empty()
    }) + scan(p, Seq::empty())
}

pub fn chars_eq(a: &[char], b: &[char]) -> (r: bool)
    ensures
        r == (a@ == b@),
{
    if a.len() != b.len() {
        return false;
    }
    let mut i: usize = 0;
    while i < a.len()
        invariant
            a@.len() == b@.len(),
            i <= a@.len(),
            forall|j: int| 0 <= j < i ==> a@[j] == b@[j],
        decreases a@.len() - i,
    {
        if a[i] != b[i] {
            return false;
        }
        i = i + 1;
    }
    assert(a@ =~= b@);
    true
}

fn is_dot(s: &Vec<char>) -> (r: bool)
    ensures
        r == (s@ == dot()),
{
    if s.len() == 1 && s[0] == '.' {
        assert(s@ =~= dot());
        true
    } else {
        false
    }
}

fn is_dot_dot(s: &Vec<char>) -> (r: bool)
    ensures
        r == (s@ == dot_dot()),
{
    if s.len() == 2 && s[0] == '.' && s[1] == '.' {
        assert(s@ =~= dot_dot());
        true
    } else {
        false
    }
}

/// Appends the component that a finished segment stands for.
fn push_segment(out: &mut Vec<PathComponent>, seg: Vec<char>)
    ensures
        final(out)@.map_values(|c: PathComponent| c@) =~= old(out)@.map_values(
            |c: PathComponent| c@,
        ) + seg_comp(seg@),
{
    if seg.len() == 0 || is_dot(&seg) {
    } else if is_dot_dot(&seg) {
        out.push(PathComponent::ParentDir);
    } else {
        out.push(PathComponent::Normal(seg));
    }
}

/// Splits a path into its components.
pub fn path_components(p: &[char]) -> (r: Vec<PathComponent>)
    ensures
        r@.map_values(|c: PathComponent| c@) == components(p@),
{
    let mut out: Vec<PathComponent> = Vec::new();
    if p.len() > 0 && p[0] == '/' {
        out.push(PathComponent::RootDir);
    } else if p.len() > 0 && p[0] == '.' && (p.len() == 1 || p[1] == '/') {
        out.push(PathComponent::CurDir);
    }
    let ghost head = out@.map_values(|c: PathComponent| c@);
    assert(head =~= (if has_root(p@) {
        seq![Comp::Root]
    } else if starts_with_cur_dir(p@) {
        seq![Comp::Cur]
    } else {
        Seq::empty()
    }));
    let mut cur: Vec<char> = Vec::new();
    let mut i: usize = 0;
    assert(p@.skip(0) =~= p@);
    while i < p.len()
        invariant
            i <= p@.len(),
            out@.map_values(|c: PathComponent| c@) + scan(p@.skip(i as int), cur@) == head + scan(
                p@,
                Seq::empty(),
            ),
        decreases p@.len() - i,
    {
        let ghost before = out@.map_values(|c: PathComponent| c@);
        assert(p@.skip(i as int).drop_first() =~= p@.skip(i + 1));
        if p[i] == '/' {
            let seg = cur;
            cur = Vec::new();
            push_segment(&mut out, seg);
            assert(cur@ =~= Seq::<char>::empty());
            assert(before + (seg_comp(seg@) + scan(p@.skip(i + 1), Seq::empty())) =~= (before
                + seg_comp(seg@)) + scan(p@.skip(i + 1), Seq::empty()));
        } else {
            cur.push(p[i]);
        }
        i = i + 1;
    }
    assert(p@.skip(i as int) =~= Seq::<char>::empty());
    push_segment(&mut out, cur);
    out
}

/// The result of `PathBuf::push(comp)` on a path `buf`: an absolute `comp`
/// replaces the path, anything else is joined with a separator.
pub open spec fn push_path(buf: Seq<char>, comp: Seq<char>) -> Seq<char> {
    if comp.len() > 0 && comp[0] == '/' {
        comp
    } else if buf.len() == 0 || buf.last() == '/' {
        buf + comp
    } else {
        buf.push('/') + comp
    }
}

/// The path that pushing `parts` in order onto an empty `PathBuf` gives.
pub open spec fn join_path(parts: Seq<Seq<char>>) -> Seq<char>
    decreases parts.len(),
{
    if parts.len() == 0 {
        Seq::empty()
    } else {
        push_path(join_path(parts.drop_last()), parts.last())
    }
}

/// `PathBuf::push` on paths held as characters.
pub fn push_path_exec(buf: &mut Vec<char>, comp: &[char])
    ensures
        final(buf)@ == push_path(old(buf)@, comp@),
{
    if comp.len() > 0 && comp[0] == '/' {
        let mut out: Vec<char> = Vec::new();
        let mut i: usize = 0;
        while i < comp.len()
            invariant
                i <= comp@.len(),
                out@ == comp@.take(i as int),
            decreases comp@.len() - i,
        {
            out.push(comp[i]);
            i = i + 1;
        }
        assert(out@ =~= comp@);
        *buf = out;
    } else {
        if buf.len() > 0 && buf[buf.len() - 1] != '/' {
            buf.push('/');
        }
        let ghost base = buf@;
        let mut i: usize = 0;
        while i < comp.len()
            invariant
                i <= comp@.len(),
                buf@ == base + comp@.take(i as int),
            decreases comp@.len() - i,
        {
            buf.push(comp[i]);
            i = i + 1;
            assert(base + comp@.take(i as int) =~= (base + comp@.take(i - 1)).push(comp@[i - 1]));
        }
        assert(comp@.take(comp@.len() as int) =~= comp@);
    }
}

/// The absolute form of `p`: `p` itself when it starts at the root,
/// otherwise `cwd` joined with it.
pub open spec fn absolute_spec(cwd: Seq<char>, p: Seq<char>) -> Seq<char> {
    if has_root(p) {
        p
    } else {
        push_path(cwd, p)
    }
}

/// `p` made absolute against the working directory `cwd`.
pub fn absolute_path(cwd: &str, p: &str) -> (r: String)
    ensures
        r@ == absolute_spec(cwd@, p@),
{
    let pc = crate::text::str_chars(p);
    if pc.len() > 0 && pc[0] == '/' {
        return crate::text::string_from_chars(pc.as_slice());
    }
    let mut buf = crate::text::str_chars(cwd);
    push_path_exec(&mut buf, pc.as_slice());
    crate::text::string_from_chars(buf.as_slice())
}

} // verus!
