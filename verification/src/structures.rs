//! Path prefix trie and fixed-capacity ring buffer.

use vstd::prelude::*;

use crate::path::{
    chars_eq, components, dot, dot_dot, has_root, join_path, path_components, push_path, push_path_exec, scan, seg_comp,
    Comp, PathComponent,
};
use crate::text::is_prefix;

verus! {

// ──────────────────────────────────────────────
// PathTrie
// ──────────────────────────────────────────────

/// A key of the trie: the names of a path's components, the root written `/`.
pub type TrieKey = Seq<Seq<char>>;

pub open spec fn root_name() -> Seq<char> {
    seq!['/']
}

/// The key that `insert` stores for a path with components `cs`: the root
/// and the normal components in order; `.` and `..` are skipped.
pub open spec fn insert_key(cs: Seq<Comp>) -> TrieKey
    decreases cs.len(),
{
    if cs.len() == 0 {
        Seq::empty()
    } else {
        match cs[0] {
            Comp::Root => seq![root_name()] + insert_key(cs.drop_first()),
            Comp::Normal(s) => seq![s] + insert_key(cs.drop_first()),
            _ => insert_key(cs.drop_first()),
        }
    }
}

/// The key that a lookup walks for components `cs`, and whether the walk
/// ends at a `..` component: a lookup reads components up to the first
/// `..`, skipping `.`.
pub open spec fn walk_key(cs: Seq<Comp>) -> (TrieKey, bool)
    decreases cs.len(),
{
    if cs.len() == 0 {
        (Seq::empty(), false)
    } else {
        let rest = walk_key(cs.drop_first());
        match cs[0] {
            Comp::Root => (seq![root_name()] + rest.0, rest.1),
            Comp::Normal(s) => (seq![s] + rest.0, rest.1),
            Comp::Cur => rest,
            Comp::Parent => (Seq::empty(), true),
        }
    }
}

/// A key is a node of the trie holding `keys` when it is a prefix of one of them
/// (the empty key, the root node, always is).
pub open spec fn is_node(keys: Set<TrieKey>, k: TrieKey) -> bool {
    k.len() == 0 || exists|m: TrieKey| keys.contains(m) && is_prefix(k, m)
}

/// Some prefix of `k` (the empty one and `k` itself included) was inserted.
pub open spec fn has_inserted_prefix(keys: Set<TrieKey>, k: TrieKey) -> bool {
    exists|i: int| 0 <= i <= k.len() && #[trigger] keys.contains(k.take(i))
}

/// Whether `contains` accepts a path with components `cs`, given the keys
/// inserted so far: a path whose walk reaches a `..` inside the trie is
/// refused; otherwise the path is accepted when one of the prefixes of its
/// walk was inserted.
pub open spec fn contains_spec(keys: Set<TrieKey>, cs: Seq<Comp>) -> bool {
    let (k, stops) = walk_key(cs);
    if stops && is_node(keys, k) {
        false
    } else {
        has_inserted_prefix(keys, k)
    }
}

/// The length of the longest prefix of `k`, of length at most `n`, that was
/// inserted.
pub open spec fn longest_inserted(keys: Set<TrieKey>, k: TrieKey, n: int) -> Option<int>
    decreases n + 1,
{
    if n < 0 {
        None
    } else if keys.contains(k.take(n)) {
        Some(n)
    } else {
        longest_inserted(keys, k, n - 1)
    }
}

/// What `longest_prefix` returns for a path with components `cs`: the
/// longest inserted prefix of its walk, as a path.
pub open spec fn longest_prefix_spec(keys: Set<TrieKey>, cs: Seq<Comp>) -> Option<Seq<char>> {
    let k = walk_key(cs).0;
    match longest_inserted(keys, k, k.len() as int) {
        Some(i) => Some(join_path(k.take(i))),
        None => None,
    }
}

struct TrieNode {
    children: Vec<(Vec<char>, usize)>,
    is_end: bool,
}

/// A trie-based data structure for efficient path prefix matching.
///
/// Allows fast checking of whether a given path is under any of the
/// inserted prefix paths.
pub struct PathTrie {
    nodes: Vec<TrieNode>,
    /// The key each node stands for.
    paths: Ghost<Seq<TrieKey>>,
}

impl TrieNode {
    fn new() -> (r: Self)
        ensures
            r.children@.len() == 0,
            !r.is_end,
    {
        TrieNode { children: Vec::new(), is_end: false }
    }
}

impl PathTrie {
    spec fn n(&self) -> int {
        self.nodes@.len() as int
    }

    spec fn path(&self, i: int) -> TrieKey {
        self.paths@[i]
    }

    spec fn end(&self, i: int) -> bool {
        self.nodes@[i].is_end
    }

    spec fn nchildren(&self, i: int) -> int {
        self.nodes@[i].children@.len() as int
    }

    spec fn child_name(&self, i: int, c: int) -> Seq<char> {
        self.nodes@[i].children@[c].0@
    }

    spec fn child_idx(&self, i: int, c: int) -> int {
        self.nodes@[i].children@[c].1 as int
    }

    spec fn edges_ok(&self) -> bool {
        forall|i: int, c: int|
            0 <= i < self.n() && 0 <= c < self.nchildren(i) ==> {
                &&& 0 <= #[trigger] self.child_idx(i, c) < self.n()
                &&& self.path(self.child_idx(i, c)) == self.path(i).push(self.child_name(i, c))
            }
    }

    spec fn edges_complete(&self) -> bool {
        forall|i: int, j: int|
            0 <= i < self.n() && 0 <= j < self.n() && #[trigger] self.path(j).len() > 0
                && self.path(j).drop_last() == #[trigger] self.path(i) ==> exists|c: int|
                0 <= c < self.nchildren(i) && #[trigger] self.child_idx(i, c) == j
    }

    spec fn injective(&self) -> bool {
        forall|i: int, j: int|
            0 <= i < self.n() && 0 <= j < self.n() && i != j ==> #[trigger] self.path(i)
                != #[trigger] self.path(j)
    }

    /// Every prefix of an inserted key has a node.
    spec fn prefixes_present(&self) -> bool {
        forall|e: int, m: int|
            0 <= e < self.n() && self.end(e) && 0 <= m <= self.path(e).len() ==> exists|j: int|
                0 <= j < self.n() && #[trigger] self.path(j) == #[trigger] self.path(e).take(m)
    }

    /// Node `e` ends an inserted key that extends node `j`'s key.
    spec fn needed_by(&self, j: int, e: int) -> bool {
        0 <= e < self.n() && self.end(e) && is_prefix(self.path(j), self.path(e))
    }

    /// Some inserted key extends node `j`'s key.
    spec fn needed(&self, j: int) -> bool {
        exists|e: int| #[trigger] self.needed_by(j, e)
    }

    /// Every node but the root is a prefix of some inserted key.
    spec fn nodes_needed(&self) -> bool {
        forall|j: int| 0 <= j < self.n() ==> j == 0 || #[trigger] self.needed(j)
    }

    /// Every node but the root has a node for its parent key.
    spec fn parents_present(&self) -> bool {
        forall|j: int|
            0 <= j < self.n() && self.path(j).len() > 0 ==> exists|p: int|
                0 <= p < self.n() && #[trigger] self.path(p) == #[trigger] self.path(j).drop_last()
    }

    spec fn shape(&self) -> bool {
        &&& self.n() >= 1
        &&& self.parents_present()
        &&& self.paths@.len() == self.n()
        &&& self.path(0) == Seq::<Seq<char>>::empty()
        &&& self.edges_ok()
        &&& self.edges_complete()
        &&& self.injective()
        &&& self.prefixes_present()
    }

    /// The trie's internal consistency.
    pub closed spec fn wf(&self) -> bool {
        &&& self.shape()
        &&& self.nodes_needed()
    }

    /// The keys inserted so far.
    pub closed spec fn view(&self) -> Set<TrieKey> {
        Set::new(|k: TrieKey| exists|e: int| 0 <= e < self.n() && self.end(e) && self.path(e) == k)
    }

    pub fn new() -> (r: Self)
        ensures
            r.wf(),
            r.view() == Set::<TrieKey>::empty(),
    {
        let mut nodes: Vec<TrieNode> = Vec::new();
        nodes.push(TrieNode::new());
        let ghost p0 = seq![Seq::<Seq<char>>::empty()];
        let r = PathTrie { nodes, paths: Ghost(p0) };
        assert(r.view() =~= Set::<TrieKey>::empty());
        r
    }

    /// The child of node `cur` named `name`.
    fn get_child(&self, cur: usize, name: &Vec<char>) -> (r: Option<usize>)
        requires
            self.shape(),
            cur < self.n(),
        ensures
            match r {
                Some(j) => j < self.n() && self.path(j as int) == self.path(cur as int).push(
                    name@,
                ),
                None => forall|c: int|
                    0 <= c < self.nchildren(cur as int) ==> #[trigger] self.child_name(
                        cur as int,
                        c,
                    ) != name@,
            },
    {
        let mut c: usize = 0;
        while c < self.nodes[cur].children.len()
            invariant
                self.shape(),
                cur < self.n(),
                c <= self.nchildren(cur as int),
                forall|d: int| 0 <= d < c ==> #[trigger] self.child_name(cur as int, d) != name@,
            decreases self.nchildren(cur as int) - c,
        {
            if chars_eq(self.nodes[cur].children[c].0.as_slice(), name.as_slice()) {
                proof {
                    assert(self.child_name(cur as int, c as int) == name@);
                    assert(0 <= self.child_idx(cur as int, c as int) < self.n());
                }
                return Some(self.nodes[cur].children[c].1);
            }
            c = c + 1;
        }
        None
    }

    /// A node path is a node key.
    proof fn lemma_node_is_node(&self, j: int)
        requires
            self.wf(),
            0 <= j < self.n(),
        ensures
            is_node(self.view(), self.path(j)),
    {
        if j != 0 {
            assert(self.needed(j));
            let e = choose|e: int| #[trigger] self.needed_by(j, e);
            assert(self.view().contains(self.path(e)));
        }
    }

    /// If node `cur` has no child named `name`, no inserted key extends
    /// `path(cur) + [name]`.
    proof fn lemma_missing_child(&self, cur: int, name: Seq<char>)
        requires
            self.shape(),
            0 <= cur < self.n(),
            forall|c: int|
                0 <= c < self.nchildren(cur) ==> #[trigger] self.child_name(cur, c) != name,
        ensures
            forall|j: int| 0 <= j < self.n() ==> #[trigger] self.path(j) != self.path(cur).push(name),
            !is_node(self.view(), self.path(cur).push(name)),
    {
        let s = self.path(cur).push(name);
        assert forall|j: int| 0 <= j < self.n() implies #[trigger] self.path(j) != s by {
            if self.path(j) == s {
                assert(self.path(j).drop_last() =~= self.path(cur));
                let c = choose|c: int| 0 <= c < self.nchildren(cur) && #[trigger] self.child_idx(cur, c) == j;
                assert(self.path(self.child_idx(cur, c)) == self.path(cur).push(self.child_name(cur, c)));
                assert(self.path(cur).push(self.child_name(cur, c)).last() == self.child_name(cur, c));
                assert(s.last() == name);
            }
        }
        if is_node(self.view(), s) {
            let m = choose|m: TrieKey| self.view().contains(m) && is_prefix(s, m);
            let e = choose|e: int| 0 <= e < self.n() && self.end(e) && self.path(e) == m;
            assert(self.path(e).take(s.len() as int) == s);
            let j = choose|j: int|
                0 <= j < self.n() && #[trigger] self.path(j) == #[trigger] self.path(e).take(s.len() as int);
            assert(self.path(j) == s);
        }
    }

    /// Index of the node whose path is `k`, among those with `end` set, is
    /// what decides membership of `k`.
    proof fn lemma_contains_node(&self, j: int)
        requires
            self.shape(),
            0 <= j < self.n(),
        ensures
            self.view().contains(self.path(j)) == self.end(j),
    {
        if self.view().contains(self.path(j)) {
            let e = choose|e: int| 0 <= e < self.n() && self.end(e) && self.path(e) == self.path(j);
            assert(e == j);
        }
    }

    /// Walks `k` from the root, as far as the trie reaches. Returns the
    /// number of keys matched, the node reached, and whether some prefix of
    /// the matched part was inserted.
    fn walk(&self, k: &Vec<Vec<char>>) -> (r: (usize, usize, bool))
        requires
            self.wf(),
        ensures
            ({
                let kk = k@.map_values(|v: Vec<char>| v@);
                let (m, node, matched) = r;
                &&& m <= kk.len()
                &&& node < self.n()
                &&& self.path(node as int) == kk.take(m as int)
                &&& matched == has_inserted_prefix(self.view(), kk.take(m as int))
                &&& m < kk.len() ==> !is_node(self.view(), kk.take(m + 1))
            }),
    {
        let ghost kk = k@.map_values(|v: Vec<char>| v@);
        let mut cur: usize = 0;
        let mut matched = self.nodes[0].is_end;
        proof {
            self.lemma_contains_node(0);
            assert(kk.take(0) =~= Seq::<Seq<char>>::empty());
            assert(kk.take(0).take(0) =~= kk.take(0));
            if has_inserted_prefix(self.view(), kk.take(0)) {
                let i = choose|i: int| 0 <= i <= kk.take(0).len() && #[trigger] self.view().contains(kk.take(0).take(i));
                assert(i == 0);
            }
        }
        let mut m: usize = 0;
        while m < k.len()
            invariant
                self.wf(),
                kk == k@.map_values(|v: Vec<char>| v@),
                m <= kk.len(),
                cur < self.n(),
                self.path(cur as int) == kk.take(m as int),
                matched == has_inserted_prefix(self.view(), kk.take(m as int)),
            decreases kk.len() - m,
        {
            match self.get_child(cur, &k[m]) {
                Some(j) => {
                    proof {
                        assert(kk.take(m + 1) =~= kk.take(m as int).push(kk[m as int]));
                        self.lemma_contains_node(j as int);
                        lemma_has_prefix_step(self.view(), kk, m as int);
                    }
                    matched = matched || self.nodes[j].is_end;
                    cur = j;
                    m = m + 1;
                },
                None => {
                    proof {
                        self.lemma_missing_child(cur as int, kk[m as int]);
                        assert(kk.take(m + 1) =~= kk.take(m as int).push(kk[m as int]));
                    }
                    return (m, cur, matched);
                },
            }
        }
        (m, cur, matched)
    }

    /// Beyond a prefix that is not a node, nothing extends into the trie.
    proof fn lemma_not_node_extends(keys: Set<TrieKey>, k: TrieKey, m: int)
        requires
            0 <= m < k.len(),
            !is_node(keys, k.take(m + 1)),
        ensures
            !is_node(keys, k),
            has_inserted_prefix(keys, k) == has_inserted_prefix(keys, k.take(m)),
    {
        let a = k.take(m + 1);
        if is_node(keys, k) {
            let mm = choose|mm: TrieKey| keys.contains(mm) && is_prefix(k, mm);
            assert(mm.take(a.len() as int) =~= a);
        }
        let b = k.take(m);
        assert forall|i: int| 0 <= i <= b.len() implies #[trigger] k.take(i) == b.take(i) by {
            assert(k.take(i) =~= b.take(i));
        }
        if has_inserted_prefix(keys, k) {
            let i = choose|i: int| 0 <= i <= k.len() && #[trigger] keys.contains(k.take(i));
            if i > m {
                assert(k.take(i).take(a.len() as int) =~= a);
                assert(is_prefix(a, k.take(i)));
            } else {
                assert(keys.contains(b.take(i)));
            }
        }
        if has_inserted_prefix(keys, b) {
            let i = choose|i: int| 0 <= i <= b.len() && #[trigger] keys.contains(b.take(i));
            assert(keys.contains(k.take(i)));
        }
    }

    /// Check if a path is under any prefix stored in the trie.
    /// Returns true if `path` has the same prefix as an inserted path.
    pub fn contains(&self, path: &str) -> (r: bool)
        requires
            self.wf(),
        ensures
            r == contains_spec(self.view(), components(path@)),
    {
        let (k, stops) = walk_keys(path);
        let ghost kk = k@.map_values(|v: Vec<char>| v@);
        let (m, node, matched) = self.walk(&k);
        if m < k.len() {
            proof {
                Self::lemma_not_node_extends(self.view(), kk, m as int);
            }
            matched
        } else {
            proof {
                assert(kk.take(m as int) =~= kk);
                self.lemma_node_is_node(node as int);
            }
            if stops {
                false
            } else {
                matched
            }
        }
    }

    /// Find the longest matching prefix for a given path.
    pub fn longest_prefix(&self, path: &str) -> (r: Option<String>)
        requires
            self.wf(),
        ensures
            r matches Some(s) ==> longest_prefix_spec(self.view(), components(path@)) == Some(
                s@,
            ),
            r is None ==> longest_prefix_spec(self.view(), components(path@)) is None,
    {
        let (k, _stops) = walk_keys(path);
        let ghost kk = k@.map_values(|v: Vec<char>| v@);
        let ghost keys = self.view();
        let mut cur: usize = 0;
        let mut result: Vec<char> = Vec::new();
        let mut last: Option<usize> = if self.nodes[0].is_end {
            Some(0)
        } else {
            None
        };
        let mut last_path: Vec<char> = Vec::new();
        proof {
            self.lemma_contains_node(0);
            assert(kk.take(0) =~= Seq::<Seq<char>>::empty());
            assert(kk.take(0) == self.path(0));
            assert(result@ == join_path(kk.take(0)));
            reveal_with_fuel(longest_inserted, 2);
        }
        let mut m: usize = 0;
        let mut fell_off = false;
        while m < k.len() && !fell_off
            invariant
                self.wf(),
                keys == self.view(),
                kk == k@.map_values(|v: Vec<char>| v@),
                m <= kk.len(),
                cur < self.n(),
                self.path(cur as int) == kk.take(m as int),
                result@ == join_path(kk.take(m as int)),
                last matches Some(i) ==> longest_inserted(keys, kk, m as int) == Some(i as int),
                last is None ==> longest_inserted(keys, kk, m as int) is None,
                last matches Some(i) ==> last_path@ == join_path(kk.take(i as int)) && i <= m,
                fell_off ==> m < kk.len() && !is_node(keys, kk.take(m + 1)),
            decreases kk.len() - m + (if fell_off { 0int } else { 1int }),
        {
            match self.get_child(cur, &k[m]) {
                Some(j) => {
                    let ghost prev = result@;
                    push_path_exec(&mut result, k[m].as_slice());
                    proof {
                        assert(kk[m as int] == k@[m as int]@);
                        lemma_walk_extend(self, keys, kk, m as int, cur as int, j as int, prev, result@);
                    }
                    cur = j;
                    m = m + 1;
                    if self.nodes[j].is_end {
                        last = Some(m);
                        last_path = result.clone();
                        assert(last_path@ =~= result@);
                    }
                },
                None => {
                    proof {
                        assert(kk[m as int] == k@[m as int]@);
                        self.lemma_missing_child(cur as int, kk[m as int]);
                        assert(kk.take(m + 1) =~= kk.take(m as int).push(kk[m as int]));
                    }
                    fell_off = true;
                },
            }
        }
        proof {
            lemma_longest_stops(keys, kk, m as int);
        }
        match last {
            Some(_) => Some(crate::text::string_from_chars(last_path.as_slice())),
            None => None,
        }
    }

    /// Insert a path into the trie. Path components are split and
    /// stored as a chain. All intermediate nodes become valid prefix
    /// endpoints so that e.g. inserting `/a/b` also makes `/a` valid.
    pub fn insert(&mut self, path: &str)
        requires
            old(self).wf(),
        ensures
            final(self).wf(),
            final(self).view() == old(self).view().insert(insert_key(components(path@))),
    {
        let k = insert_keys(path);
        let ghost kk = k@.map_values(|v: Vec<char>| v@);
        let ghost old_view = self.view();
        let mut cur: usize = 0;
        let mut m: usize = 0;
        proof {
            assert(kk.take(0) =~= Seq::<Seq<char>>::empty());
        }
        while m < k.len()
            invariant
                self.shape(),
                forall|j: int|
                    0 <= j < self.n() ==> j == 0 || is_prefix(#[trigger] self.path(j), kk) || self.needed(j),
                self.view() == old_view,
                kk == k@.map_values(|v: Vec<char>| v@),
                m <= kk.len(),
                cur < self.n(),
                self.path(cur as int) == kk.take(m as int),
                forall|mm: int|
                    0 <= mm <= m ==> exists|j: int|
                        0 <= j < self.n() && #[trigger] self.path(j) == #[trigger] kk.take(mm),
            decreases kk.len() - m,
        {
            let ghost before_step = *self;
            let next = match self.get_child(cur, &k[m]) {
                Some(j) => j,
                None => {
                    proof {
                        self.lemma_missing_child(cur as int, kk[m as int]);
                    }
                    self.add_child(cur, k[m].clone())
                },
            };
            proof {
                assert(kk.take(m + 1) =~= kk.take(m as int).push(kk[m as int]));
                assert(is_prefix(kk.take(m + 1), kk)) by {
                    assert(kk.take(m + 1).len() == m + 1);
                }
                assert forall|mm: int| 0 <= mm <= m + 1 implies exists|j: int|
                    0 <= j < self.n() && #[trigger] self.path(j) == #[trigger] kk.take(mm) by {
                    if mm == m + 1 {
                        assert(self.path(next as int) == kk.take(mm));
                    } else {
                        let j = choose|j: int| 0 <= j < before_step.n() && #[trigger] before_step.path(j) == #[trigger] kk.take(mm);
                        assert(self.path(j) == kk.take(mm));
                    }
                }
                assert forall|j: int|
                    0 <= j < self.n() implies j == 0 || is_prefix(#[trigger] self.path(j), kk) || self.needed(j) by {
                    if j < before_step.n() {
                        if j != 0 && !is_prefix(before_step.path(j), kk) {
                            assert(before_step.needed(j));
                            let e = choose|e: int| #[trigger] before_step.needed_by(j, e);
                            assert(self.end(e) && self.path(e) == before_step.path(e));
                            assert(self.needed_by(j, e));
                        }
                    } else {
                        assert(self.path(j) == kk.take(m + 1));
                    }
                }
            }
            cur = next;
            m = m + 1;
        }
        proof {
            assert(kk.take(m as int) =~= kk);
        }
        self.set_end(cur);
    }

    /// Marks node `cur` as the end of an inserted key, when every node is
    /// needed by an inserted key or is a prefix of `cur`'s key, and every
    /// prefix of `cur`'s key has a node.
    fn set_end(&mut self, cur: usize)
        requires
            old(self).shape(),
            cur < old(self).n(),
            forall|j: int|
                0 <= j < old(self).n() ==> j == 0 || is_prefix(
                    #[trigger] old(self).path(j),
                    old(self).path(cur as int),
                ) || old(self).needed(j),
            forall|mm: int|
                0 <= mm <= old(self).path(cur as int).len() ==> exists|j: int|
                    0 <= j < old(self).n() && #[trigger] old(self).path(j) == #[trigger] old(
                        self,
                    ).path(cur as int).take(mm),
        ensures
            final(self).wf(),
            final(self).view() == old(self).view().insert(old(self).path(cur as int)),
    {
        let ghost before = *self;
        let ghost kk = self.path(cur as int);
        self.nodes[cur].is_end = true;
        proof {
            assert(self.paths@ == before.paths@);
            assert forall|i: int| 0 <= i < self.n() implies #[trigger] self.path(i) == before.path(i) by {}
            assert forall|i: int| 0 <= i < self.n() implies self.nodes@[i].children@ == before.nodes@[i].children@ by {}
            assert forall|i: int, c: int| 0 <= i < self.n() && 0 <= c < self.nchildren(i) implies #[trigger] self.child_idx(i, c) == before.child_idx(i, c) && self.child_name(i, c) == before.child_name(i, c) by {}
            assert(self.edges_ok());
            assert(self.edges_complete()) by {
                assert forall|i: int, j: int|
                    0 <= i < self.n() && 0 <= j < self.n() && #[trigger] self.path(j).len() > 0
                        && self.path(j).drop_last() == #[trigger] self.path(i) implies exists|c: int|
                        0 <= c < self.nchildren(i) && #[trigger] self.child_idx(i, c) == j by {
                    assert(before.path(j).len() > 0 && before.path(j).drop_last() == before.path(i));
                    let c = choose|c: int| 0 <= c < before.nchildren(i) && #[trigger] before.child_idx(i, c) == j;
                    assert(self.child_idx(i, c) == j);
                }
            }
            assert(self.injective()) by {
                assert forall|i: int, j: int| 0 <= i < self.n() && 0 <= j < self.n() && i != j implies #[trigger] self.path(i) != #[trigger] self.path(j) by {
                    assert(before.path(i) != before.path(j));
                }
            }
            assert(self.parents_present()) by {
                assert forall|j: int| 0 <= j < self.n() && self.path(j).len() > 0 implies exists|p: int|
                    0 <= p < self.n() && #[trigger] self.path(p) == #[trigger] self.path(j).drop_last() by {
                    assert(before.path(j).len() > 0);
                    let p = choose|p: int| 0 <= p < before.n() && #[trigger] before.path(p) == #[trigger] before.path(j).drop_last();
                    assert(self.path(p) == self.path(j).drop_last());
                }
            }
            assert(self.prefixes_present()) by {
                assert forall|e: int, mm: int|
                    0 <= e < self.n() && self.end(e) && 0 <= mm <= self.path(e).len() implies exists|j: int|
                        0 <= j < self.n() && #[trigger] self.path(j) == #[trigger] self.path(e).take(mm) by {
                    if e == cur {
                        let j = choose|j: int| 0 <= j < before.n() && #[trigger] before.path(j) == #[trigger] kk.take(mm);
                        assert(self.path(j) == self.path(e).take(mm));
                    } else {
                        assert(before.end(e));
                        let j = choose|j: int| 0 <= j < before.n() && #[trigger] before.path(j) == #[trigger] before.path(e).take(mm);
                        assert(self.path(j) == self.path(e).take(mm));
                    }
                }
            }
            assert forall|j: int| 0 <= j < self.n() implies j == 0 || #[trigger] self.needed(j) by {
                if j != 0 && is_prefix(before.path(j), kk) {
                    assert(self.needed_by(j, cur as int));
                } else if j != 0 {
                    assert(before.path(j) == self.path(j));
                    assert(before.needed(j));
                    let e = choose|e: int| #[trigger] before.needed_by(j, e);
                    assert(self.end(e));
                    assert(self.needed_by(j, e));
                }
            }
            assert(self.nodes_needed());
            assert(self.view() =~= before.view().insert(kk)) by {
                assert forall|key: TrieKey| #[trigger] self.view().contains(key) == before.view().insert(kk).contains(key) by {
                    if self.view().contains(key) {
                        let e = choose|e: int| 0 <= e < self.n() && self.end(e) && self.path(e) == key;
                        if e != cur {
                            assert(before.end(e));
                            assert(before.view().contains(key));
                        }
                    }
                    if before.view().contains(key) {
                        let e = choose|e: int| 0 <= e < before.n() && before.end(e) && before.path(e) == key;
                        assert(self.end(e) && self.path(e) == key);
                    }
                    if key == kk {
                        assert(self.end(cur as int) && self.path(cur as int) == key);
                    }
                }
            }
        }
    }

    /// Moves the children of node `i` out (leaving it empty).
    fn take_children(&mut self, i: usize) -> (r: Vec<(Vec<char>, usize)>)
        requires
            i < old(self).n(),
        ensures
            r@ == old(self).nodes@[i as int].children@,
            final(self).nodes@.len() == old(self).nodes@.len(),
            final(self).nodes@[i as int].children@.len() == 0,
            final(self).nodes@[i as int].is_end == old(self).nodes@[i as int].is_end,
            forall|j: int| 0 <= j < old(self).n() && j != i ==> #[trigger] final(self).nodes@[j] == old(self).nodes@[j],
            final(self).paths == old(self).paths,
    {
        let mut empty: Vec<(Vec<char>, usize)> = Vec::new();
        std::mem::swap(&mut empty, &mut self.nodes[i].children);
        empty
    }

    /// Adds a new child named `name` under node `cur`, which has no child of
    /// that name yet.
    fn add_child(&mut self, cur: usize, name: Vec<char>) -> (r: usize)
        requires
            old(self).shape(),
            cur < old(self).n(),
            forall|j: int|
                0 <= j < old(self).n() ==> #[trigger] old(self).path(j) != old(self).path(
                    cur as int,
                ).push(name@),
        ensures
            final(self).shape(),
            r == old(self).n(),
            final(self).n() == old(self).n() + 1,
            final(self).paths@ == old(self).paths@.push(old(self).path(cur as int).push(name@)),
            forall|j: int| 0 <= j < old(self).n() ==> #[trigger] final(self).end(j) == old(self).end(j),
            forall|j: int| 0 <= j < old(self).n() ==> #[trigger] final(self).path(j) == old(self).path(j),
            !final(self).end(r as int),
            final(self).view() == old(self).view(),
    {
        let ghost before = *self;
        let ghost np = self.path(cur as int).push(name@);
        let r = self.nodes.len();
        self.nodes.push(TrieNode::new());
        proof {
            self.paths@ = self.paths@.push(np);
        }
        let ghost mid = *self;
        let mut children = self.take_children(cur);
        children.push((name, r));
        self.nodes[cur].children = children;
        proof {
            assert(self.nodes@[cur as int].children@ == before.nodes@[cur as int].children@.push((name, r)));
            assert forall|i: int| 0 <= i < before.n() && i != cur implies self.nodes@[i].children@ == before.nodes@[i].children@ by {}
            assert forall|j: int| 0 <= j < before.n() implies #[trigger] self.path(j) == before.path(j) by {}
            assert(self.path(r as int) == np);
            assert(self.edges_ok()) by {
                assert forall|i: int, c: int| 0 <= i < self.n() && 0 <= c < self.nchildren(i) implies {
                    &&& 0 <= #[trigger] self.child_idx(i, c) < self.n()
                    &&& self.path(self.child_idx(i, c)) == self.path(i).push(self.child_name(i, c))
                } by {
                    if i == r {
                    } else if i == cur && c == before.nchildren(i) {
                    } else {
                        assert(self.child_idx(i, c) == before.child_idx(i, c));
                        assert(self.child_name(i, c) == before.child_name(i, c));
                    }
                }
            }
            assert(self.edges_complete()) by {
                assert forall|i: int, j: int|
                    0 <= i < self.n() && 0 <= j < self.n() && #[trigger] self.path(j).len() > 0
                        && self.path(j).drop_last() == #[trigger] self.path(i) implies exists|c: int|
                        0 <= c < self.nchildren(i) && #[trigger] self.child_idx(i, c) == j by {
                    if j == r {
                        assert(np.drop_last() =~= before.path(cur as int));
                        if i != cur {
                            if i == r {
                                assert(np.len() == np.drop_last().len() + 1);
                            } else {
                                assert(before.path(i) == before.path(cur as int));
                            }
                        }
                        assert(self.child_idx(cur as int, before.nchildren(cur as int)) == r);
                    } else if i == r {
                        assert(before.path(j).drop_last() == np);
                        assert(np.len() == before.path(cur as int).len() + 1);
                        let p = choose|p: int| 0 <= p < before.n() && #[trigger] before.path(p) == #[trigger] before.path(j).drop_last();
                        assert(before.path(p) == np);
                    } else {
                        assert(before.path(j).len() > 0 && before.path(j).drop_last() == before.path(i));
                        let c = choose|c: int| 0 <= c < before.nchildren(i) && #[trigger] before.child_idx(i, c) == j;
                        assert(self.child_idx(i, c) == j);
                    }
                }
            }
            assert(self.injective()) by {
                assert forall|i: int, j: int| 0 <= i < self.n() && 0 <= j < self.n() && i != j implies #[trigger] self.path(i) != #[trigger] self.path(j) by {
                    if i == r {
                        assert(before.path(j) != np);
                    } else if j == r {
                        assert(before.path(i) != np);
                    }
                }
            }
            assert(self.parents_present()) by {
                assert forall|j: int| 0 <= j < self.n() && self.path(j).len() > 0 implies exists|p: int|
                    0 <= p < self.n() && #[trigger] self.path(p) == #[trigger] self.path(j).drop_last() by {
                    if j == r {
                        assert(np.drop_last() =~= self.path(cur as int));
                    } else {
                        let p = choose|p: int| 0 <= p < before.n() && #[trigger] before.path(p) == #[trigger] before.path(j).drop_last();
                        assert(self.path(p) == self.path(j).drop_last());
                    }
                }
            }
            assert(self.prefixes_present()) by {
                assert forall|e: int, mm: int|
                    0 <= e < self.n() && self.end(e) && 0 <= mm <= self.path(e).len() implies exists|j: int|
                        0 <= j < self.n() && #[trigger] self.path(j) == #[trigger] self.path(e).take(mm) by {
                    assert(e != r);
                    assert(before.end(e));
                    let j = choose|j: int| 0 <= j < before.n() && #[trigger] before.path(j) == #[trigger] before.path(e).take(mm);
                    assert(self.path(j) == self.path(e).take(mm));
                }
            }
            assert forall|j: int| 0 <= j < before.n() implies #[trigger] self.end(j) == before.end(j) by {}
            assert(self.view() =~= before.view()) by {
                assert forall|key: TrieKey| #[trigger] self.view().contains(key) == before.view().contains(key) by {
                    if self.view().contains(key) {
                        let e = choose|e: int| 0 <= e < self.n() && self.end(e) && self.path(e) == key;
                        assert(e != r);
                        assert(before.end(e) && before.path(e) == key);
                    }
                    if before.view().contains(key) {
                        let e = choose|e: int| 0 <= e < before.n() && before.end(e) && before.path(e) == key;
                        assert(self.end(e) && self.path(e) == key);
                    }
                }
            }
        }
        r
    }

    /// Insert multiple paths into the trie.
    pub fn extend(&mut self, paths: Vec<String>)
        requires
            old(self).wf(),
        ensures
            final(self).wf(),
            final(self).view() == old(self).view().union(
                Set::new(|k: TrieKey| exists|i: int| 0 <= i < paths@.len() && k == insert_key(components(#[trigger] paths@[i]@))),
            ),
    {
        let ghost start = self.view();
        let mut i: usize = 0;
        while i < paths.len()
            invariant
                self.wf(),
                i <= paths@.len(),
                self.view() == start.union(
                    Set::new(|k: TrieKey| exists|j: int| 0 <= j < i && k == insert_key(components(#[trigger] paths@[j]@))),
                ),
            decreases paths@.len() - i,
        {
            self.insert(paths[i].as_str());
            i = i + 1;
            proof {
                assert(self.view() =~= start.union(
                    Set::new(|k: TrieKey| exists|j: int| 0 <= j < i && k == insert_key(components(#[trigger] paths@[j]@))),
                ));
            }
        }
    }
}

/// One step of the walk in `longest_prefix`: the child reached stands for one
/// more key, and the rendered path grows by that key.
proof fn lemma_walk_extend(
    t: &PathTrie,
    keys: Set<TrieKey>,
    kk: TrieKey,
    m: int,
    cur: int,
    j: int,
    prev: Seq<char>,
    next: Seq<char>,
)
    requires
        t.wf(),
        keys == t.view(),
        0 <= m < kk.len(),
        0 <= cur < t.n(),
        0 <= j < t.n(),
        t.path(cur) == kk.take(m),
        t.path(j) == t.path(cur).push(kk[m]),
        prev == join_path(kk.take(m)),
        next == crate::path::push_path(prev, kk[m]),
    ensures
        t.path(j) == kk.take(m + 1),
        next == join_path(kk.take(m + 1)),
        keys.contains(kk.take(m + 1)) == t.end(j),
        longest_inserted(keys, kk, m + 1) == if t.end(j) {
            Some(m + 1)
        } else {
            longest_inserted(keys, kk, m)
        },
{
    assert(kk.take(m + 1) =~= kk.take(m).push(kk[m]));
    assert(kk.take(m + 1).drop_last() =~= kk.take(m));
    t.lemma_contains_node(j);
}

/// One more key in the walk adds one more candidate prefix.
proof fn lemma_has_prefix_step(keys: Set<TrieKey>, k: TrieKey, m: int)
    requires
        0 <= m < k.len(),
    ensures
        has_inserted_prefix(keys, k.take(m + 1)) == (has_inserted_prefix(keys, k.take(m))
            || keys.contains(k.take(m + 1))),
{
    let a = k.take(m);
    let b = k.take(m + 1);
    assert forall|i: int| 0 <= i <= a.len() implies #[trigger] b.take(i) == a.take(i) by {
        assert(b.take(i) =~= a.take(i));
    }
    assert(b.take(b.len() as int) =~= b);
    if has_inserted_prefix(keys, b) {
        let i = choose|i: int| 0 <= i <= b.len() && #[trigger] keys.contains(b.take(i));
        if i <= a.len() {
            assert(keys.contains(a.take(i)));
        }
    }
    if has_inserted_prefix(keys, a) {
        let i = choose|i: int| 0 <= i <= a.len() && #[trigger] keys.contains(a.take(i));
        assert(keys.contains(b.take(i)));
    }
    if keys.contains(b) {
        assert(keys.contains(b.take(b.len() as int)));
    }
}

/// When the walk stops at `m`, the longest inserted prefix found so far is
/// the longest one of the whole key.
proof fn lemma_longest_stops(keys: Set<TrieKey>, k: TrieKey, m: int)
    requires
        0 <= m <= k.len(),
        m < k.len() ==> !is_node(keys, k.take(m + 1)),
    ensures
        longest_inserted(keys, k, k.len() as int) == longest_inserted(keys, k, m),
{
    lemma_longest_down(keys, k, m, k.len() as int);
}

proof fn lemma_longest_down(keys: Set<TrieKey>, k: TrieKey, m: int, n: int)
    requires
        0 <= m <= n <= k.len(),
        m < k.len() ==> !is_node(keys, k.take(m + 1)),
    ensures
        longest_inserted(keys, k, n) == longest_inserted(keys, k, m),
    decreases n - m,
{
    if n > m {
        if keys.contains(k.take(n)) {
            assert(k.take(n).take(m + 1) =~= k.take(m + 1));
            assert(is_prefix(k.take(m + 1), k.take(n)));
        }
        lemma_longest_down(keys, k, m, n - 1);
    }
}

/// The keys that `insert` stores for `path`.
fn insert_keys(path: &str) -> (r: Vec<Vec<char>>)
    ensures
        r@.map_values(|v: Vec<char>| v@) == insert_key(components(path@)),
{
    let chars = crate::text::str_chars(path);
    let comps = path_components(chars.as_slice());
    let ghost cs = comps@.map_values(|c: PathComponent| c@);
    let mut out: Vec<Vec<char>> = Vec::new();
    let ghost mut acc: Seq<Seq<char>> = Seq::empty();
    let mut i: usize = 0;
    proof {
        assert(cs.skip(0) =~= cs);
        assert(out@.map_values(|v: Vec<char>| v@) =~= acc);
    }
    while i < comps.len()
        invariant
            cs == comps@.map_values(|c: PathComponent| c@),
            i <= cs.len(),
            out@.map_values(|v: Vec<char>| v@) == acc,
            acc + insert_key(cs.skip(i as int)) == insert_key(cs),
        decreases cs.len() - i,
    {
        proof {
            lemma_insert_step(cs, i as int);
        }
        let ghost rest = insert_key(cs.skip(i + 1));
        assert(cs[i as int] == comps@[i as int]@);
        match &comps[i] {
            PathComponent::RootDir => {
                let mut v: Vec<char> = Vec::new();
                v.push('/');
                proof {
                    assert(v@ =~= root_name());
                    assert(acc + (seq![root_name()] + rest) =~= acc.push(root_name()) + rest);
                    acc = acc.push(root_name());
                }
                out.push(v);
            },
            PathComponent::Normal(s) => {
                proof {
                    assert(acc + (seq![s@] + rest) =~= acc.push(s@) + rest);
                    acc = acc.push(s@);
                }
                out.push(s.clone());
            },
            _ => {},
        }
        proof {
            assert(out@.map_values(|v: Vec<char>| v@) =~= acc);
        }
        i = i + 1;
    }
    assert(cs.skip(i as int) =~= Seq::<Comp>::empty());
    assert(acc + Seq::<Seq<char>>::empty() =~= acc);
    out
}

proof fn lemma_walk_step(cs: Seq<Comp>, i: int)
    requires
        0 <= i < cs.len(),
    ensures
        walk_key(cs.skip(i)) == ({
            let rest = walk_key(cs.skip(i + 1));
            match cs[i] {
                Comp::Root => (seq![root_name()] + rest.0, rest.1),
                Comp::Normal(s) => (seq![s] + rest.0, rest.1),
                Comp::Cur => rest,
                Comp::Parent => (Seq::<Seq<char>>::empty(), true),
            }
        }),
{
    assert(cs.skip(i).drop_first() =~= cs.skip(i + 1));
    assert(cs.skip(i)[0] == cs[i]);
}

proof fn lemma_insert_step(cs: Seq<Comp>, i: int)
    requires
        0 <= i < cs.len(),
    ensures
        insert_key(cs.skip(i)) == ({
            let rest = insert_key(cs.skip(i + 1));
            match cs[i] {
                Comp::Root => seq![root_name()] + rest,
                Comp::Normal(s) => seq![s] + rest,
                _ => rest,
            }
        }),
{
    assert(cs.skip(i).drop_first() =~= cs.skip(i + 1));
    assert(cs.skip(i)[0] == cs[i]);
}

/// The keys that a lookup walks for `path`, and whether it ends at `..`.
fn walk_keys(path: &str) -> (r: (Vec<Vec<char>>, bool))
    ensures
        r.0@.map_values(|v: Vec<char>| v@) == walk_key(components(path@)).0,
        r.1 == walk_key(components(path@)).1,
{
    let chars = crate::text::str_chars(path);
    let comps = path_components(chars.as_slice());
    let ghost cs = comps@.map_values(|c: PathComponent| c@);
    let mut out: Vec<Vec<char>> = Vec::new();
    let ghost mut acc: Seq<Seq<char>> = Seq::empty();
    let mut i: usize = 0;
    proof {
        assert(cs.skip(0) =~= cs);
        assert(out@.map_values(|v: Vec<char>| v@) =~= acc);
    }
    while i < comps.len()
        invariant
            cs == comps@.map_values(|c: PathComponent| c@),
            i <= cs.len(),
            cs == components(path@),
            out@.map_values(|v: Vec<char>| v@) == acc,
            acc + walk_key(cs.skip(i as int)).0 == walk_key(cs).0,
            walk_key(cs.skip(i as int)).1 == walk_key(cs).1,
        decreases cs.len() - i,
    {
        proof {
            lemma_walk_step(cs, i as int);
        }
        let ghost rest = walk_key(cs.skip(i + 1));
        assert(cs[i as int] == comps@[i as int]@);
        match &comps[i] {
            PathComponent::RootDir => {
                let mut v: Vec<char> = Vec::new();
                v.push('/');
                proof {
                    assert(v@ =~= root_name());
                    assert(acc + (seq![root_name()] + rest.0) =~= acc.push(root_name()) + rest.0);
                    acc = acc.push(root_name());
                }
                out.push(v);
            },
            PathComponent::Normal(s) => {
                proof {
                    assert(acc + (seq![s@] + rest.0) =~= acc.push(s@) + rest.0);
                    acc = acc.push(s@);
                }
                out.push(s.clone());
            },
            PathComponent::CurDir => {},
            PathComponent::ParentDir => {
                assert(acc + Seq::<Seq<char>>::empty() =~= acc);
                return (out, true);
            },
        }
        proof {
            assert(out@.map_values(|v: Vec<char>| v@) =~= acc);
        }
        i = i + 1;
    }
    assert(cs.skip(i as int) =~= Seq::<Comp>::empty());
    assert(acc + Seq::<Seq<char>>::empty() =~= acc);
    (out, false)
}

/// Walking a path without `..` reads the key that inserting it stores.
proof fn lemma_walk_without_parent(cs: Seq<Comp>)
    requires
        forall|j: int| 0 <= j < cs.len() ==> cs[j] != Comp::Parent,
    ensures
        walk_key(cs) == (insert_key(cs), false),
    decreases cs.len(),
{
    if cs.len() > 0 {
        assert forall|j: int| 0 <= j < cs.drop_first().len() implies cs.drop_first()[j] != Comp::Parent by {
            assert(cs.drop_first()[j] == cs[j + 1]);
        }
        lemma_walk_without_parent(cs.drop_first());
    }
}

/// Once a directory is inserted, every path whose walk passes through it
/// (and stops at no `..`) is contained.
pub proof fn lemma_inserted_directory_contains_below(keys: Set<TrieKey>, dir: Seq<char>, path: Seq<char>)
    requires
        !walk_key(components(path)).1,
        is_prefix(insert_key(components(dir)), walk_key(components(path)).0),
    ensures
        contains_spec(keys.insert(insert_key(components(dir))), components(path)),
{
    let k = walk_key(components(path)).0;
    let d = insert_key(components(dir));
    assert(k.take(d.len() as int) =~= d);
    assert(keys.insert(d).contains(k.take(d.len() as int)));
}

/// A directory without `..` components is contained once it is inserted.
pub proof fn lemma_inserted_directory_contains_itself(keys: Set<TrieKey>, dir: Seq<char>)
    requires
        forall|j: int|
            0 <= j < components(dir).len() ==> #[trigger] components(dir)[j] != Comp::Parent,
    ensures
        contains_spec(keys.insert(insert_key(components(dir))), components(dir)),
{
    lemma_walk_without_parent(components(dir));
    let d = insert_key(components(dir));
    assert(d.take(d.len() as int) =~= d);
    assert(keys.insert(d).contains(d.take(d.len() as int)));
}

/// A walk that meets no `..` reads the key that inserting the path stores.
proof fn lemma_walk_is_insert_key(cs: Seq<Comp>)
    requires
        !walk_key(cs).1,
    ensures
        walk_key(cs).0 == insert_key(cs),
    decreases cs.len(),
{
    if cs.len() > 0 {
        lemma_walk_is_insert_key(cs.drop_first());
    }
}

/// Some inserted key is a prefix of `k` exactly when one of `k`'s prefixes
/// was inserted.
proof fn lemma_inserted_prefix_exists(keys: Set<TrieKey>, k: TrieKey)
    ensures
        has_inserted_prefix(keys, k) == exists|m: TrieKey| keys.contains(m) && is_prefix(m, k),
{
    if has_inserted_prefix(keys, k) {
        let i = choose|i: int| 0 <= i <= k.len() && #[trigger] keys.contains(k.take(i));
        assert(is_prefix(k.take(i), k));
    }
    if exists|m: TrieKey| keys.contains(m) && is_prefix(m, k) {
        let m = choose|m: TrieKey| keys.contains(m) && is_prefix(m, k);
        assert(keys.contains(k.take(m.len() as int)));
    }
}

/// For a path without `..`, `contains` holds exactly when some inserted
/// path is (component by component) a prefix of it: an inserted directory
/// admits itself and everything below it, never an ancestor or a sibling.
pub proof fn lemma_contains_iff_inserted_prefix(keys: Set<TrieKey>, path: Seq<char>)
    requires
        !walk_key(components(path)).1,
    ensures
        contains_spec(keys, components(path)) == exists|m: TrieKey|
            keys.contains(m) && is_prefix(m, insert_key(components(path))),
{
    lemma_walk_is_insert_key(components(path));
    lemma_inserted_prefix_exists(keys, insert_key(components(path)));
}

/// For a path without `..`, `longest_prefix` finds nothing exactly when
/// `contains` refuses the path.
pub proof fn lemma_longest_prefix_none_iff_not_contained(keys: Set<TrieKey>, path: Seq<char>)
    requires
        !walk_key(components(path)).1,
    ensures
        longest_prefix_spec(keys, components(path)) is None <==> !contains_spec(
            keys,
            components(path),
        ),
{
    let k = walk_key(components(path)).0;
    lemma_longest_inserted(keys, k, k.len() as int);
    if let Some(i) = longest_inserted(keys, k, k.len() as int) {
        assert(keys.contains(k.take(i)));
    }
}

/// After inserting `dir`, a path without `..` is contained exactly when it
/// was contained before or `dir` is a prefix of it; `dir` itself, when it
/// has no `..`, is then contained.
pub proof fn lemma_insert_contains(keys: Set<TrieKey>, dir: Seq<char>, path: Seq<char>)
    requires
        !walk_key(components(path)).1,
    ensures
        contains_spec(keys.insert(insert_key(components(dir))), components(path)) == (
        contains_spec(keys, components(path)) || is_prefix(
            insert_key(components(dir)),
            insert_key(components(path)),
        )),
        !walk_key(components(dir)).1 ==> contains_spec(
            keys.insert(insert_key(components(dir))),
            components(dir),
        ),
{
    let d = insert_key(components(dir));
    let k = insert_key(components(path));
    lemma_contains_iff_inserted_prefix(keys, path);
    lemma_contains_iff_inserted_prefix(keys.insert(d), path);
    if contains_spec(keys.insert(d), components(path)) && !is_prefix(d, k) {
        let m = choose|m: TrieKey| keys.insert(d).contains(m) && is_prefix(m, k);
        assert(keys.contains(m));
    }
    if is_prefix(d, k) {
        assert(keys.insert(d).contains(d));
    }
    if contains_spec(keys, components(path)) {
        let m = choose|m: TrieKey| keys.contains(m) && is_prefix(m, k);
        assert(keys.insert(d).contains(m));
    }
    if !walk_key(components(dir)).1 {
        lemma_contains_iff_inserted_prefix(keys.insert(d), dir);
        assert(d.take(d.len() as int) =~= d);
        assert(keys.insert(d).contains(d) && is_prefix(d, d));
    }
}

/// The keys held after inserting each of `paths` in turn.
pub open spec fn inserts_spec(keys: Set<TrieKey>, paths: Seq<Seq<char>>) -> Set<TrieKey>
    decreases paths.len(),
{
    if paths.len() == 0 {
        keys
    } else {
        inserts_spec(keys, paths.drop_last()).insert(insert_key(components(paths.last())))
    }
}

/// `extend` leaves the keys that inserting its paths one by one leaves.
pub proof fn lemma_extend_is_inserts(keys: Set<TrieKey>, paths: Seq<String>)
    ensures
        keys.union(
            Set::new(|k: TrieKey| exists|i: int| 0 <= i < paths.len() && k == insert_key(components(#[trigger] paths[i]@))),
        ) == inserts_spec(keys, paths.map_values(|p: String| p@)),
    decreases paths.len(),
{
    let ps = paths.map_values(|p: String| p@);
    let all = Set::new(|k: TrieKey| exists|i: int| 0 <= i < paths.len() && k == insert_key(components(#[trigger] paths[i]@)));
    if paths.len() == 0 {
        assert(keys.union(all) =~= keys);
    } else {
        let front = paths.drop_last();
        lemma_extend_is_inserts(keys, front);
        assert(front.map_values(|p: String| p@) =~= ps.drop_last());
        let fewer = Set::new(|k: TrieKey| exists|i: int| 0 <= i < front.len() && k == insert_key(components(#[trigger] front[i]@)));
        let last = insert_key(components(paths.last()@));
        assert(ps.last() == paths.last()@);
        assert forall|k: TrieKey| keys.union(all).contains(k) == keys.union(fewer).insert(last).contains(k) by {
            if all.contains(k) {
                let i = choose|i: int| 0 <= i < paths.len() && k == insert_key(components(#[trigger] paths[i]@));
                if i < front.len() {
                    assert(front[i] == paths[i]);
                    assert(fewer.contains(k));
                }
            }
            if fewer.contains(k) {
                let i = choose|i: int| 0 <= i < front.len() && k == insert_key(components(#[trigger] front[i]@));
                assert(front[i] == paths[i]);
                assert(all.contains(k));
            }
            if k == last {
                assert(paths[paths.len() - 1] == paths.last());
                assert(all.contains(k));
            }
        }
        assert(keys.union(all) =~= keys.union(fewer).insert(last));
    }
}

/// A name that a path component can have: not empty, without `/`, and
/// neither `.` nor `..`.
pub open spec fn normal_name(n: Seq<char>) -> bool {
    n.len() > 0 && !n.contains('/') && n != dot() && n != dot_dot()
}

/// A key as `insert` stores it: the root `/` can only come first, every
/// other name is a normal one.
pub open spec fn well_formed_key(k: TrieKey) -> bool {
    forall|i: int| 0 <= i < k.len() ==> (i == 0 && k[i] == root_name()) || normal_name(#[trigger] k[i])
}

/// Components read from inside a path: no root, and normal names only.
spec fn inner_comps(cs: Seq<Comp>) -> bool {
    forall|i: int|
        0 <= i < cs.len() ==> (#[trigger] cs[i]) != Comp::Root && (cs[i] matches Comp::Normal(n) ==> normal_name(n))
}

proof fn lemma_insert_key_concat(a: Seq<Comp>, b: Seq<Comp>)
    ensures
        insert_key(a + b) == insert_key(a) + insert_key(b),
    decreases a.len(),
{
    if a.len() == 0 {
        assert(a + b =~= b);
        assert(insert_key(a) + insert_key(b) =~= insert_key(b));
    } else {
        assert((a + b).drop_first() =~= a.drop_first() + b);
        assert((a + b)[0] == a[0]);
        lemma_insert_key_concat(a.drop_first(), b);
        match a[0] {
            Comp::Root => assert(seq![root_name()] + (insert_key(a.drop_first()) + insert_key(b)) =~= (seq![root_name()] + insert_key(a.drop_first())) + insert_key(b)),
            Comp::Normal(n) => assert(seq![n] + (insert_key(a.drop_first()) + insert_key(b)) =~= (seq![n] + insert_key(a.drop_first())) + insert_key(b)),
            _ => {},
        }
    }
}

proof fn lemma_scan_inner(p: Seq<char>, cur: Seq<char>)
    requires
        !cur.contains('/'),
    ensures
        inner_comps(scan(p, cur)),
    decreases p.len(),
{
    if p.len() == 0 {
    } else if p[0] == '/' {
        lemma_scan_inner(p.drop_first(), Seq::empty());
        let a = seg_comp(cur);
        let b = scan(p.drop_first(), Seq::empty());
        assert forall|i: int| 0 <= i < (a + b).len() implies (#[trigger] (a + b)[i]) != Comp::Root && ((a + b)[i] matches Comp::Normal(n) ==> normal_name(n)) by {
            if i >= a.len() {
                assert((a + b)[i] == b[i - a.len()]);
            }
        }
    } else {
        assert forall|c: char| cur.push(p[0]).contains(c) implies c != '/' by {
            let j = choose|j: int| 0 <= j < cur.push(p[0]).len() && cur.push(p[0])[j] == c;
            if j < cur.len() {
                assert(cur.contains(cur[j]));
            }
        }
        lemma_scan_inner(p.drop_first(), cur.push(p[0]));
    }
}

proof fn lemma_inner_names(cs: Seq<Comp>)
    requires
        inner_comps(cs),
    ensures
        forall|i: int| 0 <= i < insert_key(cs).len() ==> normal_name(#[trigger] insert_key(cs)[i]),
    decreases cs.len(),
{
    if cs.len() > 0 {
        let rest = cs.drop_first();
        assert forall|i: int| 0 <= i < rest.len() implies (#[trigger] rest[i]) != Comp::Root && (rest[i] matches Comp::Normal(n) ==> normal_name(n)) by {
            assert(rest[i] == cs[i + 1]);
        }
        lemma_inner_names(rest);
        assert(cs[0] != Comp::Root);
        if let Comp::Normal(n) = cs[0] {
            assert forall|i: int| 0 <= i < insert_key(cs).len() implies normal_name(#[trigger] insert_key(cs)[i]) by {
                if i > 0 {
                    assert(insert_key(cs)[i] == insert_key(rest)[i - 1]);
                }
            }
        }
    }
}

/// The root part of a path's components adds the root name exactly when
/// the path starts at the root.
proof fn lemma_head_key(p: Seq<char>)
    ensures
        components(p) == (if has_root(p) {
            seq![Comp::Root]
        } else if crate::path::starts_with_cur_dir(p) {
            seq![Comp::Cur]
        } else {
            Seq::<Comp>::empty()
        }) + scan(p, Seq::empty()),
        insert_key(
            if has_root(p) {
                seq![Comp::Root]
            } else if crate::path::starts_with_cur_dir(p) {
                seq![Comp::Cur]
            } else {
                Seq::<Comp>::empty()
            },
        ) == if has_root(p) {
            seq![root_name()]
        } else {
            Seq::<Seq<char>>::empty()
        },
{
    let h = if has_root(p) {
        seq![Comp::Root]
    } else if crate::path::starts_with_cur_dir(p) {
        seq![Comp::Cur]
    } else {
        Seq::<Comp>::empty()
    };
    if h.len() > 0 {
        assert(h.drop_first() =~= Seq::<Comp>::empty());
    }
    assert(insert_key(Seq::<Comp>::empty()) =~= Seq::<Seq<char>>::empty());
    if has_root(p) {
        assert(seq![root_name()] + Seq::<Seq<char>>::empty() =~= seq![root_name()]);
    }
}

/// Every key that `insert` stores is well formed.
pub proof fn lemma_insert_key_well_formed(p: Seq<char>)
    ensures
        well_formed_key(insert_key(components(p))),
{
    lemma_head_key(p);
    let h = if has_root(p) {
        seq![Comp::Root]
    } else if crate::path::starts_with_cur_dir(p) {
        seq![Comp::Cur]
    } else {
        Seq::<Comp>::empty()
    };
    let t = scan(p, Seq::empty());
    lemma_insert_key_concat(h, t);
    lemma_scan_inner(p, Seq::empty());
    lemma_inner_names(t);
    let k = insert_key(components(p));
    let hk = insert_key(h);
    assert forall|i: int| 0 <= i < k.len() implies (i == 0 && k[i] == root_name()) || normal_name(#[trigger] k[i]) by {
        if i >= hk.len() {
            assert(k[i] == insert_key(t)[i - hk.len()]);
        }
    }
}

/// Reading past a `/` starts a new segment.
proof fn lemma_scan_split(x: Seq<char>, y: Seq<char>, cur: Seq<char>)
    ensures
        scan(x + seq!['/'] + y, cur) == scan(x, cur) + scan(y, Seq::empty()),
    decreases x.len(),
{
    let whole = x + seq!['/'] + y;
    if x.len() == 0 {
        assert(whole =~= seq!['/'] + y);
        assert(whole.drop_first() =~= y);
    } else {
        assert(whole[0] == x[0]);
        assert(whole.drop_first() =~= x.drop_first() + seq!['/'] + y);
        if x[0] == '/' {
            lemma_scan_split(x.drop_first(), y, Seq::empty());
            assert(seg_comp(cur) + (scan(x.drop_first(), Seq::empty()) + scan(y, Seq::empty())) =~= (seg_comp(cur) + scan(x.drop_first(), Seq::empty())) + scan(y, Seq::empty()));
        } else {
            lemma_scan_split(x.drop_first(), y, cur.push(x[0]));
        }
    }
}

/// A segment without `/` is read whole.
proof fn lemma_scan_segment(n: Seq<char>, cur: Seq<char>)
    requires
        !n.contains('/'),
    ensures
        scan(n, cur) == seg_comp(cur + n),
    decreases n.len(),
{
    if n.len() == 0 {
        assert(cur + n =~= cur);
    } else {
        assert(n[0] != '/') by {
            assert(n.contains(n[0]));
        }
        assert forall|c: char| n.drop_first().contains(c) implies n.contains(c) by {
            let j = choose|j: int| 0 <= j < n.drop_first().len() && n.drop_first()[j] == c;
            assert(n[j + 1] == c);
        }
        lemma_scan_segment(n.drop_first(), cur.push(n[0]));
        assert(cur.push(n[0]) + n.drop_first() =~= cur + n);
    }
}

/// Pushing a normal name onto a non-empty path adds that name to its key.
proof fn lemma_push_normal(x: Seq<char>, n: Seq<char>)
    requires
        x.len() > 0,
        normal_name(n),
    ensures
        insert_key(components(push_path(x, n))) == insert_key(components(x)).push(n),
{
    let y = push_path(x, n);
    assert(n.contains(n[0]));
    let x0 = if x.last() == '/' { x.drop_last() } else { x };
    if x.last() == '/' {
        assert(x =~= x0 + seq!['/'] + Seq::<char>::empty());
        assert(y =~= x0 + seq!['/'] + n);
        lemma_scan_split(x0, Seq::empty(), Seq::empty());
    } else {
        assert(y =~= x0 + seq!['/'] + n);
    }
    lemma_scan_split(x0, n, Seq::empty());
    lemma_scan_segment(n, Seq::empty());
    assert(Seq::<char>::empty() + n =~= n);
    assert(scan(x, Seq::empty()) == scan(x0, Seq::empty())) by {
        if x.last() == '/' {
            assert(scan(Seq::<char>::empty(), Seq::empty()) =~= Seq::<Comp>::empty());
            assert(scan(x0, Seq::empty()) + Seq::<Comp>::empty() =~= scan(x0, Seq::empty()));
        }
    }
    assert(y[0] == x[0]);
    lemma_head_key(x);
    lemma_head_key(y);
    let hx = if has_root(x) {
        seq![Comp::Root]
    } else if crate::path::starts_with_cur_dir(x) {
        seq![Comp::Cur]
    } else {
        Seq::<Comp>::empty()
    };
    let hy = if has_root(y) {
        seq![Comp::Root]
    } else if crate::path::starts_with_cur_dir(y) {
        seq![Comp::Cur]
    } else {
        Seq::<Comp>::empty()
    };
    let sx = scan(x0, Seq::empty());
    let last = seq![Comp::Normal(n)];
    assert(components(y) == hy + (sx + last));
    lemma_insert_key_concat(hy, sx + last);
    lemma_insert_key_concat(sx, last);
    lemma_insert_key_concat(hx, sx);
    assert(last.drop_first() =~= Seq::<Comp>::empty());
    assert(insert_key(last) =~= seq![n]);
    assert(insert_key(components(y)) =~= insert_key(components(x)).push(n));
}

/// The path `join_path` makes of a well-formed key has that key.
pub proof fn lemma_join_path_key(k: TrieKey)
    requires
        well_formed_key(k),
    ensures
        insert_key(components(join_path(k))) == k,
        k.len() > 0 ==> join_path(k).len() > 0,
    decreases k.len(),
{
    if k.len() > 0 {
        let front = k.drop_last();
        let n = k.last();
        assert forall|i: int| 0 <= i < front.len() implies (i == 0 && front[i] == root_name()) || normal_name(#[trigger] front[i]) by {
            assert(front[i] == k[i]);
        }
        lemma_join_path_key(front);
        let x = join_path(front);
        if k.len() == 1 {
            assert(front.len() == 0);
            assert(x == Seq::<char>::empty());
            if n == root_name() {
                assert(join_path(k) == n);
                lemma_head_key(n);
                assert(n.drop_first() =~= Seq::<char>::empty());
                assert(scan(n, Seq::empty()) =~= Seq::<Comp>::empty());
                assert(components(n) =~= seq![Comp::Root]);
                assert(seq![Comp::Root].drop_first() =~= Seq::<Comp>::empty());
                assert(insert_key(seq![Comp::Root]) =~= seq![root_name()]);
                assert(k =~= seq![n]);
            } else {
                assert(normal_name(n));
                assert(n.contains(n[0]));
                assert(join_path(k) =~= n);
                lemma_head_key(n);
                lemma_scan_segment(n, Seq::empty());
                assert(Seq::<char>::empty() + n =~= n);
                if n.len() > 1 && n[0] == '.' {
                    assert(n.contains(n[1]));
                }
                if n.len() == 1 && n[0] == '.' {
                    assert(n =~= dot());
                }
                assert(components(n) =~= seq![Comp::Normal(n)]);
                assert(seq![Comp::Normal(n)].drop_first() =~= Seq::<Comp>::empty());
                assert(insert_key(seq![Comp::Normal(n)]) =~= seq![n]);
                assert(k =~= seq![n]);
            }
        } else {
            assert(normal_name(k[k.len() - 1]));
            lemma_push_normal(x, n);
            assert(k =~= front.push(n));
        }
    }
}

/// For a path without `..`, what `longest_prefix` returns is (component by
/// component) a path that was inserted, and a prefix of the path: it has
/// the key of an inserted path.
pub proof fn lemma_longest_prefix_is_inserted(keys: Set<TrieKey>, path: Seq<char>)
    requires
        forall|m: TrieKey| #[trigger] keys.contains(m) ==> exists|q: Seq<char>| m == insert_key(components(q)),
    ensures
        longest_prefix_spec(keys, components(path)) matches Some(s) ==> keys.contains(
            insert_key(components(s)),
        ) && is_prefix(insert_key(components(s)), walk_key(components(path)).0),
{
    let k = walk_key(components(path)).0;
    lemma_longest_inserted(keys, k, k.len() as int);
    if let Some(i) = longest_inserted(keys, k, k.len() as int) {
        let m = k.take(i);
        assert(keys.contains(m));
        let q = choose|q: Seq<char>| m == insert_key(components(q));
        lemma_insert_key_well_formed(q);
        lemma_join_path_key(m);
        assert(is_prefix(m, k));
    }
}

proof fn lemma_longest_inserted(keys: Set<TrieKey>, k: TrieKey, n: int)
    requires
        n <= k.len(),
    ensures
        longest_inserted(keys, k, n) matches Some(i) ==> 0 <= i <= n && keys.contains(k.take(i))
            && forall|j: int| i < j <= n ==> !keys.contains(#[trigger] k.take(j)),
        longest_inserted(keys, k, n) is None ==> forall|j: int|
            0 <= j <= n ==> !keys.contains(#[trigger] k.take(j)),
    decreases n + 1,
{
    if n >= 0 && !keys.contains(k.take(n)) {
        lemma_longest_inserted(keys, k, n - 1);
    }
}

/// What `longest_prefix` gives is an inserted prefix of the path's walk,
/// and no longer prefix of the walk was inserted; it gives nothing only
/// when no prefix was inserted.
pub proof fn lemma_longest_prefix_is_longest(keys: Set<TrieKey>, path: Seq<char>)
    ensures
        ({
            let k = walk_key(components(path)).0;
            &&& longest_prefix_spec(keys, components(path)) matches Some(s) ==> exists|i: int|
                0 <= i <= k.len() && keys.contains(k.take(i)) && s == join_path(k.take(i)) && forall|
                    j: int,
                | i < j <= k.len() ==> !keys.contains(#[trigger] k.take(j))
            &&& longest_prefix_spec(keys, components(path)) is None ==> forall|j: int|
                0 <= j <= k.len() ==> !keys.contains(#[trigger] k.take(j))
        }),
{
    let k = walk_key(components(path)).0;
    lemma_longest_inserted(keys, k, k.len() as int);
    if let Some(i) = longest_inserted(keys, k, k.len() as int) {
        assert(0 <= i <= k.len() && keys.contains(k.take(i)));
    }
}

// ──────────────────────────────────────────────
// RingBuffer
// ──────────────────────────────────────────────

/// What one `push` leaves in a buffer holding `s`, of capacity `cap`: the
/// new item goes last, and when the buffer is full the oldest one leaves.
pub open spec fn push_spec<T>(s: Seq<T>, cap: nat, x: T) -> Seq<T> {
    if s.len() >= cap {
        s.drop_first().push(x)
    } else {
        s.push(x)
    }
}

/// What pushing `items` one by one leaves in a buffer holding `s`.
pub open spec fn push_all_spec<T>(s: Seq<T>, cap: nat, items: Seq<T>) -> Seq<T>
    decreases items.len(),
{
    if items.len() == 0 {
        s
    } else {
        push_spec(push_all_spec(s, cap, items.drop_last()), cap, items.last())
    }
}

/// The last `n` items of `s` (all of them when there are fewer).
pub open spec fn newest<T>(s: Seq<T>, n: nat) -> Seq<T> {
    if s.len() <= n {
        s
    } else {
        s.subrange(s.len() - n, s.len() as int)
    }
}

/// A fixed-capacity ring buffer (circular buffer).
/// When full, new items overwrite the oldest items.
pub struct RingBuffer<T> {
    buffer: Vec<Option<T>>,
    head: usize,
    size: usize,
    capacity: usize,
}

impl<T> RingBuffer<T> {
    /// The slot that holds the item at position `i`, oldest first.
    spec fn slot_of(&self, i: int) -> int {
        (self.head + i) % (self.capacity as int)
    }

    /// The buffer's internal consistency: every position up to the length
    /// holds an item.
    pub closed spec fn wf(&self) -> bool {
        &&& self.buffer@.len() == self.capacity
        &&& self.size <= self.capacity
        &&& (self.capacity == 0 ==> self.head == 0)
        &&& (self.capacity > 0 ==> self.head < self.capacity)
        &&& forall|i: int| 0 <= i < self.size ==> (#[trigger] self.buffer@[self.slot_of(i)]) is Some
    }

    /// The items held, oldest first.
    pub closed spec fn view(&self) -> Seq<T> {
        Seq::new(self.size as nat, |i: int| self.buffer@[self.slot_of(i)]->0)
    }

    /// The capacity the buffer was made with.
    pub closed spec fn cap(&self) -> nat {
        self.capacity as nat
    }

    proof fn lemma_slot(&self, i: int)
        requires
            self.wf(),
            0 <= i < self.capacity,
        ensures
            0 <= self.slot_of(i) < self.capacity,
            self.slot_of(i) == if self.head + i < self.capacity {
                self.head + i
            } else {
                self.head + i - self.capacity
            },
    {
        lemma_wrap(self.head + i, self.capacity as int);
    }

    /// `(head + i) % capacity`, computed without overflow.
    fn slot(&self, i: usize) -> (r: usize)
        requires
            self.wf(),
            i < self.capacity,
        ensures
            r == self.slot_of(i as int),
            r < self.capacity,
    {
        proof {
            self.lemma_slot(i as int);
        }
        if self.head < self.capacity - i {
            self.head + i
        } else {
            self.head - (self.capacity - i)
        }
    }

    pub fn new(capacity: usize) -> (r: Self)
        ensures
            r.wf(),
            r.view() == Seq::<T>::empty(),
            r.cap() == capacity,
    {
        let mut buffer: Vec<Option<T>> = Vec::with_capacity(capacity);
        let mut i: usize = 0;
        while i < capacity
            invariant
                i <= capacity,
                buffer@.len() == i,
            decreases capacity - i,
        {
            buffer.push(None);
            i = i + 1;
        }
        let r = RingBuffer { buffer, head: 0, size: 0, capacity };
        assert(r.view() =~= Seq::<T>::empty());
        r
    }

    pub fn push(&mut self, item: T)
        requires
            old(self).wf(),
            old(self).cap() > 0,
        ensures
            final(self).wf(),
            final(self).cap() == old(self).cap(),
            final(self).view() == push_spec(old(self).view(), old(self).cap(), item),
    {
        let ghost before = *self;
        if self.size == self.capacity {
            proof {
                before.lemma_slot(0);
            }
            let h = self.head;
            self.buffer.set(h, Some(item));
            proof {
                lemma_wrap(h + 1, self.capacity as int);
            }
            self.head = if h + 1 < self.capacity {
                h + 1
            } else {
                0
            };
            proof {
                assert forall|i: int| 0 <= i < self.size implies self.slot_of(i) == if i + 1
                    < before.size {
                    before.slot_of(i + 1)
                } else {
                    h as int
                } by {
                    lemma_wrap(self.head + i, self.capacity as int);
                    if i + 1 < before.size {
                        before.lemma_slot(i + 1);
                    }
                }
                assert forall|i: int| 0 <= i < self.size implies (#[trigger] self.buffer@[self.slot_of(i)]) is Some by {
                    if i + 1 < before.size {
                        before.lemma_slot(i + 1);
                        before.lemma_slot(0);
                        assert(before.buffer@[before.slot_of(i + 1)] is Some);
                    }
                }
                assert(self.view() =~= push_spec(before.view(), before.cap(), item)) by {
                    assert forall|i: int| 0 <= i < self.size implies #[trigger] self.view()[i] == push_spec(before.view(), before.cap(), item)[i] by {
                        if i + 1 < before.size {
                            before.lemma_slot(i + 1);
                            before.lemma_slot(0);
                        }
                    }
                }
            }
        } else {
            let idx = self.slot(self.size);
            self.buffer.set(idx, Some(item));
            self.size = self.size + 1;
            proof {
                assert forall|i: int| 0 <= i < before.size implies #[trigger] self.slot_of(i) != idx by {
                    before.lemma_slot(i);
                    before.lemma_slot(before.size as int);
                }
                assert forall|i: int| 0 <= i < self.size implies (#[trigger] self.buffer@[self.slot_of(i)]) is Some by {
                    if i < before.size {
                        assert(self.slot_of(i) == before.slot_of(i));
                        assert(self.slot_of(i) != idx);
                    }
                }
                assert(self.view() =~= push_spec(before.view(), before.cap(), item)) by {
                    assert forall|i: int| 0 <= i < self.size implies #[trigger] self.view()[i] == push_spec(before.view(), before.cap(), item)[i] by {
                        if i < before.size {
                            assert(self.slot_of(i) != idx);
                        }
                    }
                }
            }
        }
    }

    pub fn pop(&mut self) -> (r: Option<T>)
        requires
            old(self).wf(),
        ensures
            final(self).wf(),
            final(self).cap() == old(self).cap(),
            old(self).view().len() == 0 ==> r is None && final(self).view() == old(self).view(),
            old(self).view().len() > 0 ==> r == Some(old(self).view()[0]) && final(self).view()
                == old(self).view().drop_first(),
    {
        if self.size == 0 {
            return None;
        }
        let ghost before = *self;
        proof {
            before.lemma_slot(0);
        }
        let h = self.head;
        let item = self.buffer[h].take();
        proof {
            lemma_wrap(h + 1, self.capacity as int);
        }
        self.head = if h + 1 < self.capacity {
            h + 1
        } else {
            0
        };
        self.size = self.size - 1;
        proof {
            assert forall|i: int| 0 <= i < self.size implies self.slot_of(i) == before.slot_of(i + 1) && self.slot_of(i) != h by {
                lemma_wrap(self.head + i, self.capacity as int);
                before.lemma_slot(i + 1);
            }
            assert forall|i: int| 0 <= i < self.size implies (#[trigger] self.buffer@[self.slot_of(i)]) is Some by {
                assert(before.buffer@[before.slot_of(i + 1)] is Some);
            }
            assert(self.view() =~= before.view().drop_first());
        }
        item
    }

    pub fn len(&self) -> (r: usize)
        ensures
            r == self.view().len(),
            self.wf() ==> r <= self.cap(),
    {
        self.size
    }

    /// A well-formed buffer never holds more items than its capacity.
    pub proof fn lemma_len_within_capacity(&self)
        requires
            self.wf(),
        ensures
            self.view().len() <= self.cap(),
    {
    }

    pub fn is_empty(&self) -> (r: bool)
        ensures
            r == (self.view().len() == 0),
    {
        self.size == 0
    }

    pub fn is_full(&self) -> (r: bool)
        ensures
            r == (self.view().len() == self.cap()),
    {
        self.size == self.capacity
    }

    pub fn capacity(&self) -> (r: usize)
        ensures
            r == self.cap(),
    {
        self.capacity
    }

    /// Collect all items in order (oldest first) into a Vec of references.
    pub fn to_vec(&self) -> (r: Vec<&T>)
        requires
            self.wf(),
        ensures
            r@.len() == self.view().len(),
            forall|i: int| 0 <= i < r@.len() ==> *r@[i] == self.view()[i],
    {
        let mut result: Vec<&T> = Vec::with_capacity(self.size);
        let mut i: usize = 0;
        while i < self.size
            invariant
                self.wf(),
                i <= self.size,
                result@.len() == i,
                forall|j: int| 0 <= j < i ==> *result@[j] == self.view()[j],
            decreases self.size - i,
        {
            let idx = self.slot(i);
            match &self.buffer[idx] {
                Some(item) => {
                    result.push(item);
                },
                None => {
                    assert(self.buffer@[self.slot_of(i as int)] is Some);
                },
            }
            i = i + 1;
        }
        result
    }

    /// Consume the buffer and return items in order (oldest first).
    pub fn into_vec(self) -> (r: Vec<T>)
        requires
            self.wf(),
        ensures
            r@ == self.view(),
    {
        let mut buf = self;
        let mut result: Vec<T> = Vec::with_capacity(buf.size);
        while buf.size > 0
            invariant
                buf.wf(),
                result@ + buf.view() == self.view(),
            decreases buf.view().len(),
        {
            let ghost v = buf.view();
            match buf.pop() {
                Some(item) => {
                    assert(result@.push(item) + buf.view() =~= result@ + v);
                    result.push(item);
                },
                None => {},
            }
        }
        assert(result@ + buf.view() =~= result@);
        result
    }

    pub fn iter(&self) -> (r: RingBufferIter<'_, T>)
        requires
            self.wf(),
        ensures
            r.items() == self.view(),
            r.pos() == 0,
            r.wf(),
    {
        RingBufferIter { buffer: self, index: 0 }
    }
}

/// `x % c`, for `x` below `2 * c`, is `x` or `x - c`.
proof fn lemma_wrap(x: int, c: int)
    requires
        0 < c,
        0 <= x < 2 * c,
    ensures
        0 <= x % c < c,
        x % c == if x < c { x } else { x - c },
{
    if x < c {
        vstd::arithmetic::div_mod::lemma_small_mod(x as nat, c as nat);
    } else {
        vstd::arithmetic::div_mod::lemma_small_mod((x - c) as nat, c as nat);
        vstd::arithmetic::div_mod::lemma_mod_add_multiples_vanish(x - c, c);
    }
}

/// Iterator over the items of a [`RingBuffer`], oldest first.
pub struct RingBufferIter<'a, T> {
    buffer: &'a RingBuffer<T>,
    index: usize,
}

impl<'a, T> RingBufferIter<'a, T> {
    /// The items the iterator walks, oldest first.
    pub closed spec fn items(&self) -> Seq<T> {
        self.buffer.view()
    }

    /// How many items have been handed out.
    pub closed spec fn pos(&self) -> nat {
        self.index as nat
    }

    pub closed spec fn wf(&self) -> bool {
        self.buffer.wf()
    }

    /// The next item, oldest first, or `None` once every item was handed out.
    pub fn next(&mut self) -> (r: Option<&'a T>)
        requires
            old(self).wf(),
        ensures
            final(self).wf(),
            final(self).items() == old(self).items(),
            old(self).pos() < old(self).items().len() ==> r == Some(&old(self).items()[old(self).pos() as int])
                && final(self).pos() == old(self).pos() + 1,
            old(self).pos() >= old(self).items().len() ==> r is None && final(self).pos() == old(self).pos(),
    {
        if self.index >= self.buffer.size {
            return None;
        }
        let idx = self.buffer.slot(self.index);
        self.index = self.index + 1;
        self.buffer.buffer[idx].as_ref()
    }

    /// How many items are left, as a lower and an upper bound.
    pub fn size_hint(&self) -> (r: (usize, Option<usize>))
        ensures
            r.0 == if self.pos() <= self.items().len() { self.items().len() - self.pos() } else { 0 },
            r.1 == Some(r.0),
    {
        let remaining = self.buffer.size.saturating_sub(self.index);
        (remaining, Some(remaining))
    }
}

/// Pushing items into a ring buffer keeps the newest ones: after pushing
/// `items` into a buffer holding `s`, it holds the last `cap` items of
/// `s` followed by `items`.
pub proof fn lemma_push_keeps_newest<T>(s: Seq<T>, cap: nat, items: Seq<T>)
    requires
        0 < cap,
        s.len() <= cap,
    ensures
        push_all_spec(s, cap, items) == newest(s + items, cap),
    decreases items.len(),
{
    if items.len() == 0 {
        assert(s + items =~= s);
    } else {
        let init = items.drop_last();
        let x = items.last();
        lemma_push_keeps_newest(s, cap, init);
        let t = s + init;
        assert(s + items =~= t.push(x));
        let before = newest(t, cap);
        if t.len() < cap {
            assert(push_spec(before, cap, x) =~= newest(t.push(x), cap));
        } else if t.len() == cap {
            assert(push_spec(before, cap, x) =~= newest(t.push(x), cap));
        } else {
            assert(before.len() == cap);
            assert(push_spec(before, cap, x) =~= newest(t.push(x), cap));
        }
    }
}

} // verus!
