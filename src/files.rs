//! The directory tree of a torrent's files.
use vstd::prelude::*;
use crate::meta_info::{attr_padding, Files, Info, MultiFiles, SpecMultiFile};
use crate::value::{bytes_eq, bytes_lt, lemma_lex_asymmetric, lemma_lex_total, lemma_lex_transitive, lex_lt};
use crate::outside::{lower_of, lowercase};
use vstd::utf8::encode_utf8;

verus! {

broadcast use vstd::std_specs::vec::group_vec_axioms, vstd::seq::group_seq_axioms;

/// A node of the file tree: a directory with its children in insertion order
/// and its aggregate length, or a file with its length.
///
/// The children are a `Vec` that keeps insertion order: Verus refuses this
/// type recursing through `indexmap::IndexMap` ("non-positive position"), and
/// behind an opaque holder no recursive spec over the tree can be shown to
/// terminate.
#[derive(Debug)]
pub enum FileNode {
    Dir { parent: String, children: Vec<(String, FileNode)>, length: usize },
    File { name: String, length: usize },
}

pub open spec fn node_len(n: FileNode) -> nat {
    match n {
        FileNode::Dir { length, .. } => length as nat,
        FileNode::File { length, .. } => length as nat,
    }
}

/// Sum of the lengths of `c`'s nodes.
pub open spec fn children_sum(c: Seq<(String, FileNode)>) -> nat
    decreases c.len(),
{
    if c.len() == 0 {
        0
    } else {
        children_sum(c.drop_last()) + node_len(c.last().1)
    }
}

/// Every directory's length is the sum of its children's lengths.
pub open spec fn wf_node(n: FileNode) -> bool
    decreases n,
{
    match n {
        FileNode::Dir { children, length, .. } => length == children_sum(children@) && (forall|i: int|
            0 <= i < children@.len() ==> wf_node(#[trigger] children@[i].1)),
        FileNode::File { .. } => true,
    }
}

proof fn lemma_sum_concat(a: Seq<(String, FileNode)>, b: Seq<(String, FileNode)>)
    ensures
        children_sum(a + b) == children_sum(a) + children_sum(b),
    decreases b.len(),
{
    if b.len() == 0 {
        assert(a + b =~= a);
    } else {
        assert((a + b).drop_last() =~= a + b.drop_last());
        lemma_sum_concat(a, b.drop_last());
    }
}

proof fn lemma_sum_split(c: Seq<(String, FileNode)>, i: int)
    requires
        0 <= i < c.len(),
    ensures
        children_sum(c) == children_sum(c.subrange(0, i)) + node_len(c[i].1) + children_sum(c.subrange(i + 1, c.len() as int)),
        children_sum(c.remove(i)) == children_sum(c.subrange(0, i)) + children_sum(c.subrange(i + 1, c.len() as int)),
{
    let a = c.subrange(0, i);
    let b = c.subrange(i + 1, c.len() as int);
    assert(c =~= a + seq![c[i]] + b);
    assert(c.remove(i) =~= a + b);
    lemma_sum_concat(a + seq![c[i]], b);
    lemma_sum_concat(a, seq![c[i]]);
    lemma_sum_concat(a, b);
    assert(seq![c[i]].drop_last() =~= Seq::<(String, FileNode)>::empty());
    assert(children_sum(Seq::<(String, FileNode)>::empty()) == 0);
    assert(seq![c[i]].last() == c[i]);
    assert(children_sum(seq![c[i]]) == node_len(c[i].1));
}

proof fn lemma_sum_insert(c: Seq<(String, FileNode)>, i: int, x: (String, FileNode))
    requires
        0 <= i <= c.len(),
    ensures
        children_sum(c.insert(i, x)) == children_sum(c) + node_len(x.1),
{
    let a = c.subrange(0, i);
    let b = c.subrange(i, c.len() as int);
    assert(c =~= a + b);
    assert(c.insert(i, x) =~= a + seq![x] + b);
    lemma_sum_concat(a + seq![x], b);
    lemma_sum_concat(a, seq![x]);
    lemma_sum_concat(a, b);
    assert(seq![x].drop_last() =~= Seq::<(String, FileNode)>::empty());
    assert(children_sum(Seq::<(String, FileNode)>::empty()) == 0);
    assert(seq![x].last() == x);
    assert(children_sum(seq![x]) == node_len(x.1));
}

/// First child of `c` at or after `i` named `name`.
pub open spec fn find_from(c: Seq<(String, FileNode)>, name: Seq<char>, i: int) -> Option<int>
    decreases c.len() - i,
{
    if i < 0 || i >= c.len() {
        None
    } else if c[i].0@ == name {
        Some(i)
    } else {
        find_from(c, name, i + 1)
    }
}

/// First child of `c` named `name`.
pub open spec fn find_child(c: Seq<(String, FileNode)>, name: Seq<char>) -> Option<int> {
    find_from(c, name, 0)
}

/// The length of the file that the names `p` lead to from the directory `n`;
/// `None` when they lead nowhere, to a directory, or through a file.
pub open spec fn file_at(n: FileNode, p: Seq<Seq<char>>) -> Option<nat>
    decreases p.len(),
{
    if p.len() == 0 {
        None
    } else {
        match n {
            FileNode::File { .. } => None,
            FileNode::Dir { children, .. } => match find_child(children@, p[0]) {
                None => None,
                Some(i) => if p.len() == 1 {
                    match children@[i].1 {
                        FileNode::File { length, .. } => Some(length as nat),
                        FileNode::Dir { .. } => None,
                    }
                } else {
                    file_at(children@[i].1, p.drop_first())
                },
            },
        }
    }
}

/// The length that adding a file at `p` under `n` takes away: the node at
/// `p`, or a file standing where `p` needs a directory.
pub open spec fn displaced(n: FileNode, p: Seq<Seq<char>>) -> nat
    decreases p.len(),
{
    if p.len() == 0 {
        0
    } else {
        match n {
            FileNode::File { .. } => 0,
            FileNode::Dir { children, .. } => match find_child(children@, p[0]) {
                None => 0,
                Some(i) => if p.len() == 1 || children@[i].1 is File {
                    node_len(children@[i].1)
                } else {
                    displaced(children@[i].1, p.drop_first())
                },
            },
        }
    }
}

/// Some node, file or directory, stands at the names `p` under `n`.
pub open spec fn node_at(n: FileNode, p: Seq<Seq<char>>) -> bool
    decreases p.len(),
{
    if p.len() == 0 {
        true
    } else {
        match n {
            FileNode::File { .. } => false,
            FileNode::Dir { children, .. } => match find_child(children@, p[0]) {
                None => false,
                Some(i) => node_at(children@[i].1, p.drop_first()),
            },
        }
    }
}

/// No two children share a name.
pub open spec fn names_distinct(c: Seq<(String, FileNode)>) -> bool {
    forall|a: int, b: int| 0 <= a < b < c.len() ==> #[trigger] c[a].0@ != #[trigger] c[b].0@
}

pub open spec fn is_prefix(a: Seq<Seq<char>>, b: Seq<Seq<char>>) -> bool {
    a.len() <= b.len() && b.subrange(0, a.len() as int) == a
}

/// One path lies on the other.
pub open spec fn related(a: Seq<Seq<char>>, b: Seq<Seq<char>>) -> bool {
    is_prefix(a, b) || is_prefix(b, a)
}

/// The names `path[k..]`.
pub open spec fn names_from(path: Seq<String>, k: int) -> Seq<Seq<char>> {
    Seq::new((path.len() - k) as nat, |j: int| path[k + j]@)
}

proof fn lemma_find(c: Seq<(String, FileNode)>, x: Seq<char>, from: int)
    requires
        0 <= from <= c.len(),
    ensures
        find_from(c, x, from) matches Some(i) ==> from <= i < c.len() && c[i].0@ == x
            && forall|j: int| from <= j < i ==> c[j].0@ != x,
        find_from(c, x, from) is None ==> forall|j: int| from <= j < c.len() ==> c[j].0@ != x,
    decreases c.len() - from,
{
    if from < c.len() && c[from].0@ != x {
        lemma_find(c, x, from + 1);
    }
}

/// The first index named `x` is `i`, given what lies before it.
proof fn lemma_find_is(c: Seq<(String, FileNode)>, x: Seq<char>, i: int)
    requires
        0 <= i <= c.len(),
        forall|j: int| 0 <= j < i ==> c[j].0@ != x,
        i < c.len() ==> c[i].0@ == x,
    ensures
        find_child(c, x) == (if i < c.len() { Some(i) } else { None::<int> }),
{
    lemma_find(c, x, 0);
}

proof fn lemma_find_same_names(a: Seq<(String, FileNode)>, b: Seq<(String, FileNode)>, x: Seq<char>)
    requires
        a.len() == b.len(),
        forall|j: int| 0 <= j < a.len() ==> #[trigger] a[j].0@ == b[j].0@,
    ensures
        find_child(a, x) == find_child(b, x),
{
    lemma_find(a, x, 0);
    lemma_find(b, x, 0);
    match find_child(a, x) {
        Some(i) => {
            assert forall|j: int| 0 <= j < i implies b[j].0@ != x by {
                assert(a[j].0@ == b[j].0@);
            }
            assert(a[i].0@ == b[i].0@);
            lemma_find_is(b, x, i);
        },
        None => {
            assert forall|j: int| 0 <= j < b.len() implies b[j].0@ != x by {
                assert(a[j].0@ == b[j].0@);
            }
            lemma_find_is(b, x, b.len() as int);
        },
    }
}

proof fn lemma_find_push(a: Seq<(String, FileNode)>, e: (String, FileNode), x: Seq<char>)
    requires
        e.0@ != x,
    ensures
        find_child(a.push(e), x) == find_child(a, x),
{
    lemma_find(a, x, 0);
    let b = a.push(e);
    match find_child(a, x) {
        Some(i) => {
            assert forall|j: int| 0 <= j < i implies b[j].0@ != x by {
                assert(b[j] == a[j]);
            }
            assert(b[i] == a[i]);
            lemma_find_is(b, x, i);
        },
        None => {
            assert forall|j: int| 0 <= j < b.len() implies b[j].0@ != x by {
                if j < a.len() {
                    assert(b[j] == a[j]);
                }
            }
            lemma_find_is(b, x, b.len() as int);
        },
    }
}

proof fn lemma_names_update(old: Seq<(String, FileNode)>, i: int, e: (String, FileNode))
    requires
        0 <= i < old.len(),
        e.0@ == old[i].0@,
    ensures
        forall|j: int| 0 <= j < old.len() ==> #[trigger] old.update(i, e)[j].0@ == old[j].0@,
        names_distinct(old) ==> names_distinct(old.update(i, e)),
{
    let n = old.update(i, e);
    assert forall|j: int| 0 <= j < old.len() implies #[trigger] n[j].0@ == old[j].0@ by {}
    if names_distinct(old) {
        assert forall|a: int, b: int| 0 <= a < b < n.len() implies #[trigger] n[a].0@ != #[trigger] n[b].0@ by {
            assert(n[a].0@ == old[a].0@ && n[b].0@ == old[b].0@);
        }
    }
}

proof fn lemma_names_push(old: Seq<(String, FileNode)>, e: (String, FileNode))
    requires
        forall|j: int| 0 <= j < old.len() ==> old[j].0@ != e.0@,
    ensures
        forall|j: int| 0 <= j < old.len() ==> #[trigger] old.push(e)[j] == old[j],
        names_distinct(old) ==> names_distinct(old.push(e)),
{
    let n = old.push(e);
    assert forall|j: int| 0 <= j < old.len() implies #[trigger] n[j] == old[j] by {}
    if names_distinct(old) {
        assert forall|a: int, b: int| 0 <= a < b < n.len() implies #[trigger] n[a].0@ != #[trigger] n[b].0@ by {
            if b < old.len() {
                assert(n[a] == old[a] && n[b] == old[b]);
            } else {
                assert(n[a] == old[a]);
            }
        }
    }
}

proof fn lemma_prefix_cons(x: Seq<char>, a: Seq<Seq<char>>, b: Seq<Seq<char>>)
    ensures
        is_prefix(seq![x] + a, seq![x] + b) == is_prefix(a, b),
{
    let xa = seq![x] + a;
    let xb = seq![x] + b;
    if is_prefix(a, b) {
        assert(xb.subrange(0, xa.len() as int) =~= xa);
    }
    if is_prefix(xa, xb) {
        assert(b.subrange(0, a.len() as int) =~= xb.subrange(0, xa.len() as int).drop_first());
        assert(xa.drop_first() =~= a);
    }
}

/// Adding at `pre + p` under `n` takes nothing away when every node under
/// `n` lies on one of the paths `ok` and every file is one of them, and none
/// of those paths lies on `pre + p`.
proof fn lemma_displaced_zero(
    n: FileNode,
    pre: Seq<Seq<char>>,
    p: Seq<Seq<char>>,
    ok: spec_fn(Seq<Seq<char>>) -> bool,
)
    requires
        p.len() > 0,
        forall|q: Seq<Seq<char>>| q.len() > 0 && #[trigger] node_at(n, q) ==> exists|t: Seq<Seq<char>>| ok(t) && is_prefix(pre + q, t),
        forall|q: Seq<Seq<char>>| #[trigger] file_at(n, q) is Some ==> ok(pre + q),
        forall|t: Seq<Seq<char>>| #[trigger] ok(t) ==> !related(t, pre + p),
    ensures
        displaced(n, p) == 0,
    decreases p.len(),
{
    if let FileNode::Dir { children, .. } = n {
        if let Some(i) = find_child(children@, p[0]) {
            let c = children@[i].1;
            let one = seq![p[0]];
            assert(one[0] == p[0]);
            assert(one.drop_first() =~= Seq::<Seq<char>>::empty());
            assert(node_at(c, one.drop_first()));
            assert(node_at(n, one));
            let t = choose|t: Seq<Seq<char>>| ok(t) && is_prefix(pre + one, t);
            assert(!related(t, pre + p));
            if p.len() == 1 {
                assert(one =~= p);
            } else {
                assert((pre + p).subrange(0, (pre + one).len() as int) =~= pre + one);
                if c is File {
                    assert(file_at(n, one) is Some);
                    assert(ok(pre + one));
                    assert(!related(pre + one, pre + p));
                } else {
                    let p1 = p.drop_first();
                    let pre1 = pre.push(p[0]);
                    assert(pre1 + p1 =~= pre + p);
                    assert forall|q: Seq<Seq<char>>| q.len() > 0 && #[trigger] node_at(c, q) implies exists|t2: Seq<Seq<char>>| ok(t2) && is_prefix(pre1 + q, t2) by {
                        let q2 = one + q;
                        assert(q2[0] == p[0]);
                        assert(q2.drop_first() =~= q);
                        assert(node_at(n, q2));
                        assert(pre + q2 =~= pre1 + q);
                    }
                    assert forall|q: Seq<Seq<char>>| #[trigger] file_at(c, q) is Some implies ok(pre1 + q) by {
                        let q2 = one + q;
                        assert(q2[0] == p[0]);
                        assert(q2.drop_first() =~= q);
                        assert(q.len() > 0);
                        assert(file_at(n, q2) == file_at(c, q));
                        assert(pre + q2 =~= pre1 + q);
                    }
                    lemma_displaced_zero(c, pre1, p1, ok);
                }
            }
        }
    }
}

impl FileNode {
    /// An empty directory.
    pub fn new_dir(name: &str) -> (r: FileNode)
        ensures
            wf_node(r),
            r matches FileNode::Dir { parent, children, length } && parent@ == name@ && children@.len() == 0 && length == 0,
    {
        FileNode::Dir { parent: name.to_string(), children: Vec::new(), length: 0 }
    }

    /// A file.
    pub fn new_file(name: &str, length: usize) -> (r: FileNode)
        ensures
            r matches FileNode::File { name: n, length: l } && n@ == name@ && l == length,
    {
        FileNode::File { name: name.to_string(), length }
    }

    /// Length of the node: a file's, or a directory's aggregate.
    pub fn len(&self) -> (r: usize)
        ensures
            r == node_len(*self),
    {
        match self {
            FileNode::Dir { length, .. } => *length,
            FileNode::File { length, .. } => *length,
        }
    }

    /// Adds the file `path[k..]` of `size` bytes under this directory,
    /// creating the directories on the way. A file already at that path is
    /// replaced, and a file that stands where a directory is needed gives way.
    #[verifier::rlimit(100)]
    #[verifier::spinoff_prover]
    pub fn add_child(self, path: &[String], k: usize, size: usize) -> (r: FileNode)
        requires
            self is Dir,
            wf_node(self),
            k < path@.len(),
            node_len(self) + size <= usize::MAX,
        ensures
            r is Dir,
            wf_node(r),
            r->Dir_parent == self->Dir_parent,
            file_at(r, names_from(path@, k as int)) == Some(size as nat),
            node_len(r) + displaced(self, names_from(path@, k as int)) == node_len(self) + size,
            forall|q: Seq<Seq<char>>| q.len() > 0 && !related(q, names_from(path@, k as int))
                ==> #[trigger] file_at(r, q) == file_at(self, q),
            forall|q: Seq<Seq<char>>| #[trigger] file_at(r, q) is Some
                ==> q == names_from(path@, k as int) || file_at(self, q) is Some,
            forall|q: Seq<Seq<char>>| q.len() > 0 && #[trigger] node_at(r, q)
                ==> is_prefix(q, names_from(path@, k as int)) || node_at(self, q),
            r->Dir_children@.len() >= 1,
            r->Dir_children@.len() >= self->Dir_children@.len(),
            forall|j: int| 0 <= j < r->Dir_children@.len() ==> #[trigger] r->Dir_children@[j].0@ == path@[k as int]@
                || exists|m: int| 0 <= m < self->Dir_children@.len() && self->Dir_children@[m].0@ == r->Dir_children@[j].0@,
            names_distinct(self->Dir_children@) ==> names_distinct(r->Dir_children@),
        decreases path@.len() - k,
    {
        match self {
            FileNode::Dir { parent, mut children, length } => {
                let name = &path[k];
                let ghost pth = names_from(path@, k as int);
                let ghost rest = names_from(path@, k + 1);
                assert(pth[0] == name@);
                assert(pth.drop_first() =~= rest);
                let mut i: usize = 0;
                while i < children.len() && !bytes_eq(children[i].0.as_str().as_bytes(), name.as_str().as_bytes())
                    invariant
                        0 <= i <= children@.len(),
                        forall|j: int| 0 <= j < i ==> children@[j].0@ != name@,
                    decreases children@.len() - i,
                {
                    i = i + 1;
                }
                let ghost old_children = children@;
                proof {
                    if i < children@.len() {
                        vstd::utf8::encode_utf8_decode_utf8(children@[i as int].0@);
                        vstd::utf8::encode_utf8_decode_utf8(name@);
                    }
                    lemma_find_is(old_children, name@, i as int);
                    assert(self == FileNode::Dir { parent, children, length });
                }
                if k + 1 == path.len() {
                    assert(pth =~= seq![name@]);
                    let file = FileNode::new_file(name.as_str(), size);
                    if i < children.len() {
                        proof {
                            lemma_sum_split(children@, i as int);
                        }
                        let (_, old) = children.remove(i);
                        let old_len = old.len();
                        let entry = (name.clone(), file);
                        proof {
                            lemma_sum_insert(children@, i as int, entry);
                        }
                        children.insert(i, entry);
                        let length = length - old_len + size;
                        let r = FileNode::Dir { parent, children, length };
                        proof {
                            assert(children@ =~= old_children.update(i as int, entry));
                            assert forall|j: int| 0 <= j < children@.len() implies wf_node(#[trigger] children@[j].1) by {
                                if j != i {
                                    assert(children@[j] == old_children[j]);
                                }
                            }
                            assert forall|j: int| 0 <= j < children@.len() implies #[trigger] children@[j].0@ == old_children[j].0@ by {}
                            lemma_find_same_names(children@, old_children, name@);
                            assert forall|q: Seq<Seq<char>>| q.len() > 0 && q[0] != name@ implies #[trigger] file_at(r, q) == file_at(self, q) by {
                                lemma_find_same_names(children@, old_children, q[0]);
                                lemma_find(old_children, q[0], 0);
                                if let Some(j) = find_child(old_children, q[0]) {
                                    assert(j != i);
                                    assert(children@[j] == old_children[j]);
                                }
                            }
                            assert forall|q: Seq<Seq<char>>| #[trigger] file_at(r, q) is Some implies q == pth || file_at(self, q) is Some by {
                                if q.len() > 0 && q[0] == name@ {
                                    assert(children@[i as int].1 == file);
                                    if q.len() == 1 {
                                        assert(q =~= pth);
                                    } else {
                                        assert(file_at(file, q.drop_first()) is None);
                                    }
                                } else if q.len() > 0 {
                                    assert(file_at(r, q) == file_at(self, q));
                                }
                            }
                            assert forall|q: Seq<Seq<char>>| q.len() > 0 && !related(q, pth) implies #[trigger] file_at(r, q) == file_at(self, q) by {
                                if q[0] == name@ {
                                    assert(pth.subrange(0, 1) =~= seq![q[0]]);
                                    assert(q.subrange(0, 1) =~= pth);
                                }
                            }
                            assert forall|q: Seq<Seq<char>>| q.len() > 0 && #[trigger] node_at(r, q) implies is_prefix(q, pth) || node_at(self, q) by {
                                lemma_find_same_names(children@, old_children, q[0]);
                                if q[0] == name@ {
                                    assert(children@[i as int].1 == file);
                                    if q.len() == 1 {
                                        assert(pth.subrange(0, 1) =~= q);
                                    } else {
                                        assert(!node_at(file, q.drop_first()));
                                    }
                                } else {
                                    lemma_find(old_children, q[0], 0);
                                    if let Some(j) = find_child(old_children, q[0]) {
                                        assert(j != i);
                                        assert(children@[j] == old_children[j]);
                                    }
                                }
                            }
                        }
                        proof {
                            lemma_names_update(old_children, i as int, entry);
                            assert(children@ =~= old_children.update(i as int, entry));
                            assert forall|j: int| 0 <= j < children@.len() implies #[trigger] children@[j].0@ == path@[k as int]@
                                || exists|m: int| 0 <= m < old_children.len() && old_children[m].0@ == children@[j].0@ by {
                                assert(old_children[j].0@ == children@[j].0@);
                            }
                        }
                        r
                    } else {
                        let entry = (name.clone(), file);
                        proof {
                            lemma_sum_insert(children@, children@.len() as int, entry);
                            assert(children@.insert(children@.len() as int, entry) =~= children@.push(entry));
                        }
                        children.push(entry);
                        let r = FileNode::Dir { parent, children, length: length + size };
                        proof {
                            assert forall|j: int| 0 <= j < children@.len() implies wf_node(#[trigger] children@[j].1) by {
                                if j < old_children.len() {
                                    assert(children@[j] == old_children[j]);
                                }
                            }
                            assert forall|j: int| 0 <= j < old_children.len() implies children@[j].0@ != name@ by {
                                assert(children@[j] == old_children[j]);
                            }
                            lemma_find_is(children@, name@, old_children.len() as int);
                            assert(children@ =~= old_children.push(entry));
                            assert forall|q: Seq<Seq<char>>| q.len() > 0 && q[0] != name@ implies #[trigger] file_at(r, q) == file_at(self, q) by {
                                lemma_find_push(old_children, entry, q[0]);
                                lemma_find(old_children, q[0], 0);
                                if let Some(j) = find_child(old_children, q[0]) {
                                    assert(children@[j] == old_children[j]);
                                }
                            }
                            assert forall|q: Seq<Seq<char>>| #[trigger] file_at(r, q) is Some implies q == pth || file_at(self, q) is Some by {
                                if q.len() > 0 && q[0] == name@ {
                                    assert(children@[old_children.len() as int].1 == file);
                                    if q.len() == 1 {
                                        assert(q =~= pth);
                                    } else {
                                        assert(file_at(file, q.drop_first()) is None);
                                    }
                                } else if q.len() > 0 {
                                    assert(file_at(r, q) == file_at(self, q));
                                }
                            }
                            assert forall|q: Seq<Seq<char>>| q.len() > 0 && !related(q, pth) implies #[trigger] file_at(r, q) == file_at(self, q) by {
                                if q[0] == name@ {
                                    assert(pth.subrange(0, 1) =~= seq![q[0]]);
                                    assert(q.subrange(0, 1) =~= pth);
                                }
                            }
                            assert forall|q: Seq<Seq<char>>| q.len() > 0 && #[trigger] node_at(r, q) implies is_prefix(q, pth) || node_at(self, q) by {
                                if q[0] == name@ {
                                    assert(children@[old_children.len() as int].1 == file);
                                    if q.len() == 1 {
                                        assert(pth.subrange(0, 1) =~= q);
                                    } else {
                                        assert(!node_at(file, q.drop_first()));
                                    }
                                } else {
                                    lemma_find_push(old_children, entry, q[0]);
                                    lemma_find(old_children, q[0], 0);
                                    if let Some(j) = find_child(old_children, q[0]) {
                                        assert(children@[j] == old_children[j]);
                                    }
                                }
                            }
                        }
                        proof {
                            lemma_names_push(old_children, entry);
                            assert forall|j: int| 0 <= j < children@.len() implies #[trigger] children@[j].0@ == path@[k as int]@
                                || exists|m: int| 0 <= m < old_children.len() && old_children[m].0@ == children@[j].0@ by {
                                if j < old_children.len() {
                                    assert(old_children[j].0@ == children@[j].0@);
                                }
                            }
                        }
                        r
                    }
                } else {
                    let (pos, base, taken) = if i < children.len() {
                        proof {
                            lemma_sum_split(children@, i as int);
                        }
                        let (_, old) = children.remove(i);
                        let taken = old.len();
                        let base = match old {
                            FileNode::Dir { .. } => old,
                            FileNode::File { .. } => FileNode::new_dir(name.as_str()),
                        };
                        (i, base, taken)
                    } else {
                        (children.len(), FileNode::new_dir(name.as_str()), 0)
                    };
                    let ghost found = i < old_children.len();
                    assert(found ==> pos == i && taken == node_len(old_children[i as int].1));
                    assert(found && old_children[i as int].1 is Dir ==> base == old_children[i as int].1);
                    assert(!(found && old_children[i as int].1 is Dir) ==> base->Dir_children@.len() == 0 && node_len(base) == 0);
                    assert(!found ==> pos == old_children.len() && taken == 0);
                    assert(children_sum(children@) + taken == length);
                    assert(node_len(base) <= taken);
                    let ghost b0 = base;
                    let sub = base.add_child(path, k + 1, size);
                    let sub_len = sub.len();
                    let entry = (name.clone(), sub);
                    proof {
                        lemma_sum_insert(children@, pos as int, entry);
                    }
                    let ghost mid = children@;
                    children.insert(pos, entry);
                    let length = length - taken + sub_len;
                    let r = FileNode::Dir { parent, children, length };
                    proof {
                        assert forall|j: int| 0 <= j < children@.len() implies wf_node(#[trigger] children@[j].1) by {
                            if j < pos {
                                assert(children@[j] == mid[j]);
                            } else if j > pos {
                                assert(children@[j] == mid[j - 1]);
                            } else {
                                assert(children@[j] == entry);
                            }
                        }
                        if found {
                            assert(children@ =~= old_children.update(i as int, entry));
                            assert forall|j: int| 0 <= j < children@.len() implies #[trigger] children@[j].0@ == old_children[j].0@ by {}
                            lemma_find_same_names(children@, old_children, name@);
                        } else {
                            assert(children@ =~= old_children.push(entry));
                            assert forall|j: int| 0 <= j < old_children.len() implies children@[j].0@ != name@ by {
                                assert(children@[j] == old_children[j]);
                            }
                            lemma_find_is(children@, name@, old_children.len() as int);
                        }
                        assert(find_child(children@, name@) == Some(pos as int));
                        assert(children@[pos as int].1 == sub);
                        assert forall|q: Seq<Seq<char>>| q.len() > 0 && q[0] != name@ implies #[trigger] file_at(r, q) == file_at(self, q) by {
                            if found {
                                lemma_find_same_names(children@, old_children, q[0]);
                                lemma_find(old_children, q[0], 0);
                            } else {
                                lemma_find_push(old_children, entry, q[0]);
                                lemma_find(old_children, q[0], 0);
                                if let Some(j) = find_child(old_children, q[0]) {
                                    assert(children@[j] == old_children[j]);
                                }
                            }
                        }
                        assert forall|q: Seq<Seq<char>>| q.len() > 1 && q[0] == name@ implies
                            #[trigger] file_at(r, q) == file_at(sub, q.drop_first())
                            && file_at(self, q) == (if found && old_children[i as int].1 is Dir { file_at(b0, q.drop_first()) } else { None::<nat> }) by {
                            if found {
                                assert(file_at(self, q) == file_at(old_children[i as int].1, q.drop_first()));
                                if old_children[i as int].1 is File {
                                    assert(file_at(old_children[i as int].1, q.drop_first()) is None);
                                }
                            }
                        }
                        assert forall|q: Seq<Seq<char>>| q.len() > 0 && !related(q, pth) implies #[trigger] file_at(r, q) == file_at(self, q) by {
                            if q[0] == name@ {
                                if q.len() == 1 {
                                    assert(pth.subrange(0, 1) =~= q);
                                } else {
                                    assert(q =~= seq![name@] + q.drop_first());
                                    assert(pth =~= seq![name@] + rest);
                                    lemma_prefix_cons(name@, q.drop_first(), rest);
                                    lemma_prefix_cons(name@, rest, q.drop_first());
                                    assert(file_at(r, q) == file_at(sub, q.drop_first()));
                                }
                            }
                        }
                        assert forall|q: Seq<Seq<char>>| #[trigger] file_at(r, q) is Some implies q == pth || file_at(self, q) is Some by {
                            if q.len() > 0 && q[0] == name@ {
                                if q.len() > 1 {
                                    assert(file_at(r, q) == file_at(sub, q.drop_first()));
                                    if q.drop_first() == rest {
                                        assert(q =~= seq![name@] + q.drop_first());
                                        assert(pth =~= seq![name@] + rest);
                                    }
                                }
                            }
                        }
                        assert(file_at(r, pth) == file_at(sub, rest));
                        assert forall|q: Seq<Seq<char>>| q.len() > 0 && #[trigger] node_at(r, q) implies is_prefix(q, pth) || node_at(self, q) by {
                            if q[0] == name@ {
                                if q.len() == 1 {
                                    assert(pth.subrange(0, 1) =~= q);
                                } else {
                                    let q1 = q.drop_first();
                                    assert(node_at(r, q) == node_at(sub, q1));
                                    if is_prefix(q1, rest) {
                                        assert(q =~= seq![name@] + q1);
                                        assert(pth =~= seq![name@] + rest);
                                        lemma_prefix_cons(name@, q1, rest);
                                    } else {
                                        assert(node_at(b0, q1));
                                        if found {
                                            assert(node_at(self, q) == node_at(old_children[i as int].1, q1));
                                        }
                                    }
                                }
                            } else {
                                if found {
                                    lemma_find_same_names(children@, old_children, q[0]);
                                    lemma_find(old_children, q[0], 0);
                                } else {
                                    lemma_find_push(old_children, entry, q[0]);
                                    lemma_find(old_children, q[0], 0);
                                    if let Some(j) = find_child(old_children, q[0]) {
                                        assert(children@[j] == old_children[j]);
                                    }
                                }
                            }
                        }
                    }
                    proof {
                        if found {
                            lemma_names_update(old_children, i as int, entry);
                        } else {
                            lemma_names_push(old_children, entry);
                        }
                        assert forall|j: int| 0 <= j < children@.len() implies #[trigger] children@[j].0@ == path@[k as int]@
                            || exists|m: int| 0 <= m < old_children.len() && old_children[m].0@ == children@[j].0@ by {
                            if j < old_children.len() {
                                assert(old_children[j].0@ == children@[j].0@);
                            }
                        }
                    }
                    r
                }
            },
            FileNode::File { .. } => self,
        }
    }
}


/// Total length of the files at the leaves under `n`.
pub open spec fn file_total(n: FileNode) -> nat
    decreases n, 1nat,
{
    match n {
        FileNode::Dir { children, .. } => files_total(children@),
        FileNode::File { length, .. } => length as nat,
    }
}

pub open spec fn files_total(c: Seq<(String, FileNode)>) -> nat
    decreases c, 0nat,
{
    if c.len() == 0 {
        0
    } else {
        files_total(c.drop_last()) + file_total(c.last().1)
    }
}

/// In a well-formed tree every directory's length is the total length of the
/// files below it.
pub proof fn law_dir_length_is_file_total(n: FileNode)
    requires
        wf_node(n),
    ensures
        node_len(n) == file_total(n),
    decreases n, 1nat,
{
    match n {
        FileNode::Dir { children, .. } => {
            lemma_children_totals(children@);
        },
        FileNode::File { .. } => {},
    }
}

proof fn lemma_children_totals(c: Seq<(String, FileNode)>)
    requires
        forall|i: int| 0 <= i < c.len() ==> wf_node(#[trigger] c[i].1),
    ensures
        children_sum(c) == files_total(c),
    decreases c, 0nat,
{
    if c.len() > 0 {
        assert(decreases_to!(c => c.last()));
        law_dir_length_is_file_total(c.last().1);
        lemma_children_totals(c.drop_last());
    }
}

/// Whether a file entry is a padding file.
pub open spec fn is_padding(f: SpecMultiFile) -> bool {
    f.attr == Some(attr_padding())
}

/// Number of entries that are not padding files.
pub open spec fn non_padding_count(files: Seq<SpecMultiFile>) -> nat
    decreases files.len(),
{
    if files.len() == 0 {
        0
    } else {
        non_padding_count(files.drop_last()) + if is_padding(files.last()) { 0nat } else { 1nat }
    }
}

/// Total length of the entries that are not padding files.
pub open spec fn non_padding_total(files: Seq<SpecMultiFile>) -> nat
    decreases files.len(),
{
    if files.len() == 0 {
        0
    } else {
        non_padding_total(files.drop_last()) + if is_padding(files.last()) { 0nat } else { files.last().length }
    }
}

/// The names of a file entry's path.
pub open spec fn entry_names(f: MultiFiles) -> Seq<Seq<char>> {
    names_from(f.path@, 0)
}

/// An entry that goes into the tree: not padding, with a path.
pub open spec fn placed(f: MultiFiles) -> bool {
    !is_padding(f.view()) && f.path@.len() > 0
}

/// No placed entry's path lies on another's.
pub open spec fn independent(files: Seq<MultiFiles>) -> bool {
    forall|i: int, j: int| 0 <= i < files.len() && 0 <= j < files.len() && i != j && placed(#[trigger] files[i])
        && placed(#[trigger] files[j]) ==> !related(entry_names(files[i]), entry_names(files[j]))
}

/// Placed paths are independent and every non-padding entry has a path.
pub open spec fn well_placed(files: Seq<MultiFiles>) -> bool {
    independent(files) && forall|j: int| 0 <= j < files.len() && !is_padding(#[trigger] files[j].view()) ==> files[j].path@.len() > 0
}

/// Some entry is placed, and every placed path starts with the directory `d`.
pub open spec fn share_first(files: Seq<MultiFiles>, d: Seq<char>) -> bool {
    (exists|j: int| 0 <= j < files.len() && placed(#[trigger] files[j])) && (forall|j: int|
        0 <= j < files.len() && placed(#[trigger] files[j]) ==> entry_names(files[j])[0] == d)
}

/// Every placed path has a directory before its file.
pub open spec fn deep_paths(files: Seq<MultiFiles>) -> bool {
    forall|j: int| 0 <= j < files.len() && placed(#[trigger] files[j]) ==> files[j].path@.len() >= 2
}

/// The file tree of a torrent with the number of files in it.
#[derive(Debug)]
pub struct FileTree {
    pub node: FileNode,
    pub num_of_files: usize,
}

impl FileTree {
    /// Number of files, padding files not counted.
    pub fn number_of_files(&self) -> (r: usize)
        ensures
            r == self.num_of_files,
    {
        self.num_of_files
    }
}

impl Info {
    /// Builds the file tree: one file node for a single-file torrent; for a
    /// multi-file torrent a directory named after the torrent, holding every
    /// entry that is not a padding file.
    pub fn build_file_tree(&self) -> (r: FileTree)
        requires
            self.files is MultiFile ==> non_padding_total(self.files.view()->files) <= usize::MAX,
        ensures
            wf_node(r.node),
            self.files is SingleFile ==> r.num_of_files == 1 && r.node is File
                && r.node->File_name@ == self.name@ && r.node->File_length == self.files->SingleFile_length,
            self.files is MultiFile ==> r.num_of_files == non_padding_count(self.files.view()->files)
                && r.node is Dir && r.node->Dir_parent@ == self.name@
                && node_len(r.node) <= non_padding_total(self.files.view()->files),
            self.files is MultiFile && independent(self.files->MultiFile_files@) ==> forall|j: int|
                0 <= j < self.files->MultiFile_files@.len() && placed(#[trigger] self.files->MultiFile_files@[j])
                    ==> file_at(r.node, entry_names(self.files->MultiFile_files@[j]))
                        == Some(self.files->MultiFile_files@[j].length as nat),
            self.files is MultiFile && well_placed(self.files->MultiFile_files@)
                ==> node_len(r.node) == non_padding_total(self.files.view()->files),
            self.files is MultiFile ==> forall|d: Seq<char>| #[trigger] share_first(self.files->MultiFile_files@, d)
                ==> r.node->Dir_children@.len() == 1 && r.node->Dir_children@[0].0@ == d,
            self.files is MultiFile ==> forall|d: Seq<char>| #[trigger] share_first(self.files->MultiFile_files@, d)
                && deep_paths(self.files->MultiFile_files@)
                ==> r.node->Dir_children@[0].1 is Dir && node_len(r.node->Dir_children@[0].1) == node_len(r.node),
            self.files is MultiFile ==> forall|q: Seq<Seq<char>>| q.len() > 0 && #[trigger] node_at(r.node, q) ==> exists|j: int|
                0 <= j < self.files->MultiFile_files@.len() && placed(self.files->MultiFile_files@[j])
                    && is_prefix(q, entry_names(self.files->MultiFile_files@[j])),
            self.files is MultiFile ==> forall|q: Seq<Seq<char>>| #[trigger] file_at(r.node, q) is Some ==> exists|j: int|
                0 <= j < self.files->MultiFile_files@.len() && placed(self.files->MultiFile_files@[j])
                    && entry_names(self.files->MultiFile_files@[j]) == q,
    {
        match &self.files {
            Files::SingleFile { length, .. } => {
                FileTree { node: FileNode::new_file(self.name.as_str(), *length), num_of_files: 1 }
            },
            Files::MultiFile { files } => {
                let ghost fv = self.files.view()->files;
                let mut root = FileNode::new_dir(self.name.as_str());
                let mut num_of_files: usize = 0;
                let mut i: usize = 0;
                assert(fv.subrange(0, 0) =~= Seq::<SpecMultiFile>::empty());
                while i < files.len()
                    invariant
                        self.files == (Files::MultiFile { files: *files }),
                        fv == crate::meta_info::multi_files_view(files@),
                        non_padding_total(fv) <= usize::MAX,
                        0 <= i <= files@.len(),
                        root is Dir,
                        wf_node(root),
                        root->Dir_parent@ == self.name@,
                        num_of_files == non_padding_count(fv.subrange(0, i as int)),
                        node_len(root) <= non_padding_total(fv.subrange(0, i as int)),
                        independent(files@) ==> forall|j: int| 0 <= j < i && placed(#[trigger] files@[j])
                            ==> file_at(root, entry_names(files@[j])) == Some(files@[j].length as nat),
                        forall|q: Seq<Seq<char>>| #[trigger] file_at(root, q) is Some ==> exists|j: int|
                            0 <= j < i && placed(files@[j]) && entry_names(files@[j]) == q,
                        forall|q: Seq<Seq<char>>| q.len() > 0 && #[trigger] node_at(root, q) ==> exists|j: int|
                            0 <= j < i && placed(files@[j]) && is_prefix(q, entry_names(files@[j])),
                        well_placed(files@) ==> node_len(root) == non_padding_total(fv.subrange(0, i as int)),
                        names_distinct(root->Dir_children@),
                        forall|c: int| 0 <= c < root->Dir_children@.len() ==> exists|j: int|
                            0 <= j < i && placed(files@[j]) && entry_names(files@[j])[0] == #[trigger] root->Dir_children@[c].0@,
                        (exists|j: int| 0 <= j < i && placed(#[trigger] files@[j])) ==> root->Dir_children@.len() >= 1,
                    decreases files@.len() - i,
                {
                    let f = &files[i];
                    proof {
                        assert(fv.subrange(0, i + 1).drop_last() =~= fv.subrange(0, i as int));
                        assert(fv.subrange(0, i + 1).last() == f.view());
                        lemma_total_prefix(fv, i as int + 1);
                        lemma_count_bound(fv.subrange(0, i + 1));
                    }
                    let ghost before = root;
                    if !f.is_padding() {
                        if f.path.len() > 0 {
                            proof {
                                let p = entry_names(files@[i as int]);
                                assert(names_from(f.path@, 0) == p);
                                if well_placed(files@) {
                                    let ok = |t: Seq<Seq<char>>| exists|j: int| 0 <= j < i && placed(files@[j]) && entry_names(files@[j]) == t;
                                    let e = Seq::<Seq<char>>::empty();
                                    assert forall|q: Seq<Seq<char>>| q.len() > 0 && #[trigger] node_at(root, q) implies exists|t: Seq<Seq<char>>| ok(t) && is_prefix(e + q, t) by {
                                        assert(e + q =~= q);
                                        let j = choose|j: int| 0 <= j < i && placed(files@[j]) && is_prefix(q, entry_names(files@[j]));
                                        assert(ok(entry_names(files@[j])));
                                    }
                                    assert forall|q: Seq<Seq<char>>| #[trigger] file_at(root, q) is Some implies ok(e + q) by {
                                        assert(e + q =~= q);
                                    }
                                    assert forall|t: Seq<Seq<char>>| #[trigger] ok(t) implies !related(t, e + p) by {
                                        assert(e + p =~= p);
                                        let j = choose|j: int| 0 <= j < i && placed(files@[j]) && entry_names(files@[j]) == t;
                                        assert(!related(entry_names(files@[j]), entry_names(files@[i as int])));
                                    }
                                    lemma_displaced_zero(root, e, p, ok);
                                }
                            }
                            root = root.add_child(f.path.as_slice(), 0, f.length);
                            proof {
                                let p = entry_names(files@[i as int]);
                                assert forall|c: int| 0 <= c < root->Dir_children@.len() implies exists|j: int|
                                    0 <= j < i + 1 && placed(files@[j]) && entry_names(files@[j])[0] == #[trigger] root->Dir_children@[c].0@ by {
                                    if root->Dir_children@[c].0@ == f.path@[0]@ {
                                        assert(entry_names(files@[i as int])[0] == f.path@[0]@);
                                    } else {
                                        let m = choose|m: int| 0 <= m < before->Dir_children@.len() && before->Dir_children@[m].0@ == root->Dir_children@[c].0@;
                                        assert(before->Dir_children@[m].0@ == root->Dir_children@[c].0@);
                                    }
                                }
                                assert forall|q: Seq<Seq<char>>| q.len() > 0 && #[trigger] node_at(root, q) implies exists|j: int|
                                    0 <= j < i + 1 && placed(files@[j]) && is_prefix(q, entry_names(files@[j])) by {
                                    if is_prefix(q, p) {
                                        assert(placed(files@[i as int]));
                                    } else {
                                        assert(node_at(before, q));
                                    }
                                }
                                assert(names_from(f.path@, 0) == p);
                                assert forall|j: int| 0 <= j < i + 1 && placed(#[trigger] files@[j]) && independent(files@)
                                    implies file_at(root, entry_names(files@[j])) == Some(files@[j].length as nat) by {
                                    if j < i {
                                        assert(!related(entry_names(files@[j]), p));
                                        assert(entry_names(files@[j]).len() > 0);
                                        assert(file_at(root, entry_names(files@[j])) == file_at(before, entry_names(files@[j])));
                                    }
                                }
                                assert forall|q: Seq<Seq<char>>| #[trigger] file_at(root, q) is Some implies exists|j: int|
                                    0 <= j < i + 1 && placed(files@[j]) && entry_names(files@[j]) == q by {
                                    if q == p {
                                        assert(placed(files@[i as int]));
                                    } else {
                                        assert(file_at(before, q) is Some);
                                    }
                                }
                            }
                        }
                        num_of_files = num_of_files + 1;
                    }
                    proof {
                        assert(!placed(files@[i as int]) ==> root == before);
                    }
                    i = i + 1;
                }
                assert(fv.subrange(0, files@.len() as int) =~= fv);
                proof {
                    assert forall|d: Seq<char>| #[trigger] share_first(files@, d)
                        implies root->Dir_children@.len() == 1 && root->Dir_children@[0].0@ == d by {
                        let c = root->Dir_children@;
                        assert(c.len() >= 1);
                        assert forall|x: int| 0 <= x < c.len() implies #[trigger] c[x].0@ == d by {
                            let j = choose|j: int| 0 <= j < files@.len() && placed(files@[j]) && entry_names(files@[j])[0] == c[x].0@;
                        }
                        if c.len() >= 2 {
                            assert(c[0].0@ == d && c[1].0@ == d);
                        }
                    }
                    assert forall|d: Seq<char>| #[trigger] share_first(files@, d) && deep_paths(files@)
                        implies root->Dir_children@[0].1 is Dir && node_len(root->Dir_children@[0].1) == node_len(root) by {
                        let c = root->Dir_children@;
                        let one = seq![d];
                        lemma_find_is(c, d, 0);
                        assert(one[0] == d);
                        if c[0].1 is File {
                            assert(one.drop_first() =~= Seq::<Seq<char>>::empty());
                            assert(file_at(root, one) is Some);
                            let j = choose|j: int| 0 <= j < files@.len() && placed(files@[j]) && entry_names(files@[j]) == one;
                            assert(files@[j].path@.len() >= 2);
                            assert(entry_names(files@[j]).len() >= 2);
                        }
                        assert(c.drop_last() =~= Seq::<(String, FileNode)>::empty());
                        assert(children_sum(Seq::<(String, FileNode)>::empty()) == 0);
                    }
                }
                FileTree { node: root, num_of_files }
            },
        }
    }
}

proof fn lemma_total_prefix(f: Seq<SpecMultiFile>, k: int)
    requires
        0 <= k <= f.len(),
    ensures
        non_padding_total(f.subrange(0, k)) <= non_padding_total(f),
    decreases f.len() - k,
{
    if k < f.len() {
        assert(f.subrange(0, k + 1).drop_last() =~= f.subrange(0, k));
        lemma_total_prefix(f, k + 1);
    } else {
        assert(f.subrange(0, k) =~= f);
    }
}

proof fn lemma_count_bound(f: Seq<SpecMultiFile>)
    ensures
        non_padding_count(f) <= f.len(),
    decreases f.len(),
{
    if f.len() > 0 {
        lemma_count_bound(f.drop_last());
    }
}


/// Direction of a sort.
#[derive(Debug, Clone, Copy, PartialEq, Eq, Structural)]
pub enum SortOrd {
    Ascending,
    Desending,
}

/// The case-insensitive sort key of a name.
pub open spec fn name_key(c: (String, FileNode)) -> Seq<u8> {
    encode_utf8(lower_of(c.0@))
}

/// `a` sorts strictly before `b`.
pub open spec fn key_lt(a: (String, FileNode), b: (String, FileNode), by_name: bool) -> bool {
    if by_name {
        lex_lt(name_key(a), name_key(b))
    } else {
        node_len(a.1) < node_len(b.1)
    }
}

/// `a` may stand before `b` in the order asked for.
pub open spec fn in_order(a: (String, FileNode), b: (String, FileNode), by_name: bool, asc: bool) -> bool {
    if asc {
        !key_lt(b, a, by_name)
    } else {
        !key_lt(a, b, by_name)
    }
}

pub open spec fn children_sorted(c: Seq<(String, FileNode)>, by_name: bool, asc: bool) -> bool {
    forall|i: int, j: int| 0 <= i < j < c.len() ==> in_order(#[trigger] c[i], #[trigger] c[j], by_name, asc)
}

/// Every directory's children are in the order asked for.
pub open spec fn tree_sorted(n: FileNode, by_name: bool, asc: bool) -> bool
    decreases n,
{
    match n {
        FileNode::Dir { children, .. } => children_sorted(children@, by_name, asc) && (forall|i: int|
            0 <= i < children@.len() ==> tree_sorted(#[trigger] children@[i].1, by_name, asc)),
        FileNode::File { .. } => true,
    }
}

proof fn lemma_order_facts(a: (String, FileNode), b: (String, FileNode), c: (String, FileNode), by_name: bool, asc: bool)
    ensures
        !in_order(a, b, by_name, asc) ==> in_order(b, a, by_name, asc),
        in_order(a, b, by_name, asc) && in_order(b, c, by_name, asc) ==> in_order(a, c, by_name, asc),
{
    if by_name {
        lemma_lex_asymmetric(name_key(a), name_key(b));
        lemma_lex_total(name_key(a), name_key(b));
        lemma_lex_total(name_key(b), name_key(c));
        lemma_lex_total(name_key(a), name_key(c));
        if lex_lt(name_key(c), name_key(a)) && !lex_lt(name_key(b), name_key(a)) {
            if lex_lt(name_key(a), name_key(b)) {
                lemma_lex_transitive(name_key(c), name_key(a), name_key(b));
            }
        }
        if lex_lt(name_key(a), name_key(c)) && !lex_lt(name_key(a), name_key(b)) {
            if lex_lt(name_key(b), name_key(a)) {
                lemma_lex_transitive(name_key(b), name_key(a), name_key(c));
            }
        }
    }
}

/// Whether `a` must move behind `b`.
fn out_of_order(a: &(String, FileNode), b: &(String, FileNode), by_name: bool, asc: bool) -> (r: bool)
    ensures
        r == !in_order(*a, *b, by_name, asc),
{
    if by_name {
        let ka = lowercase(a.0.as_str());
        let kb = lowercase(b.0.as_str());
        if asc {
            bytes_lt(kb.as_str().as_bytes(), ka.as_str().as_bytes())
        } else {
            bytes_lt(ka.as_str().as_bytes(), kb.as_str().as_bytes())
        }
    } else {
        if asc {
            b.1.len() < a.1.len()
        } else {
            a.1.len() < b.1.len()
        }
    }
}

proof fn lemma_sum_swap(c: Seq<(String, FileNode)>, i: int)
    requires
        0 < i < c.len(),
    ensures
        children_sum(c.update(i - 1, c[i]).update(i, c[i - 1])) == children_sum(c),
{
    let d = c.update(i - 1, c[i]).update(i, c[i - 1]);
    let a = c.subrange(0, i - 1);
    let b = c.subrange(i + 1, c.len() as int);
    assert(c =~= a + seq![c[i - 1], c[i]] + b);
    assert(d =~= a + seq![c[i], c[i - 1]] + b);
    lemma_sum_concat(a + seq![c[i - 1], c[i]], b);
    lemma_sum_concat(a, seq![c[i - 1], c[i]]);
    lemma_sum_concat(a + seq![c[i], c[i - 1]], b);
    lemma_sum_concat(a, seq![c[i], c[i - 1]]);
    lemma_sum_concat(seq![c[i - 1]], seq![c[i]]);
    lemma_sum_concat(seq![c[i]], seq![c[i - 1]]);
    assert(seq![c[i - 1], c[i]] =~= seq![c[i - 1]] + seq![c[i]]);
    assert(seq![c[i], c[i - 1]] =~= seq![c[i]] + seq![c[i - 1]]);
    assert(seq![c[i]].drop_last() =~= Seq::<(String, FileNode)>::empty());
    assert(seq![c[i - 1]].drop_last() =~= Seq::<(String, FileNode)>::empty());
}

proof fn lemma_swap_multiset_children(s: Seq<(String, FileNode)>, i: int, j: int)
    requires
        0 <= i < s.len(),
        0 <= j < s.len(),
    ensures
        s.update(i, s[j]).update(j, s[i]).to_multiset() == s.to_multiset(),
{
    broadcast use vstd::multiset::group_multiset_properties, vstd::multiset::group_multiset_axioms;
    broadcast use vstd::seq_lib::to_multiset_update, vstd::seq_lib::group_to_multiset_ensures;

    let t = s.update(i, s[j]);
    assert(t[j] == s[j]);
    assert(s.to_multiset().insert(s[j]).remove(s[i]).insert(s[i]).remove(s[j]) =~= s.to_multiset());
}

/// Sorts the children of one directory by insertion, keeping equal keys in place.
fn sort_children(c: &mut Vec<(String, FileNode)>, by_name: bool, asc: bool)
    ensures
        final(c)@.to_multiset() == old(c)@.to_multiset(),
        children_sorted(final(c)@, by_name, asc),
        children_sum(final(c)@) == children_sum(old(c)@),
        final(c)@.len() == old(c)@.len(),
        forall|i: int| 0 <= i < final(c)@.len() ==> old(c)@.contains(#[trigger] final(c)@[i]),
{
    let n = c.len();
    let mut u: usize = 1;
    proof {
        assert forall|i: int| 0 <= i < n implies old(c)@.contains(#[trigger] c@[i]) by {
            assert(c@[i] == old(c)@[i]);
        }
    }
    if n < 2 {
        return;
    }
    while u < n
        invariant
            c@.len() == n,
            1 <= u <= n,
            children_sum(c@) == children_sum(old(c)@),
            forall|i: int| 0 <= i < n ==> old(c)@.contains(#[trigger] c@[i]),
            c@.to_multiset() == old(c)@.to_multiset(),
            forall|a: int, b: int| 0 <= a < b < u ==> in_order(#[trigger] c@[a], #[trigger] c@[b], by_name, asc),
        decreases n - u,
    {
        let mut i = u;
        while i > 0 && out_of_order(&c[i - 1], &c[i], by_name, asc)
            invariant
                c@.len() == n,
                0 <= i <= u < n,
                children_sum(c@) == children_sum(old(c)@),
                forall|k: int| 0 <= k < n ==> old(c)@.contains(#[trigger] c@[k]),
                c@.to_multiset() == old(c)@.to_multiset(),
                forall|a: int, b: int| 0 <= a < b <= u && a != i && b != i ==> in_order(#[trigger] c@[a], #[trigger] c@[b], by_name, asc),
                forall|b: int| i < b <= u ==> in_order(c@[i as int], #[trigger] c@[b], by_name, asc),
                i > 0 && i < u ==> in_order(c@[i - 1], c@[i + 1], by_name, asc),
            decreases i,
        {
            let ghost before = c@;
            proof {
                lemma_sum_swap(c@, i as int);
                lemma_order_facts(before[i - 1], before[i as int], before[i as int], by_name, asc);
            }
            let y = c.remove(i);
            let x = c.remove(i - 1);
            c.insert(i - 1, y);
            c.insert(i, x);
            proof {
                assert(c@ =~= before.update(i - 1, before[i as int]).update(i as int, before[i - 1]));
                lemma_swap_multiset_children(before, i - 1, i as int);
                assert forall|k: int| 0 <= k < n implies old(c)@.contains(#[trigger] c@[k]) by {
                    let kk = if k == i - 1 {
                        i as int
                    } else if k == i {
                        i - 1
                    } else {
                        k
                    };
                    assert(c@[k] == before[kk]);
                    assert(old(c)@.contains(before[kk]));
                }
                assert forall|a: int, b: int| 0 <= a < b <= u && a != i - 1 && b != i - 1 implies in_order(#[trigger] c@[a], #[trigger] c@[b], by_name, asc) by {
                    if a == i {
                        lemma_order_facts(before[i - 1], before[i as int], before[b], by_name, asc);
                    } else if b == i {
                        if a < i - 1 {
                            lemma_order_facts(before[a], before[i - 1], before[i as int], by_name, asc);
                        }
                    }
                }
                assert forall|b: int| i - 1 < b <= u implies in_order(c@[i - 1], #[trigger] c@[b], by_name, asc) by {
                    if b > i {
                        lemma_order_facts(before[i as int], before[i - 1], before[b], by_name, asc);
                    }
                }
                if i - 1 > 0 {
                    lemma_order_facts(before[i - 2], before[i - 1], before[i as int], by_name, asc);
                    lemma_order_facts(before[i - 2], before[i as int], before[i - 1], by_name, asc);
                }
            }
            i = i - 1;
        }
        proof {
            assert forall|a: int, b: int| 0 <= a < b < u + 1 implies in_order(#[trigger] c@[a], #[trigger] c@[b], by_name, asc) by {
                if a != i && b != i {
                } else if a == i {
                } else {
                    // b == i, a < i: i > 0 and the loop stopped because c[i-1] is in order with c[i]
                    if a < i - 1 {
                        lemma_order_facts(c@[a], c@[i - 1], c@[i as int], by_name, asc);
                    }
                }
            }
        }
        u = u + 1;
    }
}

impl FileNode {
    /// Sorts every directory's children, at every depth, by name ignoring
    /// case (`by_name`) or by length, ascending or descending.
    pub fn sorted(self, by_name: bool, ord: SortOrd) -> (r: FileNode)
        requires
            wf_node(self),
        ensures
            wf_node(r),
            node_len(r) == node_len(self),
            tree_sorted(r, by_name, ord == SortOrd::Ascending),
            self is Dir ==> r is Dir && r->Dir_parent == self->Dir_parent
                && r->Dir_children@.len() == self->Dir_children@.len(),
            self is File ==> r == self,
        decreases self,
    {
        let asc = match ord {
            SortOrd::Ascending => true,
            SortOrd::Desending => false,
        };
        match self {
            FileNode::Dir { parent, mut children, length } => {
                let ghost orig = children@;
                let ghost self_children = children;
                assert(self->Dir_children == self_children);
                let n = children.len();
                let mut i: usize = 0;
                while i < n
                    invariant
                        asc == (ord == SortOrd::Ascending),
                        self is Dir,
                        self->Dir_children == self_children,
                        self_children@ == orig,
                        children@.len() == n,
                        0 <= i <= n,
                        n == orig.len(),
                        children_sum(children@) == children_sum(orig),
                        forall|k: int| 0 <= k < n ==> wf_node(#[trigger] children@[k].1),
                        forall|k: int| 0 <= k < i ==> tree_sorted(#[trigger] children@[k].1, by_name, asc),
                        forall|k: int| i <= k < n ==> #[trigger] children@[k] == orig[k],
                    decreases n - i,
                {
                    let ghost before = children@;
                    proof {
                        lemma_sum_split(before, i as int);
                        assert(self_children@ == orig);
                        assert(decreases_to!(self => self->Dir_children@[i as int].1));
                    }
                    let (name, child) = children.remove(i);
                    let sorted_child = child.sorted(by_name, ord);
                    let ghost sc = sorted_child;
                    assert(asc == (ord == SortOrd::Ascending));
                    assert(tree_sorted(sc, by_name, asc));
                    let entry = (name, sorted_child);
                    proof {
                        lemma_sum_insert(children@, i as int, entry);
                    }
                    children.insert(i, entry);
                    proof {
                        assert forall|k: int| 0 <= k < n implies wf_node(#[trigger] children@[k].1) by {
                            if k != i {
                                assert(children@[k] == before[k]);
                            }
                        }
                        assert forall|k: int| 0 <= k < i + 1 implies tree_sorted(#[trigger] children@[k].1, by_name, asc) by {
                            if k != i {
                                assert(children@[k] == before[k]);
                            } else {
                                assert(children@[k].1 == sc);
                            }
                        }
                        assert forall|k: int| i + 1 <= k < n implies #[trigger] children@[k] == orig[k] by {
                            assert(children@[k] == before[k]);
                        }
                    }
                    i = i + 1;
                }
                let ghost mid = children@;
                sort_children(&mut children, by_name, asc);
                proof {
                    assert forall|k: int| 0 <= k < children@.len() implies wf_node(#[trigger] children@[k].1) && tree_sorted(children@[k].1, by_name, asc) by {
                        assert(mid.contains(children@[k]));
                        let j = choose|j: int| 0 <= j < mid.len() && mid[j] == children@[k];
                        assert(wf_node(mid[j].1));
                    }
                }
                FileNode::Dir { parent, children, length }
            },
            FileNode::File { name, length } => FileNode::File { name, length },
        }
    }
}

impl FileTree {
    /// Sorts the tree by name, ignoring case.
    pub fn sort_by_name(self, ord: SortOrd) -> (r: FileTree)
        requires
            wf_node(self.node),
        ensures
            wf_node(r.node),
            tree_sorted(r.node, true, ord == SortOrd::Ascending),
            r.num_of_files == self.num_of_files,
            node_len(r.node) == node_len(self.node),
    {
        FileTree { node: self.node.sorted(true, ord), num_of_files: self.num_of_files }
    }

    /// Sorts the tree by length.
    pub fn sort_by_size(self, ord: SortOrd) -> (r: FileTree)
        requires
            wf_node(self.node),
        ensures
            wf_node(r.node),
            tree_sorted(r.node, false, ord == SortOrd::Ascending),
            r.num_of_files == self.num_of_files,
            node_len(r.node) == node_len(self.node),
    {
        FileTree { node: self.node.sorted(false, ord), num_of_files: self.num_of_files }
    }
}

} // verus!
