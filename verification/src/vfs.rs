//! In-memory hierarchical filesystem.
//!
//! A file is a `Vec<u8>` and a directory is a list of named children kept in
//! the order of their names. The contracts speak of the whole tree as one map
//! from absolute paths to what stands there ([`Item`]); a path is the sequence
//! of its component names, and the empty path is the root.
use vstd::prelude::*;
use vstd::utf8::encode_utf8;

use crate::text::{
    chars_of, copy_range, lemma_split_append, lemma_split_on_parts, lemma_views_push,
    lemma_text_lt_irreflexive, lemma_text_lt_transitive, same_text, smaller_at, split, split_on,
    text_before, text_lt, views,
};

verus! {

/// A node of the tree.
#[derive(Debug)]
pub enum Node {
    File(Vec<u8>),
    Dir(Vec<Entry>),
}

/// A named child of a directory.
#[derive(Debug)]
pub struct Entry {
    pub name: String,
    pub node: Node,
}

/// Why an operation was refused.
#[derive(Debug, Clone, Copy, PartialEq, Eq, Structural)]
pub enum FsError {
    NotFound,
    NotADirectory,
    NotAFile,
    AlreadyExists,
    DirectoryNotEmpty,
    InvalidPath,
    EmptyName,
}

/// An absolute path: its component names from the root down.
pub type Path = Seq<Seq<char>>;

/// What stands at a path.
pub enum Item {
    File(Seq<u8>),
    Dir,
}

// ---------- The tree of a node ----------

/// The list holds a child of that name.
pub open spec fn holds_name(es: Seq<Entry>, name: Seq<char>) -> bool {
    exists|i: int| 0 <= i < es.len() && (#[trigger] es[i]).name@ == name
}

/// Where the child of that name stands in the list.
pub open spec fn position_of(es: Seq<Entry>, name: Seq<char>) -> int {
    choose|i: int| 0 <= i < es.len() && (#[trigger] es[i]).name@ == name
}

/// The children are in strictly ascending order of their names.
pub open spec fn sorted(es: Seq<Entry>) -> bool {
    forall|i: int, j: int|
        0 <= i < j < es.len() ==> text_lt((#[trigger] es[i]).name@, (#[trigger] es[j]).name@)
}

/// The node that `path` leads to from `n`.
pub open spec fn node_at(n: Node, path: Path) -> Option<Node>
    decreases path.len(),
{
    if path.len() == 0 {
        Some(n)
    } else {
        match n {
            Node::File(_) => None,
            Node::Dir(es) => if holds_name(es@, path[0]) {
                node_at(es@[position_of(es@, path[0])].node, path.skip(1))
            } else {
                None
            },
        }
    }
}

/// A name that a path component can have.
pub open spec fn valid_name(name: Seq<char>) -> bool {
    &&& name.len() > 0
    &&& !name.contains('/')
    &&& name != seq!['.']
    &&& name != seq!['.', '.']
}

/// A list of children in order, with valid names.
pub open spec fn wf_entries(es: Seq<Entry>) -> bool {
    &&& sorted(es)
    &&& forall|i: int| 0 <= i < es.len() ==> valid_name((#[trigger] es[i]).name@)
}

/// Every directory under `n` has its children in order, with valid names.
pub open spec fn wf_node(n: Node) -> bool {
    forall|p: Path| #[trigger]
        node_at(n, p) matches Some(m) ==> (m matches Node::Dir(es) ==> wf_entries(es@))
}

impl Node {
    /// What the node is, without what stands below it.
    pub open spec fn item(self) -> Item {
        match self {
            Node::File(data) => Item::File(data@),
            Node::Dir(_) => Item::Dir,
        }
    }

    /// The tree below the node, as a map from paths to items.
    pub open spec fn tree(self) -> Map<Path, Item> {
        Map::new(|p: Path| node_at(self, p) is Some, |p: Path| node_at(self, p).unwrap().item())
    }

    /// An empty directory.
    pub fn new_dir() -> (r: Self)
        ensures
            r is Dir,
            r->Dir_0@ == Seq::<Entry>::empty(),
    {
        Node::Dir(Vec::new())
    }

    /// A file with the given contents.
    pub fn new_file(contents: &[u8]) -> (r: Self)
        ensures
            r.item() == Item::File(contents@),
    {
        let data = copy_range(contents, 0, contents.len());
        assert(contents@.subrange(0, contents@.len() as int) =~= contents@);
        Node::File(data)
    }

    /// Whether the node is a directory.
    pub fn is_dir(&self) -> (r: bool)
        ensures
            r == (self.item() is Dir),
    {
        match self {
            Node::Dir(_) => true,
            Node::File(_) => false,
        }
    }
}

// ---------- Lists of children ----------

proof fn lemma_unique(es: Seq<Entry>, i: int)
    requires
        sorted(es),
        0 <= i < es.len(),
    ensures
        holds_name(es, es[i].name@),
        position_of(es, es[i].name@) == i,
{
    let k = position_of(es, es[i].name@);
    lemma_text_lt_irreflexive(es[i].name@);
    if k < i {
        assert(text_lt(es[k].name@, es[i].name@));
    } else if i < k {
        assert(text_lt(es[i].name@, es[k].name@));
    }
}

/// The place where a child of that name stands or would stand: every child
/// before it has a smaller name, and the one there, if any, has not.
fn find(es: &Vec<Entry>, name: &String) -> (r: (usize, bool))
    requires
        sorted(es@),
    ensures
        r.0 <= es@.len(),
        r.1 == holds_name(es@, name@),
        r.1 ==> r.0 < es@.len() && es@[r.0 as int].name@ == name@ && position_of(es@, name@) == r.0,
        forall|j: int| 0 <= j < r.0 ==> text_lt((#[trigger] es@[j]).name@, name@),
        !r.1 ==> forall|j: int| r.0 <= j < es@.len() ==> text_lt(name@, (#[trigger] es@[j]).name@),
{
    let mut i: usize = 0;
    while i < es.len()
        invariant
            i <= es@.len(),
            sorted(es@),
            forall|j: int| 0 <= j < i ==> text_lt((#[trigger] es@[j]).name@, name@),
        decreases es.len() - i,
    {
        if !text_before(es[i].name.as_str(), name.as_str()) {
            let found = same_text(es[i].name.as_str(), name.as_str());
            proof {
                if found {
                    lemma_unique(es@, i as int);
                } else {
                    assert forall|j: int| i <= j < es@.len() implies text_lt(
                        name@,
                        (#[trigger] es@[j]).name@,
                    ) by {
                        if j > i {
                            lemma_text_lt_transitive(name@, es@[i as int].name@, es@[j].name@);
                        }
                    }
                    lemma_text_lt_irreflexive(name@);
                }
            }
            return (i, found);
        }
        i += 1;
    }
    proof {
        lemma_text_lt_irreflexive(name@);
    }
    (i, false)
}

// ---------- Walking down the tree ----------

/// What a walk along `path` ends in: the item there, `NotADirectory` when a file
/// stands in the way, and `NotFound` when a component is missing.
pub open spec fn walk(tree: Map<Path, Item>, path: Path) -> Result<Item, FsError>
    decreases path.len(),
{
    if path.len() == 0 {
        Ok(tree[path])
    } else {
        match walk(tree, path.drop_last()) {
            Err(e) => Err(e),
            Ok(Item::File(_)) => Err(FsError::NotADirectory),
            Ok(Item::Dir) => if tree.contains_key(path) {
                Ok(tree[path])
            } else {
                Err(FsError::NotFound)
            },
        }
    }
}

proof fn lemma_node_at_append(n: Node, p: Path, q: Path)
    ensures
        node_at(n, p + q) == match node_at(n, p) {
            Some(m) => node_at(m, q),
            None => None,
        },
    decreases p.len(),
{
    if p.len() == 0 {
        assert(p + q =~= q);
    } else {
        assert((p + q)[0] == p[0]);
        assert((p + q).skip(1) =~= p.skip(1) + q);
        if let Node::Dir(es) = n {
            if holds_name(es@, p[0]) {
                lemma_node_at_append(es@[position_of(es@, p[0])].node, p.skip(1), q);
            }
        }
    }
}

proof fn lemma_node_at_push(n: Node, p: Path, name: Seq<char>)
    ensures
        node_at(n, p.push(name)) == match node_at(n, p) {
            Some(Node::Dir(es)) if holds_name(es@, name) => Some(
                es@[position_of(es@, name)].node,
            ),
            _ => None,
        },
{
    lemma_node_at_append(n, p, seq![name]);
    assert(p + seq![name] =~= p.push(name));
    if let Some(m) = node_at(n, p) {
        if let Node::Dir(es) = m {
            if holds_name(es@, name) {
                let child = es@[position_of(es@, name)].node;
                assert(seq![name].skip(1) =~= Seq::empty());
                assert(node_at(child, seq![name].skip(1)) == Some(child));
            }
        }
    }
}

proof fn lemma_wf_below(n: Node, p: Path)
    requires
        wf_node(n),
        node_at(n, p) is Some,
    ensures
        wf_node(node_at(n, p).unwrap()),
{
    let m = node_at(n, p).unwrap();
    assert forall|q: Path| #[trigger] node_at(m, q) is Some implies (node_at(
        m,
        q,
    )->0 matches Node::Dir(es) ==> wf_entries(es@)) by {
        lemma_node_at_append(n, p, q);
    }
}

/// A walk succeeds exactly on the paths of the tree.
pub proof fn lemma_walk(n: Node, p: Path)
    ensures
        node_at(n, p) matches Some(m) ==> walk(n.tree(), p) == Ok::<Item, FsError>(m.item()),
        node_at(n, p) is None ==> walk(n.tree(), p) is Err,
    decreases p.len(),
{
    let tree = n.tree();
    assert(tree.contains_key(p) == (node_at(n, p) is Some));
    if p.len() > 0 {
        lemma_walk(n, p.drop_last());
        lemma_node_at_push(n, p.drop_last(), p.last());
        assert(p.drop_last().push(p.last()) =~= p);
    }
}

/// The node at `comps`, or the error of the walk to it.
fn lookup<'a>(root: &'a Node, comps: &[String]) -> (r: Result<&'a Node, FsError>)
    requires
        wf_node(*root),
    ensures
        match r {
            Ok(n) => node_at(*root, views(comps@)) == Some(*n) && wf_node(*n) && walk(
                root.tree(),
                views(comps@),
            ) == Ok::<Item, FsError>(n.item()),
            Err(e) => node_at(*root, views(comps@)) is None && walk(root.tree(), views(comps@))
                == Err::<Item, FsError>(e),
        },
{
    let ghost path = views(comps@);
    let ghost tree = root.tree();
    let mut cur = root;
    let mut i: usize = 0;
    proof {
        assert(path.take(0) =~= Seq::empty());
        lemma_walk(*root, path.take(0));
    }
    while i < comps.len()
        invariant
            i <= comps@.len(),
            path == views(comps@),
            tree == root.tree(),
            wf_node(*cur),
            node_at(*root, path.take(i as int)) == Some(*cur),
            walk(tree, path.take(i as int)) == Ok::<Item, FsError>(cur.item()),
        decreases comps.len() - i,
    {
        let ghost here = path.take(i as int);
        let ghost next = path.take(i + 1);
        proof {
            assert(next.drop_last() =~= here);
            assert(next.last() == comps@[i as int]@);
            assert(next =~= here.push(comps@[i as int]@));
            lemma_node_at_push(*root, here, comps@[i as int]@);
            lemma_walk(*root, next);
            lemma_node_at_append(*root, next, path.skip(i + 1));
            assert(next + path.skip(i + 1) =~= path);
            assert(tree.contains_key(next) == (node_at(*root, next) is Some));
            if node_at(*root, next) is None {
                lemma_walk_stuck(tree, path, i + 1);
            }
        }
        match cur {
            Node::File(_) => {
                return Err(FsError::NotADirectory);
            },
            Node::Dir(es) => {
                assert(node_at(*cur, Seq::empty()) == Some(*cur));
                let (k, found) = find(es, &comps[i]);
                if !found {
                    return Err(FsError::NotFound);
                }
                proof {
                    assert(node_at(*root, next) == Some(es@[k as int].node));
                    lemma_node_at_append(*cur, seq![comps@[i as int]@], Seq::empty());
                    lemma_node_at_push(*cur, Seq::empty(), comps@[i as int]@);
                    assert(Seq::<Seq<char>>::empty().push(comps@[i as int]@) =~= seq![comps@[i as int]@]);
                    lemma_wf_below(*cur, seq![comps@[i as int]@]);
                }
                cur = &es[k].node;
            },
        }
        i += 1;
    }
    assert(path.take(path.len() as int) =~= path);
    Ok(cur)
}

/// A walk that fails on a prefix fails the same way on the whole path.
proof fn lemma_walk_stuck(tree: Map<Path, Item>, path: Path, k: int)
    requires
        0 <= k <= path.len(),
        walk(tree, path.take(k)) is Err,
    ensures
        walk(tree, path) == walk(tree, path.take(k)),
    decreases path.len() - k,
{
    if k < path.len() {
        assert(path.take(k + 1).drop_last() =~= path.take(k));
        lemma_walk_stuck(tree, path, k + 1);
    } else {
        assert(path.take(k) =~= path);
    }
}

/// `path` after the prefix `at`.
pub open spec fn starts_with(path: Path, at: Path) -> bool {
    at.len() <= path.len() && path.take(at.len() as int) == at
}

/// The item that `path` leads to from `n`.
pub open spec fn item_at(n: Node, path: Path) -> Option<Item> {
    match node_at(n, path) {
        Some(m) => Some(m.item()),
        None => None,
    }
}

/// The tree of `new_root` is that of `old_root` with what stands at `at` and
/// below replaced by the tree of `sub`.
pub open spec fn spliced(old_root: Node, new_root: Node, at: Path, sub: Node) -> bool {
    forall|q: Path| #[trigger]
        item_at(new_root, q) == if starts_with(q, at) {
            item_at(sub, q.skip(at.len() as int))
        } else {
            item_at(old_root, q)
        }
}

/// The two trees are the same.
pub open spec fn same_tree(a: Node, b: Node) -> bool {
    forall|q: Path| #[trigger] item_at(a, q) == item_at(b, q)
}

proof fn lemma_wf_dir(n: Node)
    requires
        n is Dir,
        wf_entries(n->Dir_0@),
        forall|i: int| 0 <= i < n->Dir_0@.len() ==> wf_node((#[trigger] n->Dir_0@[i]).node),
    ensures
        wf_node(n),
{
    assert forall|q: Path| #[trigger] node_at(n, q) is Some implies (node_at(
        n,
        q,
    )->0 matches Node::Dir(es) ==> wf_entries(es@)) by {
        if q.len() > 0 {
            let k = position_of(n->Dir_0@, q[0]);
            assert(wf_node(n->Dir_0@[k].node));
            assert(node_at(n->Dir_0@[k].node, q.skip(1)) == node_at(n, q));
        }
    }
}

proof fn lemma_wf_child(n: Node, i: int)
    requires
        wf_node(n),
        n is Dir,
        0 <= i < n->Dir_0@.len(),
    ensures
        wf_entries(n->Dir_0@),
        wf_node(n->Dir_0@[i].node),
        position_of(n->Dir_0@, n->Dir_0@[i].name@) == i,
        holds_name(n->Dir_0@, n->Dir_0@[i].name@),
{
    assert(node_at(n, Seq::empty()) == Some(n));
    let name = n->Dir_0@[i].name@;
    lemma_unique(n->Dir_0@, i);
    lemma_node_at_push(n, Seq::empty(), name);
    lemma_wf_below(n, Seq::empty().push(name));
}

/// The walk to `[name] + q` is the walk to `q` below the child of that name.
proof fn lemma_walk_below(n: Node, name: Seq<char>, q: Path)
    requires
        n is Dir,
        holds_name(n->Dir_0@, name),
    ensures
        walk(n.tree(), seq![name] + q) == walk(
            n->Dir_0@[position_of(n->Dir_0@, name)].node.tree(),
            q,
        ),
    decreases q.len(),
{
    let child = n->Dir_0@[position_of(n->Dir_0@, name)].node;
    let whole = seq![name] + q;
    assert(whole[0] == name);
    assert(whole.skip(1) =~= q);
    assert(node_at(n, whole) == node_at(child, q));
    assert(n.tree().contains_key(whole) == child.tree().contains_key(q));
    if q.len() == 0 {
        assert(whole.drop_last() =~= Seq::empty());
        assert(q =~= Seq::empty());
        assert(node_at(n, Seq::empty()) == Some(n));
        assert(walk(n.tree(), whole.drop_last()) == Ok::<Item, FsError>(Item::Dir));
    } else {
        assert(whole.drop_last() =~= seq![name] + q.drop_last());
        lemma_walk_below(n, name, q.drop_last());
    }
}

/// Two directories with the same children, but for what stands below child `k`.
spec fn child_changed(n0: Node, n1: Node, k: int) -> bool {
    &&& n0 is Dir
    &&& n1 is Dir
    &&& 0 <= k < n0->Dir_0@.len()
    &&& n1->Dir_0@.len() == n0->Dir_0@.len()
    &&& forall|i: int|
        0 <= i < n0->Dir_0@.len() && i != k ==> n1->Dir_0@[i] == #[trigger] n0->Dir_0@[i]
    &&& n1->Dir_0@[k].name == n0->Dir_0@[k].name
}

/// Replacing a node below one child is replacing it below the directory.
proof fn lemma_splice_child(n0: Node, n1: Node, k: int, path: Path, sub: Node)
    requires
        wf_node(n0),
        child_changed(n0, n1, k),
        path.len() > 0,
        path[0] == n0->Dir_0@[k].name@,
        spliced(n0->Dir_0@[k].node, n1->Dir_0@[k].node, path.skip(1), sub),
    ensures
        spliced(n0, n1, path, sub),
{
    let e0 = n0->Dir_0@;
    let e1 = n1->Dir_0@;
    lemma_wf_child(n0, k);
    assert(forall|i: int| 0 <= i < e0.len() ==> e1[i].name == (#[trigger] e0[i]).name);
    lemma_same_names(e0, e1);
    assert forall|q: Path| #[trigger] item_at(n1, q) == if starts_with(q, path) {
        item_at(sub, q.skip(path.len() as int))
    } else {
        item_at(n0, q)
    } by {
        if q.len() > 0 && holds_name(e0, q[0]) {
            let p = position_of(e0, q[0]);
            assert(e0[p].name@ == q[0]);
            lemma_unique(e0, p);
            lemma_unique(e1, p);
            assert(node_at(n1, q) == node_at(e1[p].node, q.skip(1)));
            assert(node_at(n0, q) == node_at(e0[p].node, q.skip(1)));
            if p == k {
                assert(item_at(e1[k].node, q.skip(1)) == item_at(n1, q));
                lemma_starts_with_skip(q, path);
                if starts_with(q, path) {
                    assert(q.skip(1).skip(path.skip(1).len() as int) =~= q.skip(path.len() as int));
                }
            } else {
                assert(!starts_with(q, path)) by {
                    if starts_with(q, path) {
                        assert(q.take(path.len() as int)[0] == q[0]);
                    }
                }
            }
        } else if q.len() > 0 {
            assert(!holds_name(e1, q[0])) by {
                if holds_name(e1, q[0]) {
                    let p = position_of(e1, q[0]);
                    assert(e0[p].name@ == q[0]);
                }
            }
            assert(!starts_with(q, path)) by {
                if starts_with(q, path) {
                    assert(q.take(path.len() as int)[0] == q[0]);
                }
            }
        }
    }
}

proof fn lemma_changed_wf(n0: Node, n1: Node, k: int)
    requires
        wf_node(n0),
        child_changed(n0, n1, k),
        wf_node(n1->Dir_0@[k].node),
    ensures
        wf_node(n1),
{
    let e0 = n0->Dir_0@;
    let e1 = n1->Dir_0@;
    lemma_wf_child(n0, k);
    assert(forall|i: int| 0 <= i < e0.len() ==> e1[i].name == (#[trigger] e0[i]).name);
    lemma_same_names(e0, e1);
    assert forall|i: int| 0 <= i < e1.len() implies wf_node((#[trigger] e1[i]).node) by {
        lemma_wf_child(n0, i);
        if i != k {
            assert(e1[i] == e0[i]);
        }
    }
    assert forall|i: int| 0 <= i < e1.len() implies valid_name((#[trigger] e1[i]).name@) by {
        assert(e1[i].name == e0[i].name);
    }
    lemma_wf_dir(n1);
}

/// A directory whose children have the same trees has the same tree.
proof fn lemma_same_child(n0: Node, n1: Node, k: int)
    requires
        wf_node(n0),
        child_changed(n0, n1, k),
        same_tree(n0->Dir_0@[k].node, n1->Dir_0@[k].node),
    ensures
        same_tree(n0, n1),
{
    let name = n0->Dir_0@[k].name@;
    let c0 = n0->Dir_0@[k].node;
    let c1 = n1->Dir_0@[k].node;
    let path = seq![name];
    assert(path.skip(1) =~= Seq::empty());
    lemma_splice_root(c0, c1);
    lemma_splice_child(n0, n1, k, path, c1);
    lemma_wf_child(n0, k);
    assert forall|q: Path| #[trigger] item_at(n0, q) == item_at(n1, q) by {
        if starts_with(q, path) {
            assert(q.take(1)[0] == q[0]);
            assert(node_at(n0, q) == node_at(c0, q.skip(1)));
            assert(item_at(c0, q.skip(1)) == item_at(c1, q.skip(1)));
        }
    }
}

/// Replacing the root replaces the whole tree.
proof fn lemma_splice_root(n0: Node, n1: Node)
    ensures
        spliced(n0, n1, Seq::empty(), n1),
{
    assert forall|q: Path| #[trigger] item_at(n1, q) == if starts_with(q, Seq::empty()) {
        item_at(n1, q.skip(0))
    } else {
        item_at(n0, q)
    } by {
        assert(q.take(0) =~= Seq::<Seq<char>>::empty());
        assert(q.skip(0) =~= q);
    }
}

proof fn lemma_same_names(e0: Seq<Entry>, e1: Seq<Entry>)
    requires
        sorted(e0),
        e1.len() == e0.len(),
        forall|i: int| 0 <= i < e0.len() ==> e1[i].name == (#[trigger] e0[i]).name,
    ensures
        sorted(e1),
{
    assert forall|i: int, j: int| 0 <= i < j < e1.len() implies text_lt(
        (#[trigger] e1[i]).name@,
        (#[trigger] e1[j]).name@,
    ) by {
        assert(e1[i].name == e0[i].name && e1[j].name == e0[j].name);
    }
}

proof fn lemma_starts_with_skip(q: Path, path: Path)
    requires
        q.len() > 0,
        path.len() > 0,
        q[0] == path[0],
    ensures
        starts_with(q, path) == starts_with(q.skip(1), path.skip(1)),
{
    if starts_with(q, path) {
        assert(q.skip(1).take(path.len() - 1) =~= q.take(path.len() as int).skip(1));
    }
    if starts_with(q.skip(1), path.skip(1)) {
        let a = q.take(path.len() as int);
        assert(a.len() == path.len());
        assert forall|i: int| 0 <= i < a.len() implies a[i] == path[i] by {
            if i > 0 {
                assert(q.skip(1).take(path.len() - 1)[i - 1] == path.skip(1)[i - 1]);
            }
        }
        assert(a =~= path);
    }
}

/// The node at `comps[at..]` below `node`, for changing it.
fn lookup_mut<'a>(node: &'a mut Node, comps: &[String], at: usize) -> (r: Result<
    &'a mut Node,
    FsError,
>)
    requires
        wf_node(*old(node)),
        at <= comps@.len(),
    ensures
        r matches Ok(n) ==> node_at(*old(node), views(comps@).skip(at as int)) == Some(*n)
            && wf_node(*n),
        r matches Ok(n) ==> spliced(
            *old(node),
            *final(node),
            views(comps@).skip(at as int),
            *final(n),
        ),
        r matches Ok(n) ==> (wf_node(*final(n)) ==> wf_node(*final(node))),
        r is Err ==> same_tree(*old(node), *final(node)),
        r is Err ==> wf_node(*final(node)),
        r matches Err(e) ==> walk(old(node).tree(), views(comps@).skip(at as int)) == Err::<
            Item,
            FsError,
        >(e),
    decreases comps@.len() - at,
{
    let ghost path = views(comps@).skip(at as int);
    let ghost n0 = *node;
    if at == comps.len() {
        proof {
            assert(path =~= Seq::empty());
            assert forall|n1: Node| #[trigger] spliced(n0, n1, path, n1) by {
                lemma_splice_root(n0, n1);
            }
        }
        return Ok(node);
    }
    proof {
        assert(node_at(n0, Seq::empty()) == Some(n0));
        assert(path[0] == comps@[at as int]@);
        assert(path.skip(1) =~= views(comps@).skip(at + 1));
        assert(seq![path[0]] + path.skip(1) =~= path);
        lemma_walk_first(n0, path);
    }
    match node {
        Node::File(_) => Err(FsError::NotADirectory),
        Node::Dir(es) => {
            let (k, found) = find(es, &comps[at]);
            if !found {
                return Err(FsError::NotFound);
            }
            proof {
                lemma_wf_child(n0, k as int);
                lemma_walk_below(n0, path[0], path.skip(1));
                assert forall|n1: Node, sub: Node|
                    child_changed(n0, n1, k as int) && spliced(
                        n0->Dir_0@[k as int].node,
                        n1->Dir_0@[k as int].node,
                        path.skip(1),
                        sub,
                    ) implies #[trigger] spliced(n0, n1, path, sub) by {
                    lemma_splice_child(n0, n1, k as int, path, sub);
                }
                assert forall|n1: Node|
                    child_changed(n0, n1, k as int) && same_tree(
                        n0->Dir_0@[k as int].node,
                        n1->Dir_0@[k as int].node,
                    ) implies #[trigger] same_tree(n0, n1) by {
                    lemma_same_child(n0, n1, k as int);
                }
                assert forall|n1: Node|
                    child_changed(n0, n1, k as int) && wf_node(
                        n1->Dir_0@[k as int].node,
                    ) implies #[trigger] wf_node(n1) by {
                    lemma_changed_wf(n0, n1, k as int);
                }
            }
            lookup_mut(&mut es[k].node, comps, at + 1)
        },
    }
}

/// The first step of a walk.
proof fn lemma_walk_first(n: Node, path: Path)
    requires
        path.len() > 0,
    ensures
        n is File ==> walk(n.tree(), path) == Err::<Item, FsError>(FsError::NotADirectory),
        n is Dir && !holds_name(n->Dir_0@, path[0]) ==> walk(n.tree(), path) == Err::<
            Item,
            FsError,
        >(FsError::NotFound),
{
    assert(path.take(1).drop_last() =~= Seq::empty());
    assert(path.take(1)[0] == path[0]);
    lemma_walk(n, path.take(1).drop_last());
    assert(n.tree().contains_key(path.take(1)) == (node_at(n, path.take(1)) is Some));
    if n is File || !holds_name(n->Dir_0@, path[0]) {
        lemma_walk_stuck(n.tree(), path, 1);
    }
}

// ---------- Changing the children of a directory ----------

/// `n1` is the directory `n0` with its child `name` set to `sub` (`None`:
/// without that child).
spec fn child_set(n0: Node, n1: Node, name: Seq<char>, sub: Option<Node>) -> bool {
    forall|q: Path| #[trigger]
        item_at(n1, q) == if q.len() > 0 && q[0] == name {
            match sub {
                Some(n) => item_at(n, q.skip(1)),
                None => None,
            }
        } else {
            item_at(n0, q)
        }
}

/// Setting a child of the directory at `par` sets the tree at `par.push(name)`.
proof fn lemma_child_set_below(
    root0: Node,
    root1: Node,
    par: Path,
    n0: Node,
    n1: Node,
    name: Seq<char>,
    sub: Option<Node>,
)
    requires
        node_at(root0, par) == Some(n0),
        spliced(root0, root1, par, n1),
        child_set(n0, n1, name, sub),
    ensures
        forall|q: Path| #[trigger]
            item_at(root1, q) == if starts_with(q, par.push(name)) {
                match sub {
                    Some(n) => item_at(n, q.skip((par.len() + 1) as int)),
                    None => None,
                }
            } else {
                item_at(root0, q)
            },
{
    assert forall|q: Path| #[trigger] item_at(root1, q) == if starts_with(q, par.push(name)) {
        match sub {
            Some(n) => item_at(n, q.skip((par.len() + 1) as int)),
            None => None,
        }
    } else {
        item_at(root0, q)
    } by {
        if starts_with(q, par) {
            let rest = q.skip(par.len() as int);
            lemma_node_at_append(root0, par, rest);
            assert(par + rest =~= q);
            assert(item_at(n1, rest) == item_at(root1, q));
            if rest.len() > 0 && rest[0] == name {
                assert(q.take((par.len() + 1) as int) =~= par.push(name));
                assert(rest.skip(1) =~= q.skip((par.len() + 1) as int));
            } else if starts_with(q, par.push(name)) {
                assert(q.take((par.len() + 1) as int)[par.len() as int] == name);
                assert(rest[0] == name);
            }
        } else if starts_with(q, par.push(name)) {
            assert(q.take(par.len() as int) =~= q.take((par.len() + 1) as int).take(par.len() as int));
            assert(par.push(name).take(par.len() as int) =~= par);
        }
    }
}

/// A new child at its place in the order.
proof fn lemma_insert_child(n0: Node, n1: Node, k: int, e: Entry)
    requires
        wf_node(n0),
        n0 is Dir,
        n1 is Dir,
        0 <= k <= n0->Dir_0@.len(),
        n1->Dir_0@ == n0->Dir_0@.insert(k, e),
        valid_name(e.name@),
        wf_node(e.node),
        forall|j: int| 0 <= j < k ==> text_lt((#[trigger] n0->Dir_0@[j]).name@, e.name@),
        forall|j: int|
            k <= j < n0->Dir_0@.len() ==> text_lt(e.name@, (#[trigger] n0->Dir_0@[j]).name@),
    ensures
        wf_node(n1),
        child_set(n0, n1, e.name@, Some(e.node)),
{
    let e0 = n0->Dir_0@;
    let e1 = n1->Dir_0@;
    let name = e.name@;
    assert(node_at(n0, Seq::empty()) == Some(n0));
    assert(sorted(e1)) by {
        assert forall|i: int, j: int| 0 <= i < j < e1.len() implies text_lt(
            (#[trigger] e1[i]).name@,
            (#[trigger] e1[j]).name@,
        ) by {
            let a = if i < k { i } else { i - 1 };
            let b = if j < k { j } else { j - 1 };
            if i != k {
                assert(e1[i] == e0[a]);
            }
            if j != k {
                assert(e1[j] == e0[b]);
            }
        }
    }
    assert forall|i: int| 0 <= i < e1.len() implies wf_node((#[trigger] e1[i]).node) && valid_name(
        e1[i].name@,
    ) by {
        if i != k {
            let a = if i < k { i } else { i - 1 };
            assert(e1[i] == e0[a]);
            lemma_wf_child(n0, a);
        }
    }
    lemma_wf_dir(n1);
    assert(e1[k] == e);
    lemma_unique(e1, k);
    assert forall|q: Path| #[trigger] item_at(n1, q) == if q.len() > 0 && q[0] == name {
        item_at(e.node, q.skip(1))
    } else {
        item_at(n0, q)
    } by {
        if q.len() > 0 && q[0] != name {
            if holds_name(e0, q[0]) {
                let a = position_of(e0, q[0]);
                let b = if a < k { a } else { a + 1 };
                assert(e1[b] == e0[a]);
                lemma_unique(e1, b);
            } else if holds_name(e1, q[0]) {
                let b = position_of(e1, q[0]);
                let a = if b < k { b } else { b - 1 };
                assert(e1[b] == e0[a]);
            }
        }
    }
}

/// A child with its node replaced.
proof fn lemma_replace_child(n0: Node, n1: Node, k: int)
    requires
        wf_node(n0),
        child_changed(n0, n1, k),
        wf_node(n1->Dir_0@[k].node),
    ensures
        wf_node(n1),
        child_set(n0, n1, n0->Dir_0@[k].name@, Some(n1->Dir_0@[k].node)),
{
    let name = n0->Dir_0@[k].name@;
    let sub = n1->Dir_0@[k].node;
    lemma_changed_wf(n0, n1, k);
    assert(seq![name].skip(1) =~= Seq::empty());
    lemma_splice_root(n0->Dir_0@[k].node, sub);
    lemma_splice_child(n0, n1, k, seq![name], sub);
    assert forall|q: Path| #[trigger] item_at(n1, q) == if q.len() > 0 && q[0] == name {
        item_at(sub, q.skip(1))
    } else {
        item_at(n0, q)
    } by {
        if q.len() > 0 && q[0] == name {
            assert(q.take(1) =~= seq![name]);
        } else if starts_with(q, seq![name]) {
            assert(q.take(1)[0] == name);
        }
    }
}

/// A directory without one of its children.
proof fn lemma_remove_child(n0: Node, n1: Node, k: int)
    requires
        wf_node(n0),
        n0 is Dir,
        n1 is Dir,
        0 <= k < n0->Dir_0@.len(),
        n1->Dir_0@ == n0->Dir_0@.remove(k),
    ensures
        wf_node(n1),
        child_set(n0, n1, n0->Dir_0@[k].name@, None),
{
    let e0 = n0->Dir_0@;
    let e1 = n1->Dir_0@;
    let name = e0[k].name@;
    lemma_wf_child(n0, k);
    assert forall|i: int| 0 <= i < e1.len() implies wf_node((#[trigger] e1[i]).node) && valid_name(
        e1[i].name@,
    ) by {
        let a = if i < k { i } else { i + 1 };
        assert(e1[i] == e0[a]);
        lemma_wf_child(n0, a);
    }
    assert(sorted(e1)) by {
        assert forall|i: int, j: int| 0 <= i < j < e1.len() implies text_lt(
            (#[trigger] e1[i]).name@,
            (#[trigger] e1[j]).name@,
        ) by {
            let a = if i < k { i } else { i + 1 };
            let b = if j < k { j } else { j + 1 };
            assert(e1[i] == e0[a] && e1[j] == e0[b]);
        }
    }
    lemma_wf_dir(n1);
    assert forall|q: Path| #[trigger] item_at(n1, q) == if q.len() > 0 && q[0] == name {
        None
    } else {
        item_at(n0, q)
    } by {
        if q.len() > 0 {
            if holds_name(e1, q[0]) {
                let b = position_of(e1, q[0]);
                let a = if b < k { b } else { b + 1 };
                assert(e1[b] == e0[a]);
                lemma_unique(e0, a);
                lemma_unique(e0, k);
            } else if holds_name(e0, q[0]) && q[0] != name {
                let a = position_of(e0, q[0]);
                let b = if a < k { a } else { a - 1 };
                assert(e1[b] == e0[a]);
            }
        }
    }
}

// ---------- Paths as text ----------

/// The path after one more component of a textual path: `""` and `"."` change
/// nothing, `".."` goes up (and stays at the root), any other name goes down.
pub open spec fn step(path: Path, part: Seq<char>) -> Path {
    if part.len() == 0 || part == seq!['.'] {
        path
    } else if part == seq!['.', '.'] {
        if path.len() > 0 {
            path.drop_last()
        } else {
            path
        }
    } else {
        path.push(part)
    }
}

/// The path after all the components, taken in order.
pub open spec fn steps(start: Path, parts: Seq<Seq<char>>) -> Path
    decreases parts.len(),
{
    if parts.len() == 0 {
        start
    } else {
        step(steps(start, parts.drop_last()), parts.last())
    }
}

/// The absolute path that the text means when `cwd` is the working directory.
pub open spec fn resolve(cwd: Path, path: Seq<char>) -> Path {
    steps(
        if path.len() > 0 && path[0] == '/' {
            Seq::empty()
        } else {
            cwd
        },
        split_on(path, '/'),
    )
}

/// Every component is a valid name.
pub open spec fn valid_path(path: Path) -> bool {
    forall|i: int| 0 <= i < path.len() ==> valid_name(#[trigger] path[i])
}

/// A resolved path holds valid names only.
pub proof fn lemma_resolve_valid(cwd: Path, path: Seq<char>)
    requires
        valid_path(cwd),
    ensures
        valid_path(resolve(cwd, path)),
{
    lemma_split_on_parts(path, '/');
    let start = if path.len() > 0 && path[0] == '/' {
        Seq::empty()
    } else {
        cwd
    };
    lemma_steps_valid(start, split_on(path, '/'));
}

proof fn lemma_steps_valid(start: Path, parts: Seq<Seq<char>>)
    requires
        valid_path(start),
        forall|i: int| 0 <= i < parts.len() ==> !(#[trigger] parts[i]).contains('/'),
    ensures
        valid_path(steps(start, parts)),
    decreases parts.len(),
{
    if parts.len() > 0 {
        let init = parts.drop_last();
        assert forall|i: int| 0 <= i < init.len() implies !(#[trigger] init[i]).contains('/') by {
            assert(init[i] == parts[i]);
        }
        lemma_steps_valid(start, init);
        assert(!parts[parts.len() - 1].contains('/'));
    }
}

/// The text of an absolute path: `/` for the root, else each name behind a `/`.
pub open spec fn path_text(path: Path) -> Seq<char> {
    if path.len() == 0 {
        seq!['/']
    } else {
        names_text(path)
    }
}

/// Each name of the path behind a `/`.
pub open spec fn names_text(path: Path) -> Seq<char>
    decreases path.len(),
{
    if path.len() == 0 {
        Seq::empty()
    } else {
        names_text(path.drop_last()).push('/') + path.last()
    }
}

/// The list of strings with the same characters.
fn clone_names(names: &Vec<String>) -> (r: Vec<String>)
    ensures
        views(r@) == views(names@),
{
    let mut r: Vec<String> = Vec::new();
    let mut i: usize = 0;
    while i < names.len()
        invariant
            i <= names@.len(),
            r@.len() == i,
            forall|j: int| 0 <= j < i ==> (#[trigger] r@[j])@ == names@[j]@,
        decreases names.len() - i,
    {
        r.push(names[i].clone());
        i += 1;
    }
    assert(views(r@) =~= views(names@));
    r
}

/// Whether the first list begins with the second.
fn begins_with(names: &Vec<String>, prefix: &Vec<String>) -> (r: bool)
    ensures
        r == starts_with(views(names@), views(prefix@)),
{
    let ghost a = views(names@);
    let ghost b = views(prefix@);
    if prefix.len() > names.len() {
        return false;
    }
    let mut i: usize = 0;
    while i < prefix.len()
        invariant
            i <= prefix@.len() <= names@.len(),
            a == views(names@),
            b == views(prefix@),
            forall|j: int| 0 <= j < i ==> a[j] == b[j],
        decreases prefix.len() - i,
    {
        if !same_text(names[i].as_str(), prefix[i].as_str()) {
            proof {
                assert(a.take(b.len() as int)[i as int] == a[i as int]);
                assert(a[i as int] == names@[i as int]@);
                assert(b[i as int] == prefix@[i as int]@);
            }
            return false;
        }
        assert(a[i as int] == b[i as int]);
        i += 1;
    }
    assert(a.take(b.len() as int) =~= b);
    true
}

// ---------- The filesystem ----------

/// What a filesystem is: its tree and its working directory.
pub struct FsModel {
    pub tree: Map<Path, Item>,
    pub cwd: Path,
}

/// The filesystem: a tree of nodes and a working directory.
pub struct Fs {
    root: Node,
    cwd: Vec<String>,
}

impl View for Fs {
    type V = FsModel;

    closed spec fn view(&self) -> FsModel {
        FsModel { tree: self.root.tree(), cwd: views(self.cwd@) }
    }
}

impl Fs {
    /// The root is a directory, every directory has its children in order, and
    /// the working directory is a directory of the tree.
    pub closed spec fn wf(&self) -> bool {
        &&& self.root is Dir
        &&& wf_node(self.root)
        &&& item_at(self.root, views(self.cwd@)) == Some(Item::Dir)
        &&& valid_path(views(self.cwd@))
    }

    /// Text of the working directory.
    pub fn pwd(&self) -> (r: String)
        ensures
            r@ == path_text(self@.cwd),
    {
        if self.cwd.len() == 0 {
            let mut s = String::new();
            s.push('/');
            assert(s@ =~= seq!['/']);
            return s;
        }
        let mut s = String::new();
        let mut i: usize = 0;
        let ghost path = views(self.cwd@);
        while i < self.cwd.len()
            invariant
                i <= self.cwd@.len(),
                path == views(self.cwd@),
                s@ == names_text(path.take(i as int)),
            decreases self.cwd.len() - i,
        {
            s.push('/');
            s.append(self.cwd[i].as_str());
            proof {
                assert(path.take(i + 1).drop_last() =~= path.take(i as int));
                assert(path.take(i + 1).last() == self.cwd@[i as int]@);
            }
            i += 1;
        }
        assert(path.take(path.len() as int) =~= path);
        s
    }

    /// The components of the absolute path that `path` means here.
    fn resolve_components(&self, path: &str) -> (r: Result<Vec<String>, FsError>)
        ensures
            r matches Ok(c) && views(c@) == resolve(self@.cwd, path@),
    {
        let chars = chars_of(path);
        let ghost start = if path@.len() > 0 && path@[0] == '/' {
            Seq::empty()
        } else {
            self@.cwd
        };
        let mut components: Vec<String> = if chars.len() > 0 && chars[0] == '/' {
            Vec::new()
        } else {
            clone_names(&self.cwd)
        };
        assert(views(components@) =~= start);
        let parts = split(path, '/');
        let ghost ps = views(parts@);
        let mut i: usize = 0;
        assert(ps.take(0) =~= Seq::empty());
        while i < parts.len()
            invariant
                i <= parts@.len(),
                ps == views(parts@),
                views(components@) == steps(start, ps.take(i as int)),
            decreases parts.len() - i,
        {
            let part = parts[i].as_str();
            let ghost before = components@;
            proof {
                assert(ps.take(i + 1).drop_last() =~= ps.take(i as int));
                assert(ps.take(i + 1).last() == part@);
                reveal_strlit(".");
                reveal_strlit("..");
                assert("."@ =~= seq!['.']);
                assert(".."@ =~= seq!['.', '.']);
            }
            if part.is_empty() || same_text(part, ".") {
            } else if same_text(part, "..") {
                let gone = components.pop();
                proof {
                    if before.len() > 0 {
                        assert(views(components@) =~= views(before).drop_last());
                    } else {
                        assert(views(components@) =~= views(before));
                    }
                }
            } else {
                let name = parts[i].clone();
                proof {
                    lemma_views_push(components@, name);
                }
                components.push(name);
            }
            i += 1;
        }
        assert(ps.take(ps.len() as int) =~= ps);
        Ok(components)
    }
}

// ---------- Operations ----------

/// The entries of a directory: its children, each with whether it is a
/// directory, in strictly ascending order of their names.
pub open spec fn is_listing(tree: Map<Path, Item>, path: Path, v: Seq<(String, bool)>) -> bool {
    &&& forall|i: int, j: int|
        0 <= i < j < v.len() ==> text_lt((#[trigger] v[i]).0@, (#[trigger] v[j]).0@)
    &&& forall|i: int|
        0 <= i < v.len() ==> tree.contains_key(path.push((#[trigger] v[i]).0@)) && v[i].1 == (
        tree[path.push(v[i].0@)] is Dir)
    &&& forall|name: Seq<char>| #[trigger]
        tree.contains_key(path.push(name)) ==> exists|i: int|
            0 <= i < v.len() && (#[trigger] v[i]).0@ == name
}

/// The directory that a new child would go into: the error of the walk to it,
/// or `NotADirectory` when it is a file.
pub open spec fn parent_of(tree: Map<Path, Item>, path: Path) -> Result<(), FsError> {
    match walk(tree, path.drop_last()) {
        Err(e) => Err(e),
        Ok(Item::File(_)) => Err(FsError::NotADirectory),
        Ok(Item::Dir) => Ok(()),
    }
}

/// Whether a directory can be made at `path`.
pub open spec fn mkdir_check(tree: Map<Path, Item>, path: Path) -> Result<(), FsError> {
    if path.len() == 0 {
        Err(FsError::AlreadyExists)
    } else {
        match parent_of(tree, path) {
            Err(e) => Err(e),
            Ok(_) => if tree.contains_key(path) {
                Err(FsError::AlreadyExists)
            } else {
                Ok(())
            },
        }
    }
}

/// Whether a file can be written at `path`.
pub open spec fn write_check(tree: Map<Path, Item>, path: Path) -> Result<(), FsError> {
    if path.len() == 0 {
        Err(FsError::InvalidPath)
    } else {
        match parent_of(tree, path) {
            Err(e) => Err(e),
            Ok(_) => if tree.contains_key(path) && tree[path] is Dir {
                Err(FsError::AlreadyExists)
            } else {
                Ok(())
            },
        }
    }
}

/// Something stands directly below `path`.
pub open spec fn occupied(tree: Map<Path, Item>, path: Path) -> bool {
    exists|name: Seq<char>| #[trigger] tree.contains_key(path.push(name))
}

/// Whether what stands at `path` can be removed.
pub open spec fn remove_check(tree: Map<Path, Item>, path: Path, recursive: bool) -> Result<
    (),
    FsError,
> {
    if path.len() == 0 {
        Err(FsError::InvalidPath)
    } else {
        match parent_of(tree, path) {
            Err(e) => Err(e),
            Ok(_) => if !tree.contains_key(path) {
                Err(FsError::NotFound)
            } else if tree[path] is Dir && occupied(tree, path) && !recursive {
                Err(FsError::DirectoryNotEmpty)
            } else {
                Ok(())
            },
        }
    }
}

/// Whether one can work in `path`.
pub open spec fn chdir_check(tree: Map<Path, Item>, path: Path) -> Result<(), FsError> {
    match walk(tree, path) {
        Err(e) => Err(e),
        Ok(Item::File(_)) => Err(FsError::NotADirectory),
        Ok(Item::Dir) => Ok(()),
    }
}

/// The tree without `path` and everything below it.
pub open spec fn pruned(tree: Map<Path, Item>, path: Path) -> Map<Path, Item> {
    Map::new(|q: Path| tree.contains_key(q) && !starts_with(q, path), |q: Path| tree[q])
}

/// The filesystem after `mkdir`.
pub open spec fn after_mkdir(m: FsModel, path: Seq<char>) -> FsModel {
    let p = resolve(m.cwd, path);
    if mkdir_check(m.tree, p) is Ok {
        FsModel { tree: m.tree.insert(p, Item::Dir), cwd: m.cwd }
    } else {
        m
    }
}

/// The filesystem after a file was written.
pub open spec fn after_write(m: FsModel, path: Seq<char>, data: Seq<u8>) -> FsModel {
    let p = resolve(m.cwd, path);
    if write_check(m.tree, p) is Ok {
        FsModel { tree: m.tree.insert(p, Item::File(data)), cwd: m.cwd }
    } else {
        m
    }
}

/// The filesystem after `remove`.
pub open spec fn after_remove(m: FsModel, path: Seq<char>, recursive: bool) -> FsModel {
    let p = resolve(m.cwd, path);
    if remove_check(m.tree, p, recursive) is Ok {
        FsModel {
            tree: pruned(m.tree, p),
            cwd: if starts_with(m.cwd, p) {
                Seq::empty()
            } else {
                m.cwd
            },
        }
    } else {
        m
    }
}

/// The filesystem after `chdir`.
pub open spec fn after_chdir(m: FsModel, path: Seq<char>) -> FsModel {
    let p = resolve(m.cwd, path);
    if chdir_check(m.tree, p) is Ok {
        FsModel { tree: m.tree, cwd: p }
    } else {
        m
    }
}

proof fn lemma_tree(n: Node, p: Path)
    ensures
        n.tree().contains_key(p) == (item_at(n, p) is Some),
        n.tree().contains_key(p) ==> n.tree()[p] == item_at(n, p).unwrap(),
{
}

proof fn lemma_same_tree(a: Node, b: Node)
    requires
        same_tree(a, b),
    ensures
        a.tree() == b.tree(),
{
    assert forall|p: Path| #[trigger] a.tree().dom().contains(p) == b.tree().dom().contains(p) by {
        assert(item_at(a, p) == item_at(b, p));
    }
    assert forall|p: Path| #[trigger] a.tree().dom().contains(p) implies a.tree()[p]
        == b.tree()[p] by {
        assert(item_at(a, p) == item_at(b, p));
    }
    assert(a.tree() =~= b.tree());
}

/// The children of the directory at `p` are the keys of the tree right below it.
proof fn lemma_children(root: Node, p: Path, es: Seq<Entry>)
    requires
        node_at(root, p) matches Some(Node::Dir(v)) && v@ == es,
    ensures
        forall|name: Seq<char>| #[trigger]
            root.tree().contains_key(p.push(name)) == holds_name(es, name),
        forall|name: Seq<char>|
            holds_name(es, name) ==> #[trigger] root.tree()[p.push(name)] == es[position_of(
                es,
                name,
            )].node.item(),
{
    assert forall|name: Seq<char>| #[trigger] root.tree().contains_key(p.push(name)) == holds_name(
        es,
        name,
    ) by {
        lemma_node_at_push(root, p, name);
    }
    assert forall|name: Seq<char>| holds_name(es, name) implies #[trigger] root.tree()[p.push(name)]
        == es[position_of(es, name)].node.item() by {
        lemma_node_at_push(root, p, name);
    }
}

impl Fs {
    /// Lists a directory, or names the file that stands there.
    pub fn list(&self, path: &str) -> (r: Result<Vec<(String, bool)>, FsError>)
        requires
            self.wf(),
        ensures
            match walk(self@.tree, resolve(self@.cwd, path@)) {
                Err(e) => r matches Err(f) && f == e,
                Ok(Item::File(_)) => r matches Ok(v) && v@.len() == 1 && v@[0].0@ == resolve(
                    self@.cwd,
                    path@,
                ).last() && !v@[0].1,
                Ok(Item::Dir) => r matches Ok(v) && is_listing(
                    self@.tree,
                    resolve(self@.cwd, path@),
                    v@,
                ),
            },
    {
        let comps = match self.resolve_components(path) {
            Ok(c) => c,
            Err(e) => return Err(e),
        };
        let ghost p = views(comps@);
        let node = match lookup(&self.root, comps.as_slice()) {
            Ok(n) => n,
            Err(e) => return Err(e),
        };
        match node {
            Node::Dir(children) => {
                let mut out: Vec<(String, bool)> = Vec::new();
                let mut i: usize = 0;
                while i < children.len()
                    invariant
                        i <= children@.len(),
                        out@.len() == i,
                        forall|j: int|
                            0 <= j < i ==> (#[trigger] out@[j]).0@ == children@[j].name@
                                && out@[j].1 == (children@[j].node.item() is Dir),
                    decreases children.len() - i,
                {
                    out.push((children[i].name.clone(), children[i].node.is_dir()));
                    i += 1;
                }
                proof {
                    let tree = self@.tree;
                    let es = children@;
                    assert(node_at(*node, Seq::empty()) == Some(*node));
                    lemma_children(self.root, p, es);
                    assert forall|i: int, j: int| 0 <= i < j < out@.len() implies text_lt(
                        (#[trigger] out@[i]).0@,
                        (#[trigger] out@[j]).0@,
                    ) by {
                        assert(text_lt(es[i].name@, es[j].name@));
                    }
                    assert forall|i: int| 0 <= i < out@.len() implies tree.contains_key(
                        p.push((#[trigger] out@[i]).0@),
                    ) && out@[i].1 == (tree[p.push(out@[i].0@)] is Dir) by {
                        lemma_unique(es, i);
                    }
                    assert forall|name: Seq<char>| #[trigger]
                        tree.contains_key(p.push(name)) implies exists|i: int|
                        0 <= i < out@.len() && (#[trigger] out@[i]).0@ == name by {
                        let k = position_of(es, name);
                        assert(holds_name(es, name));
                        assert(out@[k].0@ == name);
                    }
                }
                Ok(out)
            },
            Node::File(_) => {
                assert(p.len() > 0) by {
                    if p.len() == 0 {
                        assert(node_at(self.root, p) == Some(self.root));
                    }
                }
                let mut out: Vec<(String, bool)> = Vec::new();
                out.push((comps[comps.len() - 1].clone(), false));
                Ok(out)
            },
        }
    }

    /// The contents of a file.
    pub fn read_file(&self, path: &str) -> (r: Result<Vec<u8>, FsError>)
        requires
            self.wf(),
        ensures
            match walk(self@.tree, resolve(self@.cwd, path@)) {
                Err(e) => r matches Err(f) && f == e,
                Ok(Item::Dir) => r matches Err(f) && f == FsError::NotAFile,
                Ok(Item::File(data)) => r matches Ok(v) && v@ == data,
            },
            ({
                let p = resolve(self@.cwd, path@);
                &&& r is Ok <==> self@.tree.contains_key(p) && self@.tree[p] is File
                &&& r matches Ok(v) ==> self@.tree[p] == Item::File(v@)
            }),
    {
        proof {
            self.law_tree();
            law_walk(self@, resolve(self@.cwd, path@));
        }
        let comps = match self.resolve_components(path) {
            Ok(c) => c,
            Err(e) => return Err(e),
        };
        match lookup(&self.root, comps.as_slice()) {
            Err(e) => Err(e),
            Ok(Node::Dir(_)) => Err(FsError::NotAFile),
            Ok(Node::File(data)) => Ok(data.clone()),
        }
    }

    /// Changes the working directory.
    pub fn chdir(&mut self, path: &str) -> (r: Result<(), FsError>)
        requires
            old(self).wf(),
        ensures
            final(self).wf(),
            r == chdir_check(old(self)@.tree, resolve(old(self)@.cwd, path@)),
            final(self)@ == after_chdir(old(self)@, path@),
    {
        let comps = match self.resolve_components(path) {
            Ok(c) => c,
            Err(e) => return Err(e),
        };
        match lookup(&self.root, comps.as_slice()) {
            Err(e) => Err(e),
            Ok(node) => {
                if !node.is_dir() {
                    return Err(FsError::NotADirectory);
                }
                proof {
                    lemma_resolve_valid(self@.cwd, path@);
                }
                self.cwd = comps;
                Ok(())
            },
        }
    }
}

/// Setting `path` to a leaf in the tree: a file, or an empty directory.
proof fn lemma_tree_set(root0: Node, root1: Node, path: Path, n0: Node, n1: Node, leaf: Node)
    requires
        path.len() > 0,
        node_at(root0, path.drop_last()) == Some(n0),
        spliced(root0, root1, path.drop_last(), n1),
        child_set(n0, n1, path.last(), Some(leaf)),
        item_at(root0, path) is None || item_at(root0, path)->0 is File,
        forall|q: Path| q.len() > 0 ==> #[trigger] item_at(leaf, q) is None,
    ensures
        root1.tree() == root0.tree().insert(path, leaf.item()),
{
    let par = path.drop_last();
    lemma_child_set_below(root0, root1, par, n0, n1, path.last(), Some(leaf));
    assert(par.push(path.last()) =~= path);
    let t0 = root0.tree();
    let t1 = root1.tree();
    assert forall|q: Path| item_at(root1, q) == if q == path {
        Some(leaf.item())
    } else {
        #[trigger] item_at(root0, q)
    } by {
        assert(item_at(root1, q) == item_at(root1, q));
        if starts_with(q, path) {
            let rest = q.skip(path.len() as int);
            assert(path + rest =~= q);
            lemma_node_at_append(root0, path, rest);
            if rest.len() == 0 {
                assert(q =~= path);
                assert(node_at(leaf, rest) == Some(leaf));
            } else {
                assert(q.len() > path.len());
                assert(item_at(leaf, rest) is None);
            }
        } else {
            assert(q != path) by {
                assert(path.take(path.len() as int) =~= path);
            }
        }
    }
    assert forall|q: Path| #[trigger] t1.dom().contains(q) == t0.insert(
        path,
        leaf.item(),
    ).dom().contains(q) by {
        assert(item_at(root0, q) == item_at(root0, q));
    }
    assert forall|q: Path| #[trigger] t1.dom().contains(q) implies t1[q] == t0.insert(
        path,
        leaf.item(),
    )[q] by {
        assert(item_at(root0, q) == item_at(root0, q));
    }
    assert(t1 =~= t0.insert(path, leaf.item()));
}

/// Taking `path` out of the tree.
proof fn lemma_tree_cut(root0: Node, root1: Node, path: Path, n0: Node, n1: Node)
    requires
        path.len() > 0,
        node_at(root0, path.drop_last()) == Some(n0),
        spliced(root0, root1, path.drop_last(), n1),
        child_set(n0, n1, path.last(), None),
    ensures
        root1.tree() == pruned(root0.tree(), path),
{
    let par = path.drop_last();
    lemma_child_set_below(root0, root1, par, n0, n1, path.last(), None);
    assert(par.push(path.last()) =~= path);
    let t0 = root0.tree();
    let t1 = root1.tree();
    assert forall|q: Path| #[trigger] t1.dom().contains(q) == pruned(t0, path).dom().contains(
        q,
    ) by {
        assert(item_at(root1, q) == item_at(root1, q));
        assert(t0.contains_key(q) == (item_at(root0, q) is Some));
    }
    assert forall|q: Path| #[trigger] t1.dom().contains(q) implies t1[q] == pruned(t0, path)[q] by {
        assert(item_at(root1, q) == item_at(root1, q));
        assert(t0.contains_key(q) == (item_at(root0, q) is Some));
    }
    assert(t1 =~= pruned(t0, path));
}

/// A file has nothing below it.
proof fn lemma_leaf_file(n: Node)
    requires
        n is File,
    ensures
        wf_node(n),
        forall|q: Path| q.len() > 0 ==> #[trigger] item_at(n, q) is None,
{
}

/// An empty directory has nothing below it.
proof fn lemma_leaf_dir(n: Node)
    requires
        n is Dir,
        n->Dir_0@.len() == 0,
    ensures
        wf_node(n),
        forall|q: Path| q.len() > 0 ==> #[trigger] item_at(n, q) is None,
{
    lemma_wf_dir(n);
}

/// The names of `comps` but the last.
proof fn lemma_parent_views(comps: Seq<String>)
    requires
        comps.len() > 0,
    ensures
        views(comps.drop_last()) == views(comps).drop_last(),
        views(comps).last() == comps.last()@,
        views(comps.drop_last()).skip(0) == views(comps).drop_last(),
{
    assert(views(comps.drop_last()) =~= views(comps).drop_last());
    assert(views(comps.drop_last()).skip(0) =~= views(comps.drop_last()));
}

/// Putting back the same tree at `par` changes nothing.
proof fn lemma_splice_same(root0: Node, root1: Node, par: Path, n0: Node, n1: Node)
    requires
        node_at(root0, par) == Some(n0),
        spliced(root0, root1, par, n1),
        same_tree(n0, n1),
    ensures
        same_tree(root0, root1),
{
    assert forall|q: Path| #[trigger] item_at(root0, q) == item_at(root1, q) by {
        assert(item_at(root1, q) == item_at(root1, q));
        if starts_with(q, par) {
            let rest = q.skip(par.len() as int);
            assert(par + rest =~= q);
            lemma_node_at_append(root0, par, rest);
            assert(item_at(n0, rest) == item_at(n1, rest));
        }
    }
}

/// Puts `leaf` into the directory under `name`. What already stands there is
/// replaced only if `overwrite` holds and it is a file.
fn put_child(parent: &mut Node, name: String, leaf: Node, overwrite: bool) -> (r: Result<
    (),
    FsError,
>)
    requires
        wf_node(*old(parent)),
        valid_name(name@),
        wf_node(leaf),
    ensures
        wf_node(*final(parent)),
        r is Err ==> same_tree(*old(parent), *final(parent)),
        r is Ok ==> child_set(*old(parent), *final(parent), name@, Some(leaf)),
        r == match *old(parent) {
            Node::File(_) => Err::<(), FsError>(FsError::NotADirectory),
            Node::Dir(es) => if holds_name(es@, name@) && (!overwrite || es@[position_of(
                es@,
                name@,
            )].node is Dir) {
                Err(FsError::AlreadyExists)
            } else {
                Ok(())
            },
        },
{
    let ghost n0 = *parent;
    proof {
        assert(node_at(n0, Seq::empty()) == Some(n0));
    }
    match parent {
        Node::File(_) => Err(FsError::NotADirectory),
        Node::Dir(es) => {
            let ghost e0 = es@;
            let (k, found) = find(es, &name);
            if found {
                if !overwrite || es[k].node.is_dir() {
                    return Err(FsError::AlreadyExists);
                }
                proof {
                    lemma_wf_child(n0, k as int);
                }
                es[k].node = leaf;
                proof {
                    assert forall|n1: Node|
                        n1 is Dir && n1->Dir_0@ == es@ implies #[trigger] wf_node(n1) by {
                        assert(child_changed(n0, n1, k as int));
                        lemma_replace_child(n0, n1, k as int);
                    }
                    assert forall|n1: Node|
                        n1 is Dir && n1->Dir_0@ == es@ implies #[trigger] child_set(
                        n0,
                        n1,
                        name@,
                        Some(leaf),
                    ) by {
                        assert(child_changed(n0, n1, k as int));
                        lemma_replace_child(n0, n1, k as int);
                    }
                }
            } else {
                let entry = Entry { name, node: leaf };
                es.insert(k, entry);
                proof {
                    assert forall|n1: Node|
                        n1 is Dir && n1->Dir_0@ == es@ implies #[trigger] wf_node(n1) by {
                        lemma_insert_child(n0, n1, k as int, entry);
                    }
                    assert forall|n1: Node|
                        n1 is Dir && n1->Dir_0@ == es@ implies #[trigger] child_set(
                        n0,
                        n1,
                        name@,
                        Some(leaf),
                    ) by {
                        lemma_insert_child(n0, n1, k as int, entry);
                    }
                }
            }
            Ok(())
        },
    }
}

impl Fs {
    /// Puts `leaf` at `comps`, whose last name is `name`.
    fn put(&mut self, comps: Vec<String>, leaf: Node, overwrite: bool) -> (r: Result<(), FsError>)
        requires
            old(self).wf(),
            comps@.len() > 0,
            valid_path(views(comps@)),
            wf_node(leaf),
            forall|q: Path| q.len() > 0 ==> #[trigger] item_at(leaf, q) is None,
        ensures
            final(self).wf(),
            final(self)@.cwd == old(self)@.cwd,
            r == match parent_of(old(self)@.tree, views(comps@)) {
                Err(e) => Err::<(), FsError>(e),
                Ok(_) => if old(self)@.tree.contains_key(views(comps@)) && (!overwrite
                    || old(self)@.tree[views(comps@)] is Dir) {
                    Err(FsError::AlreadyExists)
                } else {
                    Ok(())
                },
            },
            final(self)@.tree == if r is Ok {
                old(self)@.tree.insert(views(comps@), leaf.item())
            } else {
                old(self)@.tree
            },
    {
        let ghost p = views(comps@);
        let ghost root0 = self.root;
        let ghost cwd = views(self.cwd@);
        let ghost comps0 = comps@;
        let mut comps = comps;
        let name = match comps.pop() {
            Some(n) => n,
            None => return Err(FsError::InvalidPath),
        };
        let ghost par = p.drop_last();
        proof {
            lemma_parent_views(comps0);
            lemma_walk(root0, par);
            assert(par.push(p.last()) =~= p);
            assert(valid_name(p[p.len() - 1]));
        }
        let parent_node = match lookup_mut(&mut self.root, comps.as_slice(), 0) {
            Ok(n) => n,
            Err(e) => {
                proof {
                    lemma_same_tree(root0, self.root);
                    assert(item_at(root0, cwd) == item_at(self.root, cwd));
                    assert(item_at(root0, Seq::empty()) == item_at(self.root, Seq::empty()));
                }
                return Err(e);
            },
        };
        let ghost n0 = *parent_node;
        proof {
            lemma_node_at_push(root0, par, name@);
            lemma_tree(root0, p);
        }
        let r = put_child(&mut *parent_node, name, leaf, overwrite);
        let ghost n1 = *parent_node;
        proof {
            if r is Ok {
                lemma_tree_set(root0, self.root, p, n0, n1, leaf);
                lemma_tree(root0, cwd);
                lemma_tree(self.root, cwd);
                lemma_tree(root0, Seq::empty());
                lemma_tree(self.root, Seq::empty());
                assert(node_at(root0, Seq::empty()) == Some(root0));
                assert(node_at(self.root, Seq::empty()) == Some(self.root));
            } else {
                lemma_splice_same(root0, self.root, par, n0, n1);
                lemma_same_tree(root0, self.root);
                assert(item_at(root0, cwd) == item_at(self.root, cwd));
                assert(item_at(root0, Seq::empty()) == item_at(self.root, Seq::empty()));
            }
        }
        r
    }

    /// Makes an empty directory.
    pub fn mkdir(&mut self, path: &str) -> (r: Result<(), FsError>)
        requires
            old(self).wf(),
        ensures
            final(self).wf(),
            r == mkdir_check(old(self)@.tree, resolve(old(self)@.cwd, path@)),
            final(self)@ == after_mkdir(old(self)@, path@),
    {
        let comps = match self.resolve_components(path) {
            Ok(c) => c,
            Err(e) => return Err(e),
        };
        if comps.len() == 0 {
            return Err(FsError::AlreadyExists);
        }
        let leaf = Node::new_dir();
        proof {
            lemma_resolve_valid(self@.cwd, path@);
            lemma_leaf_dir(leaf);
        }
        self.put(comps, leaf, false)
    }

    /// Makes an empty file, or empties the one that is there.
    pub fn touch(&mut self, path: &str) -> (r: Result<(), FsError>)
        requires
            old(self).wf(),
        ensures
            final(self).wf(),
            r == write_check(old(self)@.tree, resolve(old(self)@.cwd, path@)),
            final(self)@ == after_write(old(self)@, path@, Seq::empty()),
    {
        let nothing: Vec<u8> = Vec::new();
        self.write_file(path, nothing.as_slice())
    }

    /// Makes a file with the given contents, or replaces the contents of the one
    /// that is there.
    pub fn write_file(&mut self, path: &str, contents: &[u8]) -> (r: Result<(), FsError>)
        requires
            old(self).wf(),
        ensures
            final(self).wf(),
            r == write_check(old(self)@.tree, resolve(old(self)@.cwd, path@)),
            final(self)@ == after_write(old(self)@, path@, contents@),
    {
        let comps = match self.resolve_components(path) {
            Ok(c) => c,
            Err(e) => return Err(e),
        };
        if comps.len() == 0 {
            return Err(FsError::InvalidPath);
        }
        let leaf = Node::new_file(contents);
        proof {
            lemma_resolve_valid(self@.cwd, path@);
            lemma_leaf_file(leaf);
        }
        self.put(comps, leaf, true)
    }
}

/// Takes the child `name` out of the directory. A directory with children goes
/// only if `recursive` holds.
fn cut_child(parent: &mut Node, name: &String, recursive: bool) -> (r: Result<(), FsError>)
    requires
        wf_node(*old(parent)),
    ensures
        wf_node(*final(parent)),
        r is Err ==> same_tree(*old(parent), *final(parent)),
        r is Ok ==> child_set(*old(parent), *final(parent), name@, None),
        r == match *old(parent) {
            Node::File(_) => Err::<(), FsError>(FsError::NotADirectory),
            Node::Dir(es) => if !holds_name(es@, name@) {
                Err(FsError::NotFound)
            } else {
                match es@[position_of(es@, name@)].node {
                    Node::Dir(below) if below@.len() > 0 && !recursive => Err(
                        FsError::DirectoryNotEmpty,
                    ),
                    _ => Ok(()),
                }
            },
        },
{
    let ghost n0 = *parent;
    proof {
        assert(node_at(n0, Seq::empty()) == Some(n0));
    }
    match parent {
        Node::File(_) => Err(FsError::NotADirectory),
        Node::Dir(es) => {
            let (k, found) = find(es, name);
            if !found {
                return Err(FsError::NotFound);
            }
            if let Node::Dir(below) = &es[k].node {
                if below.len() > 0 && !recursive {
                    return Err(FsError::DirectoryNotEmpty);
                }
            }
            let gone = es.remove(k);
            proof {
                assert forall|n1: Node|
                    n1 is Dir && n1->Dir_0@ == es@ implies #[trigger] wf_node(n1) by {
                    lemma_remove_child(n0, n1, k as int);
                }
                assert forall|n1: Node|
                    n1 is Dir && n1->Dir_0@ == es@ implies #[trigger] child_set(
                    n0,
                    n1,
                    name@,
                    None,
                ) by {
                    lemma_remove_child(n0, n1, k as int);
                }
            }
            Ok(())
        },
    }
}

impl Fs {
    /// Removes a file, an empty directory, or with `recursive` a directory and
    /// all that is in it. A working directory that went with it becomes the root.
    pub fn remove(&mut self, path: &str, recursive: bool) -> (r: Result<(), FsError>)
        requires
            old(self).wf(),
        ensures
            final(self).wf(),
            r == remove_check(old(self)@.tree, resolve(old(self)@.cwd, path@), recursive),
            final(self)@ == after_remove(old(self)@, path@, recursive),
    {
        let mut comps = match self.resolve_components(path) {
            Ok(c) => c,
            Err(e) => return Err(e),
        };
        if comps.len() == 0 {
            return Err(FsError::InvalidPath);
        }
        let reset_cwd = begins_with(&self.cwd, &comps);
        let ghost p = views(comps@);
        let ghost root0 = self.root;
        let ghost cwd = views(self.cwd@);
        let ghost comps0 = comps@;
        let name = match comps.pop() {
            Some(n) => n,
            None => return Err(FsError::InvalidPath),
        };
        let ghost par = p.drop_last();
        proof {
            lemma_parent_views(comps0);
            lemma_walk(root0, par);
            assert(par.push(p.last()) =~= p);
        }
        let parent_node = match lookup_mut(&mut self.root, comps.as_slice(), 0) {
            Ok(n) => n,
            Err(e) => {
                proof {
                    lemma_same_tree(root0, self.root);
                    assert(item_at(root0, cwd) == item_at(self.root, cwd));
                    assert(item_at(root0, Seq::empty()) == item_at(self.root, Seq::empty()));
                }
                return Err(e);
            },
        };
        let ghost n0 = *parent_node;
        proof {
            lemma_node_at_push(root0, par, name@);
            lemma_tree(root0, p);
            if let Some(Node::Dir(below)) = node_at(root0, p) {
                lemma_children(root0, p, below@);
                if below@.len() > 0 {
                    assert(wf_node(root0));
                    assert(wf_entries(below@));
                    lemma_unique(below@, 0);
                    assert(root0.tree().contains_key(p.push(below@[0].name@)));
                }
            }
        }
        let r = cut_child(&mut *parent_node, &name, recursive);
        let ghost n1 = *parent_node;
        proof {
            if r is Ok {
                lemma_tree_cut(root0, self.root, p, n0, n1);
                lemma_tree(root0, cwd);
                lemma_tree(self.root, cwd);
                lemma_tree(root0, Seq::empty());
                lemma_tree(self.root, Seq::empty());
                assert(node_at(root0, Seq::empty()) == Some(root0));
                assert(node_at(self.root, Seq::empty()) == Some(self.root));
            } else {
                lemma_splice_same(root0, self.root, par, n0, n1);
                lemma_same_tree(root0, self.root);
                assert(item_at(root0, cwd) == item_at(self.root, cwd));
                assert(item_at(root0, Seq::empty()) == item_at(self.root, Seq::empty()));
            }
        }
        if r.is_ok() && reset_cwd {
            self.cwd = Vec::new();
            assert(views(self.cwd@) =~= Seq::empty());
        }
        r
    }
}

// ---------- The tree at boot ----------

/// The tree that a new filesystem has.
pub open spec fn boot_tree() -> Map<Path, Item> {
    Map::empty().insert(Seq::empty(), Item::Dir).insert(seq!["etc"@], Item::Dir).insert(
        seq!["etc"@, "hostname"@],
        Item::File(encode_utf8("luxx-vm\n"@)),
    ).insert(
        seq!["etc"@, "motd"@],
        Item::File(encode_utf8("Welcome to LUXX-OS in-memory VFS.\nRoot is /.\n"@)),
    ).insert(seq!["home"@], Item::Dir).insert(seq!["tmp"@], Item::Dir)
}

impl Fs {
    /// A filesystem with the boot tree, working in the root.
    pub fn new() -> (r: Self)
        ensures
            r.wf(),
            r@.tree == boot_tree(),
            r@.cwd == Seq::<Seq<char>>::empty(),
    {
        let mut etc: Vec<Entry> = Vec::new();
        etc.push(
            Entry {
                name: "hostname".to_owned(),
                node: Node::new_file("luxx-vm\n".as_bytes()),
            },
        );
        etc.push(
            Entry {
                name: "motd".to_owned(),
                node: Node::new_file(
                    "Welcome to LUXX-OS in-memory VFS.\nRoot is /.\n".as_bytes(),
                ),
            },
        );
        let ghost es = etc@;
        let mut top: Vec<Entry> = Vec::new();
        top.push(Entry { name: "etc".to_owned(), node: Node::Dir(etc) });
        top.push(Entry { name: "home".to_owned(), node: Node::new_dir() });
        top.push(Entry { name: "tmp".to_owned(), node: Node::new_dir() });
        let ghost ts = top@;
        let fs = Fs { root: Node::Dir(top), cwd: Vec::new() };
        proof {
            reveal_strlit("etc");
            reveal_strlit("home");
            reveal_strlit("tmp");
            reveal_strlit("hostname");
            reveal_strlit("motd");
            assert(smaller_at("hostname"@, "motd"@, 0));
            assert(smaller_at("etc"@, "home"@, 0));
            assert(smaller_at("etc"@, "tmp"@, 0));
            assert(smaller_at("home"@, "tmp"@, 0));
            assert(sorted(es));
            assert(sorted(ts));
            lemma_leaf_file(es[0].node);
            lemma_leaf_file(es[1].node);
            lemma_wf_dir(ts[0].node);
            lemma_leaf_dir(ts[1].node);
            lemma_leaf_dir(ts[2].node);
            lemma_wf_dir(fs.root);
            assert(views(fs.cwd@) =~= Seq::empty());
            lemma_unique(es, 0);
            lemma_unique(es, 1);
            lemma_unique(ts, 0);
            lemma_unique(ts, 1);
            lemma_unique(ts, 2);
            let t = fs.root.tree();
            assert forall|p: Path| #[trigger] t.dom().contains(p) == boot_tree().dom().contains(
                p,
            ) by {
                lemma_boot(ts, es, fs.root, p);
            }
            assert forall|p: Path| #[trigger] t.dom().contains(p) implies t[p] == boot_tree()[p] by {
                lemma_boot(ts, es, fs.root, p);
            }
            assert(t =~= boot_tree());
        }
        fs
    }
}

impl Default for Fs {
    fn default() -> (r: Self)
        ensures
            r.wf(),
            r@.tree == boot_tree(),
            r@.cwd == Seq::<Seq<char>>::empty(),
    {
        Fs::new()
    }
}

proof fn lemma_boot(ts: Seq<Entry>, es: Seq<Entry>, root: Node, p: Path)
    requires
        ts.len() == 3,
        es.len() == 2,
        root matches Node::Dir(v) && v@ == ts,
        ts[0].node matches Node::Dir(v) && v@ == es,
        ts[1].node matches Node::Dir(v) && v@.len() == 0,
        ts[2].node matches Node::Dir(v) && v@.len() == 0,
        ts[0].name@ == "etc"@,
        ts[1].name@ == "home"@,
        ts[2].name@ == "tmp"@,
        es[0].name@ == "hostname"@,
        es[1].name@ == "motd"@,
        es[0].node.item() == Item::File(encode_utf8("luxx-vm\n"@)),
        es[1].node.item() == Item::File(
            encode_utf8("Welcome to LUXX-OS in-memory VFS.\nRoot is /.\n"@),
        ),
        sorted(ts),
        sorted(es),
    ensures
        root.tree().contains_key(p) == boot_tree().contains_key(p),
        root.tree().contains_key(p) ==> root.tree()[p] == boot_tree()[p],
{
    reveal_strlit("etc");
    reveal_strlit("home");
    reveal_strlit("tmp");
    reveal_strlit("hostname");
    reveal_strlit("motd");
    assert("etc"@[0] != "home"@[0]);
    assert("etc"@[0] != "tmp"@[0]);
    assert("home"@[0] != "tmp"@[0]);
    assert("hostname"@[0] != "motd"@[0]);
    lemma_unique(es, 0);
    lemma_unique(es, 1);
    lemma_unique(ts, 0);
    lemma_unique(ts, 1);
    lemma_unique(ts, 2);
    let root_path = Seq::<Seq<char>>::empty();
    let etc = seq!["etc"@];
    let home = seq!["home"@];
    let tmp = seq!["tmp"@];
    let hostname = seq!["etc"@, "hostname"@];
    let motd = seq!["etc"@, "motd"@];
    assert(home[0] != etc[0] && tmp[0] != etc[0] && tmp[0] != home[0]);
    assert(hostname[1] != motd[1]);
    assert(hostname.len() == 2 && motd.len() == 2);
    assert(etc.len() == 1 && home.len() == 1 && tmp.len() == 1);
    if p.len() == 0 {
        assert(p =~= root_path);
    } else {
        assert(p == root_path || p != root_path);
        let rest = p.skip(1);
        if p.len() == 1 {
            assert(rest =~= root_path);
            assert(p =~= seq![p[0]]);
        } else {
            let after = rest.skip(1);
            if p.len() == 2 {
                assert(p =~= seq![p[0], p[1]]);
                assert(after =~= root_path);
            }
            assert(rest[0] == p[1]);
        }
        if holds_name(ts, p[0]) {
            let k = position_of(ts, p[0]);
            assert(k == 0 || k == 1 || k == 2);
            assert(node_at(root, p) == node_at(ts[k].node, rest));
            if k == 0 && p.len() > 1 && holds_name(es, p[1]) {
                let m = position_of(es, p[1]);
                assert(m == 0 || m == 1);
                assert(node_at(root, p) == node_at(es[m].node, rest.skip(1)));
            }
        }
    }
}

// ---------- Text for the shell ----------

impl FsError {
    /// What the shell says of the error.
    pub open spec fn text(self) -> Seq<char> {
        match self {
            FsError::NotFound => "no such file or directory"@,
            FsError::NotADirectory => "not a directory"@,
            FsError::NotAFile => "is a directory"@,
            FsError::AlreadyExists => "already exists"@,
            FsError::DirectoryNotEmpty => "directory not empty (use -r)"@,
            FsError::InvalidPath => "invalid path"@,
            FsError::EmptyName => "missing operand"@,
        }
    }

    /// What the shell says of the error.
    pub fn description(&self) -> (r: &'static str)
        ensures
            r@ == self.text(),
    {
        match self {
            FsError::NotFound => "no such file or directory",
            FsError::NotADirectory => "not a directory",
            FsError::NotAFile => "is a directory",
            FsError::AlreadyExists => "already exists",
            FsError::DirectoryNotEmpty => "directory not empty (use -r)",
            FsError::InvalidPath => "invalid path",
            FsError::EmptyName => "missing operand",
        }
    }
}

/// One line for each entry, a `/` behind the name of a directory.
pub open spec fn entry_lines(entries: Seq<(String, bool)>) -> Seq<char>
    decreases entries.len(),
{
    if entries.len() == 0 {
        Seq::empty()
    } else {
        let last = entries.last();
        let line = if last.1 {
            last.0@.push('/')
        } else {
            last.0@
        };
        entry_lines(entries.drop_last()) + line.push('\n')
    }
}

/// The text of a listing.
pub open spec fn listing_text(entries: Seq<(String, bool)>) -> Seq<char> {
    if entries.len() == 0 {
        "(empty)\n"@
    } else {
        entry_lines(entries)
    }
}

/// The text of a listing: one line for each entry, a `/` behind the name of a
/// directory, or `(empty)`.
pub fn format_listing(entries: &[(String, bool)]) -> (r: String)
    ensures
        r@ == listing_text(entries@),
{
    if entries.len() == 0 {
        return "(empty)\n".to_owned();
    }
    let mut out = String::new();
    let mut i: usize = 0;
    while i < entries.len()
        invariant
            i <= entries@.len(),
            i == 0 ==> out@.len() == 0,
            i > 0 ==> out@.push('\n') == entry_lines(entries@.take(i as int)),
        decreases entries.len() - i,
    {
        let ghost before = entry_lines(entries@.take(i as int));
        if i > 0 {
            out.push('\n');
        }
        assert(out@ =~= before);
        out.append(entries[i].0.as_str());
        if entries[i].1 {
            out.push('/');
        }
        proof {
            let next = entries@.take(i + 1);
            assert(next.drop_last() =~= entries@.take(i as int));
            assert(next.last() == entries@[i as int]);
            assert(out@.push('\n') =~= entry_lines(next));
        }
        i += 1;
    }
    out.push('\n');
    assert(entries@.take(entries@.len() as int) =~= entries@);
    out
}

// ---------- Laws ----------

/// What holds of every filesystem: the root is a directory, whatever stands in
/// the tree stands in a directory of the tree, every name is valid, and the
/// working directory is a directory of the tree.
pub open spec fn wf_model(m: FsModel) -> bool {
    &&& m.tree.contains_key(Seq::empty())
    &&& m.tree[Seq::empty()] is Dir
    &&& forall|p: Path| #[trigger]
        m.tree.contains_key(p) && p.len() > 0 ==> m.tree.contains_key(p.drop_last())
            && m.tree[p.drop_last()] is Dir
    &&& forall|p: Path| #[trigger] m.tree.contains_key(p) ==> valid_path(p)
    &&& m.tree.contains_key(m.cwd)
    &&& m.tree[m.cwd] is Dir
}

proof fn lemma_names_valid(n: Node, p: Path)
    requires
        wf_node(n),
        node_at(n, p) is Some,
    ensures
        valid_path(p),
    decreases p.len(),
{
    if p.len() > 0 {
        let init = p.drop_last();
        lemma_node_at_push(n, init, p.last());
        assert(init.push(p.last()) =~= p);
        lemma_names_valid(n, init);
        let es = node_at(n, init)->0->Dir_0@;
        assert(wf_entries(es));
        assert(valid_name(es[position_of(es, p.last())].name@));
        assert forall|i: int| 0 <= i < p.len() implies valid_name(#[trigger] p[i]) by {
            if i < init.len() {
                assert(p[i] == init[i]);
            }
        }
    }
}

impl Fs {
    /// Every filesystem is a tree of valid names, and its working directory is
    /// always one of its directories.
    pub proof fn law_tree(&self)
        requires
            self.wf(),
        ensures
            wf_model(self@),
    {
        let t = self@.tree;
        let e = Seq::<Seq<char>>::empty();
        assert(node_at(self.root, e) == Some(self.root));
        assert forall|p: Path| #[trigger] t.contains_key(p) && p.len() > 0 implies t.contains_key(
            p.drop_last(),
        ) && t[p.drop_last()] is Dir by {
            lemma_node_at_push(self.root, p.drop_last(), p.last());
            assert(p.drop_last().push(p.last()) =~= p);
        }
        assert forall|p: Path| #[trigger] t.contains_key(p) implies valid_path(p) by {
            lemma_names_valid(self.root, p);
        }
    }
}

/// A walk succeeds exactly on what stands in the tree.
pub proof fn law_walk(m: FsModel, p: Path)
    requires
        wf_model(m),
    ensures
        m.tree.contains_key(p) ==> walk(m.tree, p) == Ok::<Item, FsError>(m.tree[p]),
        !m.tree.contains_key(p) ==> walk(m.tree, p) is Err,
    decreases p.len(),
{
    if p.len() == 0 {
        assert(p =~= Seq::empty());
    } else {
        law_walk(m, p.drop_last());
    }
}

proof fn lemma_insert_wf(m: FsModel, p: Path, item: Item)
    requires
        wf_model(m),
        p.len() > 0,
        valid_path(p),
        parent_of(m.tree, p) is Ok,
        m.tree.contains_key(p) ==> m.tree[p] is File,
    ensures
        wf_model(FsModel { tree: m.tree.insert(p, item), cwd: m.cwd }),
{
    law_walk(m, p.drop_last());
    let t = m.tree.insert(p, item);
    assert(p != Seq::<Seq<char>>::empty());
    assert(p.drop_last() != p);
    assert forall|q: Path| #[trigger] t.contains_key(q) && q.len() > 0 implies t.contains_key(
        q.drop_last(),
    ) && t[q.drop_last()] is Dir by {
        if q != p {
            assert(m.tree.contains_key(q));
            assert(m.tree.contains_key(q.drop_last()));
        }
    }
    assert forall|q: Path| #[trigger] t.contains_key(q) implies valid_path(q) by {
        if q != p {
            assert(m.tree.contains_key(q));
        }
    }
}

/// A file that was written reads back as it was written; what does not stand at
/// its path or below stays as it was.
pub proof fn law_read_after_write(m: FsModel, path: Seq<char>, data: Seq<u8>)
    requires
        wf_model(m),
        write_check(m.tree, resolve(m.cwd, path)) is Ok,
    ensures
        ({
            let after = after_write(m, path, data);
            let p = resolve(m.cwd, path);
            &&& wf_model(after)
            &&& resolve(after.cwd, path) == p
            &&& walk(after.tree, p) == Ok::<Item, FsError>(Item::File(data))
            &&& forall|q: Path|
                !starts_with(q, p) ==> #[trigger] walk(after.tree, q) == walk(m.tree, q)
        }),
{
    let after = after_write(m, path, data);
    let p = resolve(m.cwd, path);
    assert(m.tree.contains_key(m.cwd));
    lemma_resolve_valid(m.cwd, path);
    lemma_insert_wf(m, p, Item::File(data));
    law_walk(after, p);
    assert forall|q: Path| !starts_with(q, p) implies #[trigger] walk(after.tree, q) == walk(
        m.tree,
        q,
    ) by {
        assert(p.take(p.len() as int) =~= p);
        lemma_walk_unchanged(m.tree, after.tree, p, q);
    }
}

proof fn lemma_walk_unchanged(t0: Map<Path, Item>, t1: Map<Path, Item>, p: Path, q: Path)
    requires
        !starts_with(q, p),
        forall|x: Path| #[trigger]
            t1.contains_key(x) ==> starts_with(x, p) || t0.contains_key(x),
        forall|x: Path| #[trigger]
            t0.contains_key(x) && !starts_with(x, p) ==> t1.contains_key(x),
        forall|x: Path| !starts_with(x, p) ==> #[trigger] t1[x] == t0[x],
    ensures
        walk(t1, q) == walk(t0, q),
    decreases q.len(),
{
    if q.len() > 0 {
        let init = q.drop_last();
        if starts_with(init, p) {
            assert(q.take(p.len() as int) =~= init.take(p.len() as int));
        }
        lemma_walk_unchanged(t0, t1, p, init);
    }
}

/// A directory that was made is there, is empty, and can be worked in; what does
/// not stand at its path or below stays as it was.
pub proof fn law_mkdir(m: FsModel, path: Seq<char>)
    requires
        wf_model(m),
        mkdir_check(m.tree, resolve(m.cwd, path)) is Ok,
    ensures
        ({
            let after = after_mkdir(m, path);
            let p = resolve(m.cwd, path);
            &&& wf_model(after)
            &&& walk(after.tree, p) == Ok::<Item, FsError>(Item::Dir)
            &&& !occupied(after.tree, p)
            &&& chdir_check(after.tree, resolve(after.cwd, path)) is Ok
            &&& after_chdir(after, path).cwd == p
            &&& forall|q: Path|
                !starts_with(q, p) ==> #[trigger] walk(after.tree, q) == walk(m.tree, q)
        }),
{
    let after = after_mkdir(m, path);
    let p = resolve(m.cwd, path);
    assert(m.tree.contains_key(m.cwd));
    lemma_resolve_valid(m.cwd, path);
    lemma_insert_wf(m, p, Item::Dir);
    law_walk(after, p);
    assert forall|name: Seq<char>| !#[trigger] after.tree.contains_key(p.push(name)) by {
        assert(p.push(name).drop_last() =~= p);
        assert(p.push(name).len() != p.len());
        if m.tree.contains_key(p.push(name)) {
            assert(m.tree.contains_key(p));
        }
    }
    assert forall|q: Path| !starts_with(q, p) implies #[trigger] walk(after.tree, q) == walk(
        m.tree,
        q,
    ) by {
        assert(p.take(p.len() as int) =~= p);
        lemma_walk_unchanged(m.tree, after.tree, p, q);
    }
}

/// Every listing of the directory shows a child that was made in it.
pub proof fn law_listing_shows_child(
    m: FsModel,
    path: Seq<char>,
    listing: Seq<(String, bool)>,
)
    requires
        wf_model(m),
        mkdir_check(m.tree, resolve(m.cwd, path)) is Ok,
        is_listing(after_mkdir(m, path).tree, resolve(m.cwd, path).drop_last(), listing),
    ensures
        exists|i: int|
            0 <= i < listing.len() && (#[trigger] listing[i]).0@ == resolve(m.cwd, path).last()
                && listing[i].1,
{
    let p = resolve(m.cwd, path);
    assert(p.drop_last().push(p.last()) =~= p);
    assert(after_mkdir(m, path).tree.contains_key(p.drop_last().push(p.last())));
    let i = choose|i: int| 0 <= i < listing.len() && (#[trigger] listing[i]).0@ == p.last();
    assert(listing[i].0@ == p.last());
}

/// What was removed is gone with everything below it, the rest stays as it was,
/// and the working directory is still a directory of the tree.
pub proof fn law_remove(m: FsModel, path: Seq<char>, recursive: bool)
    requires
        wf_model(m),
        remove_check(m.tree, resolve(m.cwd, path), recursive) is Ok,
    ensures
        ({
            let after = after_remove(m, path, recursive);
            let p = resolve(m.cwd, path);
            &&& wf_model(after)
            &&& forall|q: Path| starts_with(q, p) ==> #[trigger] walk(after.tree, q) is Err
            &&& forall|q: Path|
                !starts_with(q, p) ==> #[trigger] walk(after.tree, q) == walk(m.tree, q)
        }),
{
    let after = after_remove(m, path, recursive);
    let p = resolve(m.cwd, path);
    let t = after.tree;
    assert forall|q: Path| #[trigger] t.contains_key(q) && q.len() > 0 implies t.contains_key(
        q.drop_last(),
    ) && t[q.drop_last()] is Dir by {
        assert(m.tree.contains_key(q));
        if starts_with(q.drop_last(), p) {
            assert(q.take(p.len() as int) =~= q.drop_last().take(p.len() as int));
        }
    }
    assert forall|q: Path| #[trigger] t.contains_key(q) implies valid_path(q) by {
        assert(m.tree.contains_key(q));
    }
    assert(wf_model(after));
    assert forall|q: Path| starts_with(q, p) implies #[trigger] walk(after.tree, q) is Err by {
        law_walk(after, q);
    }
    assert forall|q: Path| !starts_with(q, p) implies #[trigger] walk(after.tree, q) == walk(
        m.tree,
        q,
    ) by {
        lemma_walk_removed(m.tree, p, q);
    }
}

proof fn lemma_walk_removed(t0: Map<Path, Item>, p: Path, q: Path)
    requires
        !starts_with(q, p),
        t0.contains_key(Seq::empty()),
    ensures
        walk(pruned(t0, p), q) == walk(t0, q),
    decreases q.len(),
{
    if q.len() > 0 {
        let init = q.drop_last();
        if starts_with(init, p) {
            assert(q.take(p.len() as int) =~= init.take(p.len() as int));
        }
        lemma_walk_removed(t0, p, init);
    } else {
        assert(q =~= Seq::empty());
        assert(pruned(t0, p).contains_key(q));
    }
}

/// An operation that is refused changes nothing.
pub proof fn law_refused(m: FsModel, path: Seq<char>, data: Seq<u8>, recursive: bool)
    ensures
        mkdir_check(m.tree, resolve(m.cwd, path)) is Err ==> after_mkdir(m, path) == m,
        write_check(m.tree, resolve(m.cwd, path)) is Err ==> after_write(m, path, data) == m,
        remove_check(m.tree, resolve(m.cwd, path), recursive) is Err ==> after_remove(
            m,
            path,
            recursive,
        ) == m,
        chdir_check(m.tree, resolve(m.cwd, path)) is Err ==> after_chdir(m, path) == m,
{
}

proof fn lemma_split_names(p: Path)
    requires
        valid_path(p),
    ensures
        split_on(names_text(p), '/') == seq![Seq::<char>::empty()] + p,
        p.len() > 0 ==> names_text(p).len() > 0 && names_text(p)[0] == '/',
    decreases p.len(),
{
    if p.len() == 0 {
        assert(seq![Seq::<char>::empty()] + p =~= seq![Seq::<char>::empty()]);
    } else {
        let init = p.drop_last();
        assert forall|i: int| 0 <= i < init.len() implies valid_name(#[trigger] init[i]) by {
            assert(init[i] == p[i]);
        }
        lemma_split_names(init);
        assert(valid_name(p[p.len() - 1]));
        lemma_split_append(names_text(init), p.last(), '/');
        assert((seq![Seq::<char>::empty()] + init).push(p.last()) =~= seq![Seq::<char>::empty()]
            + p);
    }
}

proof fn lemma_steps_names(p: Path)
    requires
        valid_path(p),
    ensures
        steps(Seq::empty(), seq![Seq::<char>::empty()] + p) == p,
    decreases p.len(),
{
    let parts = seq![Seq::<char>::empty()] + p;
    reveal_with_fuel(steps, 2);
    if p.len() == 0 {
        assert(parts.drop_last() =~= Seq::empty());
        assert(parts.last() =~= Seq::empty());
        assert(p =~= Seq::empty());
    } else {
        let init = p.drop_last();
        assert forall|i: int| 0 <= i < init.len() implies valid_name(#[trigger] init[i]) by {
            assert(init[i] == p[i]);
        }
        lemma_steps_names(init);
        assert(parts.drop_last() =~= seq![Seq::<char>::empty()] + init);
        assert(valid_name(p[p.len() - 1]));
        assert(init.push(p.last()) =~= p);
    }
}

/// The text of a path means that path, whatever the working directory is.
pub proof fn law_path_text(cwd: Path, p: Path)
    requires
        valid_path(p),
    ensures
        resolve(cwd, path_text(p)) == p,
{
    if p.len() == 0 {
        reveal_with_fuel(steps, 3);
        let text = path_text(p);
        assert(text.drop_last() =~= Seq::empty());
        let parts = split_on(text, '/');
        let one = seq![Seq::<char>::empty()];
        assert(split_on(text.drop_last(), '/') == one);
        assert(parts == one.push(Seq::empty()));
        assert(parts.drop_last() =~= one);
        assert(one.drop_last() =~= Seq::empty());
        assert(steps(Seq::empty(), one) == Seq::<Seq<char>>::empty());
        assert(p =~= Seq::empty());
    } else {
        lemma_split_names(p);
        lemma_steps_names(p);
    }
}

// ---------- Laws of paths ----------

proof fn lemma_split_concat(a: Seq<char>, b: Seq<char>, sep: char)
    ensures
        split_on(a.push(sep) + b, sep) == split_on(a, sep) + split_on(b, sep),
    decreases b.len(),
{
    lemma_split_on_parts(a, sep);
    lemma_split_on_parts(b, sep);
    let all = a.push(sep) + b;
    if b.len() == 0 {
        assert(all =~= a.push(sep));
        assert(all.drop_last() =~= a);
        assert(split_on(all, sep) =~= split_on(a, sep) + split_on(b, sep));
    } else {
        let init = b.drop_last();
        lemma_split_on_parts(init, sep);
        lemma_split_concat(a, init, sep);
        assert(all.drop_last() =~= a.push(sep) + init);
        assert(all.last() == b.last());
        assert(split_on(all, sep) =~= split_on(a, sep) + split_on(b, sep));
    }
}

proof fn lemma_steps_concat(start: Path, x: Seq<Seq<char>>, y: Seq<Seq<char>>)
    ensures
        steps(start, x + y) == steps(steps(start, x), y),
    decreases y.len(),
{
    if y.len() == 0 {
        assert(x + y =~= x);
    } else {
        lemma_steps_concat(start, x, y.drop_last());
        assert((x + y).drop_last() =~= x + y.drop_last());
        assert((x + y).last() == y.last());
    }
}

/// What a text with a slash in it means is what the part behind the slash means
/// from where the part in front of it leads, and what an absolute text means does
/// not depend on the working directory: it is what it means from the root without
/// its first slash.
pub proof fn law_resolve_in_steps(cwd: Path, a: Seq<char>, b: Seq<char>)
    ensures
        a.len() > 0 && (b.len() == 0 || b[0] != '/') ==> resolve(cwd, a + seq!['/'] + b) == resolve(
            resolve(cwd, a),
            b,
        ),
        resolve(cwd, seq!['/'] + b) == resolve(Seq::empty(), b),
{
    let text = a + seq!['/'] + b;
    assert(text =~= a.push('/') + b);
    lemma_split_concat(a, b, '/');
    let start = if text.len() > 0 && text[0] == '/' {
        Seq::empty()
    } else {
        cwd
    };
    lemma_steps_concat(start, split_on(a, '/'), split_on(b, '/'));
    if a.len() > 0 {
        assert(text[0] == a[0]);
    }
    let none = Seq::<char>::empty();
    let root = Seq::<Seq<char>>::empty();
    assert(seq!['/'] + b =~= none.push('/') + b);
    assert((seq!['/'] + b)[0] == '/');
    lemma_split_concat(none, b, '/');
    lemma_steps_concat(root, split_on(none, '/'), split_on(b, '/'));
    reveal_with_fuel(steps, 2);
    assert(split_on(none, '/').drop_last() =~= Seq::empty());
    assert(steps(root, split_on(none, '/')) == root);
}

/// A text without a slash is one step: a name leads down to it, two dots lead up to
/// where the last name was taken from and stay at the root, one dot and nothing
/// stay.
pub proof fn law_resolve_one(p: Path, n: Seq<char>)
    requires
        n.len() > 0,
        !n.contains('/'),
        n != seq!['.'],
        n != seq!['.', '.'],
    ensures
        resolve(p, n) == p.push(n),
        resolve(p.push(n), seq!['.', '.']) == p,
        resolve(Seq::empty(), seq!['.', '.']) == Seq::<Seq<char>>::empty(),
        resolve(p, seq!['.']) == p,
        resolve(p, Seq::empty()) == p,
{
    lemma_one_step(p, n);
    lemma_one_step(p.push(n), seq!['.', '.']);
    lemma_one_step(Seq::empty(), seq!['.', '.']);
    lemma_one_step(p, seq!['.']);
    lemma_one_step(p, Seq::empty());
    assert(p.push(n).drop_last() =~= p);
}

proof fn lemma_one_step(p: Path, part: Seq<char>)
    requires
        !part.contains('/'),
    ensures
        resolve(p, part) == step(p, part),
{
    reveal_with_fuel(steps, 2);
    crate::text::lemma_split_single(part, '/');
    assert(seq![part].drop_last() =~= Seq::empty());
    if part.len() > 0 {
        assert(part.contains(part[0]));
    }
}

/// Going down into a name and up again is where one was, in one text too, and so is
/// going up from behind any text and on from there.
pub proof fn law_down_and_up(p: Path, n: Seq<char>, a: Seq<char>, b: Seq<char>)
    requires
        n.len() > 0,
        !n.contains('/'),
        n != seq!['.'],
        n != seq!['.', '.'],
    ensures
        resolve(resolve(p, n), seq!['.', '.']) == p,
        resolve(p, n + seq!['/'] + seq!['.', '.']) == p,
        a.len() > 0 && (b.len() == 0 || b[0] != '/') ==> resolve(
            p,
            a + seq!['/'] + (seq!['.', '.'] + seq!['/'] + b),
        ) == ({
            let q = resolve(p, a);
            resolve(
                if q.len() > 0 {
                    q.take(q.len() - 1)
                } else {
                    q
                },
                b,
            )
        }),
{
    let up = seq!['.', '.'];
    law_resolve_one(p, n);
    assert(up[0] == '.');
    law_resolve_in_steps(p, n, up);
    if a.len() > 0 && (b.len() == 0 || b[0] != '/') {
        let rest = up + seq!['/'] + b;
        assert(rest[0] == '.');
        let q = resolve(p, a);
        law_resolve_in_steps(p, a, rest);
        law_resolve_in_steps(q, up, b);
        if q.len() > 0 {
            lemma_one_step(q, up);
            assert(q.drop_last() =~= q.take(q.len() - 1));
        } else {
            assert(q =~= Seq::empty());
        }
    }
}

/// The text of the working directory is a slash in front of each of its names, and
/// one slash for the root.
pub proof fn law_path_text_grows(p: Path, n: Seq<char>)
    ensures
        path_text(Seq::empty()) == seq!['/'],
        path_text(seq![n]) == seq!['/'] + n,
        p.len() > 0 ==> path_text(p.push(n)) == path_text(p) + seq!['/'] + n,
{
    assert(p.push(n).drop_last() =~= p);
    assert(seq![n].drop_last() =~= Seq::empty());
    reveal_with_fuel(names_text, 2);
    assert(path_text(seq![n]) =~= seq!['/'] + n);
    if p.len() > 0 {
        assert(path_text(p.push(n)) =~= path_text(p) + seq!['/'] + n);
    }
}

/// A path begins with another exactly where it is that one with names behind it.
pub proof fn law_begins(p: Path, rest: Path, q: Path)
    ensures
        starts_with(p + rest, p),
        starts_with(q, p) <==> q.len() >= p.len() && q == p + q.skip(p.len() as int),
{
    assert((p + rest).take(p.len() as int) =~= p);
    if starts_with(q, p) {
        assert(q =~= p + q.skip(p.len() as int));
    } else if q.len() >= p.len() && q == p + q.skip(p.len() as int) {
        assert(q.take(p.len() as int) =~= p);
    }
}

// ---------- Laws of what is allowed ----------

/// Where nothing stands, the walk is stopped by the first file in the way, or else
/// by the first name that is missing.
pub proof fn law_walk_stopped(m: FsModel, p: Path)
    requires
        wf_model(m),
        !m.tree.contains_key(p),
    ensures
        walk(m.tree, p) == if exists|k: int|
            0 <= k < p.len() && m.tree.contains_key(p.take(k)) && #[trigger] m.tree[p.take(
                k,
            )] is File {
            Err::<Item, FsError>(FsError::NotADirectory)
        } else {
            Err::<Item, FsError>(FsError::NotFound)
        },
    decreases p.len(),
{
    if p.len() == 0 {
        assert(p =~= Seq::empty());
    } else {
        let init = p.drop_last();
        law_walk(m, init);
        let last = p.len() - 1;
        assert(p.take(last) =~= init);
        if m.tree.contains_key(init) {
            if m.tree[init] is File {
                assert(m.tree[p.take(last)] is File);
            } else {
                assert forall|k: int| 0 <= k < p.len() && m.tree.contains_key(p.take(k)) implies !(
                #[trigger] m.tree[p.take(k)] is File) by {
                    lemma_dirs_above(m, init, k);
                    assert(p.take(k) =~= init.take(k));
                }
            }
        } else {
            law_walk_stopped(m, init);
            assert forall|k: int| 0 <= k < init.len() implies #[trigger] p.take(k) == init.take(
                k,
            ) by {
                assert(p.take(k) =~= init.take(k));
            }
            assert(!m.tree.contains_key(p.take(last)));
            if exists|k: int|
                0 <= k < init.len() && m.tree.contains_key(init.take(k)) && #[trigger] m.tree[init.take(
                    k,
                )] is File {
                let k = choose|k: int|
                    0 <= k < init.len() && m.tree.contains_key(init.take(k))
                        && #[trigger] m.tree[init.take(k)] is File;
                assert(p.take(k) == init.take(k));
                assert(m.tree[p.take(k)] is File);
            } else if exists|k: int|
                0 <= k < p.len() && m.tree.contains_key(p.take(k)) && #[trigger] m.tree[p.take(
                    k,
                )] is File {
                let k = choose|k: int|
                    0 <= k < p.len() && m.tree.contains_key(p.take(k)) && #[trigger] m.tree[p.take(
                        k,
                    )] is File;
                assert(k < init.len());
                assert(p.take(k) == init.take(k));
                assert(m.tree[init.take(k)] is File);
            }
        }
    }
}

proof fn lemma_dirs_above(m: FsModel, p: Path, k: int)
    requires
        wf_model(m),
        m.tree.contains_key(p),
        m.tree[p] is Dir,
        0 <= k <= p.len(),
    ensures
        m.tree.contains_key(p.take(k)),
        m.tree[p.take(k)] is Dir,
    decreases p.len() - k,
{
    if k == p.len() {
        assert(p.take(k) =~= p);
    } else {
        lemma_dirs_above(m, p, k + 1);
        assert(p.take(k + 1).drop_last() =~= p.take(k));
    }
}

/// In a directory, a directory can be made at every name that is free, a file can
/// be written at every name that is not a directory's, and everything can be
/// removed but a directory with something in it, for which one has to say so. One
/// can work in every directory, and in nothing else.
pub proof fn law_allowed(m: FsModel, d: Path, n: Seq<char>, recursive: bool)
    requires
        wf_model(m),
        m.tree.contains_key(d),
        m.tree[d] is Dir,
    ensures
        ({
            let p = d.push(n);
            let there = m.tree.contains_key(p);
            let dir = there && m.tree[p] is Dir;
            &&& mkdir_check(m.tree, p) == if there {
                Err::<(), FsError>(FsError::AlreadyExists)
            } else {
                Ok(())
            }
            &&& write_check(m.tree, p) == if dir {
                Err::<(), FsError>(FsError::AlreadyExists)
            } else {
                Ok(())
            }
            &&& !there ==> remove_check(m.tree, p, recursive) == Err::<(), FsError>(
                FsError::NotFound,
            )
            &&& there && !dir ==> remove_check(m.tree, p, recursive) is Ok
            &&& dir && recursive ==> remove_check(m.tree, p, recursive) is Ok
            &&& dir && !recursive && (forall|x: Seq<char>| !#[trigger] m.tree.contains_key(p.push(x)))
                ==> remove_check(m.tree, p, recursive) is Ok
            &&& dir && !recursive && (exists|x: Seq<char>| #[trigger] m.tree.contains_key(p.push(x)))
                ==> remove_check(m.tree, p, recursive) == Err::<(), FsError>(
                FsError::DirectoryNotEmpty,
            )
            &&& dir ==> chdir_check(m.tree, p) is Ok
            &&& there && !dir ==> chdir_check(m.tree, p) == Err::<(), FsError>(
                FsError::NotADirectory,
            )
            &&& !there ==> chdir_check(m.tree, p) == Err::<(), FsError>(FsError::NotFound)
        }),
{
    let p = d.push(n);
    assert(p.drop_last() =~= d);
    law_walk(m, d);
    law_walk(m, p);
}

/// What is not in a directory is refused as the walk to it is, and the root can be
/// worked in and nothing else.
pub proof fn law_refused_elsewhere(m: FsModel, d: Path, n: Seq<char>, recursive: bool)
    requires
        wf_model(m),
        !(m.tree.contains_key(d) && m.tree[d] is Dir),
    ensures
        ({
            let p = d.push(n);
            let why = if m.tree.contains_key(d) {
                FsError::NotADirectory
            } else {
                walk(m.tree, d)->Err_0
            };
            &&& mkdir_check(m.tree, p) == Err::<(), FsError>(why)
            &&& write_check(m.tree, p) == Err::<(), FsError>(why)
            &&& remove_check(m.tree, p, recursive) == Err::<(), FsError>(why)
            &&& chdir_check(m.tree, p) == Err::<(), FsError>(why)
        }),
        mkdir_check(m.tree, Seq::empty()) == Err::<(), FsError>(FsError::AlreadyExists),
        write_check(m.tree, Seq::empty()) == Err::<(), FsError>(FsError::InvalidPath),
        remove_check(m.tree, Seq::empty(), recursive) == Err::<(), FsError>(FsError::InvalidPath),
        chdir_check(m.tree, Seq::empty()) is Ok,
{
    let p = d.push(n);
    assert(p.drop_last() =~= d);
    law_walk(m, d);
    law_walk(m, Seq::empty());
}

/// Making, writing and removing leave the working directory as it is, unless it is
/// itself removed or below what is; then it is the root. Changing it changes
/// nothing else.
pub proof fn law_working_directory(m: FsModel, path: Seq<char>, data: Seq<u8>, recursive: bool)
    ensures
        after_mkdir(m, path).cwd == m.cwd,
        after_write(m, path, data).cwd == m.cwd,
        after_chdir(m, path).tree == m.tree,
        after_chdir(m, path).cwd == if chdir_check(m.tree, resolve(m.cwd, path)) is Ok {
            resolve(m.cwd, path)
        } else {
            m.cwd
        },
        ({
            let p = resolve(m.cwd, path);
            let inside = m.cwd.len() >= p.len() && m.cwd.take(p.len() as int) == p;
            after_remove(m, path, recursive).cwd == if remove_check(m.tree, p, recursive) is Ok
                && inside {
                Seq::empty()
            } else {
                m.cwd
            }
        }),
{
}

/// A listing with something in it is the listing of its parts, one line for each
/// entry with a slash behind the name of a directory; an empty one says so.
pub proof fn law_listing_text(v: Seq<(String, bool)>, w: Seq<(String, bool)>, e: (String, bool))
    ensures
        v.len() > 0 && w.len() > 0 ==> listing_text(v + w) == listing_text(v) + listing_text(w),
        listing_text(seq![e]) == e.0@ + (if e.1 {
            seq!['/', '\n']
        } else {
            seq!['\n']
        }),
        listing_text(Seq::empty()) == seq!['(', 'e', 'm', 'p', 't', 'y', ')', '\n'],
{
    lemma_entry_lines_concat(v, w);
    reveal_with_fuel(entry_lines, 2);
    assert(seq![e].drop_last() =~= Seq::empty());
    assert(listing_text(seq![e]) =~= e.0@ + (if e.1 {
        seq!['/', '\n']
    } else {
        seq!['\n']
    }));
    reveal_strlit("(empty)\n");
    assert("(empty)\n"@ =~= seq!['(', 'e', 'm', 'p', 't', 'y', ')', '\n']);
}

proof fn lemma_entry_lines_concat(v: Seq<(String, bool)>, w: Seq<(String, bool)>)
    ensures
        entry_lines(v + w) == entry_lines(v) + entry_lines(w),
    decreases w.len(),
{
    if w.len() == 0 {
        assert(v + w =~= v);
        assert(entry_lines(v) + entry_lines(w) =~= entry_lines(v));
    } else {
        lemma_entry_lines_concat(v, w.drop_last());
        assert((v + w).drop_last() =~= v + w.drop_last());
        assert((v + w).last() == w.last());
        assert(entry_lines(v + w) =~= entry_lines(v) + entry_lines(w));
    }
}

/// No two errors are described alike, and each description begins with what it is
/// about.
pub proof fn law_error_texts(e: FsError, f: FsError)
    ensures
        e.text() == f.text() ==> e == f,
        FsError::NotFound.text().take(7) == "no such"@,
        FsError::NotADirectory.text().take(7) == "not a d"@,
        FsError::NotAFile.text().take(6) == "is a d"@,
        FsError::AlreadyExists.text().take(7) == "already"@,
        FsError::DirectoryNotEmpty.text().take(13) == "directory not"@,
        FsError::InvalidPath.text().take(7) == "invalid"@,
{
    reveal_strlit("no such file or directory");
    reveal_strlit("not a directory");
    reveal_strlit("is a directory");
    reveal_strlit("already exists");
    reveal_strlit("directory not empty (use -r)");
    reveal_strlit("invalid path");
    reveal_strlit("missing operand");
    reveal_strlit("no such");
    reveal_strlit("not a d");
    reveal_strlit("is a d");
    reveal_strlit("already");
    reveal_strlit("directory not");
    reveal_strlit("invalid");
    assert(FsError::NotFound.text().take(7) =~= "no such"@);
    assert(FsError::NotADirectory.text().take(7) =~= "not a d"@);
    assert(FsError::NotAFile.text().take(6) =~= "is a d"@);
    assert(FsError::AlreadyExists.text().take(7) =~= "already"@);
    assert(FsError::DirectoryNotEmpty.text().take(13) =~= "directory not"@);
    assert(FsError::InvalidPath.text().take(7) =~= "invalid"@);
    assert("not a directory"@[0] == 'n' && "missing operand"@[0] == 'm');
    assert("is a directory"@[0] == 'i' && "already exists"@[0] == 'a');
    if e.text() == f.text() {
        assert(e.text()[0] == f.text()[0] && e.text().len() == f.text().len());
    }
}

/// A listing is in the order of the names: of two names that first differ in one
/// character, the one with the smaller comes first, and a name comes before every
/// longer one that begins with it. It is the only listing of its directory.
pub proof fn law_listing_order(
    tree: Map<Path, Item>,
    path: Path,
    v: Seq<(String, bool)>,
    w: Seq<(String, bool)>,
    i: int,
    j: int,
)
    requires
        is_listing(tree, path, v),
        is_listing(tree, path, w),
        0 <= i < v.len(),
        0 <= j < v.len(),
    ensures
        forall|p: Seq<char>, c: char, x: Seq<char>, d: char, y: Seq<char>|
            v[i].0@ == #[trigger] (p.push(c) + x) && v[j].0@ == #[trigger] (p.push(d) + y) && c < d
                ==> i < j,
        forall|x: Seq<char>|
            #[trigger] (v[i].0@ + x) == v[j].0@ && x.len() > 0 ==> i < j,
        tree.contains_key(path.push(v[i].0@)),
        v[i].1 <==> tree[path.push(v[i].0@)] is Dir,
        exists|k: int| 0 <= k < w.len() && #[trigger] w[k].0@ == v[i].0@ && w[k].1 == v[i].1,
        i != j ==> v[i].0@ != v[j].0@,
{
    let a = v[i].0@;
    let b = v[j].0@;
    lemma_text_lt_irreflexive(a);
    if i < j {
        assert(text_lt(v[i].0@, v[j].0@));
    } else if j < i {
        assert(text_lt(v[j].0@, v[i].0@));
    }
    assert forall|p: Seq<char>, c: char, x: Seq<char>, d: char, y: Seq<char>|
        a == #[trigger] (p.push(c) + x) && b == #[trigger] (p.push(d) + y) && c < d implies i < j by {
        crate::text::law_text_order(p, c, x, d, y);
    }
    assert forall|x: Seq<char>| #[trigger] (a + x) == b && x.len() > 0 implies i < j by {
        crate::text::law_text_order(a, x[0], x.skip(1), x[0], x.skip(1));
        assert(a.push(x[0]) + x.skip(1) =~= a + x);
    }
    assert(tree.contains_key(path.push(v[i].0@)));
    let k = choose|k: int| 0 <= k < w.len() && (#[trigger] w[k]).0@ == a;
    assert(w[k].0@ == a);
}

} // verus!
