//! The virtual file tree: a directed graph whose edges are labelled by
//! folded path components, with a single root, and a table of handles for
//! opened directories.
use std::collections::HashMap;

use petgraph::stable_graph::StableGraph;
use petgraph::Directed;
use rand::Rng;
use vstd::prelude::*;

use crate::graph::{
    graph_add_edge, graph_add_node, graph_edges, graph_new, graph_node_weight, graph_nodes,
    graph_out_edges, graph_remove_node, graph_set_weight,
};
use crate::node::{FileKind, FsError, VirtualFileData};
use crate::path::{lemma_leading_component, DOT, lemma_fold_ignores_case, same_but_case, components, components_of, fold, fold_bytes, fold_component, fold_path, same_bytes, views, SEPARATOR};

verus! {

broadcast use vstd::std_specs::hash::group_hash_axioms;

/// The most handles drawn for one `open_dir` before it gives up.
pub const MAX_HANDLE_GENERATION_TRIES: u8 = 100;

/// Relies on rand's `thread_rng` and `Rng::gen`: a `u64` drawn at random,
/// of which nothing is known.
#[verifier::external_body]
fn random_handle() -> u64 {
    rand::thread_rng().gen()
}

/// One entry of a directory listing: the basename of the child's real
/// path, in its case on disk, and the child's kind.
pub struct DirectoryEntry {
    pub name: Vec<u8>,
    pub kind: FileKind,
}

/// The listing entry `d` shows node `c` of `n`: the basename of its real
/// path and its kind.
pub open spec fn shows(n: Map<nat, VirtualFileData>, c: nat, d: DirectoryEntry) -> bool {
    d.name@ == components(n[c].path@).last() && d.kind == n[c].kind
}

/// Whether `v` holds `x`.
fn contains_id(v: &Vec<usize>, x: usize) -> (r: bool)
    ensures
        r == v@.contains(x),
{
    let mut i: usize = 0;
    while i < v.len()
        invariant
            0 <= i <= v.len(),
            forall|j: int| 0 <= j < i ==> v@[j] != x,
        decreases v.len() - i,
    {
        if v[i] == x {
            assert(v@[i as int] == x);
            return true;
        }
        i += 1;
    }
    false
}

/// `c` is a child of `a`.
pub open spec fn is_child(e: Set<(nat, Seq<u8>, nat)>, a: nat, c: nat) -> bool {
    exists|s: Seq<u8>| #[trigger] e.contains((a, s, c))
}

/// `v` lists the children of `a`, one entry for each: entry `i` shows the
/// child `cs[i]`, no child twice, and every child is among them.
pub open spec fn lists_by(n: Map<nat, VirtualFileData>, e: Set<(nat, Seq<u8>, nat)>, a: nat, v: Seq<DirectoryEntry>, cs: Seq<nat>) -> bool {
    &&& cs.len() == v.len()
    &&& cs.no_duplicates()
    &&& forall|i: int| #![trigger cs[i]] 0 <= i < v.len() ==> is_child(e, a, cs[i]) && shows(n, cs[i], v[i])
    &&& forall|c: nat| #[trigger] is_child(e, a, c) ==> cs.contains(c)
}

/// `v` lists the children of `a`, one entry for each.
pub open spec fn lists(n: Map<nat, VirtualFileData>, e: Set<(nat, Seq<u8>, nat)>, a: nat, v: Seq<DirectoryEntry>) -> bool {
    exists|cs: Seq<nat>| lists_by(n, e, a, v, cs)
}

/// The child of `a` along the edge labelled `s`, if there is one.
pub open spec fn child(e: Set<(nat, Seq<u8>, nat)>, a: nat, s: Seq<u8>) -> Option<nat> {
    if exists|b: nat| e.contains((a, s, b)) {
        Some(choose|b: nat| e.contains((a, s, b)))
    } else {
        None
    }
}

/// The node reached from `a` by following one edge per label of `comps`.
pub open spec fn walk(e: Set<(nat, Seq<u8>, nat)>, a: nat, comps: Seq<Seq<u8>>) -> Option<nat>
    decreases comps.len(),
{
    if comps.len() == 0 {
        Some(a)
    } else {
        match child(e, a, comps[0]) {
            Some(b) => walk(e, b, comps.drop_first()),
            None => None,
        }
    }
}

/// `d` carries the real path `path` and the kind `kind`, and is not a root.
pub open spec fn holds(d: VirtualFileData, path: Seq<u8>, kind: FileKind) -> bool {
    d.path@ == path && d.kind == kind && !d.is_root
}

/// The label under which a node backed by `path` is installed: the folded
/// basename of the path.
pub open spec fn basename_label(path: Seq<u8>) -> Seq<u8> {
    fold_bytes(components(path).last())
}

/// The real path given to a purely virtual directory at `virt`.
pub open spec fn virtual_path(virt: Seq<u8>) -> Seq<u8> {
    virtual_prefix() + strip_separators(virt)
}

/// `<VIRTUAL>/`
pub open spec fn virtual_prefix() -> Seq<u8> {
    seq![60u8, 86u8, 73u8, 82u8, 84u8, 85u8, 65u8, 76u8, 62u8, 47u8]
}

/// A path without its leading separators.
pub open spec fn strip_separators(p: Seq<u8>) -> Seq<u8>
    decreases p.len(),
{
    if p.len() > 0 && p[0] == SEPARATOR {
        strip_separators(p.drop_first())
    } else {
        p
    }
}

/// `(n1, e1)` is `(n0, e0)` after installing a payload under `a` with label
/// `s`, as node `r`: where `a` already has a child under `s`, that child's
/// payload is replaced in place; otherwise a new node and edge are added.
pub open spec fn installs_in(
    n0: Map<nat, VirtualFileData>,
    e0: Set<(nat, Seq<u8>, nat)>,
    n1: Map<nat, VirtualFileData>,
    e1: Set<(nat, Seq<u8>, nat)>,
    a: nat,
    s: Seq<u8>,
    path: Seq<u8>,
    kind: FileKind,
    r: nat,
) -> bool {
    &&& match child(e0, a, s) {
        Some(c) => r == c && e1 == e0,
        None => !n0.contains_key(r) && e1 == e0.insert((a, s, r)),
    }
    &&& n1.dom() == n0.dom().insert(r)
    &&& n1.remove(r) == n0.remove(r)
    &&& holds(n1[r], path, kind)
}

/// `new` is `old` after installing a payload under `a` with label `s`, as
/// node `r`; the root and the handles stay.
pub open spec fn installs(old: VirtualFileTree, new: VirtualFileTree, a: nat, s: Seq<u8>, path: Seq<u8>, kind: FileKind, r: nat) -> bool {
    &&& installs_in(old.nodes(), old.edges(), new.nodes(), new.edges(), a, s, path, kind, r)
    &&& new.root() == old.root()
    &&& new.handles() == old.handles()
}

/// The outcome of `map_file(virt, real_file, kind)` on `old`: `new` and the
/// result `r`.
pub open spec fn map_file_outcome(old: VirtualFileTree, new: VirtualFileTree, virt: Seq<u8>, real_file: Seq<u8>, kind: FileKind, r: Result<(), FsError>) -> bool {
    let q = fold_path(virt);
    if q.len() == 0 {
        r == Err::<(), FsError>(FsError::InvalidInput) && new == old
    } else {
        match walk(old.edges(), old.root(), q.drop_last()) {
            None => r == Err::<(), FsError>(FsError::NotFound) && new == old,
            Some(a) => if components(real_file).len() == 0 {
                r == Err::<(), FsError>(FsError::InvalidInput) && new == old
            } else {
                r is Ok && exists|i: nat| installs(old, new, a, basename_label(real_file), real_file, kind, i)
            },
        }
    }
}

/// One entry of a real directory walk: the entry's real path and kind, and
/// the position in the walk of the directory that holds it (`None` for an
/// entry of the walked directory itself).
pub struct MappedEntry {
    pub path: Vec<u8>,
    pub kind: FileKind,
    pub parent: Option<usize>,
}

/// A walk can be mapped under node `a`: `a` is live, each entry's parent
/// comes before it and is a directory, and each entry's path has a basename.
#[verifier::opaque]
pub open spec fn walk_ok(n: Map<nat, VirtualFileData>, a: nat, es: Seq<MappedEntry>) -> bool {
    &&& n.contains_key(a)
    &&& forall|i: int| 0 <= i < es.len() ==> components((#[trigger] es[i]).path@).len() > 0
    &&& forall|i: int| 0 <= i < es.len() ==> #[trigger] parent_ok(es, i)
}

/// The parent of entry `i`, if any, comes before it and is a directory.
pub open spec fn parent_ok(es: Seq<MappedEntry>, i: int) -> bool {
    match es[i].parent {
        None => true,
        Some(j) => j < i && es[j as int].kind == FileKind::Directory,
    }
}

/// The node under which entry `e` is installed: `a`, or the node of its
/// parent entry.
pub open spec fn source_of(a: nat, ids: Seq<usize>, e: MappedEntry) -> nat {
    match e.parent {
        None => a,
        Some(j) => ids[j as int] as nat,
    }
}

/// `(n1, e1)` is `(n0, e0)` with the entries `es` installed, entry `i` as
/// node `ids[i]`: its edge is there, the payload of each node comes from
/// the last entry installed as it, and nothing else changed.
pub open spec fn maps_walk(
    n0: Map<nat, VirtualFileData>,
    e0: Set<(nat, Seq<u8>, nat)>,
    n1: Map<nat, VirtualFileData>,
    e1: Set<(nat, Seq<u8>, nat)>,
    a: nat,
    es: Seq<MappedEntry>,
    ids: Seq<usize>,
) -> bool {
    &&& ids.len() == es.len()
    &&& forall|i: int| 0 <= i < es.len() ==> e1.contains((source_of(a, ids, es[i]), basename_label(es[i].path@), #[trigger] ids[i] as nat))
    &&& forall|t: (nat, Seq<u8>, nat)| #[trigger] e1.contains(t) ==> e0.contains(t) || exists|i: int| 0 <= i < es.len()
        && t == (source_of(a, ids, es[i]), basename_label(es[i].path@), #[trigger] ids[i] as nat)
    &&& forall|k: nat| #[trigger] n1.contains_key(k) <==> n0.contains_key(k) || exists|i: int| 0 <= i < ids.len() && #[trigger] ids[i] as nat == k
    &&& forall|k: nat| #[trigger] n0.contains_key(k) && (forall|i: int| 0 <= i < ids.len() ==> #[trigger] ids[i] as nat != k) ==> n1[k] == n0[k]
    &&& forall|i: int| 0 <= i < es.len() && (forall|j: int| i < j < es.len() ==> ids[j] != #[trigger] ids[i])
        ==> holds(n1[ids[i] as nat], es[i].path@, es[i].kind)
}

proof fn lemma_maps_walk_step(
    n0: Map<nat, VirtualFileData>,
    e0: Set<(nat, Seq<u8>, nat)>,
    nb: Map<nat, VirtualFileData>,
    eb: Set<(nat, Seq<u8>, nat)>,
    na: Map<nat, VirtualFileData>,
    ea: Set<(nat, Seq<u8>, nat)>,
    a: nat,
    es: Seq<MappedEntry>,
    i: int,
    ids0: Seq<usize>,
    id: usize,
    p: nat,
)
    requires
        0 <= i,
        es.len() == i + 1,
        ids0.len() == i,
        forall|k: int| 0 <= k < es.len() && (#[trigger] es[k]).parent is Some ==> es[k].parent->0 < k,
        maps_walk(n0, e0, nb, eb, a, es.take(i), ids0),
        installs_in(nb, eb, na, ea, p, basename_label(es[i].path@), es[i].path@, es[i].kind, id as nat),
        p == source_of(a, ids0.push(id), es[i]),
    ensures
        maps_walk(n0, e0, na, ea, a, es, ids0.push(id)),
{
    reveal(maps_walk);
    let ids = ids0.push(id);
    let es0 = es.take(i);
    let label = basename_label(es[i].path@);
    assert forall|k: int| 0 <= k < i implies source_of(a, ids, es[k]) == source_of(a, ids0, es0[k]) && ids[k] == ids0[k] by {
        assert(es0[k] == es[k]);
        if es[k].parent is Some {
            assert(es[k].parent->0 < k);
        }
    }
    if let Some(c) = child(eb, p, label) {
        let b = choose|b: nat| eb.contains((p, label, b));
    }
    assert(ea.contains((p, label, id as nat)));
    assert forall|k: int| 0 <= k < es.len() implies ea.contains((source_of(a, ids, es[k]), basename_label(es[k].path@), #[trigger] ids[k] as nat)) by {
        if k < i {
            assert(eb.contains((source_of(a, ids0, es0[k]), basename_label(es0[k].path@), ids0[k] as nat)));
        }
    }
    assert forall|t: (nat, Seq<u8>, nat)| #[trigger] ea.contains(t) implies e0.contains(t) || exists|k: int| 0 <= k < es.len()
        && t == (source_of(a, ids, es[k]), basename_label(es[k].path@), #[trigger] ids[k] as nat) by {
        if !eb.contains(t) {
            assert(t == (source_of(a, ids, es[i]), basename_label(es[i].path@), ids[i] as nat));
        } else if !e0.contains(t) {
            let k = choose|k: int| 0 <= k < es0.len()
                && t == (source_of(a, ids0, es0[k]), basename_label(es0[k].path@), #[trigger] ids0[k] as nat);
            assert(t == (source_of(a, ids, es[k]), basename_label(es[k].path@), ids[k] as nat));
        }
    }
    assert forall|k: nat| #[trigger] na.contains_key(k) <==> n0.contains_key(k) || exists|q: int| 0 <= q < ids.len() && #[trigger] ids[q] as nat == k by {
        if k == id as nat {
            assert(ids[i] as nat == k);
        } else if exists|q: int| 0 <= q < ids0.len() && #[trigger] ids0[q] as nat == k {
            let q = choose|q: int| 0 <= q < ids0.len() && #[trigger] ids0[q] as nat == k;
            assert(ids[q] as nat == k);
        } else if exists|q: int| 0 <= q < ids.len() && #[trigger] ids[q] as nat == k {
            let q = choose|q: int| 0 <= q < ids.len() && #[trigger] ids[q] as nat == k;
            assert(ids0[q] as nat == k);
        }
    }
    assert forall|k: nat| #[trigger] n0.contains_key(k) && (forall|q: int| 0 <= q < ids.len() ==> #[trigger] ids[q] as nat != k) implies na[k] == n0[k] by {
        assert forall|q: int| 0 <= q < ids0.len() implies #[trigger] ids0[q] as nat != k by {
            assert(ids[q] == ids0[q]);
        }
        assert(ids[i] as nat != k);
        assert(na.remove(id as nat)[k] == nb.remove(id as nat)[k]);
    }
    assert forall|q: int| 0 <= q < es.len() && (forall|j: int| q < j < es.len() ==> ids[j] != #[trigger] ids[q])
        implies holds(na[ids[q] as nat], es[q].path@, es[q].kind) by {
        if q < i {
            assert(ids[i] != ids[q]);
            assert forall|j: int| q < j < es0.len() implies ids0[j] != #[trigger] ids0[q] by {
                assert(ids[j] == ids0[j]);
            }
            assert(es0[q] == es[q]);
            assert(na.remove(id as nat)[ids0[q] as nat] == nb.remove(id as nat)[ids0[q] as nat]);
        }
    }
}

/// There is a path of `k` edges from `x` to `n`.
pub open spec fn reaches(e: Set<(nat, Seq<u8>, nat)>, x: nat, n: nat, k: nat) -> bool
    decreases k,
{
    if k == 0 {
        n == x
    } else {
        exists|a: nat, s: Seq<u8>| #[trigger] e.contains((a, s, n)) && reaches(e, x, a, (k - 1) as nat)
    }
}

/// `n` is `x` or lies below it.
pub open spec fn below(e: Set<(nat, Seq<u8>, nat)>, x: nat, n: nat) -> bool {
    exists|k: nat| reaches(e, x, n, k)
}

/// The nodes that stay once `x` and everything below it are removed.
pub open spec fn pruned_nodes(n: Map<nat, VirtualFileData>, e: Set<(nat, Seq<u8>, nat)>, x: nat) -> Map<nat, VirtualFileData> {
    n.restrict(n.dom().filter(|k: nat| !below(e, x, k)))
}

/// The edges that stay once `x` and everything below it are removed.
pub open spec fn pruned_edges(e: Set<(nat, Seq<u8>, nat)>, x: nat) -> Set<(nat, Seq<u8>, nat)> {
    e.filter(|t: (nat, Seq<u8>, nat)| !below(e, x, t.0) && !below(e, x, t.2))
}

/// `x` is `n` or an ancestor of it, by the parent map.
spec fn above(p: Map<nat, nat>, d: Map<nat, nat>, x: nat, n: nat) -> bool
    decreases d[n],
{
    if n == x {
        true
    } else if p.contains_key(n) && d[p[n]] < d[n] {
        above(p, d, x, p[n])
    } else {
        false
    }
}

/// `m` is one of the entries of `stack`.
spec fn on_stack(stack: Seq<usize>, m: nat) -> bool {
    exists|i: int| 0 <= i < stack.len() && stack[i] as nat == m
}

/// A tree that merges real directories into one case-insensitive view.
pub struct VirtualFileTree {
    graph: StableGraph<VirtualFileData, Vec<u8>, Directed, usize>,
    handles: HashMap<u64, usize>,
    root: usize,
    parent: Ghost<Map<nat, nat>>,
    label: Ghost<Map<nat, Seq<u8>>>,
    depth: Ghost<Map<nat, nat>>,
}

impl VirtualFileTree {
    /// The live nodes, by index.
    pub closed spec fn nodes(&self) -> Map<nat, VirtualFileData> {
        graph_nodes(self.graph)
    }

    /// The edges: parent, folded label, child.
    pub closed spec fn edges(&self) -> Set<(nat, Seq<u8>, nat)> {
        graph_edges(self.graph)
    }

    /// The index of the root node.
    pub closed spec fn root(&self) -> nat {
        self.root as nat
    }

    /// The table of open directory handles.
    pub closed spec fn handles(&self) -> Map<u64, usize> {
        self.handles@
    }

    /// `h` is an open handle whose node is a live directory.
    pub open spec fn listable(&self, h: u64) -> bool {
        &&& self.handles().contains_key(h)
        &&& self.nodes().contains_key(self.handles()[h] as nat)
        &&& self.nodes()[self.handles()[h] as nat].kind == FileKind::Directory
    }

    /// The node that a virtual path resolves to.
    pub open spec fn find(&self, p: Seq<u8>) -> Option<nat> {
        walk(self.edges(), self.root(), fold_path(p))
    }

    /// The tree is well formed: one root, every other node has exactly one
    /// parent edge and lies one level below it, and no parent has two
    /// children under one label.
    pub closed spec fn wf(&self) -> bool {
        let n = self.nodes();
        let e = self.edges();
        let p = self.parent@;
        let l = self.label@;
        let d = self.depth@;
        let r = self.root as nat;
        &&& n.dom().finite()
        &&& n.contains_key(r)
        &&& n[r].is_root
        &&& n[r].kind == FileKind::Directory
        &&& forall|k: nat| #[trigger] n.contains_key(k) && k != r ==> !n[k].is_root
        &&& d.dom() == n.dom()
        &&& p.dom() == n.dom().remove(r)
        &&& l.dom() == p.dom()
        &&& forall|k: nat| #[trigger] p.contains_key(k) ==> n.contains_key(p[k]) && d[k] == d[p[k]] + 1
        &&& forall|a: nat, s: Seq<u8>, b: nat| #[trigger] e.contains((a, s, b)) <==> (p.contains_key(b) && p[b] == a && l[b] == s)
        &&& forall|x: nat, y: nat| #[trigger] p.contains_key(x) && #[trigger] p.contains_key(y) && p[x] == p[y] && l[x] == l[y] ==> x == y
        &&& forall|k: nat| #[trigger] p.contains_key(k) ==> components(n[k].path@).len() > 0
    }

    proof fn lemma_child(&self, a: nat, s: Seq<u8>, b: nat)
        requires
            self.wf(),
            self.edges().contains((a, s, b)),
        ensures
            child(self.edges(), a, s) == Some(b),
            self.nodes().contains_key(b),
    {
        let c = choose|c: nat| self.edges().contains((a, s, c));
        assert(self.parent@.contains_key(c) && self.parent@.contains_key(b));
    }

    proof fn lemma_walk_in_nodes(&self, a: nat, comps: Seq<Seq<u8>>)
        requires
            self.wf(),
            self.nodes().contains_key(a),
        ensures
            walk(self.edges(), a, comps) matches Some(b) ==> self.nodes().contains_key(b),
        decreases comps.len(),
    {
        if comps.len() > 0 {
            if let Some(b) = child(self.edges(), a, comps[0]) {
                self.lemma_child(a, comps[0], b);
                self.lemma_walk_in_nodes(b, comps.drop_first());
            }
        }
    }

    /// Builds a tree with a single root node backed by `real_root`.
    pub fn new(real_root: Vec<u8>) -> (r: Self)
        ensures
            r.wf(),
            r.nodes().dom() == set![r.root()],
            r.nodes()[r.root()].path@ == real_root@,
            r.nodes()[r.root()].kind == FileKind::Directory,
            r.handles().dom() == Set::<u64>::empty(),
            forall|e: (nat, Seq<u8>, nat)| !r.edges().contains(e),
    {
        let mut graph = graph_new();
        let root = graph_add_node(&mut graph, VirtualFileData { path: real_root, kind: FileKind::Directory, is_root: true });
        let handles: HashMap<u64, usize> = HashMap::new();
        let t = VirtualFileTree {
            graph,
            handles,
            root,
            parent: Ghost(Map::empty()),
            label: Ghost(Map::empty()),
            depth: Ghost(Map::<nat, nat>::empty().insert(root as nat, 0nat)),
        };
        assert(t.nodes().dom() =~= set![root as nat]);
        assert(t.parent@.dom() =~= t.nodes().dom().remove(root as nat));
        assert(t.depth@.dom() =~= t.nodes().dom());
        assert(t.handles@.dom() =~= Set::<u64>::empty());
        t
    }

    /// The child of `a` under the folded label `s`.
    fn find_child(&self, a: usize, s: &Vec<u8>) -> (r: Option<usize>)
        requires
            self.wf(),
        ensures
            r matches Some(b) ==> child(self.edges(), a as nat, s@) == Some(b as nat) && self.nodes().contains_key(b as nat),
            r is None ==> child(self.edges(), a as nat, s@) is None,
    {
        let out = graph_out_edges(&self.graph, a);
        let mut i: usize = 0;
        while i < out.len()
            invariant
                self.wf(),
                0 <= i <= out.len(),
                forall|j: int| 0 <= j < i ==> (#[trigger] out@[j]).0@ != s@,
                forall|j: int| 0 <= j < out@.len() ==> self.edges().contains((a as nat, (#[trigger] out@[j]).0@, out@[j].1 as nat)),
                forall|t: Seq<u8>, b: nat| #[trigger] self.edges().contains((a as nat, t, b)) ==>
                    exists|j: int| 0 <= j < out@.len() && (#[trigger] out@[j]).0@ == t && out@[j].1 as nat == b,
            decreases out.len() - i,
        {
            if same_bytes(&out[i].0, s) {
                let b = out[i].1;
                proof {
                    self.lemma_child(a as nat, s@, b as nat);
                }
                return Some(b);
            }
            i += 1;
        }
        proof {
            if exists|b: nat| self.edges().contains((a as nat, s@, b)) {
                let b = choose|b: nat| self.edges().contains((a as nat, s@, b));
                let j = choose|j: int| 0 <= j < out@.len() && (#[trigger] out@[j]).0@ == s@ && out@[j].1 as nat == b;
                assert(out@[j].0@ != s@);
            }
        }
        None
    }

    /// The node that a virtual path resolves to: one folded component per
    /// step from the root; `None` at the first missing edge.
    pub fn find_index(&self, path: &Vec<u8>) -> (r: Option<usize>)
        requires
            self.wf(),
        ensures
            r matches Some(i) ==> self.find(path@) == Some(i as nat) && self.nodes().contains_key(i as nat),
            r is None ==> self.find(path@) is None,
    {
        let comps = fold(path);
        let mut idx = self.root;
        let mut i: usize = 0;
        assert(views(comps@).skip(0) =~= views(comps@));
        while i < comps.len()
            invariant
                self.wf(),
                0 <= i <= comps.len(),
                views(comps@) == fold_path(path@),
                self.nodes().contains_key(idx as nat),
                self.find(path@) == walk(self.edges(), idx as nat, views(comps@).skip(i as int)),
            decreases comps.len() - i,
        {
            assert(views(comps@).skip(i as int).drop_first() =~= views(comps@).skip(i + 1));
            assert(views(comps@).skip(i as int)[0] == comps@[i as int]@);
            match self.find_child(idx, &comps[i]) {
                Some(c) => {
                    idx = c;
                },
                None => {
                    return None;
                },
            }
            i += 1;
        }
        assert(views(comps@).skip(i as int).len() == 0);
        Some(idx)
    }

    /// The real path of the node that a virtual path resolves to.
    pub fn translate_path(&self, virt: &Vec<u8>) -> (r: Option<&Vec<u8>>)
        requires
            self.wf(),
        ensures
            r is Some == self.find(virt@) is Some,
            r is Some ==> r->0@ == self.nodes()[self.find(virt@)->0].path@,
    {
        match self.find_index(virt) {
            Some(i) => match graph_node_weight(&self.graph, i) {
                Some(d) => Some(&d.path),
                None => None,
            },
            None => None,
        }
    }

    /// Whether a virtual path resolves.
    pub fn contains(&self, path: &Vec<u8>) -> (r: bool)
        requires
            self.wf(),
        ensures
            r == self.find(path@) is Some,
    {
        self.find_index(path).is_some()
    }

    /// Whether a virtual path resolves to a directory.
    pub fn is_dir(&self, path: &Vec<u8>) -> (r: bool)
        requires
            self.wf(),
        ensures
            r == (self.find(path@) is Some && self.nodes()[self.find(path@)->0].kind == FileKind::Directory),
    {
        match self.find_index(path) {
            Some(i) => match graph_node_weight(&self.graph, i) {
                Some(d) => d.kind == FileKind::Directory,
                None => false,
            },
            None => false,
        }
    }

    /// Installs `data` as the child of `a` labelled `s`, replacing the
    /// payload of an existing child with that label.
    fn install_child(&mut self, a: usize, s: Vec<u8>, data: VirtualFileData) -> (r: usize)
        requires
            old(self).wf(),
            old(self).nodes().contains_key(a as nat),
            !data.is_root,
            components(data.path@).len() > 0,
        ensures
            final(self).wf(),
            installs(*old(self), *final(self), a as nat, s@, data.path@, data.kind, r as nat),
    {
        let ghost old_nodes = self.nodes();
        match self.find_child(a, &s) {
            Some(c) => {
                proof {
                    let b = choose|b: nat| self.edges().contains((a as nat, s@, b));
                    assert(self.parent@.contains_key(b));
                }
                graph_set_weight(&mut self.graph, c, data);
                assert(self.nodes().dom() =~= old_nodes.dom().insert(c as nat));
                assert(self.nodes().remove(c as nat) =~= old_nodes.remove(c as nat));
                c
            },
            None => {
                let ghost old_edges = self.edges();
                let b = graph_add_node(&mut self.graph, data);
                let ghost sv = s@;
                graph_add_edge(&mut self.graph, a, b, s);
                proof {
                    let p0 = self.parent@;
                    let l0 = self.label@;
                    let d0 = self.depth@;
                    self.parent = Ghost(p0.insert(b as nat, a as nat));
                    self.label = Ghost(l0.insert(b as nat, sv));
                    self.depth = Ghost(d0.insert(b as nat, d0[a as nat] + 1));
                    assert(self.nodes().dom() =~= old_nodes.dom().insert(b as nat));
                    assert(self.nodes().remove(b as nat) =~= old_nodes.remove(b as nat));
                    assert(self.depth@.dom() =~= self.nodes().dom());
                    assert(self.parent@.dom() =~= self.nodes().dom().remove(self.root as nat));
                    assert(self.label@.dom() =~= self.parent@.dom());
                    assert forall|x: nat, y: nat| #[trigger] self.parent@.contains_key(x) && #[trigger] self.parent@.contains_key(y)
                        && self.parent@[x] == self.parent@[y] && self.label@[x] == self.label@[y] implies x == y by {
                        if x == b as nat && y != b as nat {
                            assert(old_edges.contains((a as nat, sv, y)));
                        } else if y == b as nat && x != b as nat {
                            assert(old_edges.contains((a as nat, sv, x)));
                        }
                    }
                    assert forall|x: nat, t: Seq<u8>, y: nat| #[trigger] self.edges().contains((x, t, y)) <==>
                        (self.parent@.contains_key(y) && self.parent@[y] == x && self.label@[y] == t) by {
                        if y == b as nat {
                            if old_edges.contains((x, t, y)) {
                                assert(p0.contains_key(y));
                            }
                        }
                    }
                }
                b
            },
        }
    }

    /// Installs a node backed by `data.path` under `a`, labelled by the
    /// folded basename of that path.
    fn update_child(&mut self, a: usize, data: VirtualFileData) -> (r: Result<usize, FsError>)
        requires
            old(self).wf(),
            old(self).nodes().contains_key(a as nat),
            !data.is_root,
        ensures
            final(self).wf(),
            components(data.path@).len() == 0 ==> r == Err::<usize, FsError>(FsError::InvalidInput) && *final(self) == *old(self),
            components(data.path@).len() > 0 ==> (r matches Ok(i) && installs(*old(self), *final(self), a as nat, basename_label(data.path@), data.path@, data.kind, i as nat)),
    {
        let comps = components_of(&data.path);
        if comps.len() == 0 {
            return Err(FsError::InvalidInput);
        }
        let s = fold_component(&comps[comps.len() - 1]);
        Ok(self.install_child(a, s, data))
    }

    /// The node reached from the root by the first `n` folded components.
    fn find_prefix(&self, comps: &Vec<Vec<u8>>, n: usize) -> (r: Option<usize>)
        requires
            self.wf(),
            n <= comps.len(),
        ensures
            r matches Some(i) ==> walk(self.edges(), self.root(), views(comps@).take(n as int)) == Some(i as nat) && self.nodes().contains_key(i as nat),
            r is None ==> walk(self.edges(), self.root(), views(comps@).take(n as int)) is None,
    {
        let mut idx = self.root;
        let mut i: usize = 0;
        assert(views(comps@).take(n as int).skip(0) =~= views(comps@).take(n as int));
        while i < n
            invariant
                self.wf(),
                0 <= i <= n <= comps.len(),
                self.nodes().contains_key(idx as nat),
                walk(self.edges(), self.root(), views(comps@).take(n as int)) == walk(self.edges(), idx as nat, views(comps@).take(n as int).skip(i as int)),
            decreases n - i,
        {
            assert(views(comps@).take(n as int).skip(i as int).drop_first() =~= views(comps@).take(n as int).skip(i + 1));
            assert(views(comps@).take(n as int).skip(i as int)[0] == comps@[i as int]@);
            match self.find_child(idx, &comps[i]) {
                Some(c) => {
                    idx = c;
                },
                None => {
                    return None;
                },
            }
            i += 1;
        }
        assert(views(comps@).take(n as int).skip(i as int).len() == 0);
        Some(idx)
    }

    /// Maps the real file `real_file`, of kind `kind`, under the node of the
    /// parent of the virtual path `virt`.
    pub fn map_file(&mut self, virt: &Vec<u8>, real_file: Vec<u8>, kind: FileKind) -> (r: Result<(), FsError>)
        requires
            old(self).wf(),
        ensures
            final(self).wf(),
            map_file_outcome(*old(self), *final(self), virt@, real_file@, kind, r),
    {
        let comps = fold(virt);
        if comps.len() == 0 {
            return Err(FsError::InvalidInput);
        }
        assert(views(comps@).take(comps.len() - 1) =~= fold_path(virt@).drop_last());
        let a = match self.find_prefix(&comps, comps.len() - 1) {
            Some(a) => a,
            None => {
                return Err(FsError::NotFound);
            },
        };
        let ghost before = *self;
        let ghost rf = real_file@;
        match self.update_child(a, VirtualFileData { path: real_file, kind, is_root: false }) {
            Ok(i) => {
                assert(installs(before, *self, a as nat, basename_label(rf), rf, kind, i as nat));
                assert(walk(old(self).edges(), old(self).root(), fold_path(virt@).drop_last())->0 == a as nat);
                assert(installs(*old(self), *self, walk(old(self).edges(), old(self).root(), fold_path(virt@).drop_last())->0, basename_label(rf), rf, kind, i as nat));
                Ok(())
            },
            Err(e) => Err(e),
        }
    }

    /// Adds a purely virtual directory at `virt`, for use as an attachment
    /// point; its real path is `virt` under `<VIRTUAL>/`.
    pub fn add_node(&mut self, virt: &Vec<u8>) -> (r: Result<usize, FsError>)
        requires
            old(self).wf(),
        ensures
            final(self).wf(),
            fold_path(virt@).len() == 0 ==> r == Err::<usize, FsError>(FsError::InvalidInput) && *final(self) == *old(self),
            fold_path(virt@).len() > 0 ==> match walk(old(self).edges(), old(self).root(), fold_path(virt@).drop_last()) {
                None => r == Err::<usize, FsError>(FsError::NotFound) && *final(self) == *old(self),
                Some(a) => (r matches Ok(i) && installs(*old(self), *final(self), a, fold_path(virt@).last(), virtual_path(virt@), FileKind::Directory, i as nat)),
            },
    {
        let comps = fold(virt);
        if comps.len() == 0 {
            return Err(FsError::InvalidInput);
        }
        assert(views(comps@).take(comps.len() - 1) =~= fold_path(virt@).drop_last());
        let a = match self.find_prefix(&comps, comps.len() - 1) {
            Some(a) => a,
            None => {
                return Err(FsError::NotFound);
            },
        };
        let mut path: Vec<u8> = vec![60u8, 86u8, 73u8, 82u8, 84u8, 85u8, 65u8, 76u8, 62u8, 47u8];
        assert(path@ =~= virtual_prefix());
        let mut i: usize = 0;
        assert(virt@.skip(0) =~= virt@);
        while i < virt.len() && virt[i] == SEPARATOR
            invariant
                0 <= i <= virt.len(),
                strip_separators(virt@) == strip_separators(virt@.skip(i as int)),
            decreases virt.len() - i,
        {
            assert(virt@.skip(i as int).drop_first() =~= virt@.skip(i + 1));
            i += 1;
        }
        let ghost start = i;
        assert(strip_separators(virt@.skip(i as int)) == virt@.skip(i as int));
        while i < virt.len()
            invariant
                start <= i <= virt.len(),
                path@ == virtual_prefix() + virt@.subrange(start as int, i as int),
            decreases virt.len() - i,
        {
            path.push(virt[i]);
            i += 1;
            assert(path@ =~= virtual_prefix() + virt@.subrange(start as int, i as int));
        }
        assert(virt@.subrange(start as int, virt@.len() as int) =~= virt@.skip(start as int));
        let s = comps[comps.len() - 1].clone();
        assert(s@ == fold_path(virt@).last());
        proof {
            let c = seq![60u8, 86u8, 73u8, 82u8, 84u8, 85u8, 65u8, 76u8, 62u8];
            assert(c.push(SEPARATOR) =~= virtual_prefix());
            assert(c.len() == 9 && c != seq![DOT]);
            lemma_leading_component(c, strip_separators(virt@));
        }
        Ok(self.install_child(a, s, VirtualFileData { path, kind: FileKind::Directory, is_root: false }))
    }

    proof fn lemma_above_reaches(&self, x: nat, n: nat) -> (k: nat)
        requires
            self.wf(),
            self.nodes().contains_key(n),
            above(self.parent@, self.depth@, x, n),
        ensures
            reaches(self.edges(), x, n, k),
        decreases self.depth@[n],
    {
        if n == x {
            0
        } else {
            let a = self.parent@[n];
            let k = self.lemma_above_reaches(x, a);
            assert(self.edges().contains((a, self.label@[n], n)));
            k + 1
        }
    }

    proof fn lemma_reaches_above(&self, x: nat, n: nat, k: nat)
        requires
            self.wf(),
            reaches(self.edges(), x, n, k),
        ensures
            above(self.parent@, self.depth@, x, n),
            k > 0 ==> self.parent@.contains_key(n),
        decreases k,
    {
        if k > 0 {
            let (a, s) = choose|a: nat, s: Seq<u8>| #[trigger] self.edges().contains((a, s, n)) && reaches(self.edges(), x, a, (k - 1) as nat);
            assert(self.parent@.contains_key(n) && self.parent@[n] == a);
            self.lemma_reaches_above(x, a, (k - 1) as nat);
        }
    }

    /// Within the tree, lying below `x` by the edges is having `x` among
    /// one's ancestors by the parent map.
    proof fn lemma_below_above(&self, x: nat, n: nat)
        requires
            self.wf(),
            self.nodes().contains_key(n),
        ensures
            below(self.edges(), x, n) == above(self.parent@, self.depth@, x, n),
    {
        if above(self.parent@, self.depth@, x, n) {
            let k = self.lemma_above_reaches(x, n);
        }
        if below(self.edges(), x, n) {
            let k = choose|k: nat| reaches(self.edges(), x, n, k);
            self.lemma_reaches_above(x, n, k);
        }
    }

    /// A set of nodes below `x`, none of them `x`, each with its parent in
    /// the set, is empty: following parents would descend forever.
    proof fn lemma_no_descent(&self, sub: Set<nat>, x: nat, m: nat)
        requires
            self.wf(),
            forall|k: nat| #[trigger] sub.contains(k) ==> k != x && self.parent@.contains_key(k) && sub.contains(self.parent@[k]),
        ensures
            !sub.contains(m),
        decreases self.depth@[m],
    {
        if sub.contains(m) {
            let a = self.parent@[m];
            assert(self.depth@[m] == self.depth@[a] + 1);
            self.lemma_no_descent(sub, x, a);
        }
    }

    /// Removes the node at `path` and every node below it. The real files
    /// are not touched. The root cannot be removed.
    #[verifier::rlimit(100)]
    pub fn remove_file(&mut self, path: &Vec<u8>) -> (r: Result<VirtualFileData, FsError>)
        requires
            old(self).wf(),
        ensures
            final(self).wf(),
            final(self).root() == old(self).root(),
            final(self).handles() == old(self).handles(),
            old(self).find(path@) is None ==> r == Err::<VirtualFileData, FsError>(FsError::NotFound) && *final(self) == *old(self),
            old(self).find(path@) == Some(old(self).root()) ==> r == Err::<VirtualFileData, FsError>(FsError::InvalidInput) && *final(self) == *old(self),
            old(self).find(path@) is Some && old(self).find(path@)->0 != old(self).root() ==> (r matches Ok(d)
                && d == old(self).nodes()[old(self).find(path@)->0]
                && final(self).nodes() == pruned_nodes(old(self).nodes(), old(self).edges(), old(self).find(path@)->0)
                && final(self).edges() == pruned_edges(old(self).edges(), old(self).find(path@)->0)),
    {
        let x = match self.find_index(path) {
            Some(x) => x,
            None => {
                return Err(FsError::NotFound);
            },
        };
        if x == self.root {
            return Err(FsError::InvalidInput);
        }
        let ghost t0 = *self;
        let ghost n0 = self.nodes();
        let ghost e0 = self.edges();
        let ghost p0 = self.parent@;
        let ghost d0 = self.depth@;
        let ghost sub = n0.dom().filter(|k: nat| above(p0, d0, x as nat, k));
        let ghost mut gone: Set<nat> = Set::empty();
        let mut stack: Vec<usize> = vec![x];
        let mut taken: Option<VirtualFileData> = None;
        assert(stack@[0] as nat == x as nat);
        assert(sub.contains(x as nat));
        assert(self.nodes().dom() =~= n0.dom().difference(gone));
        assert(self.edges() =~= e0.filter(|t: (nat, Seq<u8>, nat)| !gone.contains(t.0) && !gone.contains(t.2)));
        while stack.len() > 0
            invariant
                t0.wf(),
                n0 == t0.nodes(),
                e0 == t0.edges(),
                p0 == t0.parent@,
                d0 == t0.depth@,
                sub == n0.dom().filter(|k: nat| above(p0, d0, x as nat, k)),
                n0.contains_key(x as nat),
                x != t0.root,
                self.root == t0.root,
                self.handles == t0.handles,
                self.parent == t0.parent,
                self.label == t0.label,
                self.depth == t0.depth,
                gone.subset_of(sub),
                self.nodes().dom().finite(),
                self.nodes().dom() == n0.dom().difference(gone),
                forall|k: nat| #[trigger] self.nodes().contains_key(k) ==> self.nodes()[k] == n0[k],
                self.edges() == e0.filter(|t: (nat, Seq<u8>, nat)| !gone.contains(t.0) && !gone.contains(t.2)),
                forall|i: int| 0 <= i < stack@.len() ==> sub.contains(#[trigger] stack@[i] as nat),
                forall|m: nat| #[trigger] sub.contains(m) && !gone.contains(m) ==> on_stack(stack@, m) || (m != x as nat && !gone.contains(p0[m])),
                gone.contains(x as nat) ==> taken == Some(n0[x as nat]),
            decreases self.nodes().dom().len(), stack.len(),
        {
            let ghost s0 = stack@;
            let n = stack.pop().unwrap();
            assert(s0[s0.len() - 1] == n);
            assert forall|m: nat| on_stack(s0, m) && m != n as nat implies on_stack(stack@, m) by {
                let i = choose|i: int| 0 <= i < s0.len() && s0[i] as nat == m;
                assert(stack@[i] == s0[i]);
            }
            if graph_node_weight(&self.graph, n).is_some() {
                assert(sub.contains(n as nat)) by {
                    assert(sub.contains(s0[s0.len() - 1] as nat));
                }
                let out = graph_out_edges(&self.graph, n);
                let ghost e_mid = self.edges();
                let ghost s1 = stack@;
                let mut j: usize = 0;
                while j < out.len()
                    invariant
                        0 <= j <= out.len(),
                        t0.wf(),
                        n0 == t0.nodes(),
                        e0 == t0.edges(),
                        p0 == t0.parent@,
                        d0 == t0.depth@,
                        sub == n0.dom().filter(|k: nat| above(p0, d0, x as nat, k)),
                        sub.contains(n as nat),
                        self.edges() == e0.filter(|t: (nat, Seq<u8>, nat)| !gone.contains(t.0) && !gone.contains(t.2)),
                        forall|i: int| 0 <= i < out@.len() ==> self.edges().contains((n as nat, (#[trigger] out@[i]).0@, out@[i].1 as nat)),
                        stack@.len() >= s1.len(),
                        forall|i: int| 0 <= i < s1.len() ==> stack@[i] == s1[i],
                        forall|i: int| 0 <= i < stack@.len() ==> sub.contains(#[trigger] stack@[i] as nat),
                        forall|i: int| 0 <= i < j ==> on_stack(stack@, (#[trigger] out@[i]).1 as nat),
                    decreases out.len() - j,
                {
                    let c = out[j].1;
                    proof {
                        assert(e0.contains((n as nat, out@[j as int].0@, c as nat)));
                        assert(p0[c as nat] == n as nat);
                        assert(d0[c as nat] == d0[n as nat] + 1);
                        assert(above(p0, d0, x as nat, c as nat));
                    }
                    let ghost st = stack@;
                    stack.push(c);
                    proof {
                        assert(stack@[st.len() as int] == c);
                        assert forall|i: int| 0 <= i < j + 1 implies on_stack(stack@, (#[trigger] out@[i]).1 as nat) by {
                            if i < j {
                                let q = choose|q: int| 0 <= q < st.len() && st[q] as nat == out@[i].1 as nat;
                                assert(stack@[q] == st[q]);
                            } else {
                                assert(stack@[st.len() as int] as nat == out@[i].1 as nat);
                            }
                        }
                    }
                    j += 1;
                }
                let ghost nodes_before = self.nodes();
                let w = graph_remove_node(&mut self.graph, n);
                if n == x {
                    taken = w;
                }
                proof {
                    let g0 = gone;
                    gone = gone.insert(n as nat);
                    assert(self.nodes().dom() =~= n0.dom().difference(gone));
                    assert(self.edges() =~= e0.filter(|t: (nat, Seq<u8>, nat)| !gone.contains(t.0) && !gone.contains(t.2)));
                    assert(nodes_before.dom().contains(n as nat));
                    assert forall|m: nat| #[trigger] sub.contains(m) && !gone.contains(m) implies on_stack(stack@, m) || (m != x as nat && !gone.contains(p0[m])) by {
                        if p0.contains_key(m) && p0[m] == n as nat {
                            assert(e0.contains((n as nat, t0.label@[m], m)));
                            assert(!g0.contains(n as nat));
                            assert(e_mid.contains((n as nat, t0.label@[m], m)));
                            let q = choose|q: int| 0 <= q < out@.len() && (#[trigger] out@[q]).0@ == t0.label@[m] && out@[q].1 as nat == m;
                            assert(on_stack(stack@, out@[q].1 as nat));
                        } else if on_stack(s0, m) && m != n as nat {
                            let i = choose|i: int| 0 <= i < s1.len() && s1[i] as nat == m;
                            assert(stack@[i] == s1[i]);
                        } else if m == x as nat {
                            assert(on_stack(s0, m));
                        }
                    }
                }
            }
        }
        proof {
            assert forall|k: nat| #[trigger] sub.contains(k) implies gone.contains(k) by {
                let rest = sub.difference(gone);
                assert forall|q: nat| #[trigger] rest.contains(q) implies q != x as nat && p0.contains_key(q) && rest.contains(p0[q]) by {
                    assert(q != t0.root);
                    assert(p0.contains_key(q));
                    assert(above(p0, d0, x as nat, p0[q]));
                }
                t0.lemma_no_descent(rest, x as nat, k);
            }
            assert(gone =~= sub);
            assert forall|k: nat| n0.contains_key(k) implies below(e0, x as nat, k) == sub.contains(k) by {
                t0.lemma_below_above(x as nat, k);
            }
            assert(self.nodes() =~= pruned_nodes(n0, e0, x as nat));
            assert forall|t: (nat, Seq<u8>, nat)| e0.contains(t) implies n0.contains_key(t.0) && n0.contains_key(t.2) by {
                assert(e0.contains((t.0, t.1, t.2)));
            }
            assert(self.edges() =~= pruned_edges(e0, x as nat));
            self.parent = Ghost(p0.remove_keys(sub));
            self.label = Ghost(t0.label@.remove_keys(sub));
            self.depth = Ghost(d0.remove_keys(sub));
            assert(self.depth@.dom() =~= self.nodes().dom());
            assert(self.parent@.dom() =~= self.nodes().dom().remove(self.root as nat));
            assert(self.label@.dom() =~= self.parent@.dom());
            assert forall|k: nat| #[trigger] self.parent@.contains_key(k) implies self.nodes().contains_key(self.parent@[k]) && self.depth@[k] == self.depth@[self.parent@[k]] + 1 by {
                if sub.contains(p0[k]) {
                    assert(above(p0, d0, x as nat, k));
                }
            }
            assert forall|a: nat, s: Seq<u8>, b: nat| #[trigger] self.edges().contains((a, s, b)) <==>
                (self.parent@.contains_key(b) && self.parent@[b] == a && self.label@[b] == s) by {
                if self.parent@.contains_key(b) && self.parent@[b] == a && self.label@[b] == s {
                    assert(e0.contains((a, s, b)));
                    if sub.contains(a) {
                        assert(above(p0, d0, x as nat, b));
                    }
                }
            }
        }
        match taken {
            Some(d) => Ok(d),
            None => Err(FsError::NotFound),
        }
    }

    /// Moves the node at `from` to `to`: the node is removed with everything
    /// below it, then its payload is installed under the parent of `to`,
    /// labelled by the last folded component of `to`. The real files are
    /// not touched.
    pub fn move_file(&mut self, from: &Vec<u8>, to: &Vec<u8>) -> (r: Result<(), FsError>)
        requires
            old(self).wf(),
        ensures
            final(self).wf(),
            final(self).root() == old(self).root(),
            final(self).handles() == old(self).handles(),
            old(self).find(from@) is None ==> r == Err::<(), FsError>(FsError::NotFound) && *final(self) == *old(self),
            old(self).find(from@) == Some(old(self).root()) ==> r == Err::<(), FsError>(FsError::InvalidInput) && *final(self) == *old(self),
            old(self).find(from@) is Some && old(self).find(from@)->0 != old(self).root() ==> ({
                let x = old(self).find(from@)->0;
                let n1 = pruned_nodes(old(self).nodes(), old(self).edges(), x);
                let e1 = pruned_edges(old(self).edges(), x);
                let q = fold_path(to@);
                if q.len() == 0 || walk(e1, old(self).root(), q.drop_last()) is None {
                    r == Err::<(), FsError>(FsError::NotFound) && final(self).nodes() == n1 && final(self).edges() == e1
                } else {
                    r is Ok && exists|i: nat| installs_in(n1, e1, final(self).nodes(), final(self).edges(),
                        walk(e1, old(self).root(), q.drop_last())->0, q.last(), old(self).nodes()[x].path@, old(self).nodes()[x].kind, i)
                }
            }),
    {
        let ghost t0 = *self;
        proof {
            t0.lemma_walk_in_nodes(t0.root(), fold_path(from@));
        }
        let data = match self.remove_file(from) {
            Ok(d) => d,
            Err(e) => {
                return Err(e);
            },
        };
        let ghost x = t0.find(from@)->0;
        let ghost t1 = *self;
        let comps = fold(to);
        if comps.len() == 0 {
            return Err(FsError::NotFound);
        }
        assert(views(comps@).take(comps.len() - 1) =~= fold_path(to@).drop_last());
        let a = match self.find_prefix(&comps, comps.len() - 1) {
            Some(a) => a,
            None => {
                return Err(FsError::NotFound);
            },
        };
        let s = comps[comps.len() - 1].clone();
        assert(s@ == fold_path(to@).last());
        let i = self.install_child(a, s, data);
        assert(installs_in(t1.nodes(), t1.edges(), self.nodes(), self.edges(),
            walk(t1.edges(), t0.root(), fold_path(to@).drop_last())->0, fold_path(to@).last(), t0.nodes()[x].path@, t0.nodes()[x].kind, i as nat));
        Ok(())
    }

    /// Opens the node at `path` and hands back a fresh handle for it, drawn
    /// at random; a drawn handle that is already in use is drawn again, at
    /// most `MAX_HANDLE_GENERATION_TRIES` times in all.
    pub fn open_dir(&mut self, path: &Vec<u8>) -> (r: Result<u64, FsError>)
        requires
            old(self).wf(),
        ensures
            final(self).wf(),
            final(self).nodes() == old(self).nodes(),
            final(self).edges() == old(self).edges(),
            final(self).root() == old(self).root(),
            old(self).find(path@) is None ==> r == Err::<u64, FsError>(FsError::NotFound) && *final(self) == *old(self),
            old(self).find(path@) is Some ==> match r {
                Ok(h) => !old(self).handles().contains_key(h)
                    && final(self).handles() == old(self).handles().insert(h, old(self).find(path@)->0 as usize),
                Err(e) => e == FsError::Exhausted && *final(self) == *old(self),
            },
            old(self).find(path@) is Some && old(self).handles().dom() == Set::<u64>::empty() ==> r is Ok,
    {
        let dir = match self.find_index(path) {
            Some(d) => d,
            None => {
                return Err(FsError::NotFound);
            },
        };
        let mut tries: u8 = 0;
        while tries < MAX_HANDLE_GENERATION_TRIES
            invariant
                *self == *old(self),
                old(self).wf(),
                old(self).find(path@) == Some(dir as nat),
                tries > 0 ==> old(self).handles().dom() != Set::<u64>::empty(),
            decreases MAX_HANDLE_GENERATION_TRIES - tries,
        {
            let h = random_handle();
            if self.claim_handle(h, dir) {
                return Ok(h);
            }
            assert(old(self).handles().dom().contains(h));
            tries += 1;
        }
        Err(FsError::Exhausted)
    }

    /// Records `h` as a handle of the node `dir` where `h` is free; a handle
    /// in use is left as it is. Tells whether `h` was taken.
    pub fn claim_handle(&mut self, h: u64, dir: usize) -> (r: bool)
        requires
            old(self).wf(),
        ensures
            final(self).wf(),
            final(self).nodes() == old(self).nodes(),
            final(self).edges() == old(self).edges(),
            final(self).root() == old(self).root(),
            r == !old(self).handles().contains_key(h),
            r ==> final(self).handles() == old(self).handles().insert(h, dir),
            !r ==> *final(self) == *old(self),
    {
        if self.handles.contains_key(&h) {
            false
        } else {
            self.handles.insert(h, dir);
            assert(self.graph == old(self).graph);
            assert(self.edges() == old(self).edges());
            assert(self.nodes() == old(self).nodes());
            true
        }
    }

    /// Lists the node that `handle` was opened on: one entry for each
    /// outgoing edge, named by the basename of the child's real path.
    pub fn view_dir(&self, handle: u64) -> (r: Result<Vec<DirectoryEntry>, FsError>)
        requires
            self.wf(),
        ensures
            !self.listable(handle) ==> (r matches Err(e) && e == FsError::NotFound),
            self.listable(handle) ==> (r matches Ok(v) && lists(self.nodes(), self.edges(), self.handles()[handle] as nat, v@)),
    {
        let dir = match self.handles.get(&handle) {
            Some(d) => *d,
            None => {
                return Err(FsError::NotFound);
            },
        };
        match graph_node_weight(&self.graph, dir) {
            Some(d) => {
                if d.kind != FileKind::Directory {
                    return Err(FsError::NotFound);
                }
            },
            None => {
                return Err(FsError::NotFound);
            },
        }
        let out = graph_out_edges(&self.graph, dir);
        let mut v: Vec<DirectoryEntry> = Vec::new();
        let mut seen: Vec<usize> = Vec::new();
        let mut i: usize = 0;
        while i < out.len()
            invariant
                self.wf(),
                self.handles().contains_key(handle),
                self.handles()[handle] == dir,
                self.nodes().contains_key(dir as nat),
                self.nodes()[dir as nat].kind == FileKind::Directory,
                0 <= i <= out.len(),
                v@.len() == seen@.len(),
                forall|j: int| 0 <= j < out@.len() ==> self.edges().contains((dir as nat, (#[trigger] out@[j]).0@, out@[j].1 as nat)),
                forall|j: int, k: int| 0 <= j < k < seen@.len() ==> seen@[j] != seen@[k],
                forall|j: int| #![trigger seen@[j]] 0 <= j < seen@.len() ==> is_child(self.edges(), dir as nat, seen@[j] as nat)
                    && shows(self.nodes(), seen@[j] as nat, v@[j]),
                forall|j: int| 0 <= j < i ==> seen@.contains((#[trigger] out@[j]).1),
            decreases out.len() - i,
        {
            let c = out[i].1;
            proof {
                self.lemma_child(dir as nat, out@[i as int].0@, c as nat);
            }
            if !contains_id(&seen, c) {
                let d = match graph_node_weight(&self.graph, c) {
                    Some(d) => d,
                    None => {
                        return Err(FsError::NotFound);
                    },
                };
                let comps = components_of(&d.path);
                assert(self.parent@.contains_key(c as nat));
                let name = comps[comps.len() - 1].clone();
                let ghost v0 = v@;
                let ghost s0 = seen@;
                v.push(DirectoryEntry { name, kind: d.kind });
                seen.push(c);
                proof {
                    assert(is_child(self.edges(), dir as nat, c as nat));
                    assert forall|j: int| #![trigger seen@[j]] 0 <= j < seen@.len() implies is_child(self.edges(), dir as nat, seen@[j] as nat)
                        && shows(self.nodes(), seen@[j] as nat, v@[j]) by {
                        if j < s0.len() {
                            assert(v@[j] == v0[j] && seen@[j] == s0[j]);
                        }
                    }
                    assert forall|j: int| 0 <= j < i + 1 implies seen@.contains((#[trigger] out@[j]).1) by {
                        if j < i {
                            let q = choose|q: int| 0 <= q < s0.len() && s0[q] == out@[j].1;
                            assert(seen@[q] == s0[q]);
                        } else {
                            assert(seen@[s0.len() as int] == c);
                        }
                    }
                }
            }
            i += 1;
        }
        proof {
            let a = dir as nat;
            let cs = seen@.map_values(|u: usize| u as nat);
            assert forall|j: int, k: int| 0 <= j < cs.len() && 0 <= k < cs.len() && j != k implies cs[j] != cs[k] by {
                if j < k {
                    assert(seen@[j] != seen@[k]);
                } else {
                    assert(seen@[k] != seen@[j]);
                }
            }
            assert forall|i: int| #![trigger cs[i]] 0 <= i < v@.len() implies is_child(self.edges(), a, cs[i]) && shows(self.nodes(), cs[i], v@[i]) by {
                assert(cs[i] == seen@[i] as nat);
            }
            assert forall|c: nat| #[trigger] is_child(self.edges(), a, c) implies cs.contains(c) by {
                let s = choose|s: Seq<u8>| #[trigger] self.edges().contains((a, s, c));
                let j = choose|j: int| 0 <= j < out@.len() && (#[trigger] out@[j]).0@ == s && out@[j].1 as nat == c;
                assert(seen@.contains(out@[j].1));
                let q = choose|q: int| 0 <= q < seen@.len() && seen@[q] == out@[j].1;
                assert(cs[q] == c);
            }
            assert(lists_by(self.nodes(), self.edges(), a, v@, cs));
        }
        Ok(v)
    }

    /// Discards a handle; a handle that is not open is ignored.
    pub fn close_dir(&mut self, handle: u64)
        requires
            old(self).wf(),
        ensures
            final(self).wf(),
            final(self).nodes() == old(self).nodes(),
            final(self).edges() == old(self).edges(),
            final(self).root() == old(self).root(),
            final(self).handles() == old(self).handles().remove(handle),
    {
        self.handles.remove(&handle);
        assert(self.graph == old(self).graph);
        assert(self.edges() == old(self).edges());
        assert(self.nodes() == old(self).nodes());
    }

    /// Whether `handle` is an open directory handle of this tree.
    pub fn is_dir_open(&self, handle: u64) -> (r: bool)
        ensures
            r == self.handles().contains_key(handle),
    {
        self.handles.contains_key(&handle)
    }

    proof fn lemma_above_root(&self, n: nat)
        requires
            self.wf(),
            self.nodes().contains_key(n),
        ensures
            above(self.parent@, self.depth@, self.root as nat, n),
        decreases self.depth@[n],
    {
        if n != self.root as nat {
            self.lemma_above_root(self.parent@[n]);
        }
    }

    /// Lookup ignores case: every path that differs from `p` only in the
    /// case of its ASCII letters resolves to the same node, or like `p` to
    /// none.
    pub proof fn lemma_case_insensitive_lookup(&self, p: Seq<u8>, q: Seq<u8>)
        requires
            same_but_case(p, q),
        ensures
            self.find(p) == self.find(q),
    {
        lemma_fold_ignores_case(p, q);
    }

    /// Orphan freedom: in a well-formed tree every node lies below the root.
    pub proof fn lemma_orphan_freedom(&self, n: nat)
        requires
            self.wf(),
            self.nodes().contains_key(n),
        ensures
            below(self.edges(), self.root(), n),
    {
        self.lemma_above_root(n);
        self.lemma_below_above(self.root as nat, n);
    }

    /// Root safety: the root is present, flagged as the root, has no parent
    /// and lies below no other node, so removing or moving any other node
    /// keeps it; a path that resolves to the root is never removed.
    pub proof fn lemma_root_safety(&self, x: nat)
        requires
            self.wf(),
        ensures
            self.nodes().contains_key(self.root()),
            self.nodes()[self.root()].is_root,
            forall|a: nat, s: Seq<u8>| !self.edges().contains((a, s, self.root())),
            below(self.edges(), x, self.root()) ==> x == self.root(),
    {
        if below(self.edges(), x, self.root()) {
            let k = choose|k: nat| reaches(self.edges(), x, self.root(), k);
            self.lemma_reaches_above(x, self.root(), k);
        }
        assert forall|a: nat, s: Seq<u8>| !self.edges().contains((a, s, self.root())) by {
            if self.edges().contains((a, s, self.root())) {
                assert(self.parent@.contains_key(self.root as nat));
            }
        }
    }

    /// Shadowing: where two payloads are installed one after the other
    /// under the same parent and the same folded label, the second replaces
    /// the first in place, and the label leads to the later one.
    pub proof fn lemma_shadowing(
        t0: VirtualFileTree,
        t1: VirtualFileTree,
        t2: VirtualFileTree,
        a: nat,
        s: Seq<u8>,
        path1: Seq<u8>,
        kind1: FileKind,
        i: nat,
        path2: Seq<u8>,
        kind2: FileKind,
        j: nat,
    )
        requires
            t1.wf(),
            installs(t0, t1, a, s, path1, kind1, i),
            installs(t1, t2, a, s, path2, kind2, j),
        ensures
            j == i,
            t2.nodes()[j].path@ == path2,
            t2.nodes()[j].kind == kind2,
            child(t2.edges(), a, s) == Some(j),
    {
        match child(t0.edges(), a, s) {
            Some(c) => {
                let b = choose|b: nat| t0.edges().contains((a, s, b));
                assert(t1.edges().contains((a, s, i)));
            },
            None => {
                assert(t1.edges().contains((a, s, i)));
            },
        }
        t1.lemma_child(a, s, i);
    }

    /// A closed handle cannot be listed any more: once `close_dir(h)` has
    /// run, `view_dir(h)` fails with `NotFound`.
    pub proof fn lemma_closed_handle_unlistable(before: VirtualFileTree, after: VirtualFileTree, h: u64)
        requires
            after.handles() == before.handles().remove(h),
        ensures
            !after.listable(h),
    {
    }

    /// A tree without edges, as `new` builds, resolves the paths without
    /// components to the root and no other path.
    pub proof fn lemma_fresh_tree_lookup(&self, p: Seq<u8>)
        requires
            forall|e: (nat, Seq<u8>, nat)| !self.edges().contains(e),
        ensures
            fold_path(p).len() == 0 ==> self.find(p) == Some(self.root()),
            fold_path(p).len() > 0 ==> self.find(p) is None,
    {
        let q = fold_path(p);
        if q.len() > 0 {
            assert(!exists|b: nat| self.edges().contains((self.root(), q[0], b)));
        }
    }

    /// What well-formedness gives of an edge: a parent has one child under a
    /// label, both ends are live, the child is not the root, its real path
    /// has a basename, and the edge is what `child` follows.
    pub proof fn lemma_edge(&self, a: nat, s: Seq<u8>, b: nat, c: nat)
        requires
            self.wf(),
            self.edges().contains((a, s, b)),
        ensures
            child(self.edges(), a, s) == Some(b),
            self.nodes().contains_key(a),
            self.nodes().contains_key(b),
            b != self.root(),
            components(self.nodes()[b].path@).len() > 0,
            self.edges().contains((a, s, c)) ==> c == b,
    {
        self.lemma_child(a, s, b);
        if self.edges().contains((a, s, c)) {
            assert(self.parent@.contains_key(c));
        }
    }

    /// Maps a walk of a real directory under the node `attach`, or under
    /// the root: each entry is installed with `update_child` under the node
    /// of its parent entry, in the order of the walk, so that a later entry
    /// with the same folded name replaces an earlier one. Hands back the
    /// node of each entry. A walk that cannot be mapped is refused whole:
    /// `NotFound` for an attachment node that is not live, `InvalidInput`
    /// for an entry whose parent does not come before it or is not a
    /// directory, or whose path has no basename.
    #[verifier::rlimit(100)]
    pub fn map_directory(&mut self, attach: Option<usize>, entries: &Vec<MappedEntry>) -> (r: Result<Vec<usize>, FsError>)
        requires
            old(self).wf(),
        ensures
            final(self).wf(),
            final(self).root() == old(self).root(),
            final(self).handles() == old(self).handles(),
            ({
                let a = match attach { Some(x) => x as nat, None => old(self).root() };
                &&& !old(self).nodes().contains_key(a) ==> r == Err::<Vec<usize>, FsError>(FsError::NotFound) && *final(self) == *old(self)
                &&& old(self).nodes().contains_key(a) && !walk_ok(old(self).nodes(), a, entries@)
                    ==> r == Err::<Vec<usize>, FsError>(FsError::InvalidInput) && *final(self) == *old(self)
                &&& walk_ok(old(self).nodes(), a, entries@) ==> (r matches Ok(ids)
                    && maps_walk(old(self).nodes(), old(self).edges(), final(self).nodes(), final(self).edges(), a, entries@, ids@))
            }),
    {
        let a = match attach {
            Some(x) => x,
            None => self.root,
        };
        if graph_node_weight(&self.graph, a).is_none() {
            proof {
                reveal(walk_ok);
            }
            return Err(FsError::NotFound);
        }
        let mut i: usize = 0;
        while i < entries.len()
            invariant
                0 <= i <= entries@.len(),
                *self == *old(self),
                old(self).wf(),
                self.nodes().contains_key(a as nat),
                a as nat == (match attach { Some(x) => x as nat, None => old(self).root() }),
                forall|k: int| 0 <= k < i ==> components((#[trigger] entries@[k]).path@).len() > 0,
                forall|k: int| 0 <= k < i ==> #[trigger] parent_ok(entries@, k),
            decreases entries.len() - i,
        {
            let comps = components_of(&entries[i].path);
            if comps.len() == 0 {
                proof {
                    reveal(walk_ok);
                }
                return Err(FsError::InvalidInput);
            }
            match entries[i].parent {
                Some(j) => {
                    if j >= i || entries[j].kind != FileKind::Directory {
                        proof {
                            reveal(walk_ok);
                            assert(!parent_ok(entries@, i as int));
                        }
                        return Err(FsError::InvalidInput);
                    }
                },
                None => {},
            }
            i += 1;
        }
        assert(walk_ok(self.nodes(), a as nat, entries@)) by {
            reveal(walk_ok);
        }
        let ghost n0 = self.nodes();
        let ghost e0 = self.edges();
        let ghost t0 = *self;
        let mut ids: Vec<usize> = Vec::new();
        let mut i: usize = 0;
        assert(maps_walk(n0, e0, self.nodes(), self.edges(), a as nat, entries@.take(0), ids@)) by {
            reveal(maps_walk);
        }
        while i < entries.len()
            invariant
                0 <= i <= entries@.len(),
                self.wf(),
                self.root == t0.root,
                self.handles() == t0.handles(),
                walk_ok(n0, a as nat, entries@),
                n0.contains_key(a as nat),
                self.nodes().contains_key(a as nat),
                forall|k: int| 0 <= k < ids@.len() ==> self.nodes().contains_key(#[trigger] ids@[k] as nat),
                maps_walk(n0, e0, self.nodes(), self.edges(), a as nat, entries@.take(i as int), ids@),
            decreases entries.len() - i,
        {
            self.map_step(a, entries, i, &mut ids, Ghost(n0), Ghost(e0));
            i += 1;
        }
        assert(entries@.take(entries@.len() as int) =~= entries@);
        Ok(ids)
    }

    /// Installs entry `i` of a walk, as `map_directory` does.
    #[verifier::rlimit(100)]
    fn map_step(&mut self, a: usize, entries: &Vec<MappedEntry>, i: usize, ids: &mut Vec<usize>, n0: Ghost<Map<nat, VirtualFileData>>, e0: Ghost<Set<(nat, Seq<u8>, nat)>>)
        requires
            old(self).wf(),
            i < entries@.len(),
            old(ids)@.len() == i,
            walk_ok(n0@, a as nat, entries@),
            old(self).nodes().contains_key(a as nat),
            forall|k: int| 0 <= k < old(ids)@.len() ==> old(self).nodes().contains_key(#[trigger] old(ids)@[k] as nat),
            maps_walk(n0@, e0@, old(self).nodes(), old(self).edges(), a as nat, entries@.take(i as int), old(ids)@),
        ensures
            final(self).wf(),
            final(self).root() == old(self).root(),
            final(self).handles() == old(self).handles(),
            final(self).nodes().contains_key(a as nat),
            final(ids)@.len() == i + 1,
            forall|k: int| 0 <= k < final(ids)@.len() ==> final(self).nodes().contains_key(#[trigger] final(ids)@[k] as nat),
            maps_walk(n0@, e0@, final(self).nodes(), final(self).edges(), a as nat, entries@.take(i + 1), final(ids)@),
    {
        reveal(walk_ok);
        let e = &entries[i];
        assert(entries@[i as int] == *e);
        let p = match e.parent {
            Some(j) => {
                assert(parent_ok(entries@, i as int));
                assert(j < i);
                assert(old(self).nodes().contains_key(ids@[j as int] as nat));
                ids[j]
            },
            None => a,
        };
        let ghost before = *self;
        let ghost ids0 = ids@;
        let comps = components_of(&e.path);
        let label = fold_component(&comps[comps.len() - 1]);
        assert(components(entries@[i as int].path@).len() > 0);
        let id = self.install_child(p, label, VirtualFileData { path: crate::transform::copy_bytes(&e.path), kind: e.kind, is_root: false });
        ids.push(id);
        proof {
            assert(entries@.take(i + 1).take(i as int) =~= entries@.take(i as int));
            assert(entries@.take(i + 1)[i as int] == entries@[i as int]);
            assert forall|k: int| 0 <= k < entries@.take(i + 1).len() && (#[trigger] entries@.take(i + 1)[k]).parent is Some
                implies entries@.take(i + 1)[k].parent->0 < k by {
                assert(entries@.take(i + 1)[k] == entries@[k]);
                assert(parent_ok(entries@, k));
            }
            lemma_maps_walk_step(n0@, e0@, before.nodes(), before.edges(), self.nodes(), self.edges(), a as nat,
                entries@.take(i + 1), i as int, ids0, id, p as nat);
            assert forall|k: int| 0 <= k < ids@.len() implies self.nodes().contains_key(#[trigger] ids@[k] as nat) by {
                if k < i {
                    assert(ids@[k] == ids0[k]);
                }
            }
        }
    }
}

} // verus!
