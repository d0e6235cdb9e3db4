//! The log of visible-namespace edits: deletions and relocations that are
//! replayed on a freshly built tree.
use vstd::prelude::*;

use crate::node::FsError;
use crate::path::fold_path;
use crate::tree::{installs_in, pruned_edges, pruned_nodes, walk, VirtualFileTree};

verus! {

/// A replayable edit of a tree. Neither kind touches a real file.
pub enum VirtualFileTransformation {
    /// Hides the node at `target`, and everything below it.
    Deletion { target: Vec<u8> },
    /// Moves the node at `from` to `to`.
    Relocation { from: Vec<u8>, to: Vec<u8> },
}

/// What a transformation is, with its paths as byte sequences.
pub enum TransformView {
    Deletion { target: Seq<u8> },
    Relocation { from: Seq<u8>, to: Seq<u8> },
}

impl View for VirtualFileTransformation {
    type V = TransformView;

    open spec fn view(&self) -> TransformView {
        match self {
            VirtualFileTransformation::Deletion { target } => TransformView::Deletion { target: target@ },
            VirtualFileTransformation::Relocation { from, to } => TransformView::Relocation { from: from@, to: to@ },
        }
    }
}

/// The views of a list of transformations.
pub open spec fn views_of(v: Seq<VirtualFileTransformation>) -> Seq<TransformView> {
    v.map_values(|t: VirtualFileTransformation| t@)
}

/// A transformation can be applied to `t`: the target of a deletion
/// resolves; the source of a relocation resolves and its destination does
/// not.
pub open spec fn valid_on(x: TransformView, t: VirtualFileTree) -> bool {
    match x {
        TransformView::Deletion { target } => t.find(target) is Some,
        TransformView::Relocation { from, to } => t.find(from) is Some && t.find(to) is None,
    }
}

/// The transformations of `ts` that can be applied to `t`, in order.
pub open spec fn valid_subset(ts: Seq<TransformView>, t: VirtualFileTree) -> Seq<TransformView> {
    ts.filter(|x: TransformView| valid_on(x, t))
}

/// `new` and `r` are what applying `x` to `old` gives: a deletion removes
/// its target and everything below it, a relocation moves its source as
/// `move_file` does; a failure leaves the tree as `remove_file` or
/// `move_file` leaves it.
pub open spec fn applies(old: VirtualFileTree, new: VirtualFileTree, x: TransformView, r: Result<(), FsError>) -> bool {
    &&& new.wf()
    &&& new.root() == old.root()
    &&& new.handles() == old.handles()
    &&& match x {
        TransformView::Deletion { target } => match old.find(target) {
            None => r == Err::<(), FsError>(FsError::NotFound) && new == old,
            Some(n) => if n == old.root() {
                r == Err::<(), FsError>(FsError::InvalidInput) && new == old
            } else {
                r is Ok && new.nodes() == pruned_nodes(old.nodes(), old.edges(), n)
                    && new.edges() == pruned_edges(old.edges(), n)
            },
        },
        TransformView::Relocation { from, to } => match old.find(from) {
            None => r == Err::<(), FsError>(FsError::NotFound) && new == old,
            Some(n) => if n == old.root() {
                r == Err::<(), FsError>(FsError::InvalidInput) && new == old
            } else {
                let n1 = pruned_nodes(old.nodes(), old.edges(), n);
                let e1 = pruned_edges(old.edges(), n);
                let q = fold_path(to);
                if q.len() == 0 || walk(e1, old.root(), q.drop_last()) is None {
                    r == Err::<(), FsError>(FsError::NotFound) && new.nodes() == n1 && new.edges() == e1
                } else {
                    r is Ok && exists|i: nat| installs_in(n1, e1, new.nodes(), new.edges(),
                        walk(e1, old.root(), q.drop_last())->0, q.last(), old.nodes()[n].path@, old.nodes()[n].kind, i)
                }
            },
        },
    }
}

/// Applying every entry of `xs` to `t0`, in order, succeeds and gives `t1`.
pub open spec fn applies_all(t0: VirtualFileTree, xs: Seq<TransformView>, t1: VirtualFileTree) -> bool
    decreases xs.len(),
{
    if xs.len() == 0 {
        t1 == t0
    } else {
        exists|mid: VirtualFileTree| applies_all(t0, xs.drop_last(), mid) && #[trigger] applies(mid, t1, xs.last(), Ok::<(), FsError>(()))
    }
}

pub fn copy_bytes(v: &Vec<u8>) -> (r: Vec<u8>)
    ensures
        r@ == v@,
{
    let mut r: Vec<u8> = Vec::new();
    let mut i: usize = 0;
    while i < v.len()
        invariant
            0 <= i <= v.len(),
            r@ == v@.take(i as int),
        decreases v.len() - i,
    {
        r.push(v[i]);
        i += 1;
        assert(r@ =~= v@.take(i as int));
    }
    assert(v@.take(v@.len() as int) =~= v@);
    r
}

impl VirtualFileTransformation {
    /// A copy of this transformation.
    pub fn duplicate(&self) -> (r: Self)
        ensures
            r@ == self@,
    {
        match self {
            VirtualFileTransformation::Deletion { target } => VirtualFileTransformation::Deletion { target: copy_bytes(target) },
            VirtualFileTransformation::Relocation { from, to } => VirtualFileTransformation::Relocation { from: copy_bytes(from), to: copy_bytes(to) },
        }
    }

    /// Applies this transformation to `tree`: a deletion removes its target,
    /// a relocation moves its source to its destination. A failure of the
    /// underlying operation is handed back.
    pub fn apply(&self, tree: &mut VirtualFileTree) -> (r: Result<(), FsError>)
        requires
            old(tree).wf(),
        ensures
            applies(*old(tree), *final(tree), self@, r),
    {
        match self {
            VirtualFileTransformation::Deletion { target } => match tree.remove_file(target) {
                Ok(_) => Ok(()),
                Err(e) => Err(e),
            },
            VirtualFileTransformation::Relocation { from, to } => tree.move_file(from, to),
        }
    }

    /// Whether this transformation can be applied to `tree`, judged on the
    /// tree as it stands.
    pub fn is_valid(&self, tree: &VirtualFileTree) -> (r: bool)
        requires
            tree.wf(),
        ensures
            r == valid_on(self@, *tree),
    {
        match self {
            VirtualFileTransformation::Deletion { target } => tree.contains(target),
            VirtualFileTransformation::Relocation { from, to } => tree.contains(from) && !tree.contains(to),
        }
    }
}

/// Replays a cached list on a freshly built tree: the entries that are not
/// valid on the tree as built are dropped, the others are applied in order.
/// Hands back the list that was applied, which is what the cache should
/// hold from now on; a failed application fails the whole replay.
pub fn replay(tree: &mut VirtualFileTree, cached: &Vec<VirtualFileTransformation>) -> (r: Result<Vec<VirtualFileTransformation>, FsError>)
    requires
        old(tree).wf(),
    ensures
        final(tree).wf(),
        final(tree).root() == old(tree).root(),
        r matches Ok(v) ==> views_of(v@) == valid_subset(views_of(cached@), *old(tree))
            && applies_all(*old(tree), valid_subset(views_of(cached@), *old(tree)), *final(tree)),
        r matches Err(e) ==> exists|k: int, mid: VirtualFileTree| 0 <= k < valid_subset(views_of(cached@), *old(tree)).len()
            && applies_all(*old(tree), valid_subset(views_of(cached@), *old(tree)).take(k), mid)
            && #[trigger] applies(mid, *final(tree), valid_subset(views_of(cached@), *old(tree))[k], Err::<(), FsError>(e)),
        (forall|i: int| 0 <= i < cached@.len() ==> !valid_on(#[trigger] cached@[i]@, *old(tree))) ==> (r matches Ok(v) && v@.len() == 0 && *final(tree) == *old(tree)),
{
    let ghost t0 = *tree;
    let mut kept: Vec<VirtualFileTransformation> = Vec::new();
    let mut i: usize = 0;
    while i < cached.len()
        invariant
            0 <= i <= cached.len(),
            tree.wf(),
            *tree == t0,
            t0 == *old(tree),
            views_of(kept@) == valid_subset(views_of(cached@.take(i as int)), t0),
            (forall|k: int| 0 <= k < i ==> !valid_on(#[trigger] cached@[k]@, t0)) ==> kept@.len() == 0,
        decreases cached.len() - i,
    {
        let t = &cached[i];
        let ghost k0 = kept@;
        proof {
            assert(views_of(cached@.take(i + 1)).drop_last() =~= views_of(cached@.take(i as int)));
            assert(views_of(cached@.take(i + 1)).last() == cached@[i as int]@);
            reveal(Seq::filter);
        }
        if t.is_valid(tree) {
            kept.push(t.duplicate());
            assert(views_of(kept@) =~= views_of(k0).push(cached@[i as int]@));
        }
        i += 1;
    }
    assert(cached@.take(cached@.len() as int) =~= cached@);
    let mut j: usize = 0;
    let ghost vs = valid_subset(views_of(cached@), t0);
    assert(vs.take(0) =~= Seq::<TransformView>::empty());
    while j < kept.len()
        invariant
            0 <= j <= kept.len(),
            tree.wf(),
            tree.root() == t0.root(),
            t0 == *old(tree),
            vs == valid_subset(views_of(cached@), t0),
            j == 0 ==> *tree == t0,
            views_of(kept@) == vs,
            applies_all(t0, vs.take(j as int), *tree),
            (forall|k: int| 0 <= k < cached@.len() ==> !valid_on(#[trigger] cached@[k]@, t0)) ==> kept@.len() == 0,
        decreases kept.len() - j,
    {
        let ghost before = *tree;
        assert(vs[j as int] == kept@[j as int]@);
        match kept[j].apply(tree) {
            Ok(()) => {
                proof {
                    assert(vs.take(j + 1).drop_last() =~= vs.take(j as int));
                    assert(vs.take(j + 1).last() == vs[j as int]);
                    assert(applies(before, *tree, vs.take(j + 1).last(), Ok::<(), FsError>(())));
                }
            },
            Err(e) => {
                assert(applies(before, *tree, vs[j as int], Err::<(), FsError>(e)));
                return Err(e);
            },
        }
        j += 1;
    }
    assert(vs.take(kept@.len() as int) =~= vs);
    Ok(kept)
}

/// Applies `t` to `tree` and, where that succeeds, appends it to `log`.
pub fn record(tree: &mut VirtualFileTree, log: &mut Vec<VirtualFileTransformation>, t: VirtualFileTransformation) -> (r: Result<(), FsError>)
    requires
        old(tree).wf(),
    ensures
        final(tree).wf(),
        final(tree).root() == old(tree).root(),
        applies(*old(tree), *final(tree), t@, r),
        r is Ok ==> views_of(final(log)@) == views_of(old(log)@).push(t@),
        r is Err ==> final(log)@ == old(log)@,
{
    match t.apply(tree) {
        Ok(()) => {
            let ghost l0 = log@;
            log.push(t);
            assert(views_of(log@) =~= views_of(l0).push(log@[log@.len() - 1]@));
            Ok(())
        },
        Err(e) => Err(e),
    }
}

} // verus!
