//! The graph that holds the virtual file tree: petgraph's `StableGraph`,
//! seen through the set of its node weights and the set of its edges.
use petgraph::stable_graph::{NodeIndex, StableGraph};
use petgraph::visit::EdgeRef;
use petgraph::Directed;
use vstd::prelude::*;

use crate::node::VirtualFileData;

verus! {

#[verifier::external_type_specification]
#[verifier::external_body]
#[verifier::reject_recursive_types(N)]
#[verifier::reject_recursive_types(E)]
#[verifier::reject_recursive_types(Ty)]
#[verifier::reject_recursive_types(Ix)]
pub struct ExStableGraph<N, E, Ty, Ix>(StableGraph<N, E, Ty, Ix>);

#[verifier::external_type_specification]
#[verifier::external_body]
pub struct ExDirected(Directed);

/// The live nodes of the graph, by index, with their weights.
pub uninterp spec fn graph_nodes(g: StableGraph<VirtualFileData, Vec<u8>, Directed, usize>) -> Map<nat, VirtualFileData>;

/// The edges of the graph: source, weight, target.
pub uninterp spec fn graph_edges(g: StableGraph<VirtualFileData, Vec<u8>, Directed, usize>) -> Set<(nat, Seq<u8>, nat)>;

/// Relies on StableGraph::with_capacity: a new graph has no node and no edge.
#[verifier::external_body]
pub(crate) fn graph_new() -> (r: StableGraph<VirtualFileData, Vec<u8>, Directed, usize>)
    ensures
        graph_nodes(r).dom() == Set::<nat>::empty(),
        forall|e: (nat, Seq<u8>, nat)| !graph_edges(r).contains(e),
{
    StableGraph::with_capacity(0, 0)
}

/// Relies on StableGraph::add_node: the weight is stored under an index that
/// was not live, and the edges stay. With `usize` indices it never runs out.
#[verifier::external_body]
pub(crate) fn graph_add_node(g: &mut StableGraph<VirtualFileData, Vec<u8>, Directed, usize>, w: VirtualFileData) -> (r: usize)
    ensures
        !graph_nodes(*old(g)).contains_key(r as nat),
        graph_nodes(*final(g)) == graph_nodes(*old(g)).insert(r as nat, w),
        graph_edges(*final(g)) == graph_edges(*old(g)),
{
    g.add_node(w).index()
}

/// Relies on StableGraph::add_edge: adds the edge `a -[w]-> b`; it panics
/// where either end is not a live node.
#[verifier::external_body]
pub(crate) fn graph_add_edge(g: &mut StableGraph<VirtualFileData, Vec<u8>, Directed, usize>, a: usize, b: usize, w: Vec<u8>)
    requires
        graph_nodes(*old(g)).contains_key(a as nat),
        graph_nodes(*old(g)).contains_key(b as nat),
    ensures
        graph_nodes(*final(g)) == graph_nodes(*old(g)),
        graph_edges(*final(g)) == graph_edges(*old(g)).insert((a as nat, w@, b as nat)),
{
    g.add_edge(NodeIndex::new(a), NodeIndex::new(b), w);
}

/// Relies on StableGraph::remove_node: removes the node and every edge from
/// or to it, and hands back its weight; `None` where it is not live.
#[verifier::external_body]
pub(crate) fn graph_remove_node(g: &mut StableGraph<VirtualFileData, Vec<u8>, Directed, usize>, a: usize) -> (r: Option<VirtualFileData>)
    ensures
        graph_nodes(*old(g)).contains_key(a as nat) ==> r == Some(graph_nodes(*old(g))[a as nat]),
        !graph_nodes(*old(g)).contains_key(a as nat) ==> r is None,
        graph_nodes(*final(g)) == graph_nodes(*old(g)).remove(a as nat),
        graph_edges(*final(g)) == graph_edges(*old(g)).filter(|e: (nat, Seq<u8>, nat)| e.0 != a as nat && e.2 != a as nat),
{
    g.remove_node(NodeIndex::new(a))
}

/// Relies on StableGraph::node_weight: the weight of a live node, `None`
/// for any other index.
#[verifier::external_body]
pub(crate) fn graph_node_weight(g: &StableGraph<VirtualFileData, Vec<u8>, Directed, usize>, a: usize) -> (r: Option<&VirtualFileData>)
    ensures
        r is Some == graph_nodes(*g).contains_key(a as nat),
        r is Some ==> *r->0 == graph_nodes(*g)[a as nat],
{
    g.node_weight(NodeIndex::new(a))
}

/// Relies on StableGraph's `IndexMut` by node index: replaces the weight of
/// a live node (it panics on any other index); the edges stay.
#[verifier::external_body]
pub(crate) fn graph_set_weight(g: &mut StableGraph<VirtualFileData, Vec<u8>, Directed, usize>, a: usize, w: VirtualFileData)
    requires
        graph_nodes(*old(g)).contains_key(a as nat),
    ensures
        graph_nodes(*final(g)) == graph_nodes(*old(g)).insert(a as nat, w),
        graph_edges(*final(g)) == graph_edges(*old(g)),
{
    g[NodeIndex::new(a)] = w;
}

/// Relies on StableGraph::edges: on a directed graph it yields every
/// outgoing edge of `a`, and nothing for an index that is not live. Each
/// edge is handed out as its weight and its target.
#[verifier::external_body]
pub(crate) fn graph_out_edges(g: &StableGraph<VirtualFileData, Vec<u8>, Directed, usize>, a: usize) -> (r: Vec<(Vec<u8>, usize)>)
    ensures
        forall|i: int| 0 <= i < r@.len() ==> graph_edges(*g).contains((a as nat, (#[trigger] r@[i]).0@, r@[i].1 as nat)),
        forall|s: Seq<u8>, b: nat| #[trigger] graph_edges(*g).contains((a as nat, s, b)) ==>
            exists|i: int| 0 <= i < r@.len() && (#[trigger] r@[i]).0@ == s && r@[i].1 as nat == b,
{
    g.edges(NodeIndex::new(a)).map(|e| (e.weight().clone(), e.target().index())).collect()
}

} // verus!
