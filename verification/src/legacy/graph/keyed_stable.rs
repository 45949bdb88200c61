//! The petgraph `StableDiGraph` that holds the identifiers and the edges of
//! the keyed graph, and the trusted contracts of the methods it calls.

use petgraph::stable_graph::{NodeIndex, StableDiGraph};
use petgraph::Direction;
use vstd::prelude::*;

use super::dependency_graph::{DepEdge, DependencyId};

verus! {

/// The stable graph whose nodes are the identifiers of the dependencies.
pub type KeyedStableGraph = StableDiGraph<DependencyId, DepEdge>;

/// The identifiers that a keyed stable graph holds, by node index.
pub uninterp spec fn keyed_nodes(g: KeyedStableGraph) -> Map<u32, DependencyId>;

/// The edges that a keyed stable graph holds, in the order in which they
/// were added: (edge index, source node index, target node index, weight).
pub uninterp spec fn keyed_edges(g: KeyedStableGraph) -> Seq<(u32, u32, u32, DepEdge)>;

/// Whether a keyed stable graph has no vacant node or edge slot: nothing was
/// ever removed from it, so new nodes and edges take the next index.
pub uninterp spec fn keyed_compact(g: KeyedStableGraph) -> bool;

/// `StableGraph::new`: a graph without nodes or edges.
#[verifier::external_body]
pub(crate) fn keyed_new() -> (graph: KeyedStableGraph)
    ensures
        keyed_nodes(graph).dom() == Set::<u32>::empty(),
        keyed_edges(graph).len() == 0,
        keyed_compact(graph),
{
    StableDiGraph::new()
}

/// `StableGraph::add_node`: the weight is stored under an index that was
/// free, the next one when no slot is vacant; the edges do not change. It
/// panics when the node index space of `u32` is used up, which `requires`
/// rules out.
#[verifier::external_body]
pub(crate) fn keyed_add_node(g: &mut KeyedStableGraph, weight: DependencyId) -> (ix: u32)
    requires
        keyed_nodes(*old(g)).dom().finite(),
        keyed_nodes(*old(g)).dom().len() < u32::MAX,
    ensures
        !keyed_nodes(*old(g)).contains_key(ix),
        keyed_nodes(*final(g)) == keyed_nodes(*old(g)).insert(ix, weight),
        keyed_edges(*final(g)) == keyed_edges(*old(g)),
        keyed_compact(*old(g)) ==> keyed_compact(*final(g)) && ix == keyed_nodes(*old(g)).dom().len(),
{
    g.add_node(weight).index() as u32
}

/// `StableGraph::add_edge` between two nodes of the graph: the edge is added
/// under an index that no edge has, the next one when no slot is vacant. It
/// panics when the edge index space of `u32` is used up, which `requires`
/// rules out.
#[verifier::external_body]
pub(crate) fn keyed_add_edge(g: &mut KeyedStableGraph, a: u32, b: u32, weight: DepEdge) -> (e: u32)
    requires
        keyed_nodes(*old(g)).contains_key(a),
        keyed_nodes(*old(g)).contains_key(b),
        keyed_edges(*old(g)).len() < u32::MAX,
    ensures
        keyed_nodes(*final(g)) == keyed_nodes(*old(g)),
        forall|k: int| 0 <= k < keyed_edges(*old(g)).len() ==> #[trigger] keyed_edges(*old(g))[k].0 != e,
        keyed_edges(*final(g)) == keyed_edges(*old(g)).push((e, a, b, weight)),
        keyed_compact(*old(g)) ==> keyed_compact(*final(g)) && e == keyed_edges(*old(g)).len(),
{
    g.add_edge(NodeIndex::new(a as usize), NodeIndex::new(b as usize), weight).index() as u32
}

/// `StableGraph::edges_directed` with `Outgoing`: the weights of the edges
/// that leave `a`, the most recently added first.
#[verifier::external_body]
pub(crate) fn keyed_outgoing(g: &KeyedStableGraph, a: u32) -> (r: Vec<&DepEdge>)
    requires
        keyed_nodes(*g).contains_key(a),
    ensures
        r@.map_values(|e: &DepEdge| *e) == crate::graph::stable::out_weights(keyed_edges(*g), a),
{
    g.edges_directed(NodeIndex::new(a as usize), Direction::Outgoing).map(|e| e.weight()).collect()
}

/// `StableGraph::edges_directed` with `Incoming`: the weights of the edges
/// that enter `a`, the most recently added first.
#[verifier::external_body]
pub(crate) fn keyed_incoming(g: &KeyedStableGraph, a: u32) -> (r: Vec<&DepEdge>)
    requires
        keyed_nodes(*g).contains_key(a),
    ensures
        r@.map_values(|e: &DepEdge| *e) == crate::graph::stable::in_weights(keyed_edges(*g), a),
{
    g.edges_directed(NodeIndex::new(a as usize), Direction::Incoming).map(|e| e.weight()).collect()
}

} // verus!
