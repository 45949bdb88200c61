//! The petgraph `StableGraph` that stores the nodes and edges of a
//! `DependencyGraph`, and the trusted contracts of the few of its methods
//! that the graph calls.

use petgraph::stable_graph::{NodeIndex, StableGraph};
use petgraph::visit::IntoNodeReferences;
use vstd::prelude::*;

use super::dependency_graph::{DepEdge, DependencyInfo};

verus! {

#[verifier::external_type_specification]
#[verifier::external_body]
#[verifier::reject_recursive_types(N)]
#[verifier::reject_recursive_types(E)]
#[verifier::reject_recursive_types(Ty)]
#[verifier::reject_recursive_types(Ix)]
pub struct ExStableGraph<N, E, Ty, Ix>(StableGraph<N, E, Ty, Ix>);

#[verifier::external_type_specification]
#[verifier::external_body]
pub struct ExDirected(petgraph::Directed);

/// The stable graph that holds the dependencies and their edges.
pub type DepStableGraph = StableGraph<DependencyInfo, DepEdge>;

/// The nodes that a stable graph holds, by node index.
pub uninterp spec fn graph_nodes(g: DepStableGraph) -> Map<u32, DependencyInfo>;

/// The edges that a stable graph holds, in the order in which they were
/// added: (edge index, source node index, target node index, weight).
pub uninterp spec fn graph_edges(g: DepStableGraph) -> Seq<(u32, u32, u32, DepEdge)>;

/// Whether a stable graph has no vacant node or edge slot: no node and no
/// edge was ever removed from it. New nodes and edges then take the next
/// index.
pub uninterp spec fn graph_compact(g: DepStableGraph) -> bool;

/// `entries` lists the nodes of `nodes`, each once, by increasing index.
pub open spec fn node_entries_match(nodes: Map<u32, DependencyInfo>, entries: Seq<(u32, &DependencyInfo)>) -> bool {
    &&& forall|i: int|
        #![trigger entries[i]]
        0 <= i < entries.len() ==> nodes.contains_key(entries[i].0) && nodes[entries[i].0]
            == *entries[i].1
    &&& forall|i: int, j: int|
        #![trigger entries[i], entries[j]]
        0 <= i < j < entries.len() ==> entries[i].0 < entries[j].0
    &&& forall|k: u32|
        nodes.contains_key(k) ==> exists|i: int|
            0 <= i < entries.len() && #[trigger] entries[i].0 == k
}

/// `StableGraph::new`: a graph without nodes or edges.
#[verifier::external_body]
pub(crate) fn stable_new() -> (graph: DepStableGraph)
    ensures
        graph_nodes(graph).dom() == Set::<u32>::empty(),
        graph_edges(graph).len() == 0,
        graph_compact(graph),
{
    StableGraph::new()
}

/// `StableGraph::add_node`: the weight is stored under an index that was
/// free, the next one when no slot is vacant; the edges do not change. It
/// panics when the node index space of `u32` is used up, which `requires`
/// rules out.
#[verifier::external_body]
pub(crate) fn stable_add_node(g: &mut DepStableGraph, weight: DependencyInfo) -> (ix: u32)
    requires
        graph_nodes(*old(g)).dom().finite(),
        graph_nodes(*old(g)).dom().len() < u32::MAX,
    ensures
        !graph_nodes(*old(g)).contains_key(ix),
        graph_nodes(*final(g)) == graph_nodes(*old(g)).insert(ix, weight),
        graph_edges(*final(g)) == graph_edges(*old(g)),
        graph_compact(*old(g)) ==> graph_compact(*final(g)) && ix == graph_nodes(*old(g)).dom().len(),
{
    g.add_node(weight).index() as u32
}

/// `StableGraph::node_weight`: the weight stored under the index, if any.
#[verifier::external_body]
pub(crate) fn stable_node_weight(g: &DepStableGraph, ix: u32) -> (w: Option<&DependencyInfo>)
    ensures
        match w {
            Some(d) => graph_nodes(*g).contains_key(ix) && *d == graph_nodes(*g)[ix],
            None => !graph_nodes(*g).contains_key(ix),
        },
{
    g.node_weight(NodeIndex::new(ix as usize))
}

/// `StableGraph::node_references`: every node with its index, by increasing
/// index.
#[verifier::external_body]
pub(crate) fn stable_node_entries(g: &DepStableGraph) -> (entries: Vec<(u32, &DependencyInfo)>)
    ensures
        node_entries_match(graph_nodes(*g), entries@),
{
    g.node_references().map(|(ix, w)| (ix.index() as u32, w)).collect()
}

/// The weights of the edges that leave `a`, the most recently added first.
pub open spec fn out_weights<E>(es: Seq<(u32, u32, u32, E)>, a: u32) -> Seq<E>
    decreases es.len(),
{
    if es.len() == 0 {
        Seq::empty()
    } else {
        let rest = out_weights(es.drop_last(), a);
        if es.last().1 == a {
            seq![es.last().3] + rest
        } else {
            rest
        }
    }
}

/// The weights of the edges that enter `a`, the most recently added first.
pub open spec fn in_weights<E>(es: Seq<(u32, u32, u32, E)>, a: u32) -> Seq<E>
    decreases es.len(),
{
    if es.len() == 0 {
        Seq::empty()
    } else {
        let rest = in_weights(es.drop_last(), a);
        if es.last().2 == a {
            seq![es.last().3] + rest
        } else {
            rest
        }
    }
}

/// `StableGraph::try_add_edge` between two nodes of the graph: the edge is
/// added under an index that no edge has, the next one when no slot is
/// vacant, or, when the edge index space of `u32` is used up (with no vacant
/// slot: when the edges number `u32::MAX`), nothing changes and the error
/// comes back as its `Debug` text.
#[verifier::external_body]
pub(crate) fn stable_try_add_edge(g: &mut DepStableGraph, a: u32, b: u32, weight: DepEdge) -> (r: Result<u32, String>)
    requires
        graph_nodes(*old(g)).contains_key(a),
        graph_nodes(*old(g)).contains_key(b),
    ensures
        graph_nodes(*final(g)) == graph_nodes(*old(g)),
        match r {
            Ok(e) => {
                &&& forall|k: int| 0 <= k < graph_edges(*old(g)).len() ==> #[trigger] graph_edges(*old(g))[k].0 != e
                &&& graph_edges(*final(g)) == graph_edges(*old(g)).push((e, a, b, weight))
            },
            Err(_) => graph_edges(*final(g)) == graph_edges(*old(g)),
        },
        graph_edges(*old(g)).len() < u32::MAX ==> r is Ok,
        graph_compact(*old(g)) && graph_edges(*old(g)).len() >= u32::MAX ==> r is Err,
        graph_compact(*old(g)) ==> graph_compact(*final(g)),
        graph_compact(*old(g)) ==> (r matches Ok(e) ==> e == graph_edges(*old(g)).len()),
{
    match g.try_add_edge(NodeIndex::new(a as usize), NodeIndex::new(b as usize), weight) {
        Ok(e) => Ok(e.index() as u32),
        Err(err) => Err(format!("{:?}", err)),
    }
}

/// `StableGraph::edges`: the weights of the edges that leave `a`, the most
/// recently added first.
#[verifier::external_body]
pub(crate) fn stable_outgoing(g: &DepStableGraph, a: u32) -> (r: Vec<&DepEdge>)
    requires
        graph_nodes(*g).contains_key(a),
    ensures
        r@.map_values(|e: &DepEdge| *e) == out_weights(graph_edges(*g), a),
{
    g.edges(NodeIndex::new(a as usize)).map(|e| e.weight()).collect()
}

/// `StableGraph::edges_directed` with `Incoming`: the weights of the edges
/// that enter `a`, the most recently added first.
#[verifier::external_body]
pub(crate) fn stable_incoming(g: &DepStableGraph, a: u32) -> (r: Vec<&DepEdge>)
    requires
        graph_nodes(*g).contains_key(a),
    ensures
        r@.map_values(|e: &DepEdge| *e) == in_weights(graph_edges(*g), a),
{
    g.edges_directed(NodeIndex::new(a as usize), petgraph::Direction::Incoming).map(|e| e.weight()).collect()
}

/// `StableGraph::into_nodes_edges_iters`: the nodes with their indices by
/// increasing index, and the edges (index, source, target, weight) by
/// increasing index, which is the order of their addition when no slot is
/// vacant.
#[verifier::external_body]
pub(crate) fn stable_into_parts(g: DepStableGraph) -> (parts: (Vec<(u32, DependencyInfo)>, Vec<(u32, u32, u32, DepEdge)>))
    ensures
        forall|i: int|
            #![trigger parts.0@[i]]
            0 <= i < parts.0@.len() ==> graph_nodes(g).contains_key(parts.0@[i].0) && graph_nodes(g)[parts.0@[i].0]
                == parts.0@[i].1,
        forall|i: int, j: int|
            #![trigger parts.0@[i], parts.0@[j]]
            0 <= i < j < parts.0@.len() ==> parts.0@[i].0 < parts.0@[j].0,
        forall|k: u32|
            graph_nodes(g).contains_key(k) ==> exists|i: int|
                0 <= i < parts.0@.len() && #[trigger] parts.0@[i].0 == k,
        parts.1@.to_multiset() == graph_edges(g).to_multiset(),
        forall|i: int, j: int|
            #![trigger parts.1@[i], parts.1@[j]]
            0 <= i < j < parts.1@.len() ==> parts.1@[i].0 < parts.1@[j].0,
        graph_compact(g) ==> parts.1@ == graph_edges(g),
{
    let (nodes, edges) = g.into_nodes_edges_iters();
    (
        nodes.map(|n| (n.index.index() as u32, n.weight)).collect(),
        edges.map(|e| (e.index.index() as u32, e.source.index() as u32, e.target.index() as u32, e.weight)).collect(),
    )
}

} // verus!
