//! The directed graph of `petgraph` that neighbourhoods are walked on: its indices carry node
//! ids, its edges carry nothing.

use vstd::multiset::Multiset;
use vstd::prelude::*;

use petgraph::stable_graph::NodeIndex;
use petgraph::stable_graph::StableGraph;
use petgraph::Directed;
use petgraph::Direction;

verus! {

/// The graph type of `petgraph`.
#[verifier::external_type_specification]
#[verifier::external_body]
#[verifier::reject_recursive_types(N)]
#[verifier::reject_recursive_types(E)]
#[verifier::reject_recursive_types(Ty)]
#[verifier::reject_recursive_types(Ix)]
pub struct ExStableGraph<N, E, Ty, Ix>(StableGraph<N, E, Ty, Ix>);

/// The marker of a directed graph of `petgraph`.
#[verifier::external_type_specification]
#[verifier::external_body]
pub struct ExDirected(Directed);

/// The nodes of a graph: which index carries which id.
pub uninterp spec fn graph_nodes(g: StableGraph<u128, (), Directed, u32>) -> Map<usize, u128>;

/// The edges of a graph, as pairs of indices; parallel edges count.
pub uninterp spec fn graph_edges(g: StableGraph<u128, (), Directed, u32>) -> Multiset<
    (usize, usize),
>;

/// `StableGraph::default`: a graph without nodes or edges.
#[verifier::external_body]
pub(crate) fn graph_new() -> (r: StableGraph<u128, (), Directed, u32>)
    ensures
        graph_nodes(r).dom() == Set::<usize>::empty(),
        graph_edges(r).len() == 0,
{
    StableGraph::default()
}

/// `StableGraph::add_node`: the id is put at an index that was free; nothing else changes. It
/// panics only where `u32::MAX` nodes are there already.
#[verifier::external_body]
pub(crate) fn graph_add_node(g: &mut StableGraph<u128, (), Directed, u32>, id: u128) -> (r: usize)
    requires
        graph_nodes(*old(g)).dom().finite(),
        graph_nodes(*old(g)).len() < u32::MAX,
    ensures
        !graph_nodes(*old(g)).contains_key(r),
        graph_nodes(*final(g)) == graph_nodes(*old(g)).insert(r, id),
        graph_edges(*final(g)) == graph_edges(*old(g)),
{
    g.add_node(id).index()
}

/// `StableGraph::add_edge`: one more edge between two indices; the nodes stay. It panics where
/// an index carries no node, or where `u32::MAX` edges are there already.
#[verifier::external_body]
pub(crate) fn graph_add_edge(
    g: &mut StableGraph<u128, (), Directed, u32>,
    from: usize,
    to: usize,
)
    requires
        graph_nodes(*old(g)).contains_key(from),
        graph_nodes(*old(g)).contains_key(to),
        graph_edges(*old(g)).len() < u32::MAX,
    ensures
        graph_nodes(*final(g)) == graph_nodes(*old(g)),
        graph_edges(*final(g)) == graph_edges(*old(g)).insert((from, to)),
{
    g.add_edge(NodeIndex::new(from), NodeIndex::new(to), ());
}

/// `StableGraph::neighbors_directed` towards `Direction::Outgoing`: the heads of the edges that
/// leave an index, once for each edge. The order is not stated.
#[verifier::external_body]
pub(crate) fn graph_successors(g: &StableGraph<u128, (), Directed, u32>, at: usize) -> (r: Vec<usize>)
    requires
        graph_nodes(*g).contains_key(at),
    ensures
        forall|b: usize| #[trigger] r@.to_multiset().count(b) == graph_edges(*g).count((at, b)),
{
    g.neighbors_directed(NodeIndex::new(at), Direction::Outgoing).map(|n| n.index()).collect()
}

/// `StableGraph::neighbors_directed` towards `Direction::Incoming`: the tails of the edges that
/// enter an index, once for each edge. The order is not stated.
#[verifier::external_body]
pub(crate) fn graph_predecessors(g: &StableGraph<u128, (), Directed, u32>, at: usize) -> (r: Vec<usize>)
    requires
        graph_nodes(*g).contains_key(at),
    ensures
        forall|a: usize| #[trigger] r@.to_multiset().count(a) == graph_edges(*g).count((a, at)),
{
    g.neighbors_directed(NodeIndex::new(at), Direction::Incoming).map(|n| n.index()).collect()
}

/// `StableGraph::node_weight`: the id that an index carries.
#[verifier::external_body]
pub(crate) fn graph_node_weight(g: &StableGraph<u128, (), Directed, u32>, at: usize) -> (r: Option<u128>)
    requires
        graph_nodes(*g).contains_key(at),
    ensures
        r == Some(graph_nodes(*g)[at]),
{
    g.node_weight(NodeIndex::new(at)).copied()
}

} // verus!
