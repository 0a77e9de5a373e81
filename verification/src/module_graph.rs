//! The backing directed graph, kept in petgraph's `Graph` behind a small
//! trusted surface.
//!
//! The graph's mathematical model is two sequences: `graph_nodes`, the node
//! weights in index order, and `graph_edges`, the directed edges as pairs of
//! node indices in insertion order. Every statement the engine proves about
//! the graph goes through these two names.

use vstd::prelude::*;

use crate::module::Direction;

verus! {

#[verifier::external_type_specification]
#[verifier::external_body]
#[verifier::reject_recursive_types(N)]
#[verifier::reject_recursive_types(E)]
#[verifier::reject_recursive_types(Ty)]
#[verifier::reject_recursive_types(Ix)]
pub struct ExGraph<N, E, Ty, Ix>(petgraph::graph::Graph<N, E, Ty, Ix>);

#[verifier::external_type_specification]
#[verifier::external_body]
pub struct ExDirected(petgraph::Directed);

/// The directed multigraph over module ids: one node per registered module,
/// node weights unused beyond carrying the module id.
pub type ModuleGraph = petgraph::graph::Graph<usize, (), petgraph::Directed, u32>;

/// The node weights of the graph, in node-index order.
pub uninterp spec fn graph_nodes(g: ModuleGraph) -> Seq<usize>;

/// The directed edges of the graph, as pairs of node indices, in insertion
/// order.
pub uninterp spec fn graph_edges(g: ModuleGraph) -> Seq<(usize, usize)>;

/// There is an edge between `u` and `v` in the walking direction `dir`:
/// from `u` to `v` when outgoing, from `v` to `u` when incoming.
pub open spec fn has_edge(edges: Seq<(usize, usize)>, dir: Direction, u: usize, v: usize) -> bool {
    match dir {
        Direction::Outgoing => exists|k: int| 0 <= k < edges.len() && edges[k] == (u, v),
        Direction::Incoming => exists|k: int| 0 <= k < edges.len() && edges[k] == (v, u),
    }
}

/// Relies on `Graph::with_capacity`: the graph starts with no nodes and no
/// edges.
#[verifier::external_body]
pub(crate) fn graph_with_capacity(nodes: usize, edges: usize) -> (g: ModuleGraph)
    ensures
        graph_nodes(g) == Seq::<usize>::empty(),
        graph_edges(g) == Seq::<(usize, usize)>::empty(),
{
    petgraph::graph::Graph::with_capacity(nodes, edges)
}

/// Relies on `Graph::add_node`: appends a node with the given weight and
/// returns its index, the old node count.
#[verifier::external_body]
pub(crate) fn graph_add_node(g: &mut ModuleGraph, w: usize) -> (r: usize)
    requires
        graph_nodes(*old(g)).len() < 0xFFFF_FFFF,
    ensures
        graph_nodes(*final(g)) == graph_nodes(*old(g)).push(w),
        graph_edges(*final(g)) == graph_edges(*old(g)),
        r == graph_nodes(*old(g)).len(),
{
    g.add_node(w).index()
}

/// Relies on `Graph::add_edge`: appends a directed edge between two existing
/// nodes; parallel edges are allowed.
#[verifier::external_body]
pub(crate) fn graph_add_edge(g: &mut ModuleGraph, a: usize, b: usize)
    requires
        a < graph_nodes(*old(g)).len(),
        b < graph_nodes(*old(g)).len(),
        graph_nodes(*old(g)).len() < 0xFFFF_FFFF,
        graph_edges(*old(g)).len() < 0xFFFF_FFFF,
    ensures
        graph_nodes(*final(g)) == graph_nodes(*old(g)),
        graph_edges(*final(g)) == graph_edges(*old(g)).push((a, b)),
{
    g.add_edge(petgraph::graph::NodeIndex::new(a), petgraph::graph::NodeIndex::new(b), ());
}

/// Relies on `Graph::node_count`: the number of nodes.
#[verifier::external_body]
pub(crate) fn graph_node_count(g: &ModuleGraph) -> (r: usize)
    ensures
        r == graph_nodes(*g).len(),
{
    g.node_count()
}

/// Relies on `Graph::neighbors_directed`: for a directed graph it yields the
/// target of every edge leaving `a` (outgoing), or the source of every edge
/// entering `a` (incoming), one entry per such edge.
#[verifier::external_body]
pub(crate) fn graph_neighbors(g: &ModuleGraph, a: usize, dir: Direction) -> (r: Vec<usize>)
    requires
        a < graph_nodes(*g).len(),
        graph_nodes(*g).len() < 0xFFFF_FFFF,
    ensures
        forall|v: usize| r@.contains(v) <==> has_edge(graph_edges(*g), dir, a, v),
{
    let d = match dir {
        Direction::Outgoing => petgraph::Direction::Outgoing,
        Direction::Incoming => petgraph::Direction::Incoming,
    };
    g.neighbors_directed(petgraph::graph::NodeIndex::new(a), d).map(|n| n.index()).collect()
}

} // verus!
