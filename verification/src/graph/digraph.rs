//! The directed graphs of `petgraph` that hold the dependencies and the
//! hierarchy of a compute graph, keyed by pairs of integers.
use std::collections::hash_map::RandomState;

use petgraph::algo::toposort;
use petgraph::graphmap::GraphMap;
use petgraph::{Directed, Direction};
use vstd::prelude::*;

verus! {

/// The key of a node in a graph: a kind (0 for containers, 1 for commands) and an index.
pub type NodeKey = (u8, usize);

/// A directed graph keyed by [`NodeKey`], with no edge weights.
pub type DiGraph = GraphMap<(u8, usize), (), Directed, RandomState>;

#[verifier::external_type_specification]
#[verifier::external_body]
#[verifier::reject_recursive_types(N)]
#[verifier::reject_recursive_types(E)]
#[verifier::reject_recursive_types(Ty)]
#[verifier::reject_recursive_types(S)]
pub struct ExGraphMap<N, E, Ty, S: std::hash::BuildHasher>(GraphMap<N, E, Ty, S>);

#[verifier::external_type_specification]
#[verifier::external_body]
pub struct ExDirected(Directed);

#[verifier::external_type_specification]
pub struct ExDirection(Direction);

/// The nodes of a graph.
pub uninterp spec fn graph_nodes(g: GraphMap<(u8, usize), (), Directed, RandomState>) -> Set<(u8, usize)>;

/// The edges of a graph, as pairs (source, target).
pub uninterp spec fn graph_edges(g: GraphMap<(u8, usize), (), Directed, RandomState>) -> Set<((u8, usize), (u8, usize))>;

/// `order` lists every node exactly once, and every edge goes forward in it.
pub open spec fn is_topological_order(
    order: Seq<NodeKey>,
    nodes: Set<NodeKey>,
    edges: Set<(NodeKey, NodeKey)>,
) -> bool {
    &&& order.no_duplicates()
    &&& forall|x: NodeKey| order.contains(x) <==> nodes.contains(x)
    &&& forall|i: int, j: int|
        0 <= i < order.len() && 0 <= j < order.len() && #[trigger] edges.contains((order[i], order[j]))
            ==> i < j
}

/// Some order of the nodes is topological: the graph has no cycle.
pub open spec fn is_acyclic(nodes: Set<NodeKey>, edges: Set<(NodeKey, NodeKey)>) -> bool {
    exists|order: Seq<NodeKey>| is_topological_order(order, nodes, edges)
}

/// `GraphMap::new`: a graph with no node and no edge.
#[verifier::external_body]
pub(crate) fn graph_new() -> (g: DiGraph)
    ensures
        graph_nodes(g) == Set::<NodeKey>::empty(),
        graph_edges(g) == Set::<(NodeKey, NodeKey)>::empty(),
{
    GraphMap::new()
}

/// `GraphMap::clone` (derived): a graph with the same nodes and edges.
#[verifier::external_body]
pub(crate) fn graph_clone(g: &DiGraph) -> (r: DiGraph)
    ensures
        graph_nodes(r) == graph_nodes(*g),
        graph_edges(r) == graph_edges(*g),
{
    g.clone()
}

/// `GraphMap::add_node`: inserts the node if it is absent, and returns it.
#[verifier::external_body]
pub(crate) fn graph_add_node(g: &mut DiGraph, n: NodeKey) -> (r: NodeKey)
    ensures
        r == n,
        graph_nodes(*final(g)) == graph_nodes(*old(g)).insert(n),
        graph_edges(*final(g)) == graph_edges(*old(g)),
{
    g.add_node(n)
}

/// `GraphMap::add_edge` with the unit weight: inserts both endpoints and the
/// edge; the result is `Some` exactly when the edge was already present.
#[verifier::external_body]
pub(crate) fn graph_add_edge(g: &mut DiGraph, a: NodeKey, b: NodeKey) -> (r: Option<()>)
    ensures
        graph_nodes(*final(g)) == graph_nodes(*old(g)).insert(a).insert(b),
        graph_edges(*final(g)) == graph_edges(*old(g)).insert((a, b)),
        r is Some <==> graph_edges(*old(g)).contains((a, b)),
{
    g.add_edge(a, b, ())
}

/// `GraphMap::remove_node`: removes the node and every edge that touches it;
/// the result tells whether the node was present.
#[verifier::external_body]
pub(crate) fn graph_remove_node(g: &mut DiGraph, n: NodeKey) -> (r: bool)
    ensures
        r == graph_nodes(*old(g)).contains(n),
        graph_nodes(*final(g)) == graph_nodes(*old(g)).remove(n),
        graph_edges(*final(g)) == graph_edges(*old(g)).filter(
            |e: (NodeKey, NodeKey)| e.0 != n && e.1 != n,
        ),
{
    g.remove_node(n)
}

/// `GraphMap::neighbors_directed`, collected: with `Outgoing`, the targets of
/// the edges from `a`; with `Incoming`, the sources of the edges into `a`;
/// each once, as the graph holds each edge once.
#[verifier::external_body]
pub(crate) fn graph_neighbors(g: &DiGraph, a: NodeKey, dir: Direction) -> (r: Vec<NodeKey>)
    ensures
        r@.no_duplicates(),
        forall|x: NodeKey|
            #![trigger r@.contains(x)]
            r@.contains(x) <==> match dir {
                Direction::Outgoing => graph_edges(*g).contains((a, x)),
                Direction::Incoming => graph_edges(*g).contains((x, a)),
            },
{
    g.neighbors_directed(a, dir).collect()
}

/// `petgraph::algo::toposort` without a workspace: `Some` order in which every
/// node stands once and every edge goes forward, or `None` when the graph has a
/// cycle (a self loop counts as one).
#[verifier::external_body]
pub(crate) fn graph_toposort(g: &DiGraph) -> (r: Option<Vec<NodeKey>>)
    ensures
        r matches Some(v) ==> is_topological_order(v@, graph_nodes(*g), graph_edges(*g)),
        r is None ==> !is_acyclic(graph_nodes(*g), graph_edges(*g)),
{
    toposort(g, None).ok()
}

} // verus!
