//! The compute graph: commands and containers, ordered by dependencies
//! ("before", "after") and grouped by a hierarchy ("contains", "within").
use petgraph::Direction;
use vstd::prelude::*;

pub mod config;
pub mod determined;
pub mod digraph;
pub mod leaves;
pub mod tag;

use self::digraph::{
    graph_add_edge, graph_add_node, graph_clone, graph_edges, graph_neighbors, graph_new,
    graph_nodes, graph_remove_node, graph_toposort, is_acyclic, is_topological_order, DiGraph,
    NodeKey,
};
use self::config::{
    cons_plain, lemma_plain_all, plain, seq_plain, cons_refines, lemma_cons_refines_all, lemma_refines_edges, lemma_refines_refl, lemma_refines_trans,
    lemma_seq_refines_all, refines, lemma_handled_parts, lemma_same_main_handled, lemma_same_shape_count, lemma_seq_handled_all,
    lemma_seq_same_all, lemma_cons_handled_all, main_handled, height, cons_height, lemma_seq_height,
    lemma_cons_height, lemma_seq_height_eq, same_main, same_shape, targets_handled,
    leaf_count, cfg_edges, chain_edges, cons_edges, cons_handled, handled, handles, handles_seq, keys, pairs,
    seq_edges, seq_handled, Constraint, NodeConfigs, SingleConfig,
};
use self::leaves::{
    add_run, add_step, cons_leaves, lemma_cons_err, lemma_cons_leaves_take, lemma_run_concat,
    lemma_run_handles_concat, run_handles, leaf_handles, somes, lemma_leaf_handles_concat,
    lemma_somes_concat, lemma_seq_main_leaves_eq, Contents, contents_step, run_contents,
    lemma_run_contents_concat, lemma_run_contents_one, step_new_command, step_new_container,
    lemma_run_one, lemma_seq_main_err, lemma_seq_main_leaves_take, lemma_seq_target_err,
    lemma_seq_target_leaves_eq, lemma_seq_target_leaves_take, main_leaves, node_leaves, outcome,
    seq_main_leaves, seq_target_leaves, shape_holds, step_conflict, step_found, step_handle,
    target_leaves, Shape, leaf_commands, leaf_releases, lemma_run_contents_appends,
};
use self::tag::{DynTag, Tag, TagMap};

verus! {

/// A node of a compute graph: a container, which groups other nodes, or a command.
#[derive(Debug, Clone, Copy, PartialEq, Eq, Hash, Structural)]
pub enum NodeHandle {
    Container(usize),
    Command(usize),
}

/// The graph key of a handle.
pub open spec fn key_of(h: NodeHandle) -> NodeKey {
    match h {
        NodeHandle::Container(i) => (0u8, i),
        NodeHandle::Command(i) => (1u8, i),
    }
}

/// The key of the container with the given index.
pub open spec fn container_key(i: int) -> NodeKey {
    (0u8, i as usize)
}

/// The key of the command with the given index.
pub open spec fn command_key(i: int) -> NodeKey {
    (1u8, i as usize)
}

impl NodeHandle {
    /// The key under which this handle stands in the graphs.
    pub fn key(self) -> (r: NodeKey)
        ensures
            r == key_of(self),
    {
        match self {
            NodeHandle::Container(i) => (0u8, i),
            NodeHandle::Command(i) => (1u8, i),
        }
    }
}

/// The dependency and hierarchy graphs, as sets of nodes and edges.
pub struct GraphState {
    pub dep_nodes: Set<NodeKey>,
    pub dep: Set<(NodeKey, NodeKey)>,
    pub hier_nodes: Set<NodeKey>,
    pub hier: Set<(NodeKey, NodeKey)>,
}

/// The targets of the edges from `a`.
pub open spec fn out_nbrs(edges: Set<(NodeKey, NodeKey)>, a: NodeKey) -> Set<NodeKey> {
    Set::new(|x: NodeKey| edges.contains((a, x)))
}

/// The sources of the edges into `a`.
pub open spec fn in_nbrs(edges: Set<(NodeKey, NodeKey)>, a: NodeKey) -> Set<NodeKey> {
    Set::new(|x: NodeKey| edges.contains((x, a)))
}

/// The edges from `a` to each node of `xs`.
pub open spec fn star_out(a: NodeKey, xs: Set<NodeKey>) -> Set<(NodeKey, NodeKey)> {
    Set::new(|e: (NodeKey, NodeKey)| e.0 == a && xs.contains(e.1))
}

/// The edges from each node of `xs` to `b`.
pub open spec fn star_in(xs: Set<NodeKey>, b: NodeKey) -> Set<(NodeKey, NodeKey)> {
    Set::new(|e: (NodeKey, NodeKey)| xs.contains(e.0) && e.1 == b)
}

/// The endpoints of the edges between `a` and each node of `xs`.
pub open spec fn star_nodes(a: NodeKey, xs: Set<NodeKey>) -> Set<NodeKey> {
    if xs == Set::<NodeKey>::empty() {
        xs
    } else {
        xs.insert(a)
    }
}

/// The edges that do not touch `n`.
pub open spec fn without(edges: Set<(NodeKey, NodeKey)>, n: NodeKey) -> Set<(NodeKey, NodeKey)> {
    edges.filter(|e: (NodeKey, NodeKey)| e.0 != n && e.1 != n)
}

/// The fence that stands before the contents of container `id`, among `n` containers.
pub open spec fn fence_before(n: int, id: int) -> NodeKey {
    container_key(n + 2 * id)
}

/// The fence that stands after the contents of container `id`, among `n` containers.
pub open spec fn fence_after(n: int, id: int) -> NodeKey {
    container_key(n + 2 * id + 1)
}

/// Replaces container `id` by two fences: its children come after the first
/// and before the second, what came before it comes before the first, what came
/// after it comes after the second, and its parents contain both fences.
pub open spec fn expand_step(s: GraphState, n: int, id: int) -> GraphState {
    let node = container_key(id);
    let before = fence_before(n, id);
    let after = fence_after(n, id);
    let kids = out_nbrs(s.hier, node);
    let parents = in_nbrs(s.hier, node);
    let d1 = s.dep + star_out(before, kids) + star_in(kids, after);
    let dn1 = s.dep_nodes + star_nodes(before, kids) + star_nodes(after, kids);
    let h1 = s.hier + star_in(parents, before) + star_in(parents, after);
    let hn1 = s.hier_nodes + star_nodes(before, parents) + star_nodes(after, parents);
    let nexts = out_nbrs(d1, node);
    let prevs = in_nbrs(d1 + star_out(after, nexts), node);
    let d2 = d1 + star_out(after, nexts) + star_in(prevs, before);
    let dn2 = dn1 + star_nodes(after, nexts) + star_nodes(before, prevs);
    GraphState {
        dep_nodes: dn2.remove(node),
        dep: without(d2, node),
        hier_nodes: hn1.remove(node),
        hier: without(h1, node),
    }
}

/// The graphs after replacing the first `k` of `n` containers by fences.
pub open spec fn expand(s: GraphState, n: int, k: int) -> GraphState
    decreases k,
{
    if k <= 0 {
        s
    } else {
        expand_step(expand(s, n, k - 1), n, k - 1)
    }
}

/// The command keys with index below `m`.
pub open spec fn command_keys(m: int) -> Set<NodeKey> {
    Set::new(|k: NodeKey| k.0 == 1u8 && 0 <= k.1 < m)
}

/// `pos` places each handle of `res` in `full`, in increasing order, and
/// every command of `full` is placed.
pub open spec fn projection_witness(res: Seq<NodeHandle>, full: Seq<NodeKey>, pos: Seq<int>) -> bool {
    &&& pos.len() == res.len()
    &&& forall|k: int| 0 <= k < res.len() ==> 0 <= #[trigger] pos[k] < full.len()
    &&& forall|k: int| 0 <= k < res.len() ==> full[pos[k]] == key_of(#[trigger] res[k])
    &&& forall|k: int| 0 <= k < res.len() ==> #[trigger] res[k] is Command
    &&& forall|k: int, l: int| 0 <= k < l < res.len() ==> #[trigger] pos[k] < #[trigger] pos[l]
    &&& forall|i: int|
        0 <= i < full.len() && (#[trigger] full[i]).0 == 1u8 ==> exists|k: int|
            0 <= k < res.len() && pos[k] == i
}

/// `res` is the list of the commands of `full`, in the order of `full`.
pub open spec fn is_command_projection(res: Seq<NodeHandle>, full: Seq<NodeKey>) -> bool {
    exists|pos: Seq<int>| projection_witness(res, full, pos)
}

/// `p` is a path of at least one edge through nodes of a graph.
pub open spec fn is_node_path(nodes: Set<NodeKey>, edges: Set<(NodeKey, NodeKey)>, p: Seq<NodeKey>) -> bool {
    &&& p.len() >= 2
    &&& forall|k: int| 0 <= k < p.len() ==> nodes.contains(#[trigger] p[k])
    &&& forall|k: int| 0 <= k < p.len() - 1 ==> edges.contains((#[trigger] p[k], p[k + 1]))
}

/// Along a path of a graph, a topological order places each node after the first.
proof fn lemma_path_forward(
    full: Seq<NodeKey>,
    nodes: Set<NodeKey>,
    edges: Set<(NodeKey, NodeKey)>,
    p: Seq<NodeKey>,
    k: int,
)
    requires
        is_topological_order(full, nodes, edges),
        is_node_path(nodes, edges, p),
        1 <= k < p.len(),
    ensures
        exists|a: int, b: int|
            0 <= a < full.len() && full[a] == p[0] && 0 <= b < full.len() && full[b] == p[k] && a < b,
    decreases k,
{
    assert(nodes.contains(p[0]) && nodes.contains(p[k]) && nodes.contains(p[k - 1]));
    assert(full.contains(p[k]));
    let b = choose|b: int| 0 <= b < full.len() && full[b] == p[k];
    assert(full.contains(p[k - 1]));
    let c = choose|c: int| 0 <= c < full.len() && full[c] == p[k - 1];
    assert(edges.contains((p[k - 1], p[k])));
    assert(edges.contains((full[c], full[b])));
    assert(c < b);
    if k == 1 {
        assert(full[c] == p[0] && full[b] == p[1]);
    } else {
        lemma_path_forward(full, nodes, edges, p, k - 1);
        let (a, c2) = choose|a: int, c2: int|
            0 <= a < full.len() && full[a] == p[0] && 0 <= c2 < full.len() && full[c2] == p[k - 1] && a < c2;
        if c2 != c {
            assert(full[c2] == full[c]);
        }
        assert(full[a] == p[0] && full[b] == p[k] && a < b);
    }
}

/// Edges of the dependency graph in the form of a handle relation.
pub open spec fn dep_edge(s: GraphState, a: NodeHandle, b: NodeHandle) -> bool {
    s.dep.contains((key_of(a), key_of(b)))
}


proof fn lemma_take_push_to_set(xs: Seq<NodeKey>, i: int)
    requires
        0 <= i < xs.len(),
    ensures
        xs.take(i + 1).to_set() == xs.take(i).to_set().insert(xs[i]),
{
    assert(xs.take(i + 1) =~= xs.take(i).push(xs[i]));
    assert forall|x: NodeKey| #[trigger] xs.take(i + 1).to_set().contains(x) implies xs.take(
        i,
    ).to_set().insert(xs[i]).contains(x) by {
        let t = xs.take(i + 1);
        let j = choose|j: int| 0 <= j < t.len() && #[trigger] t[j] == x;
        if j < i {
            assert(xs.take(i)[j] == x);
        }
    }
    assert forall|x: NodeKey| #[trigger] xs.take(i).to_set().insert(xs[i]).contains(x)
        implies xs.take(i + 1).to_set().contains(x) by {
        if x == xs[i] {
            assert(xs.take(i + 1)[i] == x);
        } else {
            let t = xs.take(i);
            let j = choose|j: int| 0 <= j < t.len() && #[trigger] t[j] == x;
            assert(xs.take(i + 1)[j] == x);
        }
    }
    assert(xs.take(i + 1).to_set() =~= xs.take(i).to_set().insert(xs[i]));
}

/// Adds an edge from `a` to each node of `xs`.
fn add_edges_from(g: &mut DiGraph, a: NodeKey, xs: &Vec<NodeKey>)
    ensures
        graph_edges(*final(g)) == graph_edges(*old(g)) + star_out(a, xs@.to_set()),
        graph_nodes(*final(g)) == graph_nodes(*old(g)) + star_nodes(a, xs@.to_set()),
{
    let mut i: usize = 0;
    assert(xs@.take(0).to_set() =~= Set::<NodeKey>::empty());
    assert(graph_edges(*g) =~= graph_edges(*old(g)) + star_out(a, xs@.take(0).to_set()));
    assert(graph_nodes(*g) =~= graph_nodes(*old(g)) + star_nodes(a, xs@.take(0).to_set()));
    while i < xs.len()
        invariant
            i <= xs@.len(),
            graph_edges(*g) == graph_edges(*old(g)) + star_out(a, xs@.take(i as int).to_set()),
            graph_nodes(*g) == graph_nodes(*old(g)) + star_nodes(a, xs@.take(i as int).to_set()),
        decreases xs@.len() - i,
    {
        let x = xs[i];
        graph_add_edge(g, a, x);
        proof {
            lemma_take_push_to_set(xs@, i as int);
            let s = xs@.take(i as int).to_set();
            assert(star_out(a, s.insert(x)) =~= star_out(a, s).insert((a, x)));
            assert(s.insert(x).contains(x));
            if s == Set::<NodeKey>::empty() {
                assert(star_nodes(a, s.insert(x)) =~= star_nodes(a, s).insert(a).insert(x));
            } else {
                assert(star_nodes(a, s.insert(x)) =~= star_nodes(a, s).insert(a).insert(x));
            }
            assert(graph_edges(*g) =~= graph_edges(*old(g)) + star_out(a, s.insert(x)));
            assert(graph_nodes(*g) =~= graph_nodes(*old(g)) + star_nodes(a, s.insert(x)));
        }
        i = i + 1;
    }
    assert(xs@.take(xs@.len() as int) =~= xs@);
}

/// Adds an edge from each node of `xs` to `b`.
fn add_edges_to(g: &mut DiGraph, xs: &Vec<NodeKey>, b: NodeKey)
    ensures
        graph_edges(*final(g)) == graph_edges(*old(g)) + star_in(xs@.to_set(), b),
        graph_nodes(*final(g)) == graph_nodes(*old(g)) + star_nodes(b, xs@.to_set()),
{
    let mut i: usize = 0;
    assert(xs@.take(0).to_set() =~= Set::<NodeKey>::empty());
    assert(graph_edges(*g) =~= graph_edges(*old(g)) + star_in(xs@.take(0).to_set(), b));
    assert(graph_nodes(*g) =~= graph_nodes(*old(g)) + star_nodes(b, xs@.take(0).to_set()));
    while i < xs.len()
        invariant
            i <= xs@.len(),
            graph_edges(*g) == graph_edges(*old(g)) + star_in(xs@.take(i as int).to_set(), b),
            graph_nodes(*g) == graph_nodes(*old(g)) + star_nodes(b, xs@.take(i as int).to_set()),
        decreases xs@.len() - i,
    {
        let x = xs[i];
        graph_add_edge(g, x, b);
        proof {
            lemma_take_push_to_set(xs@, i as int);
            let s = xs@.take(i as int).to_set();
            assert(star_in(s.insert(x), b) =~= star_in(s, b).insert((x, b)));
            assert(s.insert(x).contains(x));
            if s == Set::<NodeKey>::empty() {
                assert(star_nodes(b, s.insert(x)) =~= star_nodes(b, s).insert(x).insert(b));
            } else {
                assert(star_nodes(b, s.insert(x)) =~= star_nodes(b, s).insert(x).insert(b));
            }
            assert(graph_edges(*g) =~= graph_edges(*old(g)) + star_in(s.insert(x), b));
            assert(graph_nodes(*g) =~= graph_nodes(*old(g)) + star_nodes(b, s.insert(x)));
        }
        i = i + 1;
    }
    assert(xs@.take(xs@.len() as int) =~= xs@);
}

/// The neighbours of `a` in `g`, in one direction.
fn neighbors(g: &DiGraph, a: NodeKey, outgoing: bool) -> (r: Vec<NodeKey>)
    ensures
        outgoing ==> r@.to_set() == out_nbrs(graph_edges(*g), a),
        !outgoing ==> r@.to_set() == in_nbrs(graph_edges(*g), a),
{
    let r = if outgoing {
        graph_neighbors(g, a, Direction::Outgoing)
    } else {
        graph_neighbors(g, a, Direction::Incoming)
    };
    if outgoing {
        assert(r@.to_set() =~= out_nbrs(graph_edges(*g), a));
    } else {
        assert(r@.to_set() =~= in_nbrs(graph_edges(*g), a));
    }
    r
}

/// Replaces container `id` by its two fences, as [`expand_step`] says.
fn expand_container(dependency: &mut DiGraph, hierarchy: &mut DiGraph, n: usize, id: usize)
    requires
        id < n,
        n + 2 * id + 1 <= usize::MAX,
    ensures
        ({
            let s = GraphState {
                dep_nodes: graph_nodes(*old(dependency)),
                dep: graph_edges(*old(dependency)),
                hier_nodes: graph_nodes(*old(hierarchy)),
                hier: graph_edges(*old(hierarchy)),
            };
            let t = expand_step(s, n as int, id as int);
            &&& graph_nodes(*final(dependency)) == t.dep_nodes
            &&& graph_edges(*final(dependency)) == t.dep
            &&& graph_nodes(*final(hierarchy)) == t.hier_nodes
            &&& graph_edges(*final(hierarchy)) == t.hier
        }),
{
    let node: NodeKey = (0u8, id);
    let before: NodeKey = (0u8, n + 2 * id);
    let after: NodeKey = (0u8, n + 2 * id + 1);
    let kids = neighbors(hierarchy, node, true);
    add_edges_from(dependency, before, &kids);
    add_edges_to(dependency, &kids, after);
    let parents = neighbors(hierarchy, node, false);
    add_edges_to(hierarchy, &parents, before);
    add_edges_to(hierarchy, &parents, after);
    let ghost d1 = graph_edges(*dependency);
    let ghost dn1 = graph_nodes(*dependency);
    let nexts = neighbors(dependency, node, true);
    add_edges_from(dependency, after, &nexts);
    let prevs = neighbors(dependency, node, false);
    add_edges_to(dependency, &prevs, before);
    let ghost d2 = graph_edges(*dependency);
    let ghost dn2 = graph_nodes(*dependency);
    graph_remove_node(dependency, node);
    graph_remove_node(hierarchy, node);
    proof {
        let s = GraphState {
            dep_nodes: graph_nodes(*old(dependency)),
            dep: graph_edges(*old(dependency)),
            hier_nodes: graph_nodes(*old(hierarchy)),
            hier: graph_edges(*old(hierarchy)),
        };
        let t = expand_step(s, n as int, id as int);
        assert(node == container_key(id as int));
        assert(before == fence_before(n as int, id as int));
        assert(after == fence_after(n as int, id as int));
        let kids_s = out_nbrs(s.hier, node);
        let e1 = s.dep + star_out(before, kids_s) + star_in(kids_s, after);
        assert(d1 =~= e1);
        let nexts_s = out_nbrs(e1, node);
        assert(in_nbrs(e1 + star_out(after, nexts_s), node) =~= in_nbrs(
            graph_edges(*old(dependency)) + star_out(before, kids_s) + star_in(kids_s, after)
                + star_out(after, nexts_s),
            node,
        ));
        assert(graph_nodes(*dependency) =~= t.dep_nodes);
        assert(graph_edges(*dependency) =~= t.dep);
        assert(graph_nodes(*hierarchy) =~= t.hier_nodes);
        assert(graph_edges(*hierarchy) =~= t.hier);
    }
}


/// One step keeps every edge and node that does not touch the replaced container.
proof fn lemma_step_keeps(s: GraphState, n: int, id: int)
    ensures
        forall|e: (NodeKey, NodeKey)|
            s.dep.contains(e) && e.0 != container_key(id) && e.1 != container_key(id)
                ==> #[trigger] expand_step(s, n, id).dep.contains(e),
        forall|e: (NodeKey, NodeKey)|
            s.hier.contains(e) && e.0 != container_key(id) && e.1 != container_key(id)
                ==> #[trigger] expand_step(s, n, id).hier.contains(e),
        forall|x: NodeKey|
            s.dep_nodes.contains(x) && x != container_key(id)
                ==> #[trigger] expand_step(s, n, id).dep_nodes.contains(x),
{
}

/// Replacing the containers `k0 .. k1` keeps every edge and node that touches none of them.
proof fn lemma_expand_keeps(s: GraphState, n: int, k0: int, k1: int)
    requires
        0 <= k0 <= k1,
    ensures
        forall|e: (NodeKey, NodeKey)|
            expand(s, n, k0).dep.contains(e) && (forall|j: int|
                k0 <= j < k1 ==> e.0 != #[trigger] container_key(j) && e.1 != container_key(j))
                ==> #[trigger] expand(s, n, k1).dep.contains(e),
        forall|e: (NodeKey, NodeKey)|
            expand(s, n, k0).hier.contains(e) && (forall|j: int|
                k0 <= j < k1 ==> e.0 != #[trigger] container_key(j) && e.1 != container_key(j))
                ==> #[trigger] expand(s, n, k1).hier.contains(e),
        forall|x: NodeKey|
            expand(s, n, k0).dep_nodes.contains(x) && (forall|j: int|
                k0 <= j < k1 ==> x != #[trigger] container_key(j))
                ==> #[trigger] expand(s, n, k1).dep_nodes.contains(x),
    decreases k1 - k0,
{
    if k1 > k0 {
        lemma_expand_keeps(s, n, k0, k1 - 1);
        lemma_step_keeps(expand(s, n, k1 - 1), n, k1 - 1);
        assert forall|e: (NodeKey, NodeKey)|
            expand(s, n, k0).dep.contains(e) && (forall|j: int|
                k0 <= j < k1 ==> e.0 != #[trigger] container_key(j) && e.1 != container_key(j))
                implies #[trigger] expand(s, n, k1).dep.contains(e) by {
            assert(forall|j: int|
                k0 <= j < k1 - 1 ==> e.0 != #[trigger] container_key(j) && e.1 != container_key(j));
            assert(e.0 != container_key(k1 - 1) && e.1 != container_key(k1 - 1));
        }
        assert forall|e: (NodeKey, NodeKey)|
            expand(s, n, k0).hier.contains(e) && (forall|j: int|
                k0 <= j < k1 ==> e.0 != #[trigger] container_key(j) && e.1 != container_key(j))
                implies #[trigger] expand(s, n, k1).hier.contains(e) by {
            assert(forall|j: int|
                k0 <= j < k1 - 1 ==> e.0 != #[trigger] container_key(j) && e.1 != container_key(j));
            assert(e.0 != container_key(k1 - 1) && e.1 != container_key(k1 - 1));
        }
        assert forall|x: NodeKey|
            expand(s, n, k0).dep_nodes.contains(x) && (forall|j: int|
                k0 <= j < k1 ==> x != #[trigger] container_key(j))
                implies #[trigger] expand(s, n, k1).dep_nodes.contains(x) by {
            assert(forall|j: int| k0 <= j < k1 - 1 ==> x != #[trigger] container_key(j));
            assert(x != container_key(k1 - 1));
        }
    }
}

/// A dependency between two commands outlives every replacement of containers.
proof fn lemma_command_edge_kept(s: GraphState, n: int, a: NodeKey, b: NodeKey)
    requires
        0 <= n,
        a.0 == 1u8,
        b.0 == 1u8,
        s.dep.contains((a, b)),
    ensures
        expand(s, n, n).dep.contains((a, b)),
{
    lemma_expand_keeps(s, n, 0, n);
    assert(expand(s, n, 0) == s);
}

/// When container `c` contains `x` and comes before `y`, the fence after it
/// stands between them; when `y` comes before it, the fence before it does.
proof fn lemma_container_fences(s: GraphState, n: int, c: int, x: NodeKey, y: NodeKey)
    requires
        0 <= c < n,
        3 * n <= usize::MAX,
        x.0 == 1u8,
        y.0 == 1u8,
        s.hier.contains((container_key(c), x)),
    ensures
        s.dep.contains((container_key(c), y)) ==> {
            &&& expand(s, n, n).dep.contains((x, fence_after(n, c)))
            &&& expand(s, n, n).dep.contains((fence_after(n, c), y))
            &&& expand(s, n, n).dep_nodes.contains(fence_after(n, c))
        },
        s.dep.contains((y, container_key(c))) ==> {
            &&& expand(s, n, n).dep.contains((y, fence_before(n, c)))
            &&& expand(s, n, n).dep.contains((fence_before(n, c), x))
            &&& expand(s, n, n).dep_nodes.contains(fence_before(n, c))
        },
{
    let cc = container_key(c);
    let before = fence_before(n, c);
    let after = fence_after(n, c);
    assert(expand(s, n, 0) == s);
    lemma_expand_keeps(s, n, 0, c);
    let sc = expand(s, n, c);
    assert forall|j: int| 0 <= j < c implies cc != #[trigger] container_key(j) && x != container_key(j) by {
        assert(container_key(j).1 == j as usize);
    }
    assert(sc.hier.contains((cc, x)));
    assert(expand(s, n, c + 1) == expand_step(sc, n, c));
    lemma_expand_keeps(s, n, c + 1, n);
    assert forall|j: int| c + 1 <= j < n implies after != #[trigger] container_key(j) && before
        != container_key(j) && x != container_key(j) && y != container_key(j) by {
        assert(container_key(j).1 == j as usize);
    }
    let kids = out_nbrs(sc.hier, cc);
    assert(kids.contains(x));
    assert(before != cc && after != cc) by {
        assert(before.1 == (n + 2 * c) as usize);
        assert(after.1 == (n + 2 * c + 1) as usize);
    }
    if s.dep.contains((cc, y)) {
        assert forall|j: int| 0 <= j < c implies cc != #[trigger] container_key(j) && y != container_key(j) by {
            assert(container_key(j).1 == j as usize);
        }
        assert(sc.dep.contains((cc, y)));
        let t = expand_step(sc, n, c);
        assert(t.dep.contains((x, after)));
        assert(t.dep.contains((after, y)));
        assert(star_nodes(after, kids).contains(after));
        assert(t.dep_nodes.contains(after));
    }
    if s.dep.contains((y, cc)) {
        assert forall|j: int| 0 <= j < c implies cc != #[trigger] container_key(j) && y != container_key(j) by {
            assert(container_key(j).1 == j as usize);
        }
        assert(sc.dep.contains((y, cc)));
        let t = expand_step(sc, n, c);
        assert(t.dep.contains((before, x)));
        assert(t.dep.contains((y, before)));
        assert(star_nodes(before, kids).contains(before));
        assert(t.dep_nodes.contains(before));
    }
}


/// The sources of some edges.
pub open spec fn sources(edges: Set<(NodeKey, NodeKey)>) -> Set<NodeKey> {
    Set::new(|x: NodeKey| exists|y: NodeKey| #[trigger] edges.contains((x, y)))
}

/// The targets of some edges.
pub open spec fn targets(edges: Set<(NodeKey, NodeKey)>) -> Set<NodeKey> {
    Set::new(|y: NodeKey| exists|x: NodeKey| #[trigger] edges.contains((x, y)))
}

/// The endpoints of some edges.
pub open spec fn ends(edges: Set<(NodeKey, NodeKey)>) -> Set<NodeKey> {
    sources(edges) + targets(edges)
}

/// The graphs with some dependency and hierarchy edges added, with their endpoints.
pub open spec fn with_edges(s: GraphState, d: Set<(NodeKey, NodeKey)>, h: Set<(NodeKey, NodeKey)>) -> GraphState {
    GraphState {
        dep_nodes: s.dep_nodes + ends(d),
        dep: s.dep + d,
        hier_nodes: s.hier_nodes + ends(h),
        hier: s.hier + h,
    }
}

pub proof fn lemma_ends_insert(edges: Set<(NodeKey, NodeKey)>, e: (NodeKey, NodeKey))
    ensures
        ends(edges.insert(e)) == ends(edges).insert(e.0).insert(e.1),
{
    let t = edges.insert(e);
    assert forall|x: NodeKey| #[trigger] ends(t).contains(x) implies ends(edges).insert(e.0).insert(
        e.1,
    ).contains(x) by {
        if sources(t).contains(x) {
            let y = choose|y: NodeKey| t.contains((x, y));
            if (x, y) != e {
                assert(edges.contains((x, y)));
                assert(sources(edges).contains(x));
            }
        } else {
            let y = choose|y: NodeKey| t.contains((y, x));
            if (y, x) != e {
                assert(edges.contains((y, x)));
                assert(targets(edges).contains(x));
            }
        }
    }
    assert forall|x: NodeKey| #[trigger] ends(edges).insert(e.0).insert(e.1).contains(x)
        implies ends(t).contains(x) by {
        if x == e.0 {
            assert(t.contains((e.0, e.1)));
            assert(sources(t).contains(x));
        } else if x == e.1 {
            assert(t.contains((e.0, e.1)));
            assert(targets(t).contains(x));
        } else if sources(edges).contains(x) {
            let y = choose|y: NodeKey| edges.contains((x, y));
            assert(t.contains((x, y)));
            assert(sources(t).contains(x));
        } else {
            let y = choose|y: NodeKey| edges.contains((y, x));
            assert(t.contains((y, x)));
            assert(targets(t).contains(x));
        }
    }
    assert(ends(t) =~= ends(edges).insert(e.0).insert(e.1));
}

proof fn lemma_ends_union(a: Set<(NodeKey, NodeKey)>, b: Set<(NodeKey, NodeKey)>)
    ensures
        ends(a + b) == ends(a) + ends(b),
{
    assert forall|x: NodeKey| #[trigger] ends(a + b).contains(x) implies (ends(a) + ends(b)).contains(
        x,
    ) by {
        if sources(a + b).contains(x) {
            let y = choose|y: NodeKey| (a + b).contains((x, y));
            if a.contains((x, y)) {
                assert(sources(a).contains(x));
            } else {
                assert(sources(b).contains(x));
            }
        } else {
            let y = choose|y: NodeKey| (a + b).contains((y, x));
            if a.contains((y, x)) {
                assert(targets(a).contains(x));
            } else {
                assert(targets(b).contains(x));
            }
        }
    }
    assert forall|x: NodeKey| #[trigger] (ends(a) + ends(b)).contains(x) implies ends(a + b).contains(
        x,
    ) by {
        if sources(a).contains(x) {
            let y = choose|y: NodeKey| a.contains((x, y));
            assert((a + b).contains((x, y)));
            assert(sources(a + b).contains(x));
        } else if targets(a).contains(x) {
            let y = choose|y: NodeKey| a.contains((y, x));
            assert((a + b).contains((y, x)));
            assert(targets(a + b).contains(x));
        } else if sources(b).contains(x) {
            let y = choose|y: NodeKey| b.contains((x, y));
            assert((a + b).contains((x, y)));
            assert(sources(a + b).contains(x));
        } else {
            let y = choose|y: NodeKey| b.contains((y, x));
            assert((a + b).contains((y, x)));
            assert(targets(a + b).contains(x));
        }
    }
    assert(ends(a + b) =~= ends(a) + ends(b));
}

pub proof fn lemma_with_edges_twice(
    s: GraphState,
    d1: Set<(NodeKey, NodeKey)>,
    h1: Set<(NodeKey, NodeKey)>,
    d2: Set<(NodeKey, NodeKey)>,
    h2: Set<(NodeKey, NodeKey)>,
)
    ensures
        with_edges(with_edges(s, d1, h1), d2, h2) == with_edges(s, d1 + d2, h1 + h2),
{
    lemma_ends_union(d1, d2);
    lemma_ends_union(h1, h2);
    let a = with_edges(with_edges(s, d1, h1), d2, h2);
    let b = with_edges(s, d1 + d2, h1 + h2);
    assert(a.dep_nodes =~= b.dep_nodes);
    assert(a.dep =~= b.dep);
    assert(a.hier_nodes =~= b.hier_nodes);
    assert(a.hier =~= b.hier);
}

proof fn lemma_with_no_edges(s: GraphState)
    ensures
        with_edges(s, Set::empty(), Set::empty()) == s,
{
    let a = with_edges(s, Set::empty(), Set::empty());
    assert(ends(Set::<(NodeKey, NodeKey)>::empty()) =~= Set::<NodeKey>::empty());
    assert(a.dep_nodes =~= s.dep_nodes);
    assert(a.dep =~= s.dep);
    assert(a.hier_nodes =~= s.hier_nodes);
    assert(a.hier =~= s.hier);
}

proof fn lemma_keys_take(hs: Seq<NodeHandle>, i: int)
    requires
        0 <= i < hs.len(),
    ensures
        keys(hs.take(i + 1)) == keys(hs.take(i)).insert(key_of(hs[i])),
{
    let t1 = hs.take(i + 1);
    let t0 = hs.take(i);
    assert forall|k: NodeKey| #[trigger] keys(t1).contains(k) implies keys(t0).insert(
        key_of(hs[i]),
    ).contains(k) by {
        let j = choose|j: int| 0 <= j < t1.len() && key_of(t1[j]) == k;
        if j < i {
            assert(key_of(t0[j]) == k);
        }
    }
    assert forall|k: NodeKey| #[trigger] keys(t0).insert(key_of(hs[i])).contains(k) implies keys(
        t1,
    ).contains(k) by {
        if k == key_of(hs[i]) {
            assert(key_of(t1[i]) == k);
        } else {
            let j = choose|j: int| 0 <= j < t0.len() && key_of(t0[j]) == k;
            assert(key_of(t1[j]) == k);
        }
    }
    assert(keys(t1) =~= keys(t0).insert(key_of(hs[i])));
}

/// Adds an edge from each handle of `a` to each handle of `b`.
fn add_pairs(g: &mut DiGraph, a: &Vec<NodeHandle>, b: &Vec<NodeHandle>)
    ensures
        graph_edges(*final(g)) == graph_edges(*old(g)) + pairs(a@, b@),
        graph_nodes(*final(g)) == graph_nodes(*old(g)) + ends(pairs(a@, b@)),
{
    let ghost mut added: Set<(NodeKey, NodeKey)> = Set::empty();
    assert(ends(added) =~= Set::<NodeKey>::empty());
    assert(graph_edges(*g) =~= graph_edges(*old(g)) + added);
    assert(graph_nodes(*g) =~= graph_nodes(*old(g)) + ends(added));
    assert(keys(a@.take(0)) =~= Set::<NodeKey>::empty());
    assert(pairs(a@.take(0), b@) =~= added);
    let mut i: usize = 0;
    while i < a.len()
        invariant
            i <= a@.len(),
            added == pairs(a@.take(i as int), b@),
            graph_edges(*g) == graph_edges(*old(g)) + added,
            graph_nodes(*g) == graph_nodes(*old(g)) + ends(added),
        decreases a@.len() - i,
    {
        let x = a[i].key();
        let mut j: usize = 0;
        let ghost base = added;
        assert(keys(b@.take(0)) =~= Set::<NodeKey>::empty());
        assert(added =~= base + pairs(seq![a@[i as int]], b@.take(0)));
        while j < b.len()
            invariant
                i < a@.len(),
                j <= b@.len(),
                x == key_of(a@[i as int]),
                base == pairs(a@.take(i as int), b@),
                added == base + pairs(seq![a@[i as int]], b@.take(j as int)),
                graph_edges(*g) == graph_edges(*old(g)) + added,
                graph_nodes(*g) == graph_nodes(*old(g)) + ends(added),
            decreases b@.len() - j,
        {
            let y = b[j].key();
            graph_add_edge(g, x, y);
            proof {
                lemma_ends_insert(added, (x, y));
                lemma_keys_take(b@, j as int);
                let one = seq![a@[i as int]];
                assert(keys(one) =~= set![x]) by {
                    assert(key_of(one[0]) == x);
                }
                assert(pairs(one, b@.take(j + 1)) =~= pairs(one, b@.take(j as int)).insert((x, y)));
                added = added.insert((x, y));
                assert(added =~= base + pairs(one, b@.take(j + 1)));
                assert(graph_edges(*g) =~= graph_edges(*old(g)) + added);
            }
            j = j + 1;
        }
        proof {
            lemma_keys_take(a@, i as int);
            assert(b@.take(b@.len() as int) =~= b@);
            let one = seq![a@[i as int]];
            assert(keys(one) =~= set![x]) by {
                assert(key_of(one[0]) == x);
            }
            assert(pairs(a@.take(i + 1), b@) =~= base + pairs(one, b@));
        }
        i = i + 1;
    }
    assert(a@.take(a@.len() as int) =~= a@);
}


proof fn lemma_take_last<T>(s: Seq<T>, i: int)
    requires
        0 <= i < s.len(),
    ensures
        s.take(i + 1).drop_last() == s.take(i),
        s.take(i + 1).last() == s[i],
        s.take(i + 1).len() == i + 1,
{
    assert(s.take(i + 1).drop_last() =~= s.take(i));
}

proof fn lemma_seq_handled_at<C, R>(s: Seq<NodeConfigs<C, R>>, i: int)
    requires
        seq_handled(s),
        0 <= i < s.len(),
    ensures
        handled(s[i]),
    decreases s.len(),
{
    if i < s.len() - 1 {
        assert(s.drop_last()[i] == s[i]);
        lemma_seq_handled_at(s.drop_last(), i);
    }
}

proof fn lemma_cons_handled_at<C, R>(s: Seq<(Constraint, NodeConfigs<C, R>)>, i: int)
    requires
        cons_handled(s),
        0 <= i < s.len(),
    ensures
        handled(s[i].1),
    decreases s.len(),
{
    if i < s.len() - 1 {
        assert(s.drop_last()[i] == s[i]);
        lemma_cons_handled_at(s.drop_last(), i);
    }
}

/// Why nodes could not be added to a compute graph.
#[derive(Debug, Clone, Copy, PartialEq, Eq, Structural)]
pub enum GraphError {
    /// A tag was given to a node that already carries another tag.
    TagConflict,
    /// A debugging name was given to a handle that the graph does not hold.
    InvalidHandle,
}

/// The commands of a compute graph in the order in which they run, and the
/// resources to release once they have run.
pub struct Execution<C, R> {
    pub commands: Vec<C>,
    pub release: Vec<R>,
}

/// A command of the compute graph, with a name for debugging.
pub struct CommandNode<C> {
    pub command: C,
    pub debug_name: String,
}

/// A container of the compute graph, with a name for debugging.
pub struct ContainerNode {
    pub debug_name: String,
}

/// A graph of commands. Dependencies order commands; containers group nodes, so
/// that a dependency of a container applies to everything it contains.
///
/// `C` is the type of the commands, `R` that of the resources released once the
/// graph has run.
pub struct ComputeGraph<C, R> {
    tags: TagMap,
    commands: Vec<CommandNode<C>>,
    containers: Vec<ContainerNode>,
    hierarchy: DiGraph,
    dependency: DiGraph,
    release: Vec<R>,
}

impl<C, R> ComputeGraph<C, R> {
    /// The dependency and hierarchy graphs.
    pub closed spec fn state(&self) -> GraphState {
        GraphState {
            dep_nodes: graph_nodes(self.dependency),
            dep: graph_edges(self.dependency),
            hier_nodes: graph_nodes(self.hierarchy),
            hier: graph_edges(self.hierarchy),
        }
    }

    pub closed spec fn num_commands(&self) -> nat {
        self.commands@.len()
    }

    pub closed spec fn num_containers(&self) -> nat {
        self.containers@.len()
    }

    /// The graphs on which the commands are ordered: every container replaced by
    /// fences, and every command present as a node.
    pub open spec fn ordering_state(&self) -> GraphState {
        let e = expand(self.state(), self.num_containers() as int, self.num_containers() as int);
        GraphState { dep_nodes: e.dep_nodes + command_keys(self.num_commands() as int), ..e }
    }

    /// The fences that replace containers have keys that fit in a `usize`.
    pub open spec fn fences_fit(&self) -> bool {
        3 * self.num_containers() <= usize::MAX
    }

    /// The commands can be ordered: no cycle goes through the dependencies.
    pub open spec fn orderable(&self) -> bool {
        &&& self.fences_fit()
        &&& is_acyclic(self.ordering_state().dep_nodes, self.ordering_state().dep)
    }

    /// The debugging name of a command.
    pub closed spec fn command_name(&self, i: int) -> Seq<char> {
        self.commands@[i].debug_name@
    }

    /// The debugging name of a container.
    pub closed spec fn container_name(&self, i: int) -> Seq<char> {
        self.containers@[i].debug_name@
    }

    /// The tag map of the graph.
    pub closed spec fn tag_map(&self) -> TagMap {
        self.tags
    }

    /// The tag map is well formed and bi-directional.
    pub closed spec fn wf(&self) -> bool {
        self.tags.wf() && self.tags.bijective()
    }

    /// The tags of a graph name its nodes both ways: a node carries a tag
    /// exactly when the tag names that node, whatever was added to it.
    pub proof fn law_tags_bijective(&self)
        requires
            self.wf(),
        ensures
            self.tag_map().bijective(),
    {
    }

    /// Creates an empty graph.
    pub fn new() -> (r: Self)
        ensures
            r.wf(),
            r.num_commands() == 0,
            r.num_containers() == 0,
            r.state().dep_nodes == Set::<NodeKey>::empty(),
            r.state().dep == Set::<(NodeKey, NodeKey)>::empty(),
            r.state().hier_nodes == Set::<NodeKey>::empty(),
            r.state().hier == Set::<(NodeKey, NodeKey)>::empty(),
            r.tag_map().tags() == Map::<NodeHandle, DynTag>::empty(),
            r.tag_map().values() == Map::<DynTag, NodeHandle>::empty(),
            r.releases().len() == 0,
    {
        ComputeGraph {
            tags: TagMap::new(),
            commands: Vec::new(),
            containers: Vec::new(),
            hierarchy: graph_new(),
            dependency: graph_new(),
            release: Vec::new(),
        }
    }

    pub fn set_dependency(&mut self, dependency: DiGraph)
        ensures
            final(self).state() == (GraphState {
                dep_nodes: graph_nodes(dependency),
                dep: graph_edges(dependency),
                ..old(self).state()
            }),
            final(self).num_commands() == old(self).num_commands(),
            final(self).num_containers() == old(self).num_containers(),
            final(self).tag_map() == old(self).tag_map(),
    {
        self.dependency = dependency;
    }

    pub fn set_hierarchy(&mut self, hierarchy: DiGraph)
        ensures
            final(self).state() == (GraphState {
                hier_nodes: graph_nodes(hierarchy),
                hier: graph_edges(hierarchy),
                ..old(self).state()
            }),
            final(self).num_commands() == old(self).num_commands(),
            final(self).num_containers() == old(self).num_containers(),
            final(self).tag_map() == old(self).tag_map(),
    {
        self.hierarchy = hierarchy;
    }

    /// `r` is an order of the commands as [`ComputeGraph::order`] promises: a
    /// projection of a topological order of the ordering graphs, holding each
    /// command once, keeping dependencies and the dependencies of containers.
    pub open spec fn valid_order(&self, r: Seq<NodeHandle>) -> bool {
        &&& exists|full: Seq<NodeKey>|
            is_topological_order(full, self.ordering_state().dep_nodes, self.ordering_state().dep)
                && is_command_projection(r, full)
        &&& r.no_duplicates()
        &&& forall|i: int|
            0 <= i < self.num_commands() ==> #[trigger] r.contains(NodeHandle::Command(i as usize))
        &&& forall|k: int|
            0 <= k < r.len() ==> #[trigger] r[k] is Command && self.ordering_state().dep_nodes.contains(
                key_of(r[k]),
            )
        &&& forall|i: int, j: int|
            0 <= i < r.len() && 0 <= j < r.len() && #[trigger] dep_edge(self.state(), r[i], r[j]) ==> i < j
        &&& forall|c: int, i: int, j: int|
            #![trigger self.state().hier.contains((container_key(c), key_of(r[i]))), self.state().dep.contains((container_key(c), key_of(r[j])))]
            0 <= c < self.num_containers() && 0 <= i < r.len() && 0 <= j < r.len()
                && self.state().hier.contains((container_key(c), key_of(r[i])))
                && self.state().dep.contains((container_key(c), key_of(r[j]))) ==> i < j
        &&& forall|c: int, i: int, j: int|
            #![trigger self.state().hier.contains((container_key(c), key_of(r[i]))), self.state().dep.contains((key_of(r[j]), container_key(c)))]
            0 <= c < self.num_containers() && 0 <= i < r.len() && 0 <= j < r.len()
                && self.state().hier.contains((container_key(c), key_of(r[i])))
                && self.state().dep.contains((key_of(r[j]), container_key(c))) ==> j < i
    }

    /// In an order of the commands, a command that a path of the ordering
    /// graphs leads to from another comes after it.
    pub proof fn law_order_follows_paths(&self, r: Seq<NodeHandle>, p: Seq<NodeKey>, i: int, j: int)
        requires
            self.valid_order(r),
            0 <= i < r.len(),
            0 <= j < r.len(),
            is_node_path(self.ordering_state().dep_nodes, self.ordering_state().dep, p),
            p[0] == key_of(r[i]),
            p.last() == key_of(r[j]),
        ensures
            i < j,
    {
        let os = self.ordering_state();
        let full = choose|full: Seq<NodeKey>|
            is_topological_order(full, os.dep_nodes, os.dep) && is_command_projection(r, full);
        let pos = choose|pos: Seq<int>| projection_witness(r, full, pos);
        lemma_path_forward(full, os.dep_nodes, os.dep, p, p.len() - 1);
        let a = choose|a: int| 0 <= a < full.len() && full[a] == p[0];
        let b = choose|b: int| 0 <= b < full.len() && full[b] == p[p.len() - 1] && a < b;
        assert(full[pos[i]] == key_of(r[i]));
        assert(full[pos[j]] == key_of(r[j]));
        assert(pos[i] == a);
        assert(pos[j] == b);
        if j <= i {
            if j < i {
                assert(pos[j] < pos[i]);
            }
        }
    }

    /// Every command node of the ordering graphs is a command of this graph.
    pub open spec fn commands_known(&self) -> bool {
        forall|k: NodeKey|
            #[trigger] self.ordering_state().dep_nodes.contains(k) && k.0 == 1u8 ==> k.1 < self.num_commands()
    }

    /// The commands in an order that respects every dependency, once containers
    /// are replaced by fences around their contents.
    pub fn order(&self) -> (r: Vec<NodeHandle>)
        requires
            self.orderable(),
        ensures
            self.valid_order(r@),
    {
        match self.order_or_cycle() {
            Some(v) => v,
            None => {
                assert(false);
                Vec::new()
            },
        }
    }

    /// The commands in an order that respects every dependency, unless the
    /// dependencies make a cycle once containers are replaced by fences.
    pub fn try_order(&self) -> (r: Option<Vec<NodeHandle>>)
        ensures
            r is None <==> !self.orderable(),
            r matches Some(v) ==> self.valid_order(v@),
    {
        if self.containers.len() > usize::MAX / 3 {
            return None;
        }
        self.order_or_cycle()
    }

    /// The order of the commands, computed on the graphs with fences.
    fn order_or_cycle(&self) -> (r: Option<Vec<NodeHandle>>)
        requires
            self.fences_fit(),
        ensures
            r is None <==> !is_acyclic(self.ordering_state().dep_nodes, self.ordering_state().dep),
            r matches Some(v) ==> self.valid_order(v@),
    {
        let n = self.containers.len();
        let mut dependency = graph_clone(&self.dependency);
        let mut hierarchy = graph_clone(&self.hierarchy);
        let ghost s0 = self.state();
        let mut id: usize = 0;
        while id < n
            invariant
                n == self.num_containers(),
                3 * n <= usize::MAX,
                id <= n,
                s0 == self.state(),
                ({
                    let e = expand(s0, n as int, id as int);
                    &&& graph_nodes(dependency) == e.dep_nodes
                    &&& graph_edges(dependency) == e.dep
                    &&& graph_nodes(hierarchy) == e.hier_nodes
                    &&& graph_edges(hierarchy) == e.hier
                }),
            decreases n - id,
        {
            expand_container(&mut dependency, &mut hierarchy, n, id);
            id = id + 1;
        }
        let ghost e = expand(s0, n as int, n as int);
        let m = self.commands.len();
        let mut c: usize = 0;
        assert(graph_nodes(dependency) =~= e.dep_nodes + command_keys(0));
        while c < m
            invariant
                m == self.num_commands(),
                c <= m,
                graph_nodes(dependency) == e.dep_nodes + command_keys(c as int),
                graph_edges(dependency) == e.dep,
            decreases m - c,
        {
            graph_add_node(&mut dependency, (1u8, c));
            assert(graph_nodes(dependency) =~= e.dep_nodes + command_keys(c + 1));
            c = c + 1;
        }
        assert(graph_nodes(dependency) == self.ordering_state().dep_nodes);
        assert(graph_edges(dependency) == self.ordering_state().dep);
        let full = match graph_toposort(&dependency) {
            Some(v) => v,
            None => {
                return None;
            },
        };
        let mut res: Vec<NodeHandle> = Vec::new();
        let ghost mut pos: Seq<int> = Seq::empty();
        let mut i: usize = 0;
        while i < full.len()
            invariant
                i <= full@.len(),
                pos.len() == res@.len(),
                forall|k: int| 0 <= k < res@.len() ==> 0 <= #[trigger] pos[k] < i,
                forall|k: int| 0 <= k < res@.len() ==> full@[pos[k]] == key_of(#[trigger] res@[k]),
                forall|k: int| 0 <= k < res@.len() ==> #[trigger] res@[k] is Command,
                forall|k: int, l: int| 0 <= k < l < res@.len() ==> #[trigger] pos[k] < #[trigger] pos[l],
                forall|j: int|
                    0 <= j < i && (#[trigger] full@[j]).0 == 1u8 ==> exists|k: int|
                        0 <= k < res@.len() && pos[k] == j,
            decreases full@.len() - i,
        {
            let k = full[i];
            if k.0 == 1u8 {
                let ghost old_pos = pos;
                let ghost old_len = res@.len();
                res.push(NodeHandle::Command(k.1));
                proof {
                    let last = res@.len() - 1;
                    pos = pos.push(i as int);
                    assert(pos[last] == i as int);
                    assert forall|j: int|
                        0 <= j < i + 1 && (#[trigger] full@[j]).0 == 1u8 implies exists|kk: int|
                        0 <= kk < res@.len() && pos[kk] == j by {
                        if j == i {
                            assert(pos[last] == j);
                        } else {
                            assert(j < i);
                            let kk = choose|kk: int| 0 <= kk < old_len && old_pos[kk] == j;
                            assert(pos[kk] == j);
                        }
                    }
                }
            }
            i = i + 1;
        }
        assert(projection_witness(res@, full@, pos));
        assert(is_command_projection(res@, full@));
        assert(is_topological_order(full@, self.ordering_state().dep_nodes, self.ordering_state().dep));
        proof {
            let os = self.ordering_state();
            let f = full@;
            let r = res@;
            // Distinct positions hold distinct keys, hence distinct handles.
            assert forall|a: int, b: int| 0 <= a < r.len() && 0 <= b < r.len() && a != b
                implies r[a] != r[b] by {
                if a < b {
                    assert(pos[a] < pos[b]);
                } else {
                    assert(pos[b] < pos[a]);
                }
                assert(f[pos[a]] != f[pos[b]]);
            }
            assert forall|i: int| 0 <= i < self.num_commands()
                implies #[trigger] r.contains(NodeHandle::Command(i as usize)) by {
                let key = command_key(i);
                assert(command_keys(self.num_commands() as int).contains(key));
                assert(os.dep_nodes.contains(key));
                assert(f.contains(key));
                let p = choose|p: int| 0 <= p < f.len() && f[p] == key;
                assert(f[p].0 == 1u8);
                let k = choose|k: int| 0 <= k < r.len() && pos[k] == p;
                assert(key_of(r[k]) == key);
                assert(r[k] == NodeHandle::Command(i as usize));
            }
            assert forall|k: int| 0 <= k < r.len() implies #[trigger] r[k] is Command
                && os.dep_nodes.contains(key_of(r[k])) by {
                assert(f.contains(f[pos[k]]));
            }
            assert forall|i: int, j: int|
                0 <= i < r.len() && 0 <= j < r.len() && #[trigger] dep_edge(self.state(), r[i], r[j])
                implies i < j by {
                lemma_command_edge_kept(self.state(), n as int, key_of(r[i]), key_of(r[j]));
                assert(os.dep.contains((f[pos[i]], f[pos[j]])));
                assert(pos[i] < pos[j]);
                if j < i {
                    assert(pos[j] < pos[i]);
                }
            }
            assert forall|c: int, i: int, j: int|
                0 <= c < self.num_containers() && 0 <= i < r.len() && 0 <= j < r.len()
                    && #[trigger] self.state().hier.contains((container_key(c), key_of(r[i])))
                    && #[trigger] self.state().dep.contains((container_key(c), key_of(r[j])))
                implies i < j by {
                lemma_container_fences(self.state(), n as int, c, key_of(r[i]), key_of(r[j]));
                let after = fence_after(n as int, c);
                assert(f.contains(after));
                let p = choose|p: int| 0 <= p < f.len() && f[p] == after;
                assert(os.dep.contains((f[pos[i]], f[p])));
                assert(os.dep.contains((f[p], f[pos[j]])));
                assert(pos[i] < pos[j]);
                if j <= i {
                    assert(pos[j] <= pos[i]);
                }
            }
            assert forall|c: int, i: int, j: int|
                0 <= c < self.num_containers() && 0 <= i < r.len() && 0 <= j < r.len()
                    && #[trigger] self.state().hier.contains((container_key(c), key_of(r[i])))
                    && #[trigger] self.state().dep.contains((key_of(r[j]), container_key(c)))
                implies j < i by {
                lemma_container_fences(self.state(), n as int, c, key_of(r[i]), key_of(r[j]));
                let before = fence_before(n as int, c);
                assert(f.contains(before));
                let p = choose|p: int| 0 <= p < f.len() && f[p] == before;
                assert(os.dep.contains((f[pos[j]], f[p])));
                assert(os.dep.contains((f[p], f[pos[i]])));
                assert(pos[j] < pos[i]);
                if i <= j {
                    assert(pos[i] <= pos[j]);
                }
            }
        }
        proof {
            assert(is_acyclic(self.ordering_state().dep_nodes, self.ordering_state().dep));
        }
        Some(res)
    }

    /// The parts of the graph other than the dependency and hierarchy graphs are the same.
    pub closed spec fn same_nodes(&self, other: &Self) -> bool {
        &&& self.commands@ == other.commands@
        &&& self.containers@ == other.containers@
        &&& self.tags == other.tags
        &&& self.release@ == other.release@
    }

    /// A graph has the same nodes as itself.
    pub proof fn lemma_same_nodes_refl(a: &Self)
        ensures
            a.same_nodes(a),
    {
    }

    /// Having the same nodes is transitive.
    pub proof fn lemma_same_nodes_trans(a: &Self, b: &Self, c: &Self)
        requires
            a.same_nodes(b),
            b.same_nodes(c),
        ensures
            a.same_nodes(c),
    {
    }

    /// What the graph stores for its nodes.
    pub closed spec fn contents(&self) -> Contents<C, R> {
        Contents {
            commands: self.commands@.map_values(|n: CommandNode<C>| n.command),
            command_names: self.commands@.map_values(|n: CommandNode<C>| n.debug_name@),
            container_names: self.containers@.map_values(|n: ContainerNode| n.debug_name@),
            releases: self.release@,
        }
    }

    /// The contents of a graph are its commands, names and resources.
    pub proof fn lemma_contents(&self)
        ensures
            self.contents().commands.len() == self.num_commands(),
            self.contents().command_names.len() == self.num_commands(),
            self.contents().container_names.len() == self.num_containers(),
            forall|i: int| 0 <= i < self.num_commands() ==> #[trigger] self.contents().commands[i] == self.command_value(i),
            forall|i: int| 0 <= i < self.num_commands() ==> #[trigger] self.contents().command_names[i] == self.command_name(i),
            forall|i: int| 0 <= i < self.num_containers() ==> #[trigger] self.contents().container_names[i] == self.container_name(i),
            self.contents().releases == self.releases(),
    {
    }

    /// The command with index `i`.
    pub closed spec fn command_value(&self, i: int) -> C {
        self.commands@[i].command
    }

    /// The resources to release once the graph has run.
    pub closed spec fn releases(&self) -> Seq<R> {
        self.release@
    }

    /// The graph holds this handle.
    pub open spec fn valid_handle(&self, h: NodeHandle) -> bool {
        shape_holds(self.shape(), h)
    }

    /// `new` extends `self` by nodes: the same graphs, no fewer commands,
    /// containers or resources, and the old commands and resources unchanged.
    pub open spec fn grows_to(&self, new: &Self) -> bool {
        &&& new.wf()
        &&& new.state() == self.state()
        &&& self.num_commands() <= new.num_commands()
        &&& self.num_containers() <= new.num_containers()
        &&& forall|i: int| 0 <= i < self.num_commands() ==> #[trigger] new.command_value(i) == self.command_value(i)
        &&& new.releases().len() >= self.releases().len()
        &&& new.releases().take(self.releases().len() as int) == self.releases()
    }

    /// The handle that a single node gets: its own, a new command, the handle its
    /// tag already names, or a new container.
    pub open spec fn leaf_handle(&self, config: SingleConfig<C, R>) -> NodeHandle {
        step_handle(self.shape(), config)
    }

    /// Whether the node was found through its tag, which is then used up.
    pub open spec fn found_by_tag(&self, config: SingleConfig<C, R>) -> bool {
        step_found(self.shape(), config)
    }

    /// The tag that a single node would give its handle conflicts with the tags
    /// in the graph.
    pub open spec fn leaf_conflict(&self, config: SingleConfig<C, R>) -> bool {
        step_conflict(self.shape(), config)
    }

    /// The counts and tags of the graph, which adding single nodes reads and changes.
    pub open spec fn shape(&self) -> Shape {
        Shape {
            commands: self.num_commands(),
            containers: self.num_containers(),
            tags: self.tag_map().tags(),
            values: self.tag_map().values(),
        }
    }

    /// The two graphs hold the same containers, with the same names, the same
    /// edges and the same tags, and neither holds commands or resources.
    pub open spec fn same_containers(&self, other: &Self) -> bool {
        &&& self.wf() && other.wf()
        &&& self.state() == other.state()
        &&& self.num_containers() == other.num_containers()
        &&& forall|i: int| 0 <= i < self.num_containers() ==> #[trigger] self.container_name(i) == other.container_name(i)
        &&& self.tag_map().tags() == other.tag_map().tags()
        &&& self.tag_map().values() == other.tag_map().values()
        &&& self.num_commands() == 0 && other.num_commands() == 0
        &&& self.releases().len() == 0 && other.releases().len() == 0
    }

    /// A copy of a graph that holds containers only.
    pub fn duplicate(&self) -> (r: Self)
        requires
            self.wf(),
            self.num_commands() == 0,
            self.releases().len() == 0,
        ensures
            r.same_containers(self),
    {
        let mut containers: Vec<ContainerNode> = Vec::new();
        let mut i: usize = 0;
        while i < self.containers.len()
            invariant
                i <= self.containers@.len(),
                containers@.len() == i,
                forall|k: int| 0 <= k < i ==> (#[trigger] containers@[k]).debug_name@ == self.containers@[k].debug_name@,
            decreases self.containers@.len() - i,
        {
            containers.push(ContainerNode { debug_name: self.containers[i].debug_name.clone() });
            i = i + 1;
        }
        let r = ComputeGraph {
            tags: self.tags.duplicate(),
            commands: Vec::new(),
            containers,
            hierarchy: graph_clone(&self.hierarchy),
            dependency: graph_clone(&self.dependency),
            release: Vec::new(),
        };
        assert forall|k: int| 0 <= k < r.num_containers() implies #[trigger] r.container_name(k)
            == self.container_name(k) by {}
        r
    }

    /// Sets the debugging name of a node.
    pub fn set_debug(&mut self, handle: NodeHandle, name: String)
        requires
            old(self).valid_handle(handle),
        ensures
            final(self).wf() == old(self).wf(),
            final(self).state() == old(self).state(),
            final(self).tag_map() == old(self).tag_map(),
            final(self).num_commands() == old(self).num_commands(),
            final(self).num_containers() == old(self).num_containers(),
            final(self).releases() == old(self).releases(),
            forall|i: int| 0 <= i < old(self).num_commands() ==> #[trigger] final(self).command_value(i)
                == old(self).command_value(i),
            match handle {
                NodeHandle::Container(i) => final(self).container_name(i as int) == name@,
                NodeHandle::Command(i) => final(self).command_name(i as int) == name@,
            },
            forall|i: int|
                0 <= i < old(self).num_commands() && handle != NodeHandle::Command(i as usize)
                    ==> #[trigger] final(self).command_name(i) == old(self).command_name(i),
            final(self).contents() == (match handle {
                NodeHandle::Command(i) => Contents {
                    command_names: old(self).contents().command_names.update(i as int, name@),
                    ..old(self).contents()
                },
                NodeHandle::Container(i) => Contents {
                    container_names: old(self).contents().container_names.update(i as int, name@),
                    ..old(self).contents()
                },
            }),
            forall|i: int|
                0 <= i < old(self).num_containers() && handle != NodeHandle::Container(i as usize)
                    ==> #[trigger] final(self).container_name(i) == old(self).container_name(i),
    {
        let ghost c0 = self.contents();
        match handle {
            NodeHandle::Container(idx) => {
                self.containers[idx].debug_name = name;
                assert(self.contents().container_names =~= c0.container_names.update(idx as int, name@));
                assert(self.contents().commands =~= c0.commands);
                assert(self.contents().command_names =~= c0.command_names);
            },
            NodeHandle::Command(idx) => {
                self.commands[idx].debug_name = name;
                assert(self.contents().command_names =~= c0.command_names.update(idx as int, name@));
                assert(self.contents().commands =~= c0.commands);
                assert(self.contents().container_names =~= c0.container_names);
            },
        }
    }

    /// Gives a single node its handle, creating a command or a container where
    /// needed, and records its tag, debugging name and resource.
    fn add_single_node(&mut self, config: &mut SingleConfig<C, R>) -> (r: Result<(), GraphError>)
        requires
            old(self).wf(),
        ensures
            r is Ok ==> old(self).grows_to(final(self)),
            outcome(r, final(self).shape()) == add_step(old(self).shape(), *old(config)),
            r is Ok ==> final(self).contents() == contents_step(old(self).shape(), old(self).contents(), *old(config)),
            r == Err::<(), GraphError>(GraphError::TagConflict) <==> old(self).leaf_conflict(*old(config)),
            r == Err::<(), GraphError>(GraphError::InvalidHandle) <==> !old(self).leaf_conflict(*old(config))
                && old(config).debug_name is Some && !old(self).valid_handle(
                old(self).leaf_handle(*old(config)),
            ) && !(old(config).handle is None && (old(config).command is Some || !old(
                self,
            ).found_by_tag(*old(config)))),
            r is Ok ==> {
                let h = old(self).leaf_handle(*old(config));
                let new_command = old(config).handle is None && old(config).command is Some;
                let new_container = old(config).handle is None && old(config).command is None
                    && !old(self).found_by_tag(*old(config));
                &&& final(config).handle == Some(h)
                &&& final(config).tag is None
                &&& final(config).debug_name is None
                &&& final(config).release is None
                &&& final(config).command == (if old(config).handle is None {
                    None
                } else {
                    old(config).command
                })
                &&& final(self).num_commands() == old(self).num_commands() + (if new_command {
                    1int
                } else {
                    0
                })
                &&& final(self).num_containers() == old(self).num_containers() + (if new_container {
                    1int
                } else {
                    0
                })
                &&& new_command ==> final(self).command_value(old(self).num_commands() as int)
                    == old(config).command.unwrap()
                &&& (new_command || new_container || old(self).valid_handle(h)) ==> final(self).valid_handle(h)
                &&& (old(config).tag is Some && !old(self).found_by_tag(*old(config))
                    && !old(self).tag_map().tags().contains_key(h)) ==> {
                    &&& final(self).tag_map().tags() == old(self).tag_map().tags_after_insert(
                        old(config).tag.unwrap(),
                        h,
                    )
                    &&& final(self).tag_map().values() == old(self).tag_map().values().insert(
                        old(config).tag.unwrap(),
                        h,
                    )
                }
                &&& !(old(config).tag is Some && !old(self).found_by_tag(*old(config))
                    && !old(self).tag_map().tags().contains_key(h)) ==> final(self).tag_map().tags()
                    == old(self).tag_map().tags() && final(self).tag_map().values()
                    == old(self).tag_map().values()
                &&& old(config).debug_name matches Some(name) ==> match h {
                    NodeHandle::Container(i) => final(self).container_name(i as int) == name@,
                    NodeHandle::Command(i) => final(self).command_name(i as int) == name@,
                }
                &&& final(self).releases() == (match old(config).release {
                    Some(x) => old(self).releases().push(x),
                    None => old(self).releases(),
                })
            },
    {
        let ghost g0 = *self;
        let h = match config.handle {
            Some(h) => h,
            None => {
                if config.command.is_some() {
                    let command = config.command.take().unwrap();
                    let h = NodeHandle::Command(self.commands.len());
                    self.commands.push(CommandNode { command, debug_name: String::new() });
                    assert(forall|i: int|
                        0 <= i < g0.num_commands() ==> #[trigger] self.command_value(i) == g0.command_value(i));
                    h
                } else {
                    let found = match config.tag {
                        Some(t) => self.tags.get_dyn(t),
                        None => None,
                    };
                    match found {
                        Some(h) => {
                            config.tag = None;
                            h
                        },
                        None => {
                            let h = NodeHandle::Container(self.containers.len());
                            self.containers.push(ContainerNode { debug_name: String::new() });
                            h
                        },
                    }
                }
            },
        };
        assert(h == g0.leaf_handle(*old(config)));
        assert(forall|i: int| 0 <= i < g0.num_commands() ==> #[trigger] self.command_value(i) == g0.command_value(i));
        let ghost made = {
            let c0 = g0.contents();
            let oc = *old(config);
            Contents {
                commands: if step_new_command(oc) { c0.commands.push(oc.command.unwrap()) } else { c0.commands },
                command_names: if step_new_command(oc) { c0.command_names.push(Seq::empty()) } else { c0.command_names },
                container_names: if step_new_container(g0.shape(), oc) {
                    c0.container_names.push(Seq::empty())
                } else {
                    c0.container_names
                },
                releases: c0.releases,
            }
        };
        proof {
            let c0 = g0.contents();
            let c1 = self.contents();
            assert(c1.commands =~= made.commands);
            assert(c1.command_names =~= made.command_names);
            assert(c1.container_names =~= made.container_names);
            assert(c1.releases =~= made.releases);
        }
        config.handle = Some(h);
        let ghost g1 = *self;
        if let Some(t) = config.tag.take() {
            if !self.tags.insert_dyn(t, h) {
                match self.tags.get_dyn(t) {
                    Some(h2) => {
                        if h2 != h {
                            return Err(GraphError::TagConflict);
                        }
                    },
                    None => {
                        return Err(GraphError::TagConflict);
                    },
                }
            }
        }
        let ghost g2 = *self;
        assert(forall|i: int| 0 <= i < g0.num_commands() ==> #[trigger] g2.command_value(i) == g0.command_value(i));
        if let Some(name) = config.debug_name.take() {
            let valid = match h {
                NodeHandle::Container(i) => i < self.containers.len(),
                NodeHandle::Command(i) => i < self.commands.len(),
            };
            if !valid {
                return Err(GraphError::InvalidHandle);
            }
            let ghost g3 = *self;
            self.set_debug(h, name);
            assert(forall|i: int|
                0 <= i < g3.num_commands() ==> #[trigger] self.command_value(i) == g3.command_value(i));
            assert(g3 == g2);
        }
        let ghost g4 = *self;
        assert(forall|i: int| 0 <= i < g2.num_commands() ==> #[trigger] g4.command_value(i) == g2.command_value(i));
        assert(forall|i: int| 0 <= i < g0.num_commands() ==> #[trigger] g4.command_value(i) == g0.command_value(i)) by {
            assert forall|i: int| 0 <= i < g0.num_commands() implies #[trigger] g4.command_value(i) == g0.command_value(i) by {
                assert(g2.command_value(i) == g0.command_value(i));
            }
        }
        proof {
            let oc = *old(config);
            let named = match (oc.debug_name, h) {
                (Some(n), NodeHandle::Command(i)) => Contents { command_names: made.command_names.update(i as int, n@), ..made },
                (Some(n), NodeHandle::Container(i)) => Contents { container_names: made.container_names.update(i as int, n@), ..made },
                _ => made,
            };
            assert(self.contents() == named);
        }
        let ghost g5 = *self;
        if let Some(release) = config.release.take() {
            self.release.push(release);
        }
        proof {
            let oc = *old(config);
            assert(self.contents().releases =~= (match oc.release {
                Some(x) => g5.contents().releases.push(x),
                None => g5.contents().releases,
            }));
            assert(self.contents().commands =~= g5.contents().commands);
            assert(self.contents().command_names =~= g5.contents().command_names);
            assert(self.contents().container_names =~= g5.contents().container_names);
        }
        proof {
            assert(self.release@.take(g0.release@.len() as int) =~= g0.release@);
            assert(self.wf());
            assert(self.state() == g0.state());
            assert forall|i: int| 0 <= i < g0.num_commands() implies #[trigger] self.command_value(i) == g0.command_value(i) by {
                assert(g4.command_value(i) == g0.command_value(i));
                assert(self.commands@ == g4.commands@);
            }
            assert(self.commands@ == g4.commands@);
            if old(config).handle is None && old(config).command is Some {
                assert(g4.command_value(g0.num_commands() as int) == g2.command_value(g0.num_commands() as int));
            }
        }
        Ok(())
    }

    proof fn lemma_grows_trans(a: &Self, b: &Self, c: &Self)
        requires
            a.grows_to(b),
            b.grows_to(c),
        ensures
            a.grows_to(c),
    {
        assert forall|i: int| 0 <= i < a.num_commands() implies #[trigger] c.command_value(i)
            == a.command_value(i) by {
            assert(c.command_value(i) == b.command_value(i));
        }
        assert(c.releases().take(a.releases().len() as int) =~= c.releases().take(
            b.releases().len() as int,
        ).take(a.releases().len() as int));
    }

    proof fn lemma_grows_refl(a: &Self)
        requires
            a.wf(),
        ensures
            a.grows_to(a),
    {
        assert(a.releases().take(a.releases().len() as int) =~= a.releases());
    }

    /// Gives every single node of the main tree its handle, from left to right.
    fn add_leaves(&mut self, cfg: &mut NodeConfigs<C, R>) -> (r: Result<(), GraphError>)
        requires
            old(self).wf(),
        ensures
            r is Ok ==> old(self).grows_to(final(self)) && same_shape(*old(cfg), *final(cfg))
                && main_handled(*final(cfg)) && height(*final(cfg)) == height(*old(cfg)) && refines(
                *old(cfg),
                *final(cfg),
            ),
            plain(*old(cfg)) ==> r is Ok,
            r is Ok && plain(*old(cfg)) ==> plain(*final(cfg)),
            outcome(r, final(self).shape()) == add_run(old(self).shape(), main_leaves(*old(cfg))),
            r is Ok ==> target_leaves(*final(cfg)) == target_leaves(*old(cfg)),
            r is Ok ==> handles(*final(cfg)) == run_handles(old(self).shape(), main_leaves(*old(cfg))),
            r is Ok ==> final(self).contents() == run_contents(
                old(self).shape(),
                old(self).contents(),
                main_leaves(*old(cfg)),
            ),
            r is Ok ==> leaf_handles(main_leaves(*final(cfg))) == somes(
                run_handles(old(self).shape(), main_leaves(*old(cfg))),
            ),
        decreases *old(cfg),
    {
        proof {
            lemma_refines_refl(*cfg);
        }
        match cfg {
            NodeConfigs::Single { config, .. } => {
                let ghost c0 = *config;
                let ghost g = *self;
                let r = self.add_single_node(config);
                proof {
                    lemma_run_one(g.shape(), c0);
                    lemma_run_contents_one(g.shape(), g.contents(), c0);
                    assert(leaf_handles(seq![*config]) =~= seq![config.handle]);
                    assert(somes(seq![step_handle(g.shape(), c0)]) =~= seq![Some(step_handle(g.shape(), c0))]);
                    if plain(*old(cfg)) {
                        assert(c0.tag is None && c0.debug_name is None);
                        assert(!g.leaf_conflict(c0));
                        assert(r != Err::<(), GraphError>(GraphError::TagConflict));
                        assert(r != Err::<(), GraphError>(GraphError::InvalidHandle));
                        match r {
                            Ok(_) => {},
                            Err(e) => {
                                match e {
                                    GraphError::TagConflict => {},
                                    GraphError::InvalidHandle => {},
                                }
                            },
                        }
                    }
                }
                r
            },
            NodeConfigs::Multiple { configs, .. } => {
                let ghost g0 = *self;
                let ghost old_configs = configs@;
                proof {
                    Self::lemma_grows_refl(self);
                    lemma_plain_all(old_configs, Seq::empty());
                    assert(old_configs.take(0) =~= Seq::<NodeConfigs<C, R>>::empty());
                    assert(configs@.take(0) =~= Seq::<NodeConfigs<C, R>>::empty());
                }
                let mut i: usize = 0;
                while i < configs.len()
                    invariant
                        *old(cfg) is Multiple,
                        (*old(cfg))->configs@ == old_configs,
                        configs@.len() == old_configs.len(),
                        i <= old_configs.len(),
                        forall|j: int|
                            0 <= j < i ==> same_shape(old_configs[j], #[trigger] configs@[j])
                                && main_handled(configs@[j]) && height(configs@[j]) == height(old_configs[j])
                                && refines(old_configs[j], configs@[j]) && (plain(old_configs[j]) ==> plain(
                                configs@[j],
                            )) && target_leaves(configs@[j]) == target_leaves(old_configs[j]),
                        add_run(g0.shape(), seq_main_leaves(old_configs.take(i as int))) == Ok::<
                            Shape,
                            GraphError,
                        >(self.shape()),
                        g0.shape() == old(self).shape(),
                        handles_seq(configs@.take(i as int)) == run_handles(
                            g0.shape(),
                            seq_main_leaves(old_configs.take(i as int)),
                        ),
                        self.contents() == run_contents(
                            g0.shape(),
                            g0.contents(),
                            seq_main_leaves(old_configs.take(i as int)),
                        ),
                        g0.contents() == old(self).contents(),
                        leaf_handles(seq_main_leaves(configs@.take(i as int))) == somes(
                            run_handles(g0.shape(), seq_main_leaves(old_configs.take(i as int))),
                        ),
                        seq_plain(old_configs) <==> forall|j: int|
                            0 <= j < old_configs.len() ==> plain(#[trigger] old_configs[j]),
                        forall|j: int| i <= j < old_configs.len() ==> #[trigger] configs@[j] == old_configs[j],
                        g0.grows_to(self),
                        self.wf(),
                    decreases old_configs.len() - i,
                {
                    proof {
                        assert(decreases_to!(*old(cfg) => (*old(cfg))->configs));
                        assert(decreases_to!((*old(cfg))->configs => old_configs));
                        assert(decreases_to!(old_configs => old_configs[i as int]));
                    }
                    let ghost g1 = *self;
                    let ghost prev = configs@;
                    let res = self.add_leaves(&mut configs[i]);
                    proof {
                        lemma_seq_main_leaves_take(old_configs, i as int);
                        lemma_run_concat(
                            g0.shape(),
                            seq_main_leaves(old_configs.take(i as int)),
                            main_leaves(old_configs[i as int]),
                        );
                    }
                    match res {
                        Err(e) => {
                            proof {
                                lemma_seq_main_err(g0.shape(), old_configs, i as int + 1, e);
                            }
                            return Err(e);
                        },
                        Ok(_) => {},
                    }
                    proof {
                        Self::lemma_grows_trans(&g0, &g1, self);
                        lemma_run_handles_concat(
                            g0.shape(),
                            seq_main_leaves(old_configs.take(i as int)),
                            main_leaves(old_configs[i as int]),
                        );
                        lemma_run_contents_concat(
                            g0.shape(),
                            g0.contents(),
                            seq_main_leaves(old_configs.take(i as int)),
                            main_leaves(old_configs[i as int]),
                        );
                        assert(configs@.take(i as int) =~= prev.take(i as int));
                        assert(configs@.take(i + 1).drop_last() =~= configs@.take(i as int));
                        assert(configs@.take(i + 1).last() == configs@[i as int]);
                        lemma_leaf_handles_concat(
                            seq_main_leaves(configs@.take(i as int)),
                            main_leaves(configs@[i as int]),
                        );
                        lemma_somes_concat(
                            run_handles(g0.shape(), seq_main_leaves(old_configs.take(i as int))),
                            run_handles(g1.shape(), main_leaves(old_configs[i as int])),
                        );
                    }
                    i = i + 1;
                }
                proof {
                    lemma_seq_same_all(old_configs, configs@);
                    lemma_seq_handled_all(configs@);
                    lemma_seq_height_eq(old_configs, configs@);
                    lemma_seq_refines_all(old_configs, configs@);
                    lemma_plain_all(configs@, Seq::empty());
                    assert(old_configs.take(old_configs.len() as int) =~= old_configs);
                    assert(configs@.take(configs@.len() as int) =~= configs@);
                    lemma_seq_target_leaves_eq(old_configs, configs@);
                }
                Ok(())
            },
        }
    }

    /// Gives every single node of the constraint targets of the main tree its handle.
    fn add_target_nodes(&mut self, cfg: &mut NodeConfigs<C, R>) -> (r: Result<(), GraphError>)
        requires
            old(self).wf(),
        ensures
            r is Ok ==> old(self).grows_to(final(self)) && same_main(*old(cfg), *final(cfg))
                && targets_handled(*final(cfg)) && refines(*old(cfg), *final(cfg)),
            plain(*old(cfg)) ==> r is Ok,
            outcome(r, final(self).shape()) == add_run(old(self).shape(), target_leaves(*old(cfg))),
            r is Ok ==> main_leaves(*final(cfg)) == main_leaves(*old(cfg)),
            r is Ok ==> final(self).contents() == run_contents(
                old(self).shape(),
                old(self).contents(),
                target_leaves(*old(cfg)),
            ),
            r is Ok ==> leaf_handles(target_leaves(*final(cfg))) == somes(
                run_handles(old(self).shape(), target_leaves(*old(cfg))),
            ),
        decreases height(*old(cfg)), 1nat,
    {
        proof {
            lemma_refines_refl(*cfg);
        }
        match cfg {
            NodeConfigs::Single { config, constraints } => {
                self.add_cons_nodes(constraints)
            },
            NodeConfigs::Multiple { configs, chain, constraints } => {
                let ghost g0 = *self;
                let ghost old_configs = configs@;
                proof {
                    Self::lemma_grows_refl(self);
                    lemma_plain_all(old_configs, Seq::empty());
                    assert(old_configs.take(0) =~= Seq::<NodeConfigs<C, R>>::empty());
                    assert(configs@.take(0) =~= Seq::<NodeConfigs<C, R>>::empty());
                }
                let mut i: usize = 0;
                while i < configs.len()
                    invariant
                        *old(cfg) is Multiple,
                        (*old(cfg))->configs@ == old_configs,
                        (*old(cfg))->Multiple_constraints@ == constraints@,
                        configs@.len() == old_configs.len(),
                        i <= old_configs.len(),
                        forall|j: int|
                            0 <= j < i ==> same_main(old_configs[j], #[trigger] configs@[j])
                                && targets_handled(configs@[j]) && refines(old_configs[j], configs@[j])
                                && main_leaves(configs@[j]) == main_leaves(old_configs[j]),
                        self.contents() == run_contents(
                            g0.shape(),
                            g0.contents(),
                            seq_target_leaves(old_configs.take(i as int)),
                        ),
                        g0.contents() == old(self).contents(),
                        leaf_handles(seq_target_leaves(configs@.take(i as int))) == somes(
                            run_handles(g0.shape(), seq_target_leaves(old_configs.take(i as int))),
                        ),
                        add_run(g0.shape(), seq_target_leaves(old_configs.take(i as int))) == Ok::<
                            Shape,
                            GraphError,
                        >(self.shape()),
                        g0.shape() == old(self).shape(),
                        seq_plain(old_configs) <==> forall|j: int|
                            0 <= j < old_configs.len() ==> plain(#[trigger] old_configs[j]),
                        forall|j: int| i <= j < old_configs.len() ==> #[trigger] configs@[j] == old_configs[j],
                        g0.grows_to(self),
                        self.wf(),
                    decreases old_configs.len() - i,
                {
                    proof {
                        lemma_seq_height(old_configs);
                        assert(height(old_configs[i as int]) < height(*old(cfg)));
                    }
                    let ghost g1 = *self;
                    let ghost prev = configs@;
                    let res = self.add_target_nodes(&mut configs[i]);
                    proof {
                        lemma_seq_target_leaves_take(old_configs, i as int);
                        lemma_run_concat(
                            g0.shape(),
                            seq_target_leaves(old_configs.take(i as int)),
                            target_leaves(old_configs[i as int]),
                        );
                    }
                    match res {
                        Err(e) => {
                            proof {
                                lemma_seq_target_err(g0.shape(), old_configs, i as int + 1, e);
                                lemma_run_concat(
                                    g0.shape(),
                                    seq_target_leaves(old_configs),
                                    cons_leaves(constraints@),
                                );
                            }
                            return Err(e);
                        },
                        Ok(_) => {},
                    }
                    proof {
                        Self::lemma_grows_trans(&g0, &g1, self);
                        lemma_run_handles_concat(
                            g0.shape(),
                            seq_target_leaves(old_configs.take(i as int)),
                            target_leaves(old_configs[i as int]),
                        );
                        lemma_run_contents_concat(
                            g0.shape(),
                            g0.contents(),
                            seq_target_leaves(old_configs.take(i as int)),
                            target_leaves(old_configs[i as int]),
                        );
                        assert(configs@.take(i as int) =~= prev.take(i as int));
                        assert(configs@.take(i + 1).drop_last() =~= configs@.take(i as int));
                        assert(configs@.take(i + 1).last() == configs@[i as int]);
                        lemma_leaf_handles_concat(
                            seq_target_leaves(configs@.take(i as int)),
                            target_leaves(configs@[i as int]),
                        );
                        lemma_somes_concat(
                            run_handles(g0.shape(), seq_target_leaves(old_configs.take(i as int))),
                            run_handles(g1.shape(), target_leaves(old_configs[i as int])),
                        );
                    }
                    i = i + 1;
                }
                proof {
                    lemma_seq_same_all(old_configs, configs@);
                    lemma_seq_handled_all(configs@);
                    lemma_seq_refines_all(old_configs, configs@);
                    assert(configs@.take(configs@.len() as int) =~= configs@);
                    lemma_seq_main_leaves_eq(configs@, old_configs);
                }
                let ghost g2 = *self;
                let res = self.add_cons_nodes(constraints);
                proof {
                    assert(old_configs.take(old_configs.len() as int) =~= old_configs);
                    lemma_run_concat(g0.shape(), seq_target_leaves(old_configs), cons_leaves((*old(cfg))->Multiple_constraints@));
                }
                if res.is_err() {
                    return res;
                }
                proof {
                    Self::lemma_grows_trans(&g0, &g2, self);
                    lemma_run_handles_concat(
                        g0.shape(),
                        seq_target_leaves(old_configs),
                        cons_leaves((*old(cfg))->Multiple_constraints@),
                    );
                    lemma_run_contents_concat(
                        g0.shape(),
                        g0.contents(),
                        seq_target_leaves(old_configs),
                        cons_leaves((*old(cfg))->Multiple_constraints@),
                    );
                    lemma_leaf_handles_concat(seq_target_leaves(configs@), cons_leaves(constraints@));
                    lemma_somes_concat(
                        run_handles(g0.shape(), seq_target_leaves(old_configs)),
                        run_handles(g2.shape(), cons_leaves((*old(cfg))->Multiple_constraints@)),
                    );
                }
                Ok(())
            },
        }
    }

    /// Adds the nodes of every target of some constraints.
    fn add_cons_nodes(&mut self, cons: &mut Vec<(Constraint, NodeConfigs<C, R>)>) -> (r: Result<(), GraphError>)
        requires
            old(self).wf(),
        ensures
            r is Ok ==> old(self).grows_to(final(self)) && cons_handled(final(cons)@)
                && final(cons)@.len() == old(cons)@.len() && cons_refines(old(cons)@, final(cons)@),
            cons_plain(old(cons)@) ==> r is Ok,
            outcome(r, final(self).shape()) == add_run(old(self).shape(), cons_leaves(old(cons)@)),
            r is Ok ==> final(self).contents() == run_contents(
                old(self).shape(),
                old(self).contents(),
                cons_leaves(old(cons)@),
            ),
            r is Ok ==> leaf_handles(cons_leaves(final(cons)@)) == somes(
                run_handles(old(self).shape(), cons_leaves(old(cons)@)),
            ),
        decreases cons_height(old(cons)@), 0nat,
    {
        let ghost g0 = *self;
        let ghost old_cons = cons@;
        proof {
            Self::lemma_grows_refl(self);
            lemma_plain_all(Seq::<NodeConfigs<C, R>>::empty(), old_cons);
            assert(old_cons.take(0) =~= Seq::<(Constraint, NodeConfigs<C, R>)>::empty());
            assert(cons@.take(0) =~= Seq::<(Constraint, NodeConfigs<C, R>)>::empty());
        }
        let mut i: usize = 0;
        while i < cons.len()
            invariant
                old(cons)@ == old_cons,
                cons@.len() == old_cons.len(),
                i <= old_cons.len(),
                forall|j: int| 0 <= j < i ==> handled(#[trigger] cons@[j].1),
                forall|j: int|
                    0 <= j < i ==> (#[trigger] cons@[j]).0 == old_cons[j].0 && refines(old_cons[j].1, cons@[j].1),
                cons_plain(old_cons) <==> forall|j: int| 0 <= j < old_cons.len() ==> plain(#[trigger] old_cons[j].1),
                forall|j: int| i <= j < old_cons.len() ==> #[trigger] cons@[j] == old_cons[j],
                g0.grows_to(self),
                self.wf(),
                add_run(g0.shape(), cons_leaves(old_cons.take(i as int))) == Ok::<Shape, GraphError>(
                    self.shape(),
                ),
                self.contents() == run_contents(g0.shape(), g0.contents(), cons_leaves(old_cons.take(i as int))),
                g0.contents() == old(self).contents(),
                leaf_handles(cons_leaves(cons@.take(i as int))) == somes(
                    run_handles(g0.shape(), cons_leaves(old_cons.take(i as int))),
                ),
                g0.shape() == old(self).shape(),
            decreases old_cons.len() - i,
        {
            proof {
                lemma_cons_height(old_cons);
                assert(height(old_cons[i as int].1) < cons_height(old_cons));
            }
            let ghost g1 = *self;
            let ghost prev = cons@;
            let res = self.add_nodes(&mut cons[i].1);
            proof {
                lemma_cons_leaves_take(old_cons, i as int);
                lemma_run_concat(g0.shape(), cons_leaves(old_cons.take(i as int)), node_leaves(old_cons[i as int].1));
            }
            match res {
                Err(e) => {
                    proof {
                        lemma_cons_err(g0.shape(), old_cons, i as int + 1, e);
                    }
                    return Err(e);
                },
                Ok(_) => {},
            }
            proof {
                Self::lemma_grows_trans(&g0, &g1, self);
                lemma_run_handles_concat(
                    g0.shape(),
                    cons_leaves(old_cons.take(i as int)),
                    node_leaves(old_cons[i as int].1),
                );
                lemma_run_contents_concat(
                    g0.shape(),
                    g0.contents(),
                    cons_leaves(old_cons.take(i as int)),
                    node_leaves(old_cons[i as int].1),
                );
                assert(cons@.take(i as int) =~= prev.take(i as int));
                assert(cons@.take(i + 1).drop_last() =~= cons@.take(i as int));
                assert(cons@.take(i + 1).last() == cons@[i as int]);
                lemma_leaf_handles_concat(cons_leaves(cons@.take(i as int)), node_leaves(cons@[i as int].1));
                lemma_somes_concat(
                    run_handles(g0.shape(), cons_leaves(old_cons.take(i as int))),
                    run_handles(g1.shape(), node_leaves(old_cons[i as int].1)),
                );
            }
            i = i + 1;
        }
        proof {
            lemma_cons_handled_all(cons@);
            lemma_cons_refines_all(old_cons, cons@);
            assert(old_cons.take(old_cons.len() as int) =~= old_cons);
            assert(cons@.take(cons@.len() as int) =~= cons@);
        }
        Ok(())
    }

    /// Gives every single node of a configuration, constraint targets included,
    /// its handle: first the main tree, then the targets.
    fn add_nodes(&mut self, cfg: &mut NodeConfigs<C, R>) -> (r: Result<(), GraphError>)
        requires
            old(self).wf(),
        ensures
            r is Ok ==> old(self).grows_to(final(self)) && handled(*final(cfg)) && leaf_count(*old(cfg))
                == leaf_count(*final(cfg)) && handles(*final(cfg)).len() == leaf_count(*final(cfg)) && refines(
                *old(cfg),
                *final(cfg),
            ),
            plain(*old(cfg)) ==> r is Ok,
            outcome(r, final(self).shape()) == add_run(old(self).shape(), node_leaves(*old(cfg))),
            r is Ok ==> handles(*final(cfg)) == run_handles(old(self).shape(), main_leaves(*old(cfg))),
            r is Ok ==> final(self).contents() == run_contents(
                old(self).shape(),
                old(self).contents(),
                node_leaves(*old(cfg)),
            ),
            r is Ok ==> leaf_handles(node_leaves(*final(cfg))) == somes(
                run_handles(old(self).shape(), node_leaves(*old(cfg))),
            ),
            r is Ok ==> final(self).releases() == old(self).releases() + leaf_releases(node_leaves(*old(cfg))),
            r is Ok ==> final(self).num_commands() == old(self).num_commands() + leaf_commands(
                node_leaves(*old(cfg)),
            ).len(),
            r is Ok ==> forall|i: int|
                0 <= i < leaf_commands(node_leaves(*old(cfg))).len() ==> #[trigger] final(self).command_value(
                    old(self).num_commands() + i,
                ) == leaf_commands(node_leaves(*old(cfg)))[i],
        decreases height(*old(cfg)), 2nat,
    {
        let ghost g0 = *self;
        let ghost c0 = *cfg;
        let res = self.add_leaves(cfg);
        proof {
            lemma_run_concat(g0.shape(), main_leaves(c0), target_leaves(c0));
        }
        if res.is_err() {
            return res;
        }
        let ghost g1 = *self;
        let ghost c1 = *cfg;
        let res = self.add_target_nodes(cfg);
        if res.is_err() {
            return res;
        }
        proof {
            Self::lemma_grows_trans(&g0, &g1, self);
            lemma_same_main_handled(c1, *cfg);
            lemma_handled_parts(*cfg);
            lemma_same_shape_count(c0, c1);
            lemma_same_shape_count(c1, *cfg);
            lemma_refines_trans(c0, c1, *cfg);
            lemma_run_handles_concat(g0.shape(), main_leaves(c0), target_leaves(c0));
            lemma_run_contents_concat(g0.shape(), g0.contents(), main_leaves(c0), target_leaves(c0));
            lemma_leaf_handles_concat(main_leaves(*cfg), target_leaves(*cfg));
            lemma_somes_concat(
                run_handles(g0.shape(), main_leaves(c0)),
                run_handles(g1.shape(), target_leaves(c0)),
            );
            lemma_run_contents_appends(g0.shape(), g0.contents(), node_leaves(c0));
            g0.lemma_contents();
            self.lemma_contents();
            let added = leaf_commands(node_leaves(c0));
            assert forall|i: int| 0 <= i < added.len() implies #[trigger] self.command_value(
                g0.num_commands() + i,
            ) == added[i] by {
                assert(self.contents().commands[g0.num_commands() + i] == self.command_value(
                    g0.num_commands() + i,
                ));
            }
        }
        Ok(())
    }

    /// Adds the edges of the constraints `cons` of a node whose handles are `own`.
    fn add_constraint_edges(
        &mut self,
        own: &Vec<NodeHandle>,
        cons: &Vec<(Constraint, NodeConfigs<C, R>)>,
    )
        requires
            cons_handled(cons@),
        ensures
            final(self).state() == with_edges(
                old(self).state(),
                cons_edges(own@, cons@).0,
                cons_edges(own@, cons@).1,
            ),
            final(self).same_nodes(old(self)),
        decreases cons,
    {
        let mut i: usize = 0;
        proof {
            lemma_with_no_edges(self.state());
            assert(cons@.take(0) =~= Seq::<(Constraint, NodeConfigs<C, R>)>::empty());
        }
        while i < cons.len()
            invariant
                i <= cons@.len(),
                cons_handled(cons@),
                self.state() == with_edges(
                    old(self).state(),
                    cons_edges(own@, cons@.take(i as int)).0,
                    cons_edges(own@, cons@.take(i as int)).1,
                ),
                self.same_nodes(old(self)),
            decreases cons@.len() - i,
        {
            proof {
                lemma_cons_handled_at(cons@, i as int);
            }
            let kind = cons[i].0;
            let ghost before = self.state();
            assert(decreases_to!(cons => cons@[i as int].1));
            let targets = self.add_constraints(&cons[i].1);
            let ghost mid = self.state();
            match kind {
                Constraint::Before => add_pairs(&mut self.dependency, own, &targets),
                Constraint::After => add_pairs(&mut self.dependency, &targets, own),
                Constraint::Contains => add_pairs(&mut self.hierarchy, own, &targets),
                Constraint::Within => add_pairs(&mut self.hierarchy, &targets, own),
            }
            proof {
                let t = cons@[i as int].1;
                let te = cfg_edges(t);
                let cd = config::constraint_dep(kind, own@, handles(t));
                let chh = config::constraint_hier(kind, own@, handles(t));
                assert(self.state() == with_edges(mid, cd, chh)) by {
                    assert(ends(Set::<(NodeKey, NodeKey)>::empty()) =~= Set::<NodeKey>::empty());
                    assert(self.state().dep_nodes =~= with_edges(mid, cd, chh).dep_nodes);
                    assert(self.state().dep =~= with_edges(mid, cd, chh).dep);
                    assert(self.state().hier_nodes =~= with_edges(mid, cd, chh).hier_nodes);
                    assert(self.state().hier =~= with_edges(mid, cd, chh).hier);
                }
                let prev = cons_edges(own@, cons@.take(i as int));
                lemma_with_edges_twice(old(self).state(), prev.0, prev.1, te.0, te.1);
                lemma_with_edges_twice(old(self).state(), prev.0 + te.0, prev.1 + te.1, cd, chh);
                lemma_take_last(cons@, i as int);
            }
            i = i + 1;
        }
        assert(cons@.take(cons@.len() as int) =~= cons@);
    }

    /// Adds the edges of a configuration whose nodes all have handles, returning
    /// the handles that the configuration stands for.
    fn add_constraints(&mut self, cfg: &NodeConfigs<C, R>) -> (r: Vec<NodeHandle>)
        requires
            handled(*cfg),
        ensures
            r@ == handles(*cfg),
            final(self).state() == with_edges(old(self).state(), cfg_edges(*cfg).0, cfg_edges(*cfg).1),
            final(self).same_nodes(old(self)),
        decreases cfg,
    {
        match cfg {
            NodeConfigs::Single { config, constraints } => {
                let nodes = vec![config.handle.unwrap()];
                assert(nodes@ =~= handles(*cfg));
                self.add_constraint_edges(&nodes, constraints);
                nodes
            },
            NodeConfigs::Multiple { configs, chain, constraints } => {
                let mut children: Vec<Vec<NodeHandle>> = Vec::new();
                let mut nodes: Vec<NodeHandle> = Vec::new();
                let mut i: usize = 0;
                proof {
                    lemma_with_no_edges(self.state());
                    assert(configs@.take(0) =~= Seq::<NodeConfigs<C, R>>::empty());
                }
                while i < configs.len()
                    invariant
                        i <= configs@.len(),
                        *cfg is Multiple,
                        (*cfg)->configs == *configs,
                        seq_handled(configs@),
                        children@.len() == i,
                        forall|j: int| 0 <= j < i ==> (#[trigger] children@[j])@ == handles(configs@[j]),
                        nodes@ == handles_seq(configs@.take(i as int)),
                        self.state() == with_edges(
                            old(self).state(),
                            seq_edges(configs@.take(i as int)).0,
                            seq_edges(configs@.take(i as int)).1,
                        ),
                        self.same_nodes(old(self)),
                    decreases configs@.len() - i,
                {
                    proof {
                        lemma_seq_handled_at(configs@, i as int);
                    }
                    proof {
                        assert(*configs == (*cfg)->configs);
                        assert(decreases_to!(*cfg => (*cfg)->configs));
                        assert(decreases_to!(*configs => configs@));
                        assert(decreases_to!(configs@ => configs@[i as int]));
                    }
                    let hs = self.add_constraints(&configs[i]);
                    let mut k: usize = 0;
                    let ghost nodes0 = nodes@;
                    while k < hs.len()
                        invariant
                            k <= hs@.len(),
                            nodes@ == nodes0 + hs@.take(k as int),
                        decreases hs@.len() - k,
                    {
                        nodes.push(hs[k]);
                        assert(hs@.take(k + 1) =~= hs@.take(k as int).push(hs@[k as int]));
                        k = k + 1;
                    }
                    proof {
                        assert(hs@.take(hs@.len() as int) =~= hs@);
                        let prev = seq_edges(configs@.take(i as int));
                        let ce = cfg_edges(configs@[i as int]);
                        lemma_with_edges_twice(old(self).state(), prev.0, prev.1, ce.0, ce.1);
                        lemma_take_last(configs@, i as int);
                    }
                    children.push(hs);
                    i = i + 1;
                }
                assert(configs@.take(configs@.len() as int) =~= configs@);
                let ghost after_children = self.state();
                if *chain && configs.len() >= 2 {
                    let mut w: usize = 0;
                    assert(configs@.take(1) =~= seq![configs@[0]]);
                    assert(chain_edges(configs@.take(1)) =~= Set::<(NodeKey, NodeKey)>::empty());
                    proof {
                        lemma_with_no_edges(self.state());
                    }
                    while w < configs.len() - 1
                        invariant
                            configs@.len() >= 2,
                            w + 1 <= configs@.len(),
                            children@.len() == configs@.len(),
                            forall|j: int|
                                0 <= j < configs@.len() ==> (#[trigger] children@[j])@ == handles(configs@[j]),
                            self.state() == with_edges(
                                after_children,
                                chain_edges(configs@.take(w + 1)),
                                Set::empty(),
                            ),
                            self.same_nodes(old(self)),
                        decreases configs@.len() - w,
                    {
                        add_pairs(&mut self.dependency, &children[w], &children[w + 1]);
                        proof {
                            let t = configs@.take(w + 2);
                            assert(t.drop_last() =~= configs@.take(w + 1));
                            assert(t[t.len() - 2] == configs@[w as int]);
                            assert(t[t.len() - 1] == configs@[w + 1]);
                            let pe = pairs(handles(configs@[w as int]), handles(configs@[w + 1]));
                            assert(chain_edges(t) == chain_edges(configs@.take(w + 1)) + pe);
                            lemma_with_edges_twice(
                                after_children,
                                chain_edges(configs@.take(w + 1)),
                                Set::empty(),
                                pe,
                                Set::empty(),
                            );
                            assert(self.state().dep_nodes =~= with_edges(
                                after_children,
                                chain_edges(configs@.take(w + 1)) + pe,
                                Set::empty(),
                            ).dep_nodes);
                            assert(self.state().dep =~= with_edges(
                                after_children,
                                chain_edges(configs@.take(w + 1)) + pe,
                                Set::empty(),
                            ).dep);
                            assert(Set::<(NodeKey, NodeKey)>::empty() + Set::<(NodeKey, NodeKey)>::empty()
                                =~= Set::<(NodeKey, NodeKey)>::empty());
                        }
                        w = w + 1;
                    }
                    assert(configs@.take(configs@.len() as int) =~= configs@);
                } else {
                    proof {
                        lemma_with_no_edges(self.state());
                        if *chain {
                            assert(chain_edges(configs@) =~= Set::<(NodeKey, NodeKey)>::empty());
                        }
                    }
                }
                let ghost ch = if *chain {
                    chain_edges(configs@)
                } else {
                    Set::<(NodeKey, NodeKey)>::empty()
                };
                assert(self.state() == with_edges(after_children, ch, Set::empty()));
                assert(nodes@ == handles(*cfg));
                let ghost after_chain = self.state();
                self.add_constraint_edges(&nodes, constraints);
                proof {
                    let c = seq_edges(configs@);
                    let k = cons_edges(handles(*cfg), constraints@);
                    lemma_with_edges_twice(old(self).state(), c.0, c.1, ch, Set::empty());
                    lemma_with_edges_twice(old(self).state(), c.0 + ch, c.1 + Set::empty(), k.0, k.1);
                    assert(c.1 + Set::empty() =~= c.1);
                }
                nodes
            },
        }
    }

    /// Adds the nodes and constraints of `cfg`, returning the handles it stands for.
    ///
    /// The single nodes are added one by one, in the order of `node_leaves`:
    /// each takes its own handle, a new command, the node its tag names, or a
    /// new container (`step_handle`), and the handles returned are those of
    /// the main tree. Each new command slot holds the command of its node,
    /// each handle takes the debugging name of its node where one is given,
    /// and each node's release goes to the end of the graph's releases, in
    /// order (`run_contents`).
    /// The first whose tag conflicts with the tag its handle already carries, or
    /// whose debugging name is given to a handle that the graph does not hold,
    /// stops the addition with that error, and leaves the graph in an
    /// unspecified state.
    pub fn add_handles(&mut self, cfg: NodeConfigs<C, R>) -> (r: Result<Vec<NodeHandle>, GraphError>)
        requires
            old(self).wf(),
        ensures
            plain(cfg) ==> r is Ok,
            outcome(r, final(self).shape()) == add_run(old(self).shape(), node_leaves(cfg)),
            r matches Ok(hs) ==> hs@ == run_handles(old(self).shape(), main_leaves(cfg)),
            r is Ok ==> final(self).contents() == run_contents(old(self).shape(), old(self).contents(), node_leaves(cfg)),
            r is Ok ==> final(self).releases() == old(self).releases() + leaf_releases(node_leaves(cfg)),
            r is Ok ==> final(self).num_commands() == old(self).num_commands() + leaf_commands(node_leaves(cfg)).len(),
            r is Ok ==> forall|i: int|
                0 <= i < leaf_commands(node_leaves(cfg)).len() ==> #[trigger] final(self).command_value(
                    old(self).num_commands() + i,
                ) == leaf_commands(node_leaves(cfg))[i],
            r matches Ok(hs) ==> {
                &&& final(self).wf()
                &&& hs@.len() == leaf_count(cfg)
                &&& old(self).num_commands() <= final(self).num_commands()
                &&& old(self).num_containers() <= final(self).num_containers()
                &&& forall|i: int|
                    0 <= i < old(self).num_commands() ==> #[trigger] final(self).command_value(i)
                        == old(self).command_value(i)
                &&& exists|done: NodeConfigs<C, R>|
                    #![trigger handles(done)]
                    handled(done) && refines(cfg, done) && leaf_handles(node_leaves(done)) == somes(
                        run_handles(old(self).shape(), node_leaves(cfg)),
                    ) && hs@ == handles(done) && final(self).state()
                        == with_edges(old(self).state(), cfg_edges(done).0, cfg_edges(done).1)
                &&& handled(cfg) ==> hs@ == handles(cfg) && final(self).state() == with_edges(
                    old(self).state(),
                    cfg_edges(cfg).0,
                    cfg_edges(cfg).1,
                )
            },
    {
        let ghost c0 = cfg;
        let mut cfg = cfg;
        let ghost g0 = *self;
        let res = self.add_nodes(&mut cfg);
        match res {
            Err(e) => Err(e),
            Ok(()) => {
                let ghost g1 = *self;
                let hs = self.add_constraints(&cfg);
                proof {
                    if handled(c0) {
                        lemma_refines_edges(c0, cfg);
                    }
                }
                assert(g0.grows_to(&g1));
                assert(self.same_nodes(&g1));
                assert(forall|i: int|
                    0 <= i < g0.num_commands() ==> #[trigger] self.command_value(i) == g1.command_value(i));
                proof {
                    lemma_run_contents_appends(g0.shape(), g0.contents(), node_leaves(c0));
                    g0.lemma_contents();
                    self.lemma_contents();
                    let added = leaf_commands(node_leaves(c0));
                    assert forall|i: int| 0 <= i < added.len() implies #[trigger] self.command_value(
                        g0.num_commands() + i,
                    ) == added[i] by {
                        assert(self.contents().commands[g0.num_commands() + i] == self.command_value(
                            g0.num_commands() + i,
                        ));
                    }
                }
                Ok(hs)
            },
        }
    }

    /// Adds a configuration that stands for a single node, returning its handle.
    pub fn add_single(&mut self, cfg: NodeConfigs<C, R>) -> (r: Result<NodeHandle, GraphError>)
        requires
            old(self).wf(),
            leaf_count(cfg) == 1,
        ensures
            plain(cfg) ==> r is Ok,
            outcome(r, final(self).shape()) == add_run(old(self).shape(), node_leaves(cfg)),
            r matches Ok(h) ==> seq![h] == run_handles(old(self).shape(), main_leaves(cfg)),
            r is Ok ==> final(self).contents() == run_contents(old(self).shape(), old(self).contents(), node_leaves(cfg)),
            r is Ok ==> final(self).releases() == old(self).releases() + leaf_releases(node_leaves(cfg)),
            r is Ok ==> final(self).num_commands() == old(self).num_commands() + leaf_commands(node_leaves(cfg)).len(),
            r is Ok ==> forall|i: int|
                0 <= i < leaf_commands(node_leaves(cfg)).len() ==> #[trigger] final(self).command_value(
                    old(self).num_commands() + i,
                ) == leaf_commands(node_leaves(cfg))[i],
            r is Ok ==> forall|i: int|
                0 <= i < old(self).num_commands() ==> #[trigger] final(self).command_value(i) == old(self).command_value(i),
            r matches Ok(h) ==> {
                &&& final(self).wf()
                &&& old(self).num_commands() <= final(self).num_commands()
                &&& old(self).num_containers() <= final(self).num_containers()
                &&& exists|done: NodeConfigs<C, R>|
                    #![trigger handles(done)]
                    handled(done) && refines(cfg, done) && leaf_handles(node_leaves(done)) == somes(
                        run_handles(old(self).shape(), node_leaves(cfg)),
                    ) && handles(done) == seq![h] && final(self).state()
                        == with_edges(old(self).state(), cfg_edges(done).0, cfg_edges(done).1)
                &&& handled(cfg) ==> handles(cfg) == seq![h] && final(self).state() == with_edges(
                    old(self).state(),
                    cfg_edges(cfg).0,
                    cfg_edges(cfg).1,
                )
            },
    {
        match self.add_handles(cfg) {
            Err(e) => Err(e),
            Ok(hs) => {
                let h = hs[0];
                assert(hs@ =~= seq![h]);
                Ok(h)
            },
        }
    }

    /// Adds the nodes and constraints of `cfg`.
    pub fn add(&mut self, cfg: NodeConfigs<C, R>) -> (r: Result<(), GraphError>)
        requires
            old(self).wf(),
        ensures
            plain(cfg) ==> r is Ok,
            outcome(r, final(self).shape()) == add_run(old(self).shape(), node_leaves(cfg)),
            r is Ok ==> final(self).contents() == run_contents(old(self).shape(), old(self).contents(), node_leaves(cfg)),
            r is Ok ==> final(self).releases() == old(self).releases() + leaf_releases(node_leaves(cfg)),
            r is Ok ==> final(self).num_commands() == old(self).num_commands() + leaf_commands(node_leaves(cfg)).len(),
            r is Ok ==> forall|i: int|
                0 <= i < leaf_commands(node_leaves(cfg)).len() ==> #[trigger] final(self).command_value(
                    old(self).num_commands() + i,
                ) == leaf_commands(node_leaves(cfg))[i],
            r is Ok ==> forall|i: int|
                0 <= i < old(self).num_commands() ==> #[trigger] final(self).command_value(i) == old(self).command_value(i),
            r is Ok ==> {
                &&& final(self).wf()
                &&& old(self).num_commands() <= final(self).num_commands()
                &&& old(self).num_containers() <= final(self).num_containers()
                &&& exists|done: NodeConfigs<C, R>|
                    #![trigger handles(done)]
                    handled(done) && refines(cfg, done) && leaf_handles(node_leaves(done)) == somes(
                        run_handles(old(self).shape(), node_leaves(cfg)),
                    ) && final(self).state() == with_edges(
                        old(self).state(),
                        cfg_edges(done).0,
                        cfg_edges(done).1,
                    )
                &&& handled(cfg) ==> final(self).state() == with_edges(
                    old(self).state(),
                    cfg_edges(cfg).0,
                    cfg_edges(cfg).1,
                )
            },
    {
        match self.add_handles(cfg) {
            Err(e) => Err(e),
            Ok(_) => Ok(()),
        }
    }

    /// The node with the given tag, if any.
    pub fn handle(&self, tag: impl Tag) -> (r: Option<NodeHandle>)
        requires
            self.wf(),
        ensures
            r == (if self.tag_map().values().contains_key(tag.spec_dyn_tag()) {
                Some(self.tag_map().values()[tag.spec_dyn_tag()])
            } else {
                None::<NodeHandle>
            }),
    {
        self.tags.get(tag)
    }

    /// Empties the graph.
    pub fn clear(&mut self)
        ensures
            final(self).wf(),
            final(self).num_commands() == 0,
            final(self).num_containers() == 0,
            final(self).state().dep_nodes == Set::<NodeKey>::empty(),
            final(self).state().dep == Set::<(NodeKey, NodeKey)>::empty(),
            final(self).state().hier_nodes == Set::<NodeKey>::empty(),
            final(self).state().hier == Set::<(NodeKey, NodeKey)>::empty(),
            final(self).tag_map().tags() == Map::<NodeHandle, DynTag>::empty(),
            final(self).tag_map().values() == Map::<DynTag, NodeHandle>::empty(),
            final(self).releases().len() == 0,
    {
        *self = Self::new();
    }

    /// Adds a constraint between two nodes of the graph, as `add` does for
    /// `a` constrained against `b`: a dependency edge for `Before` and
    /// `After`, a hierarchy edge for `Contains` and `Within`.
    pub fn add_constraint(&mut self, a: NodeHandle, kind: Constraint, b: NodeHandle)
        requires
            old(self).wf(),
        ensures
            final(self).wf(),
            final(self).same_nodes(old(self)),
            final(self).releases() == old(self).releases(),
            final(self).tag_map() == old(self).tag_map(),
            final(self).state() == (match kind {
                Constraint::Before => with_edges(
                    old(self).state(),
                    set![(key_of(a), key_of(b))],
                    Set::<(NodeKey, NodeKey)>::empty(),
                ),
                Constraint::After => with_edges(
                    old(self).state(),
                    set![(key_of(b), key_of(a))],
                    Set::<(NodeKey, NodeKey)>::empty(),
                ),
                Constraint::Contains => with_edges(
                    old(self).state(),
                    Set::<(NodeKey, NodeKey)>::empty(),
                    set![(key_of(a), key_of(b))],
                ),
                Constraint::Within => with_edges(
                    old(self).state(),
                    Set::<(NodeKey, NodeKey)>::empty(),
                    set![(key_of(b), key_of(a))],
                ),
            }),
            final(self).num_commands() == old(self).num_commands(),
            final(self).num_containers() == old(self).num_containers(),
            forall|i: int|
                0 <= i < old(self).num_containers() ==> #[trigger] final(self).container_name(i)
                    == old(self).container_name(i),
            forall|i: int|
                0 <= i < old(self).num_commands() ==> #[trigger] final(self).command_value(i)
                    == old(self).command_value(i),
            final(self).tag_map() == old(self).tag_map(),
            final(self).releases() == old(self).releases(),
    {
        let ka = a.key();
        let kb = b.key();
        let ghost empty = Set::<(NodeKey, NodeKey)>::empty();
        proof {
            lemma_with_no_edges(self.state());
            lemma_ends_insert(empty, (ka, kb));
            lemma_ends_insert(empty, (kb, ka));
            assert(ends(empty) =~= Set::<NodeKey>::empty());
            assert(empty.insert((ka, kb)) =~= set![(ka, kb)]);
            assert(empty.insert((kb, ka)) =~= set![(kb, ka)]);
        }
        let ghost s0 = self.state();
        match kind {
            Constraint::Before => {
                graph_add_edge(&mut self.dependency, ka, kb);
            },
            Constraint::After => {
                graph_add_edge(&mut self.dependency, kb, ka);
            },
            Constraint::Contains => {
                graph_add_edge(&mut self.hierarchy, ka, kb);
            },
            Constraint::Within => {
                graph_add_edge(&mut self.hierarchy, kb, ka);
            },
        }
        proof {
            assert(self.state().dep_nodes =~= with_edges(s0, empty, empty).dep_nodes + (match kind {
                Constraint::Before => ends(set![(ka, kb)]),
                Constraint::After => ends(set![(kb, ka)]),
                _ => ends(empty),
            }));
            assert(self.state().hier_nodes =~= s0.hier_nodes + (match kind {
                Constraint::Contains => ends(set![(ka, kb)]),
                Constraint::Within => ends(set![(kb, ka)]),
                _ => ends(empty),
            }));
            assert(self.state().dep =~= s0.dep + (match kind {
                Constraint::Before => set![(ka, kb)],
                Constraint::After => set![(kb, ka)],
                _ => empty,
            }));
            assert(self.state().hier =~= s0.hier + (match kind {
                Constraint::Contains => set![(ka, kb)],
                Constraint::Within => set![(kb, ka)],
                _ => empty,
            }));
        }
    }

    /// Adds a new container, with a name for debugging.
    pub fn add_container(&mut self, name: String) -> (r: NodeHandle)
        requires
            old(self).wf(),
        ensures
            final(self).wf(),
            r == NodeHandle::Container(old(self).num_containers() as usize),
            final(self).num_containers() == old(self).num_containers() + 1,
            final(self).container_name(old(self).num_containers() as int) == name@,
            forall|i: int|
                0 <= i < old(self).num_containers() ==> #[trigger] final(self).container_name(i)
                    == old(self).container_name(i),
            final(self).num_commands() == old(self).num_commands(),
            forall|i: int|
                0 <= i < old(self).num_commands() ==> #[trigger] final(self).command_value(i)
                    == old(self).command_value(i),
            final(self).state() == old(self).state(),
            final(self).tag_map() == old(self).tag_map(),
            final(self).releases() == old(self).releases(),
    {
        let h = NodeHandle::Container(self.containers.len());
        self.containers.push(ContainerNode { debug_name: name });
        h
    }

    /// Consumes the graph, giving its commands in an order that respects every
    /// dependency, and the resources to release once they have run.
    pub fn execute(self) -> (r: Execution<C, R>)
        requires
            self.orderable(),
            self.commands_known(),
        ensures
            r.release@ == self.releases(),
            exists|order: Seq<NodeHandle>|
                #![trigger self.valid_order(order)]
                self.valid_order(order) && r.commands@.len() == order.len() && forall|k: int|
                    0 <= k < order.len() ==> #[trigger] r.commands@[k] == self.command_value(
                        order[k]->Command_0 as int,
                    ),
    {
        let order = self.order();
        assert(self.valid_order(order@));
        let ghost g = self;
        let ComputeGraph { commands, release, .. } = self;
        let n = commands.len();
        let mut commands = commands;
        let mut slots: Vec<Option<C>> = Vec::new();
        while commands.len() > 0
            invariant
                commands@.len() + slots@.len() == n,
                n == g.num_commands(),
                commands@ == g.commands@.take(commands@.len() as int),
                forall|j: int|
                    0 <= j < slots@.len() ==> #[trigger] slots@[j] == Some(g.command_value(n - 1 - j)),
            decreases commands@.len(),
        {
            let node = commands.pop().unwrap();
            proof {
                assert(g.commands@.take(commands@.len() as int) =~= g.commands@.take(
                    commands@.len() + 1int,
                ).drop_last());
            }
            slots.push(Some(node.command));
        }
        let mut out: Vec<C> = Vec::new();
        let mut k: usize = 0;
        while k < order.len()
            invariant
                g.valid_order(order@),
                g.commands_known(),
                n == g.num_commands(),
                slots@.len() == n,
                k <= order@.len(),
                out@.len() == k,
                forall|j: int| 0 <= j < k ==> #[trigger] out@[j] == g.command_value(order@[j]->Command_0 as int),
                forall|j: int|
                    k <= j < order@.len() ==> slots@[n - 1 - (order@[j]->Command_0 as int)] == Some(
                        g.command_value(order@[j]->Command_0 as int),
                    ),
            decreases order@.len() - k,
        {
            let h = order[k];
            let idx = match h {
                NodeHandle::Command(i) => i,
                NodeHandle::Container(i) => i,
            };
            proof {
                assert(order@[k as int] is Command);
                assert(g.ordering_state().dep_nodes.contains(key_of(order@[k as int])));
                assert(idx < n);
            }
            let c = slots[n - 1 - idx].take();
            proof {
                assert forall|j: int|
                    k + 1 <= j < order@.len() implies slots@[n - 1 - (order@[j]->Command_0 as int)]
                    == Some(g.command_value(order@[j]->Command_0 as int)) by {
                    assert(order@[j] != order@[k as int]);
                    assert(order@[j] is Command);
                }
            }
            out.push(c.unwrap());
            k = k + 1;
        }
        Execution { commands: out, release }
    }

    /// Consumes the graph as `execute` does, unless its dependencies make a
    /// cycle or name a command that it does not hold: the graph is then handed
    /// back unchanged.
    pub fn try_execute(self) -> (r: Result<Execution<C, R>, Self>)
        ensures
            r is Err <==> !(self.orderable() && self.commands_known()),
            r matches Err(g) ==> g == self,
            r matches Ok(ex) ==> {
                &&& ex.release@ == self.releases()
                &&& exists|order: Seq<NodeHandle>|
                    #![trigger self.valid_order(order)]
                    self.valid_order(order) && ex.commands@.len() == order.len() && forall|k: int|
                        0 <= k < order.len() ==> #[trigger] ex.commands@[k] == self.command_value(
                            order[k]->Command_0 as int,
                        )
            },
    {
        let order = match self.try_order() {
            None => {
                return Err(self);
            },
            Some(v) => v,
        };
        let n = self.commands.len();
        let mut i: usize = 0;
        while i < order.len()
            invariant
                i <= order@.len(),
                n == self.num_commands(),
                self.valid_order(order@),
                forall|k: int| 0 <= k < i ==> (#[trigger] order@[k])->Command_0 < n,
            decreases order@.len() - i,
        {
            assert(order@[i as int] is Command);
            let NodeHandle::Command(c) = order[i] else {
                return Err(self);
            };
            if c >= n {
                proof {
                    let k = key_of(order@[i as int]);
                    assert(self.ordering_state().dep_nodes.contains(k));
                    assert(k.0 == 1u8 && k.1 >= self.num_commands());
                }
                return Err(self);
            }
            i = i + 1;
        }
        proof {
            let os = self.ordering_state();
            let full = choose|full: Seq<NodeKey>|
                is_topological_order(full, os.dep_nodes, os.dep) && is_command_projection(order@, full);
            let pos = choose|pos: Seq<int>| projection_witness(order@, full, pos);
            assert forall|k: NodeKey| #[trigger] os.dep_nodes.contains(k) && k.0 == 1u8 implies k.1
                < self.num_commands() by {
                assert(full.contains(k));
                let p = choose|p: int| 0 <= p < full.len() && full[p] == k;
                assert(full[p].0 == 1u8);
                let kk = choose|kk: int| 0 <= kk < order@.len() && pos[kk] == p;
                assert(full[pos[kk]] == key_of(order@[kk]));
                assert(order@[kk] is Command);
                assert(order@[kk]->Command_0 < n);
            }
        }
        Ok(self.execute())
    }

    /// Executes the graph and leaves it empty.
    pub fn execute_clear(&mut self) -> (r: Execution<C, R>)
        requires
            old(self).orderable(),
            old(self).commands_known(),
        ensures
            r.release@ == old(self).releases(),
            exists|order: Seq<NodeHandle>|
                #![trigger old(self).valid_order(order)]
                old(self).valid_order(order) && r.commands@.len() == order.len() && forall|k: int|
                    0 <= k < order.len() ==> #[trigger] r.commands@[k] == old(self).command_value(
                        order[k]->Command_0 as int,
                    ),
            final(self).wf(),
            final(self).num_commands() == 0,
            final(self).num_containers() == 0,
            final(self).state().dep_nodes == Set::<NodeKey>::empty(),
            final(self).state().dep == Set::<(NodeKey, NodeKey)>::empty(),
            final(self).state().hier_nodes == Set::<NodeKey>::empty(),
            final(self).state().hier == Set::<(NodeKey, NodeKey)>::empty(),
            final(self).tag_map().tags() == Map::<NodeHandle, DynTag>::empty(),
            final(self).tag_map().values() == Map::<DynTag, NodeHandle>::empty(),
            final(self).releases().len() == 0,
    {
        let mut g = Self::new();
        std::mem::swap(self, &mut g);
        g.execute()
    }

    pub fn dependency(&self) -> (r: &DiGraph)
        ensures
            graph_nodes(*r) == self.state().dep_nodes,
            graph_edges(*r) == self.state().dep,
    {
        &self.dependency
    }

    pub fn hierarchy(&self) -> (r: &DiGraph)
        ensures
            graph_nodes(*r) == self.state().hier_nodes,
            graph_edges(*r) == self.state().hier,
    {
        &self.hierarchy
    }
}

} // verus!
