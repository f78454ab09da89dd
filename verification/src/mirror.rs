//! A compute graph that mirrors a schedule of systems: one named container
//! per system set and per system, the schedule's hierarchy as containment and
//! its dependencies as order, with maps from the schedule's nodes, sets and
//! system types to the containers; and the nodes that a system gives, placed
//! within the system's container.
use std::collections::HashMap;
use vstd::prelude::*;

use petgraph::Direction;

use crate::graph::config::{cfg_edges, handled, handles, keys, refines, Constraint, NodeConfigs};
use crate::graph::digraph::{graph_neighbors, NodeKey};
use crate::graph::leaves::{add_run, leaf_handles, node_leaves, run_handles, somes, Shape};
use crate::graph::{
    ends, key_of, lemma_ends_insert, lemma_with_edges_twice, out_nbrs, star_out, with_edges, ComputeGraph,
    Execution, GraphError, GraphState, NodeHandle,
};

verus! {

broadcast use vstd::std_specs::hash::group_hash_axioms;

/// A node of a schedule: its id, its key and its name. For a system set the
/// key identifies the set: two sets have the same key exactly when they are
/// the same set. For a system it is the id of the system's type.
pub struct ScheduleNode {
    pub node: u64,
    pub key: u64,
    pub name: String,
}

/// A schedule as plain values: its system sets, its systems, and the edges of
/// its hierarchy and dependency graphs between node ids.
pub struct ScheduleShape {
    pub sets: Vec<ScheduleNode>,
    pub systems: Vec<ScheduleNode>,
    pub hierarchy: Vec<(u64, u64)>,
    pub dependency: Vec<(u64, u64)>,
}

/// The map that a list of entries gives where a later entry for a key
/// replaces an earlier one.
pub open spec fn last_wins<V>(s: Seq<(u64, V)>) -> Map<u64, V>
    decreases s.len(),
{
    if s.len() == 0 {
        Map::empty()
    } else {
        last_wins(s.drop_last()).insert(s.last().0, s.last().1)
    }
}

/// The entries of some nodes with the containers that they get, numbered
/// from `first` on.
pub open spec fn numbered(nodes: Seq<ScheduleNode>, first: int, by_key: bool) -> Seq<(u64, NodeHandle)> {
    Seq::new(
        nodes.len(),
        |i: int| (if by_key { nodes[i].key } else { nodes[i].node }, NodeHandle::Container((first + i) as usize)),
    )
}

/// The container of each system type: the system's container where one
/// system has the type, none where several have.
pub open spec fn type_map(systems: Seq<ScheduleNode>, first: int) -> Map<u64, Option<NodeHandle>>
    decreases systems.len(),
{
    if systems.len() == 0 {
        Map::empty()
    } else {
        let before = type_map(systems.drop_last(), first);
        let t = systems.last().key;
        if before.contains_key(t) {
            before.insert(t, None)
        } else {
            before.insert(t, Some(NodeHandle::Container((first + systems.len() - 1) as usize)))
        }
    }
}

/// The edges between the containers of the nodes of some edges.
pub open spec fn mapped_edges(edges: Seq<(u64, u64)>, nodes: Map<u64, NodeHandle>) -> Set<(NodeKey, NodeKey)> {
    Set::new(
        |e: (NodeKey, NodeKey)|
            exists|j: int|
                0 <= j < edges.len() && e == (key_of(nodes[(#[trigger] edges[j]).0]), key_of(nodes[edges[j].1])),
    )
}

/// `after` is `before` with the edges `e` added: to the hierarchy for
/// `Contains`, to the dependencies otherwise.
pub open spec fn adds_edges(kind: Constraint, before: GraphState, after: GraphState, e: Set<(NodeKey, NodeKey)>) -> bool {
    if kind == Constraint::Contains {
        after == (GraphState { hier: before.hier + e, hier_nodes: before.hier_nodes + ends(e), ..before })
    } else {
        after == (GraphState { dep: before.dep + e, dep_nodes: before.dep_nodes + ends(e), ..before })
    }
}

/// Why the nodes of a system cannot be placed in a mirror.
#[derive(Debug, Clone, Copy, PartialEq, Eq, Structural)]
pub enum MirrorError {
    /// Adding the nodes to the graph failed.
    Graph(GraphError),
    /// The mirror has no container for the system's set.
    UnknownSet,
    /// The container of the system's set does not contain exactly one node.
    NotOneChild,
}

/// The handle that a graph key stands for.
pub open spec fn key_handle(k: NodeKey) -> NodeHandle {
    if k.0 == 1 {
        NodeHandle::Command(k.1)
    } else {
        NodeHandle::Container(k.1)
    }
}

/// A compute graph that mirrors a schedule.
pub struct MirrorGraph<C, R> {
    pub graph: ComputeGraph<C, R>,
    /// A copy of the graph as `init` left it, which `reinit` restores.
    pub cached_graph: Option<ComputeGraph<C, R>>,
    /// The container of each system set, by the set's key.
    pub set_map: HashMap<u64, NodeHandle>,
    /// The container of each system type: none where several systems have it.
    pub system_type_map: HashMap<u64, Option<NodeHandle>>,
    /// The container of each node of the schedule, by the node's id.
    pub node_map: HashMap<u64, NodeHandle>,
}

impl<C, R> MirrorGraph<C, R> {
    /// The graph is well formed, and so is the cached copy, which holds no
    /// command and nothing to release.
    pub open spec fn wf(&self) -> bool {
        &&& self.graph.wf()
        &&& (self.cached_graph matches Some(c) ==> c.wf() && c.num_commands() == 0 && c.releases().len() == 0)
    }

    /// An empty mirror.
    pub fn null() -> (r: Self)
        ensures
            r.wf(),
            r.graph.num_containers() == 0,
            r.graph.num_commands() == 0,
            r.set_map@ == Map::<u64, NodeHandle>::empty(),
            r.system_type_map@ == Map::<u64, Option<NodeHandle>>::empty(),
            r.node_map@ == Map::<u64, NodeHandle>::empty(),
            r.cached_graph is None,
    {
        let r = MirrorGraph {
            graph: ComputeGraph::new(),
            cached_graph: None,
            set_map: HashMap::new(),
            system_type_map: HashMap::new(),
            node_map: HashMap::new(),
        };
        r
    }

    /// A mirror of a schedule.
    pub fn new(schedule: &ScheduleShape) -> (r: Self)
        requires
            schedule.sets@.len() + schedule.systems@.len() <= usize::MAX,
            forall|j: int|
                0 <= j < schedule.hierarchy@.len() ==> last_wins(
                    numbered(schedule.sets@ + schedule.systems@, 0, false),
                ).contains_key((#[trigger] schedule.hierarchy@[j]).0) && last_wins(
                    numbered(schedule.sets@ + schedule.systems@, 0, false),
                ).contains_key(schedule.hierarchy@[j].1),
            forall|j: int|
                0 <= j < schedule.dependency@.len() ==> last_wins(
                    numbered(schedule.sets@ + schedule.systems@, 0, false),
                ).contains_key((#[trigger] schedule.dependency@[j]).0) && last_wins(
                    numbered(schedule.sets@ + schedule.systems@, 0, false),
                ).contains_key(schedule.dependency@[j].1),
        ensures
            r.mirrors(schedule),
    {
        let mut r = Self::null();
        r.init(schedule);
        r
    }

    /// The mirror holds exactly the schedule: a container per set and per
    /// system, in order, named after it; the maps from the node ids, the set
    /// keys and the system types; and the hierarchy and dependency edges
    /// between the containers of their nodes.
    pub open spec fn mirrors(&self, schedule: &ScheduleShape) -> bool {
        let all = schedule.sets@ + schedule.systems@;
        let nodes = last_wins(numbered(all, 0, false));
        let dep = mapped_edges(schedule.dependency@, nodes);
        let hier = mapped_edges(schedule.hierarchy@, nodes);
        &&& self.wf()
        &&& (self.cached_graph matches Some(c) && c.same_containers(&self.graph))
        &&& self.graph.num_containers() == all.len()
        &&& self.graph.num_commands() == 0
        &&& forall|i: int| 0 <= i < all.len() ==> #[trigger] self.graph.container_name(i) == all[i].name@
        &&& self.node_map@ == nodes
        &&& self.set_map@ == last_wins(numbered(schedule.sets@, 0, true))
        &&& self.system_type_map@ == type_map(schedule.systems@, schedule.sets@.len() as int)
        &&& self.graph.state() == (GraphState {
            dep_nodes: ends(dep),
            dep: dep,
            hier_nodes: ends(hier),
            hier: hier,
        })
    }

    /// Rebuilds the mirror from a schedule. Every edge of the schedule must
    /// join nodes that the schedule has.
    pub fn init(&mut self, schedule: &ScheduleShape)
        requires
            old(self).wf(),
            schedule.sets@.len() + schedule.systems@.len() <= usize::MAX,
            forall|j: int|
                0 <= j < schedule.hierarchy@.len() ==> last_wins(
                    numbered(schedule.sets@ + schedule.systems@, 0, false),
                ).contains_key((#[trigger] schedule.hierarchy@[j]).0) && last_wins(
                    numbered(schedule.sets@ + schedule.systems@, 0, false),
                ).contains_key(schedule.hierarchy@[j].1),
            forall|j: int|
                0 <= j < schedule.dependency@.len() ==> last_wins(
                    numbered(schedule.sets@ + schedule.systems@, 0, false),
                ).contains_key((#[trigger] schedule.dependency@[j]).0) && last_wins(
                    numbered(schedule.sets@ + schedule.systems@, 0, false),
                ).contains_key(schedule.dependency@[j].1),
        ensures
            final(self).mirrors(schedule),
    {
        let ghost all = schedule.sets@ + schedule.systems@;
        self.graph.clear();
        self.set_map = HashMap::new();
        self.system_type_map = HashMap::new();
        self.node_map = HashMap::new();
        let ns = schedule.sets.len();
        let mut i: usize = 0;
        while i < ns
            invariant
                ns == schedule.sets@.len(),
                all == schedule.sets@ + schedule.systems@,
                i <= ns,
                self.wf(),
                self.graph.num_containers() == i,
                self.graph.num_commands() == 0,
                self.graph.releases().len() == 0,
                self.graph.state().dep_nodes == Set::<NodeKey>::empty(),
                self.graph.state().dep == Set::<(NodeKey, NodeKey)>::empty(),
                self.graph.state().hier_nodes == Set::<NodeKey>::empty(),
                self.graph.state().hier == Set::<(NodeKey, NodeKey)>::empty(),
                forall|j: int| 0 <= j < i ==> #[trigger] self.graph.container_name(j) == all[j].name@,
                self.node_map@ == last_wins(numbered(all, 0, false).take(i as int)),
                self.set_map@ == last_wins(numbered(schedule.sets@, 0, true).take(i as int)),
                self.system_type_map@ == Map::<u64, Option<NodeHandle>>::empty(),
            decreases ns - i,
        {
            let set = &schedule.sets[i];
            let h = self.graph.add_container(set.name.clone());
            self.set_map.insert(set.key, h);
            self.node_map.insert(set.node, h);
            proof {
                assert(all[i as int] == schedule.sets@[i as int]);
                let nn = numbered(all, 0, false);
                let nk = numbered(schedule.sets@, 0, true);
                assert(nn.take(i + 1).drop_last() =~= nn.take(i as int));
                assert(nk.take(i + 1).drop_last() =~= nk.take(i as int));
                assert(nn.take(i + 1).last() == (set.node, h));
                assert(nk.take(i + 1).last() == (set.key, h));
            }
            i = i + 1;
        }
        proof {
            assert(numbered(schedule.sets@, 0, true).take(ns as int) =~= numbered(schedule.sets@, 0, true));
            assert(schedule.systems@.take(0) =~= Seq::<ScheduleNode>::empty());
        }
        let nsys = schedule.systems.len();
        let mut i: usize = 0;
        while i < nsys
            invariant
                ns == schedule.sets@.len(),
                nsys == schedule.systems@.len(),
                ns + nsys <= usize::MAX,
                all == schedule.sets@ + schedule.systems@,
                i <= nsys,
                self.wf(),
                self.graph.num_containers() == ns + i,
                self.graph.num_commands() == 0,
                self.graph.releases().len() == 0,
                self.graph.state().dep_nodes == Set::<NodeKey>::empty(),
                self.graph.state().dep == Set::<(NodeKey, NodeKey)>::empty(),
                self.graph.state().hier_nodes == Set::<NodeKey>::empty(),
                self.graph.state().hier == Set::<(NodeKey, NodeKey)>::empty(),
                forall|j: int| 0 <= j < ns + i ==> #[trigger] self.graph.container_name(j) == all[j].name@,
                self.node_map@ == last_wins(numbered(all, 0, false).take(ns + i)),
                self.set_map@ == last_wins(numbered(schedule.sets@, 0, true)),
                self.system_type_map@ == type_map(schedule.systems@.take(i as int), ns as int),
            decreases nsys - i,
        {
            let system = &schedule.systems[i];
            let h = self.graph.add_container(system.name.clone());
            if self.system_type_map.contains_key(&system.key) {
                self.system_type_map.insert(system.key, None);
            } else {
                self.system_type_map.insert(system.key, Some(h));
            }
            self.node_map.insert(system.node, h);
            proof {
                assert(all[ns + i] == schedule.systems@[i as int]);
                let nn = numbered(all, 0, false);
                assert(nn.take(ns + i + 1).drop_last() =~= nn.take(ns + i));
                assert(nn.take(ns + i + 1).last() == (system.node, h));
                let st = schedule.systems@.take(i + 1);
                assert(st.drop_last() =~= schedule.systems@.take(i as int));
                assert(st.last() == *system);
            }
            i = i + 1;
        }
        proof {
            assert(numbered(all, 0, false).take((ns + nsys) as int) =~= numbered(all, 0, false));
            assert(numbered(schedule.sets@, 0, true).take(ns as int) =~= numbered(schedule.sets@, 0, true));
            assert(schedule.systems@.take(nsys as int) =~= schedule.systems@);
        }
        let ghost s0 = self.graph.state();
        self.add_edges(&schedule.hierarchy, Constraint::Contains);
        let ghost s1 = self.graph.state();
        self.add_edges(&schedule.dependency, Constraint::Before);
        proof {
            let nodes = last_wins(numbered(all, 0, false));
            let empty_nodes = Set::<NodeKey>::empty();
            let empty_edges = Set::<(NodeKey, NodeKey)>::empty();
            let h = mapped_edges(schedule.hierarchy@, nodes);
            let d = mapped_edges(schedule.dependency@, nodes);
            assert(s0.hier + h =~= h);
            assert(s0.hier_nodes + ends(h) =~= ends(h));
            assert(s1.dep + d =~= d);
            assert(s1.dep_nodes + ends(d) =~= ends(d));
            assert(self.graph.state() == (GraphState {
                dep_nodes: ends(mapped_edges(schedule.dependency@, nodes)),
                dep: mapped_edges(schedule.dependency@, nodes),
                hier_nodes: ends(mapped_edges(schedule.hierarchy@, nodes)),
                hier: mapped_edges(schedule.hierarchy@, nodes),
            }));
        }
        self.cached_graph = Some(self.graph.duplicate());
    }

    /// Puts the graph back as the last `init` left it, from the cached copy.
    pub fn reinit(&mut self)
        requires
            old(self).wf(),
            old(self).cached_graph is Some,
        ensures
            final(self).wf(),
            final(self).graph.same_containers(&old(self).cached_graph.unwrap()),
            final(self).cached_graph == old(self).cached_graph,
            final(self).set_map == old(self).set_map,
            final(self).system_type_map == old(self).system_type_map,
            final(self).node_map == old(self).node_map,
    {
        let copy = match &self.cached_graph {
            Some(c) => c.duplicate(),
            None => ComputeGraph::new(),
        };
        self.graph = copy;
    }

    /// Restores the graph from the cached copy where there is one, and builds
    /// it from the schedule otherwise (the systems of a schedule are gone
    /// once it has run).
    pub fn init_cached(&mut self, schedule: &ScheduleShape)
        requires
            old(self).wf(),
            schedule.sets@.len() + schedule.systems@.len() <= usize::MAX,
            forall|j: int|
                0 <= j < schedule.hierarchy@.len() ==> last_wins(
                    numbered(schedule.sets@ + schedule.systems@, 0, false),
                ).contains_key((#[trigger] schedule.hierarchy@[j]).0) && last_wins(
                    numbered(schedule.sets@ + schedule.systems@, 0, false),
                ).contains_key(schedule.hierarchy@[j].1),
            forall|j: int|
                0 <= j < schedule.dependency@.len() ==> last_wins(
                    numbered(schedule.sets@ + schedule.systems@, 0, false),
                ).contains_key((#[trigger] schedule.dependency@[j]).0) && last_wins(
                    numbered(schedule.sets@ + schedule.systems@, 0, false),
                ).contains_key(schedule.dependency@[j].1),
        ensures
            final(self).wf(),
            old(self).cached_graph is Some ==> final(self).graph.same_containers(
                &old(self).cached_graph.unwrap(),
            ) && final(self).cached_graph == old(self).cached_graph && final(self).set_map
                == old(self).set_map && final(self).system_type_map == old(self).system_type_map
                && final(self).node_map == old(self).node_map,
            old(self).cached_graph is None ==> final(self).mirrors(schedule),
    {
        if self.cached_graph.is_some() {
            self.reinit();
        } else {
            self.init(schedule);
        }
    }

    /// Runs the graph, giving its commands in order and the resources to
    /// release, and puts it back as the last `init` left it.
    pub fn execute(&mut self) -> (r: Execution<C, R>)
        requires
            old(self).wf(),
            old(self).cached_graph is Some,
            old(self).graph.orderable(),
            old(self).graph.commands_known(),
        ensures
            r.release@ == old(self).graph.releases(),
            exists|order: Seq<NodeHandle>|
                #![trigger old(self).graph.valid_order(order)]
                old(self).graph.valid_order(order) && r.commands@.len() == order.len() && forall|k: int|
                    0 <= k < order.len() ==> #[trigger] r.commands@[k] == old(self).graph.command_value(
                        order[k]->Command_0 as int,
                    ),
            final(self).wf(),
            final(self).graph.same_containers(&old(self).cached_graph.unwrap()),
            final(self).cached_graph == old(self).cached_graph,
            final(self).set_map == old(self).set_map,
            final(self).system_type_map == old(self).system_type_map,
            final(self).node_map == old(self).node_map,
    {
        let mut g = ComputeGraph::new();
        std::mem::swap(&mut self.graph, &mut g);
        let r = g.execute();
        self.reinit();
        r
    }

    /// Adds an edge of the given kind between the containers of the nodes of
    /// each schedule edge: containment for `Contains`, order for `Before`.
    fn add_edges(&mut self, edges: &Vec<(u64, u64)>, kind: Constraint)
        requires
            old(self).wf(),
            kind == Constraint::Contains || kind == Constraint::Before,
            forall|j: int|
                0 <= j < edges@.len() ==> old(self).node_map@.contains_key(
                    (#[trigger] edges@[j]).0,
                ) && old(self).node_map@.contains_key(edges@[j].1),
        ensures
            final(self).wf(),
            final(self).set_map == old(self).set_map,
            final(self).system_type_map == old(self).system_type_map,
            final(self).node_map == old(self).node_map,
            final(self).graph.num_containers() == old(self).graph.num_containers(),
            final(self).graph.num_commands() == old(self).graph.num_commands(),
            final(self).graph.releases() == old(self).graph.releases(),
            final(self).cached_graph == old(self).cached_graph,
            forall|i: int|
                0 <= i < old(self).graph.num_containers() ==> #[trigger] final(self).graph.container_name(i)
                    == old(self).graph.container_name(i),
            adds_edges(
                kind,
                old(self).graph.state(),
                final(self).graph.state(),
                mapped_edges(edges@, old(self).node_map@),
            ),
    {
        let ghost nodes = self.node_map@;
        let ghost s0 = self.graph.state();
        let mut j: usize = 0;
        proof {
            assert(mapped_edges(edges@.take(0), nodes) =~= Set::<(NodeKey, NodeKey)>::empty());
            assert(ends(Set::<(NodeKey, NodeKey)>::empty()) =~= Set::<NodeKey>::empty());
            assert(s0.hier + Set::<(NodeKey, NodeKey)>::empty() =~= s0.hier);
            assert(s0.dep + Set::<(NodeKey, NodeKey)>::empty() =~= s0.dep);
            assert(s0.hier_nodes + Set::<NodeKey>::empty() =~= s0.hier_nodes);
            assert(s0.dep_nodes + Set::<NodeKey>::empty() =~= s0.dep_nodes);
        }
        while j < edges.len()
            invariant
                j <= edges@.len(),
                self.wf(),
                kind == Constraint::Contains || kind == Constraint::Before,
                nodes == self.node_map@,
                self.set_map == old(self).set_map,
                self.system_type_map == old(self).system_type_map,
                self.node_map == old(self).node_map,
                self.graph.num_containers() == old(self).graph.num_containers(),
                self.graph.num_commands() == old(self).graph.num_commands(),
                self.graph.releases() == old(self).graph.releases(),
                self.cached_graph == old(self).cached_graph,
                forall|i: int|
                    0 <= i < old(self).graph.num_containers() ==> #[trigger] self.graph.container_name(i)
                        == old(self).graph.container_name(i),
                forall|i: int|
                    0 <= i < edges@.len() ==> nodes.contains_key((#[trigger] edges@[i]).0) && nodes.contains_key(
                        edges@[i].1,
                    ),
                s0 == old(self).graph.state(),
                adds_edges(kind, s0, self.graph.state(), mapped_edges(edges@.take(j as int), nodes)),
            decreases edges@.len() - j,
        {
            let (a, b) = edges[j];
            let ha = *self.node_map.get(&a).unwrap();
            let hb = *self.node_map.get(&b).unwrap();
            self.graph.add_constraint(ha, kind, hb);
            proof {
                let e = (key_of(ha), key_of(hb));
                let m0 = mapped_edges(edges@.take(j as int), nodes);
                let m1 = mapped_edges(edges@.take(j + 1), nodes);
                assert(m1 =~= m0.insert(e)) by {
                    assert forall|x: (NodeKey, NodeKey)| m1.contains(x) <==> m0.insert(e).contains(x) by {
                        if m1.contains(x) {
                            let t1 = edges@.take(j + 1);
                            let i = choose|i: int|
                                0 <= i < t1.len() && x == (key_of(nodes[#[trigger] t1[i].0]), key_of(nodes[t1[i].1]));
                            if i < j {
                                assert(edges@.take(j as int)[i] == t1[i]);
                            }
                        }
                        if m0.contains(x) {
                            let t0 = edges@.take(j as int);
                            let i = choose|i: int|
                                0 <= i < t0.len() && x == (key_of(nodes[#[trigger] t0[i].0]), key_of(nodes[t0[i].1]));
                            assert(t0[i] == edges@.take(j + 1)[i]);
                        }
                        if x == e {
                            assert(edges@.take(j + 1)[j as int] == (a, b));
                        }
                    }
                }
                lemma_ends_insert(m0, e);
                assert(ends(set![e]) =~= set![e.0, e.1]) by {
                    lemma_ends_insert(Set::<(NodeKey, NodeKey)>::empty(), e);
                    assert(ends(Set::<(NodeKey, NodeKey)>::empty()) =~= Set::<NodeKey>::empty());
                    assert(Set::<(NodeKey, NodeKey)>::empty().insert(e) =~= set![e]);
                }
                assert(ends(Set::<(NodeKey, NodeKey)>::empty()) =~= Set::<NodeKey>::empty());
                if kind == Constraint::Contains {
                    assert(self.graph.state().hier =~= s0.hier + m1);
                    assert(self.graph.state().hier_nodes =~= s0.hier_nodes + ends(m1));
                    assert(self.graph.state().dep =~= s0.dep);
                    assert(self.graph.state().dep_nodes =~= s0.dep_nodes);
                    assert(self.graph.state() == (GraphState {
                        hier: s0.hier + m1,
                        hier_nodes: s0.hier_nodes + ends(m1),
                        ..s0
                    }));
                } else {
                    assert(self.graph.state().dep =~= s0.dep + m1);
                    assert(self.graph.state().dep_nodes =~= s0.dep_nodes + ends(m1));
                    assert(self.graph.state().hier =~= s0.hier);
                    assert(self.graph.state().hier_nodes =~= s0.hier_nodes);
                    assert(self.graph.state() == (GraphState {
                        dep: s0.dep + m1,
                        dep_nodes: s0.dep_nodes + ends(m1),
                        ..s0
                    }));
                }
            }
            j = j + 1;
        }
        proof {
            assert(edges@.take(edges@.len() as int) =~= edges@);
        }
    }

    /// Places nodes within the node that the container of a system set
    /// contains: the set's container must contain exactly one node, and each
    /// of `hs` becomes contained in it. The maps and the nodes of the graph
    /// stay as they are.
    pub fn add_within_set(&mut self, set: u64, hs: &Vec<NodeHandle>) -> (r: Result<(), MirrorError>)
        requires
            old(self).wf(),
        ensures
            final(self).wf(),
            final(self).set_map == old(self).set_map,
            final(self).system_type_map == old(self).system_type_map,
            final(self).node_map == old(self).node_map,
            final(self).graph.same_nodes(&old(self).graph),
            !old(self).set_map@.contains_key(set) ==> r == Err::<(), MirrorError>(
                MirrorError::UnknownSet,
            ) && final(self).graph.state() == old(self).graph.state(),
            old(self).set_map@.contains_key(set) ==> {
                let children = out_nbrs(
                    old(self).graph.state().hier,
                    key_of(old(self).set_map@[set]),
                );
                &&& r is Ok <==> exists|c: NodeKey| children == set![c]
                &&& r is Ok ==> final(self).graph.state() == with_edges(
                    old(self).graph.state(),
                    Set::empty(),
                    star_out(key_of(key_handle(children.choose())), keys(hs@)),
                )
                &&& r is Err ==> r == Err::<(), MirrorError>(MirrorError::NotOneChild)
                    && final(self).graph.state() == old(self).graph.state()
            },
    {
        proof {
            ComputeGraph::<C, R>::lemma_same_nodes_refl(&self.graph);
        }
        let parent_set = match self.set_map.get(&set) {
            None => {
                return Err(MirrorError::UnknownSet);
            },
            Some(p) => *p,
        };
        let ghost s0 = self.graph.state();
        let ghost children = out_nbrs(s0.hier, key_of(parent_set));
        let kids = graph_neighbors(self.graph.hierarchy(), parent_set.key(), Direction::Outgoing);
        if kids.len() != 1 {
            proof {
                if exists|c: NodeKey| children == set![c] {
                    let c = choose|c: NodeKey| children == set![c];
                    assert(children.contains(c));
                    assert(kids@.contains(c));
                    if kids@.len() >= 2 {
                        assert(kids@.contains(kids@[0]) && kids@.contains(kids@[1]));
                        assert(children.contains(kids@[0]) && children.contains(kids@[1]));
                        assert(kids@[0] != kids@[1]);
                    }
                }
            }
            return Err(MirrorError::NotOneChild);
        }
        let child = kids[0];
        proof {
            assert(kids@.contains(child));
            assert(children =~= set![child]) by {
                assert forall|x: NodeKey| children.contains(x) <==> x == child by {
                    if children.contains(x) {
                        assert(kids@.contains(x));
                        let k = choose|k: int| 0 <= k < kids@.len() && kids@[k] == x;
                        assert(k == 0);
                    }
                }
            }
            assert(set![child].choose() == child) by {
                let c = set![child].choose();
                assert(set![child].contains(c));
            }
        }
        let parent = if child.0 == 1 {
            NodeHandle::Command(child.1)
        } else {
            NodeHandle::Container(child.1)
        };
        let ghost pk = key_of(parent);
        let ghost g0 = self.graph;
        proof {
            assert(keys(hs@.take(0)) =~= Set::<NodeKey>::empty());
            assert(star_out(pk, Set::<NodeKey>::empty()) =~= Set::<(NodeKey, NodeKey)>::empty());
            let none = Set::<(NodeKey, NodeKey)>::empty();
            assert(ends(none) =~= Set::<NodeKey>::empty());
            assert(s0.hier + none =~= s0.hier);
            assert(s0.dep + none =~= s0.dep);
            assert(s0.hier_nodes + Set::<NodeKey>::empty() =~= s0.hier_nodes);
            assert(s0.dep_nodes + Set::<NodeKey>::empty() =~= s0.dep_nodes);
            assert(with_edges(s0, none, none) == s0);
        }
        let mut i: usize = 0;
        while i < hs.len()
            invariant
                i <= hs@.len(),
                self.wf(),
                self.set_map == old(self).set_map,
                self.system_type_map == old(self).system_type_map,
                self.node_map == old(self).node_map,
                self.graph.same_nodes(&g0),
                g0.same_nodes(&old(self).graph),
                s0 == old(self).graph.state(),
                pk == key_of(parent),
                self.graph.state() == with_edges(s0, Set::empty(), star_out(pk, keys(hs@.take(i as int)))),
            decreases hs@.len() - i,
        {
            let ghost before = self.graph;
            self.graph.add_constraint(hs[i], Constraint::Within, parent);
            proof {
                ComputeGraph::<C, R>::lemma_same_nodes_trans(&self.graph, &before, &g0);
                let k0 = keys(hs@.take(i as int));
                let k1 = keys(hs@.take(i + 1));
                assert(k1 =~= k0.insert(key_of(hs@[i as int]))) by {
                    assert forall|x: NodeKey| k1.contains(x) <==> k0.insert(key_of(hs@[i as int])).contains(x) by {
                        if k1.contains(x) {
                            let j = choose|j: int| 0 <= j < i + 1 && key_of(#[trigger] hs@.take(i + 1)[j]) == x;
                            if j < i {
                                assert(hs@.take(i as int)[j] == hs@[j]);
                            }
                        }
                        if k0.contains(x) {
                            let j = choose|j: int| 0 <= j < i && key_of(#[trigger] hs@.take(i as int)[j]) == x;
                            assert(hs@.take(i + 1)[j] == hs@[j]);
                        }
                        if x == key_of(hs@[i as int]) {
                            assert(hs@.take(i + 1)[i as int] == hs@[i as int]);
                        }
                    }
                }
                assert(star_out(pk, k1) =~= star_out(pk, k0) + set![(pk, key_of(hs@[i as int]))]);
                lemma_with_edges_twice(
                    s0,
                    Set::empty(),
                    star_out(pk, k0),
                    Set::empty(),
                    set![(pk, key_of(hs@[i as int]))],
                );
                assert(Set::<(NodeKey, NodeKey)>::empty() + Set::<(NodeKey, NodeKey)>::empty()
                    =~= Set::<(NodeKey, NodeKey)>::empty());
            }
            i = i + 1;
        }
        proof {
            assert(hs@.take(hs@.len() as int) =~= hs@);
        }
        Ok(())
    }

    /// Adds the nodes that a system gives, then places them within the node
    /// that the container of the system's set contains.
    pub fn add_system_nodes(&mut self, set: u64, nodes: NodeConfigs<C, R>) -> (r: Result<(), MirrorError>)
        requires
            old(self).wf(),
        ensures
            final(self).set_map == old(self).set_map,
            final(self).system_type_map == old(self).system_type_map,
            final(self).node_map == old(self).node_map,
            add_run(old(self).graph.shape(), node_leaves(nodes)) matches Err(e) ==> r == Err::<
                (),
                MirrorError,
            >(MirrorError::Graph(e)),
            r matches Err(MirrorError::Graph(e)) ==> add_run(old(self).graph.shape(), node_leaves(nodes)) == Err::<
                Shape,
                GraphError,
            >(e),
            add_run(old(self).graph.shape(), node_leaves(nodes)) is Ok && !old(self).set_map@.contains_key(set) ==> r == Err::<(), MirrorError>(MirrorError::UnknownSet),
            r == Err::<(), MirrorError>(MirrorError::UnknownSet) ==> !old(self).set_map@.contains_key(set),
            r is Ok ==> final(self).wf() && exists|done: NodeConfigs<C, R>|
                #![trigger handles(done)]
                handled(done) && refines(nodes, done) && leaf_handles(node_leaves(done)) == somes(
                    run_handles(old(self).graph.shape(), node_leaves(nodes)),
                ) && {
                    let mid = with_edges(old(self).graph.state(), cfg_edges(done).0, cfg_edges(done).1);
                    let children = out_nbrs(mid.hier, key_of(old(self).set_map@[set]));
                    &&& exists|c: NodeKey| children == set![c]
                    &&& final(self).graph.state() == with_edges(
                        mid,
                        Set::empty(),
                        star_out(key_of(key_handle(children.choose())), keys(handles(done))),
                    )
                },
            r == Err::<(), MirrorError>(MirrorError::NotOneChild) ==> exists|done: NodeConfigs<C, R>|
                #![trigger handles(done)]
                handled(done) && refines(nodes, done) && leaf_handles(node_leaves(done)) == somes(
                    run_handles(old(self).graph.shape(), node_leaves(nodes)),
                ) && {
                    let mid = with_edges(old(self).graph.state(), cfg_edges(done).0, cfg_edges(done).1);
                    let children = out_nbrs(mid.hier, key_of(old(self).set_map@[set]));
                    !exists|c: NodeKey| children == set![c]
                },
    {
        let hs = match self.graph.add_handles(nodes) {
            Err(e) => {
                return Err(MirrorError::Graph(e));
            },
            Ok(hs) => hs,
        };
        let ghost mid = self.graph.state();
        let r = self.add_within_set(set, &hs);
        proof {
            if r is Ok || r == Err::<(), MirrorError>(MirrorError::NotOneChild) {
                let done = choose|done: NodeConfigs<C, R>|
                    #![trigger handles(done)]
                    handled(done) && refines(nodes, done) && leaf_handles(node_leaves(done)) == somes(
                        run_handles(old(self).graph.shape(), node_leaves(nodes)),
                    ) && hs@ == handles(done) && mid == with_edges(
                        old(self).graph.state(),
                        cfg_edges(done).0,
                        cfg_edges(done).1,
                    );
                assert(handles(done) == hs@);
            }
        }
        r
    }
}

} // verus!
