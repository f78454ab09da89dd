use std::collections::HashMap;

use sefirot::graph::config::{AsNodes, NodeConfigs};
use sefirot::graph::{GraphError, NodeHandle};
use sefirot::graph::tag::DynTag;
use sefirot::mirror::{MirrorError, MirrorGraph, ScheduleNode, ScheduleShape};

fn node(node: u64, key: u64, name: &str) -> ScheduleNode {
    ScheduleNode { node, key, name: name.to_string() }
}

fn lookup<V: Copy>(map: &HashMap<u64, V>, k: u64) -> Option<V> {
    map.get(&k).copied()
}

#[test]
fn mirror_graph_follows_the_schedule() {
    let schedule = ScheduleShape {
        sets: vec![node(1, 100, "Update")],
        systems: vec![node(2, 10, "step"), node(3, 10, "step"), node(4, 11, "draw")],
        hierarchy: vec![(1, 2), (1, 3)],
        dependency: vec![(2, 4)],
    };
    let m: MirrorGraph<u32, u32> = MirrorGraph::new(&schedule);
    assert_eq!(lookup(&m.node_map, 1), Some(NodeHandle::Container(0)));
    assert_eq!(lookup(&m.node_map, 4), Some(NodeHandle::Container(3)));
    assert_eq!(lookup(&m.set_map, 100), Some(NodeHandle::Container(0)));
    // Two systems of one type: no single container for the type.
    assert_eq!(lookup(&m.system_type_map, 10), Some(None));
    assert_eq!(lookup(&m.system_type_map, 11), Some(Some(NodeHandle::Container(3))));
    let hier = m.graph.hierarchy();
    assert!(hier.contains_edge((0, 0), (0, 1)));
    assert!(hier.contains_edge((0, 0), (0, 2)));
    assert_eq!(hier.edge_count(), 2);
    let dep = m.graph.dependency();
    assert!(dep.contains_edge((0, 1), (0, 3)));
    assert_eq!(dep.edge_count(), 1);
    let ex = m.graph.execute();
    assert!(ex.commands.is_empty());
}

#[test]
fn mirror_graph_init_starts_over() {
    let mut m: MirrorGraph<u32, u32> = MirrorGraph::null();
    let first = ScheduleShape {
        sets: vec![],
        systems: vec![node(7, 1, "a"), node(8, 2, "b")],
        hierarchy: vec![],
        dependency: vec![(7, 8)],
    };
    m.init(&first);
    let second = ScheduleShape {
        sets: vec![],
        systems: vec![node(9, 3, "c")],
        hierarchy: vec![],
        dependency: vec![],
    };
    m.init(&second);
    assert_eq!(m.node_map.len(), 1);
    assert_eq!(lookup(&m.node_map, 9), Some(NodeHandle::Container(0)));
    assert_eq!(m.graph.dependency().edge_count(), 0);
}

#[test]
fn system_nodes_go_within_the_system_of_its_set() {
    // The set of a system (key 500) contains the system's own container.
    let schedule = ScheduleShape {
        sets: vec![node(1, 500, "system set"), node(2, 600, "wide set")],
        systems: vec![node(3, 10, "step"), node(4, 11, "draw"), node(5, 12, "more")],
        hierarchy: vec![(1, 3), (2, 4), (2, 5)],
        dependency: vec![],
    };
    let mut m: MirrorGraph<u32, u32> = MirrorGraph::new(&schedule);
    assert_eq!(m.add_system_nodes(500, NodeConfigs::command(42)), Ok(()));
    let hier = m.graph.hierarchy();
    // The new command (the first, key (1, 0)) lies within the system's container.
    assert!(hier.contains_edge((0, 2), (1, 0)));
    assert_eq!(hier.edge_count(), 4);
    assert_eq!(m.add_system_nodes(999, NodeConfigs::command(43)), Err(MirrorError::UnknownSet));
    assert_eq!(m.add_system_nodes(600, NodeConfigs::command(44)), Err(MirrorError::NotOneChild));
    let tagged = m.graph.add_single(NodeConfigs::command(1).tag(DynTag { kind: 0, value: 1 })).unwrap();
    let retag = tagged.into_node_configs().tag(DynTag { kind: 0, value: 2 });
    assert_eq!(m.add_system_nodes(500, retag), Err(MirrorError::Graph(GraphError::TagConflict)));
}

#[test]
fn mirror_graph_runs_and_returns_to_the_schedule() {
    let schedule = ScheduleShape {
        sets: vec![node(1, 500, "system set")],
        systems: vec![node(3, 10, "step")],
        hierarchy: vec![(1, 3)],
        dependency: vec![],
    };
    let mut m: MirrorGraph<u32, u32> = MirrorGraph::new(&schedule);
    assert!(m.cached_graph.is_some());
    assert_eq!(m.add_system_nodes(500, NodeConfigs::command(42)), Ok(()));
    assert_eq!(m.graph.hierarchy().edge_count(), 2);
    let ex = m.execute();
    assert_eq!(ex.commands, vec![42]);
    // Back as the schedule left it: no commands, the schedule's edges only.
    assert_eq!(m.graph.hierarchy().edge_count(), 1);
    assert_eq!(m.graph.execute_clear().commands, Vec::<u32>::new());
    m.reinit();
    assert_eq!(m.graph.hierarchy().edge_count(), 1);
    // With a cached copy, the schedule is not read again.
    let other = ScheduleShape { sets: vec![], systems: vec![], hierarchy: vec![], dependency: vec![] };
    m.init_cached(&other);
    assert_eq!(m.graph.hierarchy().edge_count(), 1);
    let mut fresh: MirrorGraph<u32, u32> = MirrorGraph::null();
    fresh.init_cached(&schedule);
    assert_eq!(fresh.graph.hierarchy().edge_count(), 1);
}
