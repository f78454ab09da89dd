use sefirot::graph::config::{AsNodes, Constraint, NodeConfigs, SingleConfig};
use sefirot::graph::digraph::DiGraph;
use sefirot::graph::tag::{DynTag, TagMap};
use sefirot::graph::{ComputeGraph, GraphError, NodeHandle};

fn node(h: NodeHandle) -> NodeConfigs<u32, u32> {
    h.into_node_configs()
}

fn container() -> NodeConfigs<u32, u32> {
    NodeConfigs::single(SingleConfig::empty())
}

fn position(commands: &[u32], c: u32) -> usize {
    commands.iter().position(|x| *x == c).unwrap()
}

#[test]
fn graph_before_and_after_order_commands() {
    let mut g: ComputeGraph<u32, u32> = ComputeGraph::new();
    let a = g.add_single(NodeConfigs::command(1)).unwrap();
    let b = g.add_single(NodeConfigs::command(2)).unwrap();
    let c = g.add_single(NodeConfigs::command(3)).unwrap();
    g.add(node(c).before(node(a))).unwrap();
    g.add(node(b).after(node(a))).unwrap();
    let ex = g.execute();
    assert_eq!(ex.commands, vec![3, 1, 2]);
    assert!(ex.release.is_empty());
}

#[test]
fn graph_chain_orders_in_sequence() {
    let mut g: ComputeGraph<u32, u32> = ComputeGraph::new();
    let hs = g
        .add_handles(vec![NodeConfigs::command(30), NodeConfigs::command(10), NodeConfigs::command(20)]
            .into_node_configs()
            .chain())
        .unwrap();
    assert_eq!(hs.len(), 3);
    let ex = g.execute();
    assert_eq!(ex.commands, vec![30, 10, 20]);
}

#[test]
fn graph_container_orders_everything_inside() {
    let mut g: ComputeGraph<u32, u32> = ComputeGraph::new();
    let a = g.add_single(NodeConfigs::command(1)).unwrap();
    let b = g.add_single(NodeConfigs::command(2)).unwrap();
    let c = g.add_single(NodeConfigs::command(3)).unwrap();
    let x = g.add_single(container().contains(vec![node(a), node(b)].into_node_configs())).unwrap();
    // `c` must come before everything that `x` contains.
    g.add(node(c).before(node(x))).unwrap();
    let ex = g.execute();
    assert_eq!(ex.commands.len(), 3);
    let commands = ex.commands;
    assert!(position(&commands, 3) < position(&commands, 1));
    assert!(position(&commands, 3) < position(&commands, 2));
}

#[test]
fn graph_within_places_a_node_in_a_container() {
    let mut g: ComputeGraph<u32, u32> = ComputeGraph::new();
    let x = g.add_single(container()).unwrap();
    let first = g.add_single(NodeConfigs::command(5)).unwrap();
    let inner = g.add_single(NodeConfigs::command(6).within(node(x))).unwrap();
    g.add(node(x).after(node(first))).unwrap();
    assert!(matches!(inner, NodeHandle::Command(_)));
    let ex = g.execute();
    assert_eq!(ex.commands, vec![5, 6]);
}

#[test]
fn graph_releases_resources_after_running() {
    let mut g: ComputeGraph<u32, u32> = ComputeGraph::new();
    g.add(NodeConfigs::command_with_release(7, 70)).unwrap();
    g.add(NodeConfigs::command_with_release(8, 80)).unwrap();
    let ex = g.execute();
    let mut commands = ex.commands.clone();
    commands.sort();
    assert_eq!(commands, vec![7, 8]);
    let mut release = ex.release.clone();
    release.sort();
    assert_eq!(release, vec![70, 80]);
}

#[test]
fn graph_tags_find_nodes() {
    let mut g: ComputeGraph<u32, u32> = ComputeGraph::new();
    let tag = DynTag { kind: 1, value: 42 };
    let h = g.add_single(NodeConfigs::command(9).tag(tag)).unwrap();
    assert_eq!(g.handle(tag), Some(h));
    assert_eq!(g.handle(DynTag { kind: 1, value: 43 }), None);
    // A node referred to by its tag is the tagged node.
    let later = g.add_single(NodeConfigs::command(10)).unwrap();
    g.add(node(later).after(tag.into_node_configs())).unwrap();
    let ex = g.execute();
    assert_eq!(ex.commands, vec![9, 10]);
}

#[test]
fn graph_second_tag_on_a_node_is_refused() {
    let mut g: ComputeGraph<u32, u32> = ComputeGraph::new();
    let h = g.add_single(NodeConfigs::command(1).tag(DynTag { kind: 0, value: 1 })).unwrap();
    let r = g.add(node(h).tag(DynTag { kind: 0, value: 2 }));
    assert_eq!(r, Err(GraphError::TagConflict));
}

#[test]
fn graph_debug_name_of_unknown_handle_is_refused() {
    let mut g: ComputeGraph<u32, u32> = ComputeGraph::new();
    let r = g.add(node(NodeHandle::Command(5)).debug_name("missing"));
    assert_eq!(r, Err(GraphError::InvalidHandle));
}

#[test]
fn graph_clear_forgets_everything() {
    let mut g: ComputeGraph<u32, u32> = ComputeGraph::new();
    g.add(NodeConfigs::command(1)).unwrap();
    g.clear();
    let ex = g.execute();
    assert!(ex.commands.is_empty());
}

#[test]
fn tag_map_insert_get_remove() {
    let mut m = TagMap::new();
    let t = DynTag { kind: 3, value: 4 };
    assert!(m.insert(t, NodeHandle::Command(0)));
    assert_eq!(m.get(t), Some(NodeHandle::Command(0)));
    assert!(m.contains(t));
    assert_eq!(m.get_tag(NodeHandle::Command(0)), Some(t));
    assert_eq!(m.remove(t), Some(NodeHandle::Command(0)));
    assert_eq!(m.get(t), None);
    assert!(!m.contains_value(NodeHandle::Command(0)));
}

#[test]
fn tag_map_stays_two_way_when_a_tag_moves() {
    let mut m = TagMap::new();
    let t = DynTag { kind: 3, value: 4 };
    assert!(m.insert(t, NodeHandle::Command(0)));
    // A tagged value refuses a second tag.
    assert!(!m.insert(DynTag { kind: 3, value: 5 }, NodeHandle::Command(0)));
    assert_eq!(m.get_tag(NodeHandle::Command(0)), Some(t));
    // The tag moves to an untagged value; the old value loses it.
    assert!(m.insert(t, NodeHandle::Container(1)));
    assert_eq!(m.get(t), Some(NodeHandle::Container(1)));
    assert_eq!(m.get_tag(NodeHandle::Command(0)), None);
    assert!(!m.contains_value(NodeHandle::Command(0)));
    // Removing the tag just inserted gives the value back and empties the map.
    assert_eq!(m.remove(t), Some(NodeHandle::Container(1)));
    assert!(!m.contains(t));
    assert!(!m.contains_value(NodeHandle::Container(1)));
}

#[test]
fn graph_first_failing_node_decides_the_error() {
    let mut g: ComputeGraph<u32, u32> = ComputeGraph::new();
    let h = g.add_single(NodeConfigs::command(1).tag(DynTag { kind: 0, value: 1 })).unwrap();
    // The main tree is added before the constraint targets.
    let r = g.add(
        node(h)
            .tag(DynTag { kind: 0, value: 2 })
            .after(node(NodeHandle::Command(5)).debug_name("missing")),
    );
    assert_eq!(r, Err(GraphError::TagConflict));
    let mut g: ComputeGraph<u32, u32> = ComputeGraph::new();
    let h = g.add_single(NodeConfigs::command(1).tag(DynTag { kind: 0, value: 1 })).unwrap();
    let r = g.add(
        node(NodeHandle::Command(5))
            .debug_name("missing")
            .after(node(h).tag(DynTag { kind: 0, value: 2 })),
    );
    assert_eq!(r, Err(GraphError::InvalidHandle));
}

#[test]
fn graph_cycle_is_found_before_running() {
    let mut g: ComputeGraph<u32, u32> = ComputeGraph::new();
    let a = g.add_single(NodeConfigs::command(1)).unwrap();
    let b = g.add_single(NodeConfigs::command(2)).unwrap();
    g.add_constraint(a, Constraint::Before, b);
    assert_eq!(g.try_order(), Some(vec![a, b]));
    g.add_constraint(b, Constraint::Before, a);
    assert_eq!(g.try_order(), None);
    let g = match g.try_execute() {
        Ok(_) => panic!("a cyclic graph ran"),
        Err(g) => g,
    };
    assert_eq!(g.dependency().edge_count(), 2);
}

#[test]
fn graph_unknown_command_in_dependencies_is_refused() {
    let mut g: ComputeGraph<u32, u32> = ComputeGraph::new();
    g.add(NodeConfigs::command(1)).unwrap();
    let mut d = DiGraph::new();
    d.add_node((1u8, 7usize));
    g.set_dependency(d);
    assert!(g.try_execute().is_err());
    let mut g: ComputeGraph<u32, u32> = ComputeGraph::new();
    g.add(NodeConfigs::command(1)).unwrap();
    let ex = g.try_execute().ok().unwrap();
    assert_eq!(ex.commands, vec![1]);
}

#[test]
fn graph_same_additions_give_same_graphs() {
    let build = || {
        let mut g: ComputeGraph<u32, u32> = ComputeGraph::new();
        let a = g.add_single(NodeConfigs::command(1)).unwrap();
        let hs = g
            .add_handles(node(a).before(NodeConfigs::command(2)).contains(container()))
            .unwrap();
        let mut dep: Vec<_> = g.dependency().all_edges().map(|(x, y, _)| (x, y)).collect();
        let mut hier: Vec<_> = g.hierarchy().all_edges().map(|(x, y, _)| (x, y)).collect();
        dep.sort();
        hier.sort();
        (hs, dep, hier)
    };
    let (hs1, dep1, hier1) = build();
    let (hs2, dep2, hier2) = build();
    assert_eq!(hs1, vec![NodeHandle::Command(0)]);
    assert_eq!((hs1, dep1.clone(), hier1.clone()), (hs2, dep2, hier2));
    assert_eq!(dep1, vec![((1, 0), (1, 1))]);
    assert_eq!(hier1, vec![((1, 0), (0, 0))]);
}

#[test]
fn graph_order_follows_paths() {
    let mut g: ComputeGraph<u32, u32> = ComputeGraph::new();
    let c = g.add_single(NodeConfigs::command(3)).unwrap();
    let b = g.add_single(NodeConfigs::command(2)).unwrap();
    let a = g.add_single(NodeConfigs::command(1)).unwrap();
    let group = g.add_container(String::from("group"));
    // a -> group, group contains b, b -> c: a path from a through the group to c.
    g.add_constraint(a, Constraint::Before, group);
    g.add_constraint(group, Constraint::Contains, b);
    g.add_constraint(b, Constraint::Before, c);
    let order = g.try_order().unwrap();
    let at = |h: NodeHandle| order.iter().position(|x| *x == h).unwrap();
    assert!(at(a) < at(b) && at(b) < at(c));
}

#[test]
fn graph_add_stores_commands_and_releases_in_order() {
    let mut g: ComputeGraph<u32, u32> = ComputeGraph::new();
    g.add(NodeConfigs::command_with_release(1, 11)).unwrap();
    let hs = g
        .add_handles(
            vec![
                NodeConfigs::command_with_release(2, 12),
                NodeConfigs::command(3),
                NodeConfigs::command_with_release(4, 14),
            ]
            .into_node_configs(),
        )
        .unwrap();
    assert_eq!(hs, vec![NodeHandle::Command(1), NodeHandle::Command(2), NodeHandle::Command(3)]);
    let ex = g.execute();
    let mut commands = ex.commands.clone();
    commands.sort();
    assert_eq!(commands, vec![1, 2, 3, 4]);
    assert_eq!(ex.release, vec![11, 12, 14]);
}
