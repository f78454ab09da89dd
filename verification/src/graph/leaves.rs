//! The order in which the single nodes of a configuration are added to a
//! compute graph, and what adding them does to the graph's counts and tags.
use vstd::prelude::*;

use super::config::{Constraint, NodeConfigs, SingleConfig};
use super::tag::DynTag;
use super::{GraphError, NodeHandle};

verus! {

/// The single nodes of the main tree (constraint targets aside), from left to right.
pub open spec fn main_leaves<C, R>(cfg: NodeConfigs<C, R>) -> Seq<SingleConfig<C, R>>
    decreases cfg,
{
    match cfg {
        NodeConfigs::Single { config, .. } => seq![config],
        NodeConfigs::Multiple { configs, .. } => seq_main_leaves(configs@),
    }
}

pub open spec fn seq_main_leaves<C, R>(s: Seq<NodeConfigs<C, R>>) -> Seq<SingleConfig<C, R>>
    decreases s,
{
    if s.len() == 0 {
        Seq::empty()
    } else {
        seq_main_leaves(s.drop_last()) + main_leaves(s.last())
    }
}

/// Every single node of a configuration, in the order in which they are
/// added: those of the main tree first, then those of the constraint targets.
pub open spec fn node_leaves<C, R>(cfg: NodeConfigs<C, R>) -> Seq<SingleConfig<C, R>>
    decreases cfg, 1nat,
{
    main_leaves(cfg) + target_leaves(cfg)
}

/// The single nodes of the constraint targets of a configuration: for a group,
/// those of its parts' targets in order, then those of its own targets.
pub open spec fn target_leaves<C, R>(cfg: NodeConfigs<C, R>) -> Seq<SingleConfig<C, R>>
    decreases cfg, 0nat,
{
    match cfg {
        NodeConfigs::Single { constraints, .. } => cons_leaves(constraints@),
        NodeConfigs::Multiple { configs, constraints, .. } => seq_target_leaves(configs@) + cons_leaves(
            constraints@,
        ),
    }
}

pub open spec fn seq_target_leaves<C, R>(s: Seq<NodeConfigs<C, R>>) -> Seq<SingleConfig<C, R>>
    decreases s, 0nat,
{
    if s.len() == 0 {
        Seq::empty()
    } else {
        seq_target_leaves(s.drop_last()) + target_leaves(s.last())
    }
}

pub open spec fn cons_leaves<C, R>(cons: Seq<(Constraint, NodeConfigs<C, R>)>) -> Seq<SingleConfig<C, R>>
    decreases cons, 0nat,
{
    if cons.len() == 0 {
        Seq::empty()
    } else {
        cons_leaves(cons.drop_last()) + node_leaves(cons.last().1)
    }
}

/// What adding single nodes reads and changes in a compute graph: the numbers
/// of its commands and containers, and its tags both ways.
pub struct Shape {
    pub commands: nat,
    pub containers: nat,
    pub tags: Map<NodeHandle, DynTag>,
    pub values: Map<DynTag, NodeHandle>,
}

/// The handle names a node of the graph.
pub open spec fn shape_holds(s: Shape, h: NodeHandle) -> bool {
    match h {
        NodeHandle::Command(i) => i < s.commands,
        NodeHandle::Container(i) => i < s.containers,
    }
}

/// The handle that a single node gets: its own, a new command, the handle its
/// tag already names, or a new container.
pub open spec fn step_handle<C, R>(s: Shape, config: SingleConfig<C, R>) -> NodeHandle {
    match config.handle {
        Some(h) => h,
        None => if config.command is Some {
            NodeHandle::Command(s.commands as usize)
        } else if config.tag is Some && s.values.contains_key(config.tag.unwrap()) {
            s.values[config.tag.unwrap()]
        } else {
            NodeHandle::Container(s.containers as usize)
        },
    }
}

/// The node is found through its tag, which is then used up.
pub open spec fn step_found<C, R>(s: Shape, config: SingleConfig<C, R>) -> bool {
    config.handle is None && config.command is None && config.tag is Some && s.values.contains_key(
        config.tag.unwrap(),
    )
}

/// The tag of the node conflicts with the tag that its handle already carries.
pub open spec fn step_conflict<C, R>(s: Shape, config: SingleConfig<C, R>) -> bool {
    let h = step_handle(s, config);
    &&& !step_found(s, config)
    &&& config.tag is Some
    &&& s.tags.contains_key(h)
    &&& !(s.values.contains_key(config.tag.unwrap()) && s.values[config.tag.unwrap()] == h)
}

/// The node makes a new command.
pub open spec fn step_new_command<C, R>(config: SingleConfig<C, R>) -> bool {
    config.handle is None && config.command is Some
}

/// The node makes a new container.
pub open spec fn step_new_container<C, R>(s: Shape, config: SingleConfig<C, R>) -> bool {
    config.handle is None && config.command is None && !step_found(s, config)
}

/// The node gives its tag to its handle.
pub open spec fn step_tags<C, R>(s: Shape, config: SingleConfig<C, R>) -> bool {
    config.tag is Some && !step_found(s, config) && !s.tags.contains_key(step_handle(s, config))
}

/// Adding one single node: a tag that conflicts with its handle's tag is an
/// error, and so is a debugging name for a handle that the graph does not hold;
/// otherwise the node may make a command or a container and give its tag,
/// which a handle that carried it before then loses.
pub open spec fn add_step<C, R>(s: Shape, config: SingleConfig<C, R>) -> Result<Shape, GraphError> {
    let h = step_handle(s, config);
    if step_conflict(s, config) {
        Err(GraphError::TagConflict)
    } else if config.debug_name is Some && !shape_holds(s, h) && !step_new_command(config)
        && !step_new_container(s, config) {
        Err(GraphError::InvalidHandle)
    } else {
        Ok(
            Shape {
                commands: s.commands + (if step_new_command(config) {
                    1nat
                } else {
                    0nat
                }),
                containers: s.containers + (if step_new_container(s, config) {
                    1nat
                } else {
                    0nat
                }),
                tags: if step_tags(s, config) {
                    if s.values.contains_key(config.tag.unwrap()) {
                        s.tags.remove(s.values[config.tag.unwrap()]).insert(h, config.tag.unwrap())
                    } else {
                        s.tags.insert(h, config.tag.unwrap())
                    }
                } else {
                    s.tags
                },
                values: if step_tags(s, config) {
                    s.values.insert(config.tag.unwrap(), h)
                } else {
                    s.values
                },
            },
        )
    }
}

/// Adding single nodes one after the other: the first error stops it.
pub open spec fn add_run<C, R>(s: Shape, leaves: Seq<SingleConfig<C, R>>) -> Result<Shape, GraphError>
    decreases leaves.len(),
{
    if leaves.len() == 0 {
        Ok(s)
    } else {
        match add_run(s, leaves.drop_last()) {
            Ok(t) => add_step(t, leaves.last()),
            Err(e) => Err(e),
        }
    }
}

/// The handles that single nodes get when they are added one after the other
/// (as far as no error stops the adding).
pub open spec fn run_handles<C, R>(s: Shape, leaves: Seq<SingleConfig<C, R>>) -> Seq<NodeHandle>
    decreases leaves.len(),
{
    if leaves.len() == 0 {
        Seq::empty()
    } else {
        match add_run(s, leaves.drop_last()) {
            Ok(t) => run_handles(s, leaves.drop_last()).push(step_handle(t, leaves.last())),
            Err(_) => run_handles(s, leaves.drop_last()),
        }
    }
}

/// The handle fields of some single nodes.
pub open spec fn leaf_handles<C, R>(leaves: Seq<SingleConfig<C, R>>) -> Seq<Option<NodeHandle>> {
    leaves.map_values(|c: SingleConfig<C, R>| c.handle)
}

/// Some handles, each given.
pub open spec fn somes(hs: Seq<NodeHandle>) -> Seq<Option<NodeHandle>> {
    hs.map_values(|h: NodeHandle| Some(h))
}

/// The handle fields of two sequences of nodes, one after the other.
pub proof fn lemma_leaf_handles_concat<C, R>(a: Seq<SingleConfig<C, R>>, b: Seq<SingleConfig<C, R>>)
    ensures
        leaf_handles(a + b) == leaf_handles(a) + leaf_handles(b),
{
    assert(leaf_handles(a + b) =~= leaf_handles(a) + leaf_handles(b));
}

/// Two sequences of given handles, one after the other.
pub proof fn lemma_somes_concat(a: Seq<NodeHandle>, b: Seq<NodeHandle>)
    ensures
        somes(a + b) == somes(a) + somes(b),
{
    assert(somes(a + b) =~= somes(a) + somes(b));
}

/// What a compute graph stores for its nodes: the commands, the debugging
/// names of commands and containers, and the resources to release.
pub struct Contents<C, R> {
    pub commands: Seq<C>,
    pub command_names: Seq<Seq<char>>,
    pub container_names: Seq<Seq<char>>,
    pub releases: Seq<R>,
}

/// What adding one single node stores: a new command (unnamed) or a new
/// container (unnamed) where it makes one, its debugging name on its handle,
/// and its resource after the others.
pub open spec fn contents_step<C, R>(s: Shape, c: Contents<C, R>, config: SingleConfig<C, R>) -> Contents<C, R> {
    let h = step_handle(s, config);
    let commands = if step_new_command(config) {
        c.commands.push(config.command.unwrap())
    } else {
        c.commands
    };
    let command_names = if step_new_command(config) {
        c.command_names.push(Seq::empty())
    } else {
        c.command_names
    };
    let container_names = if step_new_container(s, config) {
        c.container_names.push(Seq::empty())
    } else {
        c.container_names
    };
    Contents {
        commands,
        command_names: match (config.debug_name, h) {
            (Some(n), NodeHandle::Command(i)) => command_names.update(i as int, n@),
            _ => command_names,
        },
        container_names: match (config.debug_name, h) {
            (Some(n), NodeHandle::Container(i)) => container_names.update(i as int, n@),
            _ => container_names,
        },
        releases: match config.release {
            Some(x) => c.releases.push(x),
            None => c.releases,
        },
    }
}

/// What adding single nodes one after the other stores (as far as no error
/// stops the adding).
pub open spec fn run_contents<C, R>(s: Shape, c: Contents<C, R>, leaves: Seq<SingleConfig<C, R>>) -> Contents<C, R>
    decreases leaves.len(),
{
    if leaves.len() == 0 {
        c
    } else {
        match add_run(s, leaves.drop_last()) {
            Ok(t) => contents_step(t, run_contents(s, c, leaves.drop_last()), leaves.last()),
            Err(_) => run_contents(s, c, leaves.drop_last()),
        }
    }
}

/// The commands of the nodes that make new commands, in order.
pub open spec fn leaf_commands<C, R>(leaves: Seq<SingleConfig<C, R>>) -> Seq<C>
    decreases leaves.len(),
{
    if leaves.len() == 0 {
        Seq::empty()
    } else if step_new_command(leaves.last()) {
        leaf_commands(leaves.drop_last()).push(leaves.last().command.unwrap())
    } else {
        leaf_commands(leaves.drop_last())
    }
}

/// The resources of the nodes that carry one, in order.
pub open spec fn leaf_releases<C, R>(leaves: Seq<SingleConfig<C, R>>) -> Seq<R>
    decreases leaves.len(),
{
    if leaves.len() == 0 {
        Seq::empty()
    } else {
        match leaves.last().release {
            Some(x) => leaf_releases(leaves.drop_last()).push(x),
            None => leaf_releases(leaves.drop_last()),
        }
    }
}

/// A run that adds every node appends the commands of the nodes that make
/// new commands after the commands already there, and the nodes' resources
/// after the resources already there, each in the order of the nodes.
pub proof fn lemma_run_contents_appends<C, R>(s: Shape, c: Contents<C, R>, leaves: Seq<SingleConfig<C, R>>)
    requires
        add_run(s, leaves) is Ok,
    ensures
        run_contents(s, c, leaves).commands == c.commands + leaf_commands(leaves),
        run_contents(s, c, leaves).releases == c.releases + leaf_releases(leaves),
    decreases leaves.len(),
{
    if leaves.len() == 0 {
        assert(c.commands + Seq::<C>::empty() =~= c.commands);
        assert(c.releases + Seq::<R>::empty() =~= c.releases);
    } else {
        let d = leaves.drop_last();
        lemma_run_contents_appends(s, c, d);
        let x = leaves.last();
        if step_new_command(x) {
            assert(c.commands + leaf_commands(d).push(x.command.unwrap()) =~= (c.commands + leaf_commands(
                d,
            )).push(x.command.unwrap()));
        }
        match x.release {
            Some(v) => {
                assert(c.releases + leaf_releases(d).push(v) =~= (c.releases + leaf_releases(d)).push(v));
            },
            None => {},
        }
    }
}

/// The contents stored by two sequences of nodes run one after the other.
pub proof fn lemma_run_contents_concat<C, R>(
    s: Shape,
    c: Contents<C, R>,
    a: Seq<SingleConfig<C, R>>,
    b: Seq<SingleConfig<C, R>>,
)
    requires
        add_run(s, a) is Ok,
    ensures
        run_contents(s, c, a + b) == run_contents(add_run(s, a)->Ok_0, run_contents(s, c, a), b),
    decreases b.len(),
{
    let t = add_run(s, a)->Ok_0;
    if b.len() == 0 {
        assert(a + b =~= a);
    } else {
        lemma_run_contents_concat(s, c, a, b.drop_last());
        lemma_run_concat(s, a, b.drop_last());
        assert((a + b).drop_last() =~= a + b.drop_last());
        assert((a + b).last() == b.last());
    }
}

/// Running a single node stores one step.
pub proof fn lemma_run_contents_one<C, R>(s: Shape, c: Contents<C, R>, x: SingleConfig<C, R>)
    ensures
        run_contents(s, c, seq![x]) == contents_step(s, c, x),
{
    assert(seq![x].drop_last() =~= Seq::<SingleConfig<C, R>>::empty());
    assert(add_run(s, seq![x].drop_last()) == Ok::<Shape, GraphError>(s));
    assert(run_contents(s, c, seq![x].drop_last()) == c);
    assert(seq![x].last() == x);
}

/// The outcome of an addition that left the graph with shape `after`.
pub open spec fn outcome<T>(r: Result<T, GraphError>, after: Shape) -> Result<Shape, GraphError> {
    match r {
        Ok(_) => Ok(after),
        Err(e) => Err(e),
    }
}

/// Running two sequences of nodes is running the first, then the second from
/// where the first left off.
pub proof fn lemma_run_concat<C, R>(s: Shape, a: Seq<SingleConfig<C, R>>, b: Seq<SingleConfig<C, R>>)
    ensures
        add_run(s, a + b) == (match add_run(s, a) {
            Ok(t) => add_run(t, b),
            Err(e) => Err(e),
        }),
    decreases b.len(),
{
    if b.len() == 0 {
        assert(a + b =~= a);
    } else {
        lemma_run_concat(s, a, b.drop_last());
        assert((a + b).drop_last() =~= a + b.drop_last());
        assert((a + b).last() == b.last());
    }
}

/// The handles of two sequences of nodes run one after the other are those of
/// the first, then those of the second from where the first left off.
pub proof fn lemma_run_handles_concat<C, R>(s: Shape, a: Seq<SingleConfig<C, R>>, b: Seq<SingleConfig<C, R>>)
    requires
        add_run(s, a) is Ok,
    ensures
        run_handles(s, a + b) == run_handles(s, a) + run_handles(add_run(s, a)->Ok_0, b),
    decreases b.len(),
{
    let t = add_run(s, a)->Ok_0;
    if b.len() == 0 {
        assert(a + b =~= a);
        assert(run_handles(s, a) + run_handles(t, b) =~= run_handles(s, a));
    } else {
        lemma_run_handles_concat(s, a, b.drop_last());
        lemma_run_concat(s, a, b.drop_last());
        assert((a + b).drop_last() =~= a + b.drop_last());
        assert((a + b).last() == b.last());
        match add_run(t, b.drop_last()) {
            Ok(u) => {
                assert(run_handles(s, a) + run_handles(t, b) =~= (run_handles(s, a) + run_handles(
                    t,
                    b.drop_last(),
                )).push(step_handle(u, b.last())));
            },
            Err(_) => {},
        }
    }
}

/// Running a single node is one step.
pub proof fn lemma_run_one<C, R>(s: Shape, c: SingleConfig<C, R>)
    ensures
        add_run(s, seq![c]) == add_step(s, c),
        run_handles(s, seq![c]) == seq![step_handle(s, c)],
{
    assert(seq![c].drop_last() =~= Seq::<SingleConfig<C, R>>::empty());
    assert(add_run(s, seq![c].drop_last()) == Ok::<Shape, GraphError>(s));
    assert(seq![c].last() == c);
    assert(run_handles(s, seq![c].drop_last()) =~= Seq::<NodeHandle>::empty());
    assert(run_handles(s, seq![c]) =~= seq![step_handle(s, c)]);
}

/// The main leaves of a prefix of parts, one part longer.
pub proof fn lemma_seq_main_leaves_take<C, R>(s: Seq<NodeConfigs<C, R>>, i: int)
    requires
        0 <= i < s.len(),
    ensures
        seq_main_leaves(s.take(i + 1)) == seq_main_leaves(s.take(i)) + main_leaves(s[i]),
{
    assert(s.take(i + 1).drop_last() =~= s.take(i));
}

/// The target leaves of a prefix of parts, one part longer.
pub proof fn lemma_seq_target_leaves_take<C, R>(s: Seq<NodeConfigs<C, R>>, i: int)
    requires
        0 <= i < s.len(),
    ensures
        seq_target_leaves(s.take(i + 1)) == seq_target_leaves(s.take(i)) + target_leaves(s[i]),
{
    assert(s.take(i + 1).drop_last() =~= s.take(i));
}

/// The leaves of a prefix of constraints, one constraint longer.
pub proof fn lemma_cons_leaves_take<C, R>(s: Seq<(Constraint, NodeConfigs<C, R>)>, i: int)
    requires
        0 <= i < s.len(),
    ensures
        cons_leaves(s.take(i + 1)) == cons_leaves(s.take(i)) + node_leaves(s[i].1),
{
    assert(s.take(i + 1).drop_last() =~= s.take(i));
}

/// An error on a prefix of the parts is an error on all of them.
pub proof fn lemma_seq_main_err<C, R>(st: Shape, s: Seq<NodeConfigs<C, R>>, i: int, e: GraphError)
    requires
        0 <= i <= s.len(),
        add_run(st, seq_main_leaves(s.take(i))) == Err::<Shape, GraphError>(e),
    ensures
        add_run(st, seq_main_leaves(s)) == Err::<Shape, GraphError>(e),
    decreases s.len() - i,
{
    if i < s.len() {
        lemma_seq_main_leaves_take(s, i);
        lemma_run_concat(st, seq_main_leaves(s.take(i)), main_leaves(s[i]));
        lemma_seq_main_err(st, s, i + 1, e);
    } else {
        assert(s.take(i) =~= s);
    }
}

/// An error on a prefix of the parts' targets is an error on all of them.
pub proof fn lemma_seq_target_err<C, R>(st: Shape, s: Seq<NodeConfigs<C, R>>, i: int, e: GraphError)
    requires
        0 <= i <= s.len(),
        add_run(st, seq_target_leaves(s.take(i))) == Err::<Shape, GraphError>(e),
    ensures
        add_run(st, seq_target_leaves(s)) == Err::<Shape, GraphError>(e),
    decreases s.len() - i,
{
    if i < s.len() {
        lemma_seq_target_leaves_take(s, i);
        lemma_run_concat(st, seq_target_leaves(s.take(i)), target_leaves(s[i]));
        lemma_seq_target_err(st, s, i + 1, e);
    } else {
        assert(s.take(i) =~= s);
    }
}

/// An error on a prefix of the constraints is an error on all of them.
pub proof fn lemma_cons_err<C, R>(st: Shape, s: Seq<(Constraint, NodeConfigs<C, R>)>, i: int, e: GraphError)
    requires
        0 <= i <= s.len(),
        add_run(st, cons_leaves(s.take(i))) == Err::<Shape, GraphError>(e),
    ensures
        add_run(st, cons_leaves(s)) == Err::<Shape, GraphError>(e),
    decreases s.len() - i,
{
    if i < s.len() {
        lemma_cons_leaves_take(s, i);
        lemma_run_concat(st, cons_leaves(s.take(i)), node_leaves(s[i].1));
        lemma_cons_err(st, s, i + 1, e);
    } else {
        assert(s.take(i) =~= s);
    }
}

/// Parts with the same main trees, one by one, have the same main leaves.
pub proof fn lemma_seq_main_leaves_eq<C, R>(a: Seq<NodeConfigs<C, R>>, b: Seq<NodeConfigs<C, R>>)
    requires
        a.len() == b.len(),
        forall|i: int| 0 <= i < a.len() ==> main_leaves(#[trigger] a[i]) == main_leaves(b[i]),
    ensures
        seq_main_leaves(a) == seq_main_leaves(b),
    decreases a.len(),
{
    if a.len() > 0 {
        assert forall|i: int| 0 <= i < a.len() - 1 implies main_leaves(#[trigger] a.drop_last()[i])
            == main_leaves(b.drop_last()[i]) by {
            assert(a.drop_last()[i] == a[i] && b.drop_last()[i] == b[i]);
        }
        lemma_seq_main_leaves_eq(a.drop_last(), b.drop_last());
    }
}

/// Parts with the same targets, one by one, have the same target leaves.
pub proof fn lemma_seq_target_leaves_eq<C, R>(a: Seq<NodeConfigs<C, R>>, b: Seq<NodeConfigs<C, R>>)
    requires
        a.len() == b.len(),
        forall|i: int| 0 <= i < a.len() ==> target_leaves(#[trigger] a[i]) == target_leaves(b[i]),
    ensures
        seq_target_leaves(a) == seq_target_leaves(b),
    decreases a.len(),
{
    if a.len() > 0 {
        assert forall|i: int| 0 <= i < a.len() - 1 implies target_leaves(#[trigger] a.drop_last()[i])
            == target_leaves(b.drop_last()[i]) by {
            assert(a.drop_last()[i] == a[i] && b.drop_last()[i] == b[i]);
        }
        lemma_seq_target_leaves_eq(a.drop_last(), b.drop_last());
    }
}

} // verus!
