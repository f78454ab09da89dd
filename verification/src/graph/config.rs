//! Node configurations: trees of nodes, with constraints between them, that are
//! added to a compute graph in one call.
use vstd::prelude::*;

use super::tag::{DynTag, Tag};
use super::{key_of, NodeHandle};
use super::digraph::NodeKey;

verus! {

/// How a node relates to the nodes of a constraint.
#[derive(Debug, Clone, Copy, PartialEq, Eq, Structural)]
pub enum Constraint {
    /// The node runs before the others.
    Before,
    /// The node runs after the others.
    After,
    /// The node contains the others.
    Contains,
    /// The node is contained in the others.
    Within,
}

/// The description of a single node: an existing handle, a tag, a command, or
/// none of these (a new container).
pub struct SingleConfig<C, R> {
    pub handle: Option<NodeHandle>,
    pub tag: Option<DynTag>,
    pub debug_name: Option<String>,
    pub command: Option<C>,
    pub release: Option<R>,
}

/// A tree of nodes with constraints.
pub enum NodeConfigs<C, R> {
    Single { config: SingleConfig<C, R>, constraints: Vec<(Constraint, NodeConfigs<C, R>)> },
    Multiple {
        configs: Vec<NodeConfigs<C, R>>,
        chain: bool,
        constraints: Vec<(Constraint, NodeConfigs<C, R>)>,
    },
}

/// The handles that a configuration stands for once its nodes are added: its
/// own for a single node, those of its parts in order for several.
pub open spec fn handles<C, R>(cfg: NodeConfigs<C, R>) -> Seq<NodeHandle>
    decreases cfg,
{
    match cfg {
        NodeConfigs::Single { config, .. } => seq![config.handle.unwrap()],
        NodeConfigs::Multiple { configs, .. } => handles_seq(configs@),
    }
}

/// The handles of several configurations, one after the other.
pub open spec fn handles_seq<C, R>(s: Seq<NodeConfigs<C, R>>) -> Seq<NodeHandle>
    decreases s,
{
    if s.len() == 0 {
        Seq::empty()
    } else {
        handles_seq(s.drop_last()) + handles(s.last())
    }
}

} // verus!

verus! {

/// The keys of some handles.
pub open spec fn keys(hs: Seq<NodeHandle>) -> Set<NodeKey> {
    Set::new(|k: NodeKey| exists|i: int| 0 <= i < hs.len() && key_of(hs[i]) == k)
}

/// The edges from each handle of `a` to each handle of `b`.
pub open spec fn pairs(a: Seq<NodeHandle>, b: Seq<NodeHandle>) -> Set<(NodeKey, NodeKey)> {
    Set::new(|e: (NodeKey, NodeKey)| keys(a).contains(e.0) && keys(b).contains(e.1))
}

/// The dependency edges that a constraint of kind `k` adds between the node's
/// handles `own` and the handles `targets` of its other side.
pub open spec fn constraint_dep(k: Constraint, own: Seq<NodeHandle>, targets: Seq<NodeHandle>) -> Set<
    (NodeKey, NodeKey),
> {
    match k {
        Constraint::Before => pairs(own, targets),
        Constraint::After => pairs(targets, own),
        _ => Set::empty(),
    }
}

/// The hierarchy edges that a constraint of kind `k` adds.
pub open spec fn constraint_hier(k: Constraint, own: Seq<NodeHandle>, targets: Seq<NodeHandle>) -> Set<
    (NodeKey, NodeKey),
> {
    match k {
        Constraint::Contains => pairs(own, targets),
        Constraint::Within => pairs(targets, own),
        _ => Set::empty(),
    }
}

/// The dependency edges between consecutive parts of a chain.
pub open spec fn chain_edges<C, R>(s: Seq<NodeConfigs<C, R>>) -> Set<(NodeKey, NodeKey)>
    decreases s.len(),
{
    if s.len() < 2 {
        Set::empty()
    } else {
        chain_edges(s.drop_last()) + pairs(handles(s[s.len() - 2]), handles(s[s.len() - 1]))
    }
}

/// The (dependency, hierarchy) edges that a configuration adds.
pub open spec fn cfg_edges<C, R>(cfg: NodeConfigs<C, R>) -> (Set<(NodeKey, NodeKey)>, Set<(NodeKey, NodeKey)>)
    decreases cfg,
{
    match cfg {
        NodeConfigs::Single { constraints, .. } => cons_edges(handles(cfg), constraints@),
        NodeConfigs::Multiple { configs, chain, constraints } => {
            let c = seq_edges(configs@);
            let k = cons_edges(handles(cfg), constraints@);
            let ch = if chain {
                chain_edges(configs@)
            } else {
                Set::empty()
            };
            (c.0 + ch + k.0, c.1 + k.1)
        },
    }
}

/// The edges that several configurations add.
pub open spec fn seq_edges<C, R>(s: Seq<NodeConfigs<C, R>>) -> (Set<(NodeKey, NodeKey)>, Set<(NodeKey, NodeKey)>)
    decreases s,
{
    if s.len() == 0 {
        (Set::empty(), Set::empty())
    } else {
        let a = seq_edges(s.drop_last());
        let b = cfg_edges(s.last());
        (a.0 + b.0, a.1 + b.1)
    }
}

/// The edges that constraints add, with their targets, for a node with handles `own`.
pub open spec fn cons_edges<C, R>(own: Seq<NodeHandle>, cons: Seq<(Constraint, NodeConfigs<C, R>)>) -> (
    Set<(NodeKey, NodeKey)>,
    Set<(NodeKey, NodeKey)>,
)
    decreases cons,
{
    if cons.len() == 0 {
        (Set::empty(), Set::empty())
    } else {
        let rest = cons_edges(own, cons.drop_last());
        let k = cons.last().0;
        let t = cons.last().1;
        let te = cfg_edges(t);
        (
            rest.0 + te.0 + constraint_dep(k, own, handles(t)),
            rest.1 + te.1 + constraint_hier(k, own, handles(t)),
        )
    }
}

/// Every single node of the configuration, constraint targets included, has a handle.
pub open spec fn handled<C, R>(cfg: NodeConfigs<C, R>) -> bool
    decreases cfg,
{
    match cfg {
        NodeConfigs::Single { config, constraints } => config.handle is Some && cons_handled(
            constraints@,
        ),
        NodeConfigs::Multiple { configs, constraints, .. } => seq_handled(configs@) && cons_handled(
            constraints@,
        ),
    }
}

pub open spec fn seq_handled<C, R>(s: Seq<NodeConfigs<C, R>>) -> bool
    decreases s,
{
    if s.len() == 0 {
        true
    } else {
        seq_handled(s.drop_last()) && handled(s.last())
    }
}

pub open spec fn cons_handled<C, R>(cons: Seq<(Constraint, NodeConfigs<C, R>)>) -> bool
    decreases cons,
{
    if cons.len() == 0 {
        true
    } else {
        cons_handled(cons.drop_last()) && handled(cons.last().1)
    }
}

} // verus!

verus! {

/// The number of single nodes in the main tree of a configuration (constraint
/// targets aside): the number of handles it stands for.
pub open spec fn leaf_count<C, R>(cfg: NodeConfigs<C, R>) -> nat
    decreases cfg,
{
    match cfg {
        NodeConfigs::Single { .. } => 1,
        NodeConfigs::Multiple { configs, .. } => seq_leaf_count(configs@),
    }
}

pub open spec fn seq_leaf_count<C, R>(s: Seq<NodeConfigs<C, R>>) -> nat
    decreases s,
{
    if s.len() == 0 {
        0
    } else {
        seq_leaf_count(s.drop_last()) + leaf_count(s.last())
    }
}

} // verus!

verus! {

/// The handles of the single nodes of the main tree (constraint targets aside)
/// are the same in both configurations, which have the same shape.
pub open spec fn same_main<C, R>(a: NodeConfigs<C, R>, b: NodeConfigs<C, R>) -> bool
    decreases a,
{
    match (a, b) {
        (NodeConfigs::Single { config: ca, .. }, NodeConfigs::Single { config: cb, .. }) => ca.handle
            == cb.handle,
        (
            NodeConfigs::Multiple { configs: xa, chain: cha, .. },
            NodeConfigs::Multiple { configs: xb, chain: chb, .. },
        ) => cha == chb && seq_same_main(xa@, xb@),
        _ => false,
    }
}

pub open spec fn seq_same_main<C, R>(a: Seq<NodeConfigs<C, R>>, b: Seq<NodeConfigs<C, R>>) -> bool
    decreases a,
{
    if a.len() == 0 {
        b.len() == 0
    } else {
        b.len() == a.len() && seq_same_main(a.drop_last(), b.drop_last()) && same_main(
            a.last(),
            b.last(),
        )
    }
}

/// The two configurations have the same shape: singles and groups of the same
/// sizes in the same places of the main tree.
pub open spec fn same_shape<C, R>(a: NodeConfigs<C, R>, b: NodeConfigs<C, R>) -> bool
    decreases a,
{
    match (a, b) {
        (NodeConfigs::Single { .. }, NodeConfigs::Single { .. }) => true,
        (
            NodeConfigs::Multiple { configs: xa, chain: cha, .. },
            NodeConfigs::Multiple { configs: xb, chain: chb, .. },
        ) => cha == chb && seq_same_shape(xa@, xb@),
        _ => false,
    }
}

pub open spec fn seq_same_shape<C, R>(a: Seq<NodeConfigs<C, R>>, b: Seq<NodeConfigs<C, R>>) -> bool
    decreases a,
{
    if a.len() == 0 {
        b.len() == 0
    } else {
        b.len() == a.len() && seq_same_shape(a.drop_last(), b.drop_last()) && same_shape(
            a.last(),
            b.last(),
        )
    }
}

/// Every single node of the main tree has a handle.
pub open spec fn main_handled<C, R>(cfg: NodeConfigs<C, R>) -> bool
    decreases cfg,
{
    match cfg {
        NodeConfigs::Single { config, .. } => config.handle is Some,
        NodeConfigs::Multiple { configs, .. } => seq_main_handled(configs@),
    }
}

pub open spec fn seq_main_handled<C, R>(s: Seq<NodeConfigs<C, R>>) -> bool
    decreases s,
{
    if s.len() == 0 {
        true
    } else {
        seq_main_handled(s.drop_last()) && main_handled(s.last())
    }
}

} // verus!

verus! {

/// The constraint targets of every node of the main tree are fully handled.
pub open spec fn targets_handled<C, R>(cfg: NodeConfigs<C, R>) -> bool
    decreases cfg,
{
    match cfg {
        NodeConfigs::Single { constraints, .. } => cons_handled(constraints@),
        NodeConfigs::Multiple { configs, constraints, .. } => seq_targets_handled(configs@)
            && cons_handled(constraints@),
    }
}

pub open spec fn seq_targets_handled<C, R>(s: Seq<NodeConfigs<C, R>>) -> bool
    decreases s,
{
    if s.len() == 0 {
        true
    } else {
        seq_targets_handled(s.drop_last()) && targets_handled(s.last())
    }
}

pub proof fn lemma_seq_handled_all<C, R>(s: Seq<NodeConfigs<C, R>>)
    ensures
        seq_handled(s) <==> forall|i: int| 0 <= i < s.len() ==> handled(#[trigger] s[i]),
        seq_main_handled(s) <==> forall|i: int| 0 <= i < s.len() ==> main_handled(#[trigger] s[i]),
        seq_targets_handled(s) <==> forall|i: int| 0 <= i < s.len() ==> targets_handled(#[trigger] s[i]),
    decreases s.len(),
{
    if s.len() > 0 {
        let d = s.drop_last();
        lemma_seq_handled_all(d);
        assert(s.last() == s[s.len() - 1]);
        assert forall|i: int| 0 <= i < s.len() - 1 implies #[trigger] d[i] == s[i] by {}
        if forall|i: int| 0 <= i < s.len() ==> handled(#[trigger] s[i]) {
            assert forall|i: int| 0 <= i < d.len() implies handled(#[trigger] d[i]) by {
                assert(d[i] == s[i]);
            }
        }
        if forall|i: int| 0 <= i < s.len() ==> main_handled(#[trigger] s[i]) {
            assert forall|i: int| 0 <= i < d.len() implies main_handled(#[trigger] d[i]) by {
                assert(d[i] == s[i]);
            }
        }
        if forall|i: int| 0 <= i < s.len() ==> targets_handled(#[trigger] s[i]) {
            assert forall|i: int| 0 <= i < d.len() implies targets_handled(#[trigger] d[i]) by {
                assert(d[i] == s[i]);
            }
        }
        if seq_handled(s) {
            assert forall|i: int| 0 <= i < s.len() implies handled(#[trigger] s[i]) by {
                if i < s.len() - 1 {
                    assert(d[i] == s[i]);
                }
            }
        }
        if seq_main_handled(s) {
            assert forall|i: int| 0 <= i < s.len() implies main_handled(#[trigger] s[i]) by {
                if i < s.len() - 1 {
                    assert(d[i] == s[i]);
                }
            }
        }
        if seq_targets_handled(s) {
            assert forall|i: int| 0 <= i < s.len() implies targets_handled(#[trigger] s[i]) by {
                if i < s.len() - 1 {
                    assert(d[i] == s[i]);
                }
            }
        }
    }
}

pub proof fn lemma_cons_handled_all<C, R>(s: Seq<(Constraint, NodeConfigs<C, R>)>)
    ensures
        cons_handled(s) <==> forall|i: int| 0 <= i < s.len() ==> handled(#[trigger] s[i].1),
    decreases s.len(),
{
    if s.len() > 0 {
        let d = s.drop_last();
        lemma_cons_handled_all(d);
        assert(s.last() == s[s.len() - 1]);
        if forall|i: int| 0 <= i < s.len() ==> handled(#[trigger] s[i].1) {
            assert forall|i: int| 0 <= i < d.len() implies handled(#[trigger] d[i].1) by {
                assert(d[i] == s[i]);
            }
        }
        if cons_handled(s) {
            assert forall|i: int| 0 <= i < s.len() implies handled(#[trigger] s[i].1) by {
                if i < s.len() - 1 {
                    assert(d[i] == s[i]);
                }
            }
        }
    }
}

pub proof fn lemma_seq_same_all<C, R>(a: Seq<NodeConfigs<C, R>>, b: Seq<NodeConfigs<C, R>>)
    ensures
        seq_same_main(a, b) <==> (a.len() == b.len() && forall|i: int|
            0 <= i < a.len() ==> same_main(#[trigger] a[i], b[i])),
        seq_same_shape(a, b) <==> (a.len() == b.len() && forall|i: int|
            0 <= i < a.len() ==> same_shape(#[trigger] a[i], b[i])),
    decreases a.len(),
{
    if a.len() > 0 && b.len() == a.len() {
        let da = a.drop_last();
        let db = b.drop_last();
        lemma_seq_same_all(da, db);
        assert(a.last() == a[a.len() - 1]);
        assert(b.last() == b[b.len() - 1]);
        if forall|i: int| 0 <= i < a.len() ==> same_main(#[trigger] a[i], b[i]) {
            assert forall|i: int| 0 <= i < da.len() implies same_main(#[trigger] da[i], db[i]) by {
                assert(da[i] == a[i] && db[i] == b[i]);
            }
        }
        if forall|i: int| 0 <= i < a.len() ==> same_shape(#[trigger] a[i], b[i]) {
            assert forall|i: int| 0 <= i < da.len() implies same_shape(#[trigger] da[i], db[i]) by {
                assert(da[i] == a[i] && db[i] == b[i]);
            }
        }
        if seq_same_main(a, b) {
            assert forall|i: int| 0 <= i < a.len() implies same_main(#[trigger] a[i], b[i]) by {
                if i < a.len() - 1 {
                    assert(da[i] == a[i] && db[i] == b[i]);
                }
            }
        }
        if seq_same_shape(a, b) {
            assert forall|i: int| 0 <= i < a.len() implies same_shape(#[trigger] a[i], b[i]) by {
                if i < a.len() - 1 {
                    assert(da[i] == a[i] && db[i] == b[i]);
                }
            }
        }
    }
}

/// A configuration whose main tree and constraint targets are handled is handled.
pub proof fn lemma_handled_parts<C, R>(cfg: NodeConfigs<C, R>)
    requires
        main_handled(cfg),
        targets_handled(cfg),
    ensures
        handled(cfg),
    decreases cfg,
{
    if let NodeConfigs::Multiple { configs, .. } = cfg {
        lemma_seq_handled_all(configs@);
        assert forall|i: int| 0 <= i < configs@.len() implies handled(#[trigger] configs@[i]) by {
            lemma_handled_parts(configs@[i]);
        }
    }
}

/// The same handles in the same shape keep the main tree handled.
pub proof fn lemma_same_main_handled<C, R>(a: NodeConfigs<C, R>, b: NodeConfigs<C, R>)
    requires
        same_main(a, b),
    ensures
        main_handled(a) ==> main_handled(b),
        same_shape(a, b),
        handles(a) == handles(b),
    decreases a,
{
    if let (NodeConfigs::Multiple { configs: xa, .. }, NodeConfigs::Multiple { configs: xb, .. }) = (
        a,
        b,
    ) {
        lemma_seq_same_all(xa@, xb@);
        lemma_seq_handled_all(xa@);
        lemma_seq_handled_all(xb@);
        assert forall|i: int| 0 <= i < xa@.len() implies same_shape(#[trigger] xa@[i], xb@[i])
            && (main_handled(xa@[i]) ==> main_handled(xb@[i])) && handles(xa@[i]) == handles(xb@[i]) by {
            lemma_same_main_handled(xa@[i], xb@[i]);
        }
        if main_handled(a) {
            assert forall|i: int| 0 <= i < xb@.len() implies main_handled(#[trigger] xb@[i]) by {
                assert(main_handled(xa@[i]));
            }
        }
        lemma_seq_handles_eq(xa@, xb@);
    }
}

pub proof fn lemma_seq_handles_eq<C, R>(a: Seq<NodeConfigs<C, R>>, b: Seq<NodeConfigs<C, R>>)
    requires
        a.len() == b.len(),
        forall|i: int| 0 <= i < a.len() ==> handles(#[trigger] a[i]) == handles(b[i]),
    ensures
        handles_seq(a) == handles_seq(b),
    decreases a.len(),
{
    if a.len() > 0 {
        assert forall|i: int| 0 <= i < a.len() - 1 implies handles(#[trigger] a.drop_last()[i])
            == handles(b.drop_last()[i]) by {
            assert(a.drop_last()[i] == a[i] && b.drop_last()[i] == b[i]);
        }
        lemma_seq_handles_eq(a.drop_last(), b.drop_last());
    }
}

/// Configurations of the same shape stand for the same number of handles, and
/// a configuration stands for as many handles as it has single nodes.
pub proof fn lemma_same_shape_count<C, R>(a: NodeConfigs<C, R>, b: NodeConfigs<C, R>)
    requires
        same_shape(a, b),
    ensures
        leaf_count(a) == leaf_count(b),
        handles(a).len() == leaf_count(a),
        handles(b).len() == leaf_count(b),
    decreases a,
{
    if let (NodeConfigs::Multiple { configs: xa, .. }, NodeConfigs::Multiple { configs: xb, .. }) = (
        a,
        b,
    ) {
        lemma_seq_same_all(xa@, xb@);
        assert forall|i: int| 0 <= i < xa@.len() implies leaf_count(#[trigger] xa@[i]) == leaf_count(
            xb@[i],
        ) && handles(xa@[i]).len() == leaf_count(xa@[i]) && handles(xb@[i]).len() == leaf_count(
            xb@[i],
        ) by {
            lemma_same_shape_count(xa@[i], xb@[i]);
        }
        lemma_seq_count(xa@, xb@);
    }
}

pub proof fn lemma_seq_count<C, R>(a: Seq<NodeConfigs<C, R>>, b: Seq<NodeConfigs<C, R>>)
    requires
        a.len() == b.len(),
        forall|i: int|
            0 <= i < a.len() ==> leaf_count(#[trigger] a[i]) == leaf_count(b[i]) && handles(a[i]).len()
                == leaf_count(a[i]) && handles(b[i]).len() == leaf_count(b[i]),
    ensures
        seq_leaf_count(a) == seq_leaf_count(b),
        handles_seq(a).len() == seq_leaf_count(a),
        handles_seq(b).len() == seq_leaf_count(b),
    decreases a.len(),
{
    if a.len() > 0 {
        assert forall|i: int| 0 <= i < a.len() - 1 implies #[trigger] a.drop_last()[i] == a[i]
            && b.drop_last()[i] == b[i] by {}
        lemma_seq_count(a.drop_last(), b.drop_last());
    }
}

} // verus!

verus! {

/// `b` is `a` with its nodes given handles: the same tree, the same chains and
/// constraints, and every handle that `a` already names kept.
pub open spec fn refines<C, R>(a: NodeConfigs<C, R>, b: NodeConfigs<C, R>) -> bool
    decreases a,
{
    match (a, b) {
        (
            NodeConfigs::Single { config: ca, constraints: ka },
            NodeConfigs::Single { config: cb, constraints: kb },
        ) => (ca.handle is Some ==> cb.handle == ca.handle) && cons_refines(ka@, kb@),
        (
            NodeConfigs::Multiple { configs: xa, chain: cha, constraints: ka },
            NodeConfigs::Multiple { configs: xb, chain: chb, constraints: kb },
        ) => cha == chb && seq_refines(xa@, xb@) && cons_refines(ka@, kb@),
        _ => false,
    }
}

pub open spec fn seq_refines<C, R>(a: Seq<NodeConfigs<C, R>>, b: Seq<NodeConfigs<C, R>>) -> bool
    decreases a,
{
    if a.len() == 0 {
        b.len() == 0
    } else {
        b.len() == a.len() && seq_refines(a.drop_last(), b.drop_last()) && refines(a.last(), b.last())
    }
}

pub open spec fn cons_refines<C, R>(a: Seq<(Constraint, NodeConfigs<C, R>)>, b: Seq<(Constraint, NodeConfigs<C, R>)>) -> bool
    decreases a,
{
    if a.len() == 0 {
        b.len() == 0
    } else {
        b.len() == a.len() && cons_refines(a.drop_last(), b.drop_last()) && a.last().0 == b.last().0
            && refines(a.last().1, b.last().1)
    }
}

pub proof fn lemma_seq_refines_all<C, R>(a: Seq<NodeConfigs<C, R>>, b: Seq<NodeConfigs<C, R>>)
    ensures
        seq_refines(a, b) <==> (a.len() == b.len() && forall|i: int|
            0 <= i < a.len() ==> refines(#[trigger] a[i], b[i])),
    decreases a.len(),
{
    if a.len() > 0 && b.len() == a.len() {
        let da = a.drop_last();
        let db = b.drop_last();
        lemma_seq_refines_all(da, db);
        assert(a.last() == a[a.len() - 1]);
        assert(b.last() == b[b.len() - 1]);
        if forall|i: int| 0 <= i < a.len() ==> refines(#[trigger] a[i], b[i]) {
            assert forall|i: int| 0 <= i < da.len() implies refines(#[trigger] da[i], db[i]) by {
                assert(da[i] == a[i] && db[i] == b[i]);
            }
        }
        if seq_refines(a, b) {
            assert forall|i: int| 0 <= i < a.len() implies refines(#[trigger] a[i], b[i]) by {
                if i < a.len() - 1 {
                    assert(da[i] == a[i] && db[i] == b[i]);
                }
            }
        }
    }
}

pub proof fn lemma_cons_refines_all<C, R>(
    a: Seq<(Constraint, NodeConfigs<C, R>)>,
    b: Seq<(Constraint, NodeConfigs<C, R>)>,
)
    ensures
        cons_refines(a, b) <==> (a.len() == b.len() && forall|i: int|
            0 <= i < a.len() ==> (#[trigger] a[i]).0 == b[i].0 && refines(a[i].1, b[i].1)),
    decreases a.len(),
{
    if a.len() > 0 && b.len() == a.len() {
        let da = a.drop_last();
        let db = b.drop_last();
        lemma_cons_refines_all(da, db);
        assert(a.last() == a[a.len() - 1]);
        assert(b.last() == b[b.len() - 1]);
        if forall|i: int| 0 <= i < a.len() ==> (#[trigger] a[i]).0 == b[i].0 && refines(a[i].1, b[i].1) {
            assert forall|i: int| 0 <= i < da.len() implies (#[trigger] da[i]).0 == db[i].0 && refines(
                da[i].1,
                db[i].1,
            ) by {
                assert(da[i] == a[i] && db[i] == b[i]);
            }
        }
        if cons_refines(a, b) {
            assert forall|i: int| 0 <= i < a.len() implies (#[trigger] a[i]).0 == b[i].0 && refines(
                a[i].1,
                b[i].1,
            ) by {
                if i < a.len() - 1 {
                    assert(da[i] == a[i] && db[i] == b[i]);
                }
            }
        }
    }
}

/// Every configuration refines itself.
pub proof fn lemma_refines_refl<C, R>(a: NodeConfigs<C, R>)
    ensures
        refines(a, a),
    decreases height(a),
{
    match a {
        NodeConfigs::Single { constraints, .. } => {
            lemma_cons_height(constraints@);
            assert forall|i: int| 0 <= i < constraints@.len() implies (#[trigger] constraints@[i]).0
                == constraints@[i].0 && refines(constraints@[i].1, constraints@[i].1) by {
                lemma_refines_refl(constraints@[i].1);
            }
            lemma_cons_refines_all(constraints@, constraints@);
        },
        NodeConfigs::Multiple { configs, constraints, .. } => {
            lemma_cons_height(constraints@);
            lemma_seq_height(configs@);
            assert forall|i: int| 0 <= i < constraints@.len() implies (#[trigger] constraints@[i]).0
                == constraints@[i].0 && refines(constraints@[i].1, constraints@[i].1) by {
                lemma_refines_refl(constraints@[i].1);
            }
            lemma_cons_refines_all(constraints@, constraints@);
            assert forall|i: int| 0 <= i < configs@.len() implies refines(
                #[trigger] configs@[i],
                configs@[i],
            ) by {
                lemma_refines_refl(configs@[i]);
            }
            lemma_seq_refines_all(configs@, configs@);
        },
    }
}

/// Refinement composes.
pub proof fn lemma_refines_trans<C, R>(a: NodeConfigs<C, R>, b: NodeConfigs<C, R>, c: NodeConfigs<C, R>)
    requires
        refines(a, b),
        refines(b, c),
    ensures
        refines(a, c),
    decreases height(a),
{
    match (a, b, c) {
        (
            NodeConfigs::Single { constraints: ka, .. },
            NodeConfigs::Single { constraints: kb, .. },
            NodeConfigs::Single { constraints: kc, .. },
        ) => {
            lemma_cons_height(ka@);
            lemma_cons_refines_all(ka@, kb@);
            lemma_cons_refines_all(kb@, kc@);
            assert forall|i: int| 0 <= i < ka@.len() implies (#[trigger] ka@[i]).0 == kc@[i].0 && refines(
                ka@[i].1,
                kc@[i].1,
            ) by {
                lemma_refines_trans(ka@[i].1, kb@[i].1, kc@[i].1);
            }
            lemma_cons_refines_all(ka@, kc@);
        },
        (
            NodeConfigs::Multiple { configs: xa, constraints: ka, .. },
            NodeConfigs::Multiple { configs: xb, constraints: kb, .. },
            NodeConfigs::Multiple { configs: xc, constraints: kc, .. },
        ) => {
            lemma_cons_height(ka@);
            lemma_seq_height(xa@);
            lemma_cons_refines_all(ka@, kb@);
            lemma_cons_refines_all(kb@, kc@);
            assert forall|i: int| 0 <= i < ka@.len() implies (#[trigger] ka@[i]).0 == kc@[i].0 && refines(
                ka@[i].1,
                kc@[i].1,
            ) by {
                lemma_refines_trans(ka@[i].1, kb@[i].1, kc@[i].1);
            }
            lemma_cons_refines_all(ka@, kc@);
            lemma_seq_refines_all(xa@, xb@);
            lemma_seq_refines_all(xb@, xc@);
            assert forall|i: int| 0 <= i < xa@.len() implies refines(#[trigger] xa@[i], xc@[i]) by {
                lemma_refines_trans(xa@[i], xb@[i], xc@[i]);
            }
            lemma_seq_refines_all(xa@, xc@);
        },
        _ => {},
    }
}

proof fn lemma_seq_pointwise<C, R>(s: Seq<NodeConfigs<C, R>>, t: Seq<NodeConfigs<C, R>>)
    requires
        s.len() == t.len(),
        forall|i: int|
            0 <= i < s.len() ==> handles(#[trigger] s[i]) == handles(t[i]) && cfg_edges(s[i]) == cfg_edges(
                t[i],
            ),
    ensures
        handles_seq(s) == handles_seq(t),
        seq_edges(s) == seq_edges(t),
        chain_edges(s) == chain_edges(t),
    decreases s.len(),
{
    if s.len() > 0 {
        let ds = s.drop_last();
        let dt = t.drop_last();
        assert forall|i: int| 0 <= i < ds.len() implies handles(#[trigger] ds[i]) == handles(dt[i])
            && cfg_edges(ds[i]) == cfg_edges(dt[i]) by {
            assert(ds[i] == s[i] && dt[i] == t[i]);
        }
        lemma_seq_pointwise(ds, dt);
        assert(s.last() == s[s.len() - 1] && t.last() == t[t.len() - 1]);
        if s.len() >= 2 {
            assert(s[s.len() - 2] == s[s.len() - 2] && handles(s[s.len() - 2]) == handles(t[t.len() - 2]));
        }
    }
}

proof fn lemma_cons_pointwise<C, R>(
    own: Seq<NodeHandle>,
    s: Seq<(Constraint, NodeConfigs<C, R>)>,
    t: Seq<(Constraint, NodeConfigs<C, R>)>,
)
    requires
        s.len() == t.len(),
        forall|i: int|
            0 <= i < s.len() ==> (#[trigger] s[i]).0 == t[i].0 && handles(s[i].1) == handles(t[i].1)
                && cfg_edges(s[i].1) == cfg_edges(t[i].1),
    ensures
        cons_edges(own, s) == cons_edges(own, t),
    decreases s.len(),
{
    if s.len() > 0 {
        let ds = s.drop_last();
        let dt = t.drop_last();
        assert forall|i: int| 0 <= i < ds.len() implies (#[trigger] ds[i]).0 == dt[i].0 && handles(ds[i].1)
            == handles(dt[i].1) && cfg_edges(ds[i].1) == cfg_edges(dt[i].1) by {
            assert(ds[i] == s[i] && dt[i] == t[i]);
        }
        lemma_cons_pointwise(own, ds, dt);
        assert(s.last() == s[s.len() - 1] && t.last() == t[t.len() - 1]);
    }
}

/// A configuration that already names every handle stands for the same
/// handles and adds the same edges as any refinement of it.
pub proof fn lemma_refines_edges<C, R>(a: NodeConfigs<C, R>, b: NodeConfigs<C, R>)
    requires
        handled(a),
        refines(a, b),
    ensures
        handles(a) == handles(b),
        cfg_edges(a) == cfg_edges(b),
    decreases height(a),
{
    match (a, b) {
        (NodeConfigs::Single { constraints: ka, .. }, NodeConfigs::Single { constraints: kb, .. }) => {
            lemma_cons_height(ka@);
            lemma_cons_refines_all(ka@, kb@);
            lemma_cons_handled_all(ka@);
            assert forall|i: int| 0 <= i < ka@.len() implies (#[trigger] ka@[i]).0 == kb@[i].0 && handles(
                ka@[i].1,
            ) == handles(kb@[i].1) && cfg_edges(ka@[i].1) == cfg_edges(kb@[i].1) by {
                lemma_refines_edges(ka@[i].1, kb@[i].1);
            }
            lemma_cons_pointwise(handles(a), ka@, kb@);
        },
        (
            NodeConfigs::Multiple { configs: xa, constraints: ka, .. },
            NodeConfigs::Multiple { configs: xb, constraints: kb, .. },
        ) => {
            lemma_cons_height(ka@);
            lemma_seq_height(xa@);
            lemma_seq_refines_all(xa@, xb@);
            lemma_seq_handled_all(xa@);
            assert forall|i: int| 0 <= i < xa@.len() implies handles(#[trigger] xa@[i]) == handles(xb@[i])
                && cfg_edges(xa@[i]) == cfg_edges(xb@[i]) by {
                lemma_refines_edges(xa@[i], xb@[i]);
            }
            lemma_seq_pointwise(xa@, xb@);
            lemma_cons_refines_all(ka@, kb@);
            lemma_cons_handled_all(ka@);
            assert forall|i: int| 0 <= i < ka@.len() implies (#[trigger] ka@[i]).0 == kb@[i].0 && handles(
                ka@[i].1,
            ) == handles(kb@[i].1) && cfg_edges(ka@[i].1) == cfg_edges(kb@[i].1) by {
                lemma_refines_edges(ka@[i].1, kb@[i].1);
            }
            lemma_cons_pointwise(handles(a), ka@, kb@);
        },
        _ => {},
    }
}

/// A node with a handle, constrained against a single other node with a
/// handle, adds exactly one edge between them: a dependency edge from the
/// first to run to the second for `Before` and `After`, and a hierarchy edge
/// from the container to the contained for `Contains` and `Within`.
pub proof fn law_constraint_edge<C, R>(cfg: NodeConfigs<C, R>, k: Constraint, target: NodeConfigs<C, R>)
    requires
        cfg is Single,
        cfg->Single_config.handle is Some,
        target is Single,
        target->Single_config.handle is Some,
        target->Single_constraints@.len() == 0,
        cfg->Single_constraints@ == seq![(k, target)],
    ensures
        handled(cfg),
        ({
            let a = key_of(cfg->Single_config.handle.unwrap());
            let b = key_of(target->Single_config.handle.unwrap());
            cfg_edges(cfg) == match k {
                Constraint::Before => (set![(a, b)], Set::<(NodeKey, NodeKey)>::empty()),
                Constraint::After => (set![(b, a)], Set::<(NodeKey, NodeKey)>::empty()),
                Constraint::Contains => (Set::<(NodeKey, NodeKey)>::empty(), set![(a, b)]),
                Constraint::Within => (Set::<(NodeKey, NodeKey)>::empty(), set![(b, a)]),
            }
        }),
{
    let ha = cfg->Single_config.handle.unwrap();
    let hb = target->Single_config.handle.unwrap();
    let a = key_of(ha);
    let b = key_of(hb);
    let cons = cfg->Single_constraints@;
    assert(cons.drop_last() =~= Seq::<(Constraint, NodeConfigs<C, R>)>::empty());
    assert(target->Single_constraints@ =~= Seq::<(Constraint, NodeConfigs<C, R>)>::empty());
    assert(keys(seq![ha]) =~= set![a]) by {
        assert forall|x: NodeKey| keys(seq![ha]).contains(x) <==> x == a by {
            if x == a {
                assert(seq![ha][0] == ha);
            }
        }
    }
    assert(keys(seq![hb]) =~= set![b]) by {
        assert forall|x: NodeKey| keys(seq![hb]).contains(x) <==> x == b by {
            if x == b {
                assert(seq![hb][0] == hb);
            }
        }
    }
    assert(pairs(seq![ha], seq![hb]) =~= set![(a, b)]);
    assert(pairs(seq![hb], seq![ha]) =~= set![(b, a)]);
    assert(cons.last() == (k, target));
    assert(cons_handled(target->Single_constraints@));
    assert(handled(target));
    assert(cons_handled(cons.drop_last()));
    assert(cons_handled(cons));
    assert(handles(cfg) == seq![ha]);
    assert(handles(target) == seq![hb]);
    let empty = Set::<(NodeKey, NodeKey)>::empty();
    assert(cons_edges(seq![hb], target->Single_constraints@) == (empty, empty));
    assert(cfg_edges(target) == (empty, empty));
    assert(cons_edges(seq![ha], cons.drop_last()) == (empty, empty));
    let e = cfg_edges(cfg);
    assert(e == cons_edges(seq![ha], cons));
    let d = match k {
        Constraint::Before => (set![(a, b)], Set::<(NodeKey, NodeKey)>::empty()),
        Constraint::After => (set![(b, a)], Set::<(NodeKey, NodeKey)>::empty()),
        Constraint::Contains => (Set::<(NodeKey, NodeKey)>::empty(), set![(a, b)]),
        Constraint::Within => (Set::<(NodeKey, NodeKey)>::empty(), set![(b, a)]),
    };
    assert(e.0 =~= d.0);
    assert(e.1 =~= d.1);
}

/// No single node of the configuration, constraint targets included, carries
/// a tag or a debugging name: adding it cannot fail.
pub open spec fn plain<C, R>(cfg: NodeConfigs<C, R>) -> bool
    decreases cfg,
{
    match cfg {
        NodeConfigs::Single { config, constraints } => config.tag is None && config.debug_name is None
            && cons_plain(constraints@),
        NodeConfigs::Multiple { configs, constraints, .. } => seq_plain(configs@) && cons_plain(constraints@),
    }
}

pub open spec fn seq_plain<C, R>(s: Seq<NodeConfigs<C, R>>) -> bool
    decreases s,
{
    if s.len() == 0 {
        true
    } else {
        seq_plain(s.drop_last()) && plain(s.last())
    }
}

pub open spec fn cons_plain<C, R>(cons: Seq<(Constraint, NodeConfigs<C, R>)>) -> bool
    decreases cons,
{
    if cons.len() == 0 {
        true
    } else {
        cons_plain(cons.drop_last()) && plain(cons.last().1)
    }
}

pub proof fn lemma_plain_all<C, R>(s: Seq<NodeConfigs<C, R>>, k: Seq<(Constraint, NodeConfigs<C, R>)>)
    ensures
        seq_plain(s) <==> forall|i: int| 0 <= i < s.len() ==> plain(#[trigger] s[i]),
        cons_plain(k) <==> forall|i: int| 0 <= i < k.len() ==> plain(#[trigger] k[i].1),
    decreases s.len() + k.len(),
{
    if s.len() > 0 {
        let d = s.drop_last();
        lemma_plain_all(d, k);
        assert(s.last() == s[s.len() - 1]);
        if forall|i: int| 0 <= i < s.len() ==> plain(#[trigger] s[i]) {
            assert forall|i: int| 0 <= i < d.len() implies plain(#[trigger] d[i]) by {
                assert(d[i] == s[i]);
            }
        }
        if seq_plain(s) {
            assert forall|i: int| 0 <= i < s.len() implies plain(#[trigger] s[i]) by {
                if i < s.len() - 1 {
                    assert(d[i] == s[i]);
                }
            }
        }
    } else if k.len() > 0 {
        let d = k.drop_last();
        lemma_plain_all(s, d);
        assert(k.last() == k[k.len() - 1]);
        if forall|i: int| 0 <= i < k.len() ==> plain(#[trigger] k[i].1) {
            assert forall|i: int| 0 <= i < d.len() implies plain(#[trigger] d[i].1) by {
                assert(d[i] == k[i]);
            }
        }
        if cons_plain(k) {
            assert forall|i: int| 0 <= i < k.len() implies plain(#[trigger] k[i].1) by {
                if i < k.len() - 1 {
                    assert(d[i] == k[i]);
                }
            }
        }
    }
}

/// The height of a configuration, counting both its parts and its constraint targets.
pub open spec fn height<C, R>(cfg: NodeConfigs<C, R>) -> nat
    decreases cfg,
{
    match cfg {
        NodeConfigs::Single { constraints, .. } => 1 + cons_height(constraints@),
        NodeConfigs::Multiple { configs, constraints, .. } => {
            let a = seq_height(configs@);
            let b = cons_height(constraints@);
            1 + if a < b {
                b
            } else {
                a
            }
        },
    }
}

pub open spec fn seq_height<C, R>(s: Seq<NodeConfigs<C, R>>) -> nat
    decreases s,
{
    if s.len() == 0 {
        0
    } else {
        let a = seq_height(s.drop_last());
        let b = height(s.last());
        if a < b {
            b
        } else {
            a
        }
    }
}

pub open spec fn cons_height<C, R>(s: Seq<(Constraint, NodeConfigs<C, R>)>) -> nat
    decreases s,
{
    if s.len() == 0 {
        0
    } else {
        let a = cons_height(s.drop_last());
        let b = height(s.last().1) + 1;
        if a < b {
            b
        } else {
            a
        }
    }
}

pub proof fn lemma_seq_height<C, R>(s: Seq<NodeConfigs<C, R>>)
    ensures
        forall|i: int| 0 <= i < s.len() ==> height(#[trigger] s[i]) <= seq_height(s),
    decreases s.len(),
{
    if s.len() > 0 {
        lemma_seq_height(s.drop_last());
        assert forall|i: int| 0 <= i < s.len() implies height(#[trigger] s[i]) <= seq_height(s) by {
            if i < s.len() - 1 {
                assert(s.drop_last()[i] == s[i]);
            }
        }
    }
}

pub proof fn lemma_cons_height<C, R>(s: Seq<(Constraint, NodeConfigs<C, R>)>)
    ensures
        forall|i: int| 0 <= i < s.len() ==> height(#[trigger] s[i].1) < cons_height(s),
    decreases s.len(),
{
    if s.len() > 0 {
        lemma_cons_height(s.drop_last());
        assert forall|i: int| 0 <= i < s.len() implies height(#[trigger] s[i].1) < cons_height(s) by {
            if i < s.len() - 1 {
                assert(s.drop_last()[i] == s[i]);
            }
        }
    }
}

pub proof fn lemma_seq_height_eq<C, R>(a: Seq<NodeConfigs<C, R>>, b: Seq<NodeConfigs<C, R>>)
    requires
        a.len() == b.len(),
        forall|i: int| 0 <= i < a.len() ==> height(#[trigger] a[i]) == height(b[i]),
    ensures
        seq_height(a) == seq_height(b),
    decreases a.len(),
{
    if a.len() > 0 {
        assert forall|i: int| 0 <= i < a.len() - 1 implies height(#[trigger] a.drop_last()[i])
            == height(b.drop_last()[i]) by {
            assert(a.drop_last()[i] == a[i] && b.drop_last()[i] == b[i]);
        }
        lemma_seq_height_eq(a.drop_last(), b.drop_last());
    }
}

} // verus!

verus! {

/// The constraints of a configuration.
pub open spec fn constraints_of<C, R>(cfg: NodeConfigs<C, R>) -> Seq<(Constraint, NodeConfigs<C, R>)> {
    match cfg {
        NodeConfigs::Single { constraints, .. } => constraints@,
        NodeConfigs::Multiple { constraints, .. } => constraints@,
    }
}

/// `b` is `a` with one more constraint.
pub open spec fn with_constraint<C, R>(
    a: NodeConfigs<C, R>,
    b: NodeConfigs<C, R>,
    kind: Constraint,
    target: NodeConfigs<C, R>,
) -> bool {
    &&& constraints_of(b) == constraints_of(a).push((kind, target))
    &&& match (a, b) {
        (NodeConfigs::Single { config: ca, .. }, NodeConfigs::Single { config: cb, .. }) => ca == cb,
        (
            NodeConfigs::Multiple { configs: xa, chain: cha, .. },
            NodeConfigs::Multiple { configs: xb, chain: chb, .. },
        ) => xa == xb && cha == chb,
        _ => false,
    }
}

impl<C, R> SingleConfig<C, R> {
    /// A configuration with nothing set: a new container.
    pub fn empty() -> (r: Self)
        ensures
            r.handle is None,
            r.tag is None,
            r.debug_name is None,
            r.command is None,
            r.release is None,
    {
        SingleConfig { handle: None, tag: None, debug_name: None, command: None, release: None }
    }
}

impl<C, R> Default for SingleConfig<C, R> {
    fn default() -> (r: Self)
        ensures
            r.handle is None,
            r.tag is None,
            r.debug_name is None,
            r.command is None,
            r.release is None,
    {
        Self::empty()
    }
}

impl<C, R> NodeConfigs<C, R> {
    /// A single node from its description, with no constraints.
    pub fn single(config: SingleConfig<C, R>) -> (r: Self)
        ensures
            r is Single,
            r->Single_config == config,
            constraints_of(r).len() == 0,
    {
        NodeConfigs::Single { config, constraints: Vec::new() }
    }

    /// A single node that runs a command.
    pub fn command(command: C) -> (r: Self)
        ensures
            r is Single,
            r->Single_config.command == Some(command),
            r->Single_config.handle is None,
            r->Single_config.tag is None,
            r->Single_config.debug_name is None,
            r->Single_config.release is None,
            constraints_of(r).len() == 0,
    {
        let mut config = SingleConfig::empty();
        config.command = Some(command);
        NodeConfigs::Single { config, constraints: Vec::new() }
    }

    /// A single node that runs a command, with a resource to release once the graph has run.
    pub fn command_with_release(command: C, release: R) -> (r: Self)
        ensures
            r is Single,
            r->Single_config.command == Some(command),
            r->Single_config.release == Some(release),
            r->Single_config.handle is None,
            r->Single_config.tag is None,
            r->Single_config.debug_name is None,
            constraints_of(r).len() == 0,
    {
        let mut config = SingleConfig::empty();
        config.command = Some(command);
        config.release = Some(release);
        NodeConfigs::Single { config, constraints: Vec::new() }
    }

    fn add_constraint(&mut self, kind: Constraint, target: NodeConfigs<C, R>)
        ensures
            with_constraint(*old(self), *final(self), kind, target),
    {
        match self {
            NodeConfigs::Single { constraints, .. } => constraints.push((kind, target)),
            NodeConfigs::Multiple { constraints, .. } => constraints.push((kind, target)),
        }
    }

    /// These nodes run before the other nodes.
    pub fn before(self, other: NodeConfigs<C, R>) -> (r: Self)
        ensures
            with_constraint(self, r, Constraint::Before, other),
    {
        let mut cfg = self;
        cfg.add_constraint(Constraint::Before, other);
        cfg
    }

    /// These nodes run after the other nodes.
    pub fn after(self, other: NodeConfigs<C, R>) -> (r: Self)
        ensures
            with_constraint(self, r, Constraint::After, other),
    {
        let mut cfg = self;
        cfg.add_constraint(Constraint::After, other);
        cfg
    }

    /// These nodes contain the other nodes.
    pub fn contains(self, other: NodeConfigs<C, R>) -> (r: Self)
        ensures
            with_constraint(self, r, Constraint::Contains, other),
    {
        let mut cfg = self;
        cfg.add_constraint(Constraint::Contains, other);
        cfg
    }

    /// These nodes are contained in the other nodes.
    pub fn within(self, other: NodeConfigs<C, R>) -> (r: Self)
        ensures
            with_constraint(self, r, Constraint::Within, other),
    {
        let mut cfg = self;
        cfg.add_constraint(Constraint::Within, other);
        cfg
    }

    /// Orders the parts of a group one after the other.
    pub fn chain(self) -> (r: Self)
        requires
            self is Multiple,
        ensures
            r is Multiple,
            r->configs == self->configs,
            r->chain,
            r->Multiple_constraints == self->Multiple_constraints,
    {
        match self {
            NodeConfigs::Multiple { configs, constraints, .. } => NodeConfigs::Multiple {
                configs,
                chain: true,
                constraints,
            },
            NodeConfigs::Single { .. } => {
                assert(false);
                self
            },
        }
    }

    /// Tags a single node.
    pub fn tag(self, tag: impl Tag) -> (r: Self)
        requires
            self is Single,
        ensures
            r is Single,
            r->Single_config.tag == Some(tag.spec_dyn_tag()),
            r->Single_config.handle == self->Single_config.handle,
            r->Single_config.debug_name == self->Single_config.debug_name,
            r->Single_config.command == self->Single_config.command,
            r->Single_config.release == self->Single_config.release,
            r->Single_constraints == self->Single_constraints,
    {
        match self {
            NodeConfigs::Single { config, constraints } => {
                let mut config = config;
                config.tag = Some(DynTag::new(tag));
                NodeConfigs::Single { config, constraints }
            },
            NodeConfigs::Multiple { .. } => {
                assert(false);
                self
            },
        }
    }

    /// Names a single node, for debugging.
    pub fn debug_name(self, name: &str) -> (r: Self)
        requires
            self is Single,
        ensures
            r is Single,
            r->Single_config.debug_name matches Some(s) && s@ == name@,
            r->Single_config.tag == self->Single_config.tag,
            r->Single_config.handle == self->Single_config.handle,
            r->Single_config.command == self->Single_config.command,
            r->Single_config.release == self->Single_config.release,
            r->Single_constraints == self->Single_constraints,
    {
        match self {
            NodeConfigs::Single { config, constraints } => {
                let mut config = config;
                config.debug_name = Some(String::from_str(name));
                NodeConfigs::Single { config, constraints }
            },
            NodeConfigs::Multiple { .. } => {
                assert(false);
                self
            },
        }
    }
}

/// A value that stands for nodes of a compute graph.
pub trait AsNodes<C, R>: Sized {
    fn into_node_configs(self) -> NodeConfigs<C, R>;
}

impl<C, R> AsNodes<C, R> for NodeConfigs<C, R> {
    fn into_node_configs(self) -> (r: NodeConfigs<C, R>)
        ensures
            r == self,
    {
        self
    }
}

impl<C, R> AsNodes<C, R> for NodeHandle {
    fn into_node_configs(self) -> (r: NodeConfigs<C, R>)
        ensures
            r is Single,
            r->Single_config.handle == Some(self),
            r->Single_config.tag is None,
            r->Single_config.debug_name is None,
            r->Single_config.command is None,
            r->Single_config.release is None,
            constraints_of::<C, R>(r).len() == 0,
    {
        let mut config = SingleConfig::empty();
        config.handle = Some(self);
        NodeConfigs::Single { config, constraints: Vec::new() }
    }
}

impl<C, R> AsNodes<C, R> for DynTag {
    fn into_node_configs(self) -> (r: NodeConfigs<C, R>)
        ensures
            r is Single,
            r->Single_config.tag == Some(self),
            r->Single_config.handle is None,
            r->Single_config.debug_name is None,
            r->Single_config.command is None,
            r->Single_config.release is None,
            constraints_of::<C, R>(r).len() == 0,
    {
        let mut config = SingleConfig::empty();
        config.tag = Some(self);
        NodeConfigs::Single { config, constraints: Vec::new() }
    }
}

impl<C, R> AsNodes<C, R> for () {
    fn into_node_configs(self) -> (r: NodeConfigs<C, R>)
        ensures
            r is Single,
            r->Single_config.handle is None,
            r->Single_config.tag is None,
            r->Single_config.debug_name is None,
            r->Single_config.command is None,
            r->Single_config.release is None,
            constraints_of::<C, R>(r).len() == 0,
    {
        NodeConfigs::Single { config: SingleConfig::empty(), constraints: Vec::new() }
    }
}

impl<C, R> AsNodes<C, R> for String {
    fn into_node_configs(self) -> (r: NodeConfigs<C, R>)
        ensures
            r is Single,
            r->Single_config.debug_name == Some(self),
            r->Single_config.handle is None,
            r->Single_config.tag is None,
            r->Single_config.command is None,
            r->Single_config.release is None,
            constraints_of::<C, R>(r).len() == 0,
    {
        let mut config = SingleConfig::empty();
        config.debug_name = Some(self);
        NodeConfigs::Single { config, constraints: Vec::new() }
    }
}

impl<'b, C, R> AsNodes<C, R> for &'b str {
    fn into_node_configs(self) -> (r: NodeConfigs<C, R>)
        ensures
            r is Single,
            r->Single_config.debug_name matches Some(s) && s@ == self@,
            r->Single_config.handle is None,
            r->Single_config.tag is None,
            r->Single_config.command is None,
            r->Single_config.release is None,
            constraints_of::<C, R>(r).len() == 0,
    {
        let mut config = SingleConfig::empty();
        config.debug_name = Some(String::from_str(self));
        NodeConfigs::Single { config, constraints: Vec::new() }
    }
}

impl<C, R, X: AsNodes<C, R>> AsNodes<C, R> for Vec<X> {
    fn into_node_configs(self) -> (r: NodeConfigs<C, R>)
        ensures
            r is Multiple,
            !r->chain,
            r->configs@.len() == self@.len(),
            constraints_of::<C, R>(r).len() == 0,
    {
        let mut items = self;
        let n = items.len();
        let mut rev: Vec<NodeConfigs<C, R>> = Vec::new();
        while items.len() > 0
            invariant
                items@.len() + rev@.len() == n,
            decreases items@.len(),
        {
            let x = items.pop().unwrap();
            rev.push(x.into_node_configs());
        }
        let mut configs: Vec<NodeConfigs<C, R>> = Vec::new();
        while rev.len() > 0
            invariant
                configs@.len() + rev@.len() == n,
            decreases rev@.len(),
        {
            let c = rev.pop().unwrap();
            configs.push(c);
        }
        NodeConfigs::Multiple { configs, chain: false, constraints: Vec::new() }
    }
}

} // verus!
