//! What a configuration adds to a compute graph once its single nodes have
//! handles depends on those handles alone: two configurations with the same
//! tree, chains and constraints, whose single nodes carry the same handles,
//! stand for the same handles and add the same edges.
use vstd::prelude::*;

use super::config::{
    chain_edges, cfg_edges, cons_edges, cons_refines, handles, handles_seq, refines, seq_edges,
    seq_refines, Constraint, NodeConfigs,
};
use super::leaves::{
    cons_leaves, leaf_handles, lemma_leaf_handles_concat, main_leaves, node_leaves, seq_main_leaves,
    seq_target_leaves, target_leaves,
};

verus! {

/// The two configurations have the same tree, chains and constraint kinds,
/// and the same handle at every single node, constraint targets included.
pub open spec fn same_handles<C, R>(a: NodeConfigs<C, R>, b: NodeConfigs<C, R>) -> bool
    decreases a,
{
    match (a, b) {
        (
            NodeConfigs::Single { config: ca, constraints: ka },
            NodeConfigs::Single { config: cb, constraints: kb },
        ) => ca.handle == cb.handle && cons_same_handles(ka@, kb@),
        (
            NodeConfigs::Multiple { configs: xa, chain: cha, constraints: ka },
            NodeConfigs::Multiple { configs: xb, chain: chb, constraints: kb },
        ) => cha == chb && seq_same_handles(xa@, xb@) && cons_same_handles(ka@, kb@),
        _ => false,
    }
}

pub open spec fn seq_same_handles<C, R>(a: Seq<NodeConfigs<C, R>>, b: Seq<NodeConfigs<C, R>>) -> bool
    decreases a,
{
    if a.len() == 0 {
        b.len() == 0
    } else {
        b.len() == a.len() && seq_same_handles(a.drop_last(), b.drop_last()) && same_handles(
            a.last(),
            b.last(),
        )
    }
}

pub open spec fn cons_same_handles<C, R>(
    a: Seq<(Constraint, NodeConfigs<C, R>)>,
    b: Seq<(Constraint, NodeConfigs<C, R>)>,
) -> bool
    decreases a,
{
    if a.len() == 0 {
        b.len() == 0
    } else {
        b.len() == a.len() && cons_same_handles(a.drop_last(), b.drop_last()) && a.last().0 == b.last().0
            && same_handles(a.last().1, b.last().1)
    }
}

/// Configurations with the same handles stand for the same handles and add
/// the same edges.
pub proof fn lemma_same_handles_edges<C, R>(a: NodeConfigs<C, R>, b: NodeConfigs<C, R>)
    requires
        same_handles(a, b),
    ensures
        handles(a) == handles(b),
        cfg_edges(a) == cfg_edges(b),
    decreases a,
{
    match (a, b) {
        (
            NodeConfigs::Single { config: ca, constraints: ka },
            NodeConfigs::Single { config: cb, constraints: kb },
        ) => {
            lemma_cons_same_handles_edges(ka@, kb@, handles(a));
        },
        (
            NodeConfigs::Multiple { configs: xa, chain: cha, constraints: ka },
            NodeConfigs::Multiple { configs: xb, chain: chb, constraints: kb },
        ) => {
            lemma_seq_same_handles_edges(xa@, xb@);
            lemma_cons_same_handles_edges(ka@, kb@, handles(a));
        },
        _ => {},
    }
}

pub proof fn lemma_seq_same_handles_edges<C, R>(a: Seq<NodeConfigs<C, R>>, b: Seq<NodeConfigs<C, R>>)
    requires
        seq_same_handles(a, b),
    ensures
        handles_seq(a) == handles_seq(b),
        seq_edges(a) == seq_edges(b),
        chain_edges(a) == chain_edges(b),
    decreases a,
{
    if a.len() > 0 {
        lemma_seq_same_handles_edges(a.drop_last(), b.drop_last());
        lemma_same_handles_edges(a.last(), b.last());
        if a.len() >= 2 {
            let da = a.drop_last();
            let db = b.drop_last();
            reveal_with_fuel(seq_same_handles, 2);
            assert(same_handles(da.last(), db.last()));
            lemma_same_handles_edges(da.last(), db.last());
            assert(a[a.len() - 2] == da.last() && b[b.len() - 2] == db.last());
            assert(a[a.len() - 1] == a.last() && b[b.len() - 1] == b.last());
        }
    }
}

pub proof fn lemma_cons_same_handles_edges<C, R>(
    a: Seq<(Constraint, NodeConfigs<C, R>)>,
    b: Seq<(Constraint, NodeConfigs<C, R>)>,
    own: Seq<super::NodeHandle>,
)
    requires
        cons_same_handles(a, b),
    ensures
        cons_edges(own, a) == cons_edges(own, b),
    decreases a,
{
    if a.len() > 0 {
        lemma_cons_same_handles_edges(a.drop_last(), b.drop_last(), own);
        lemma_same_handles_edges(a.last().1, b.last().1);
    }
}

/// A refinement has as many single nodes as the configuration it refines,
/// in the main tree and among the constraint targets.
pub proof fn lemma_refines_len<C, R>(c: NodeConfigs<C, R>, d: NodeConfigs<C, R>)
    requires
        refines(c, d),
    ensures
        main_leaves(d).len() == main_leaves(c).len(),
        target_leaves(d).len() == target_leaves(c).len(),
    decreases c,
{
    match (c, d) {
        (NodeConfigs::Single { constraints: kc, .. }, NodeConfigs::Single { constraints: kd, .. }) => {
            lemma_cons_refines_len(kc@, kd@);
        },
        (
            NodeConfigs::Multiple { configs: xc, constraints: kc, .. },
            NodeConfigs::Multiple { configs: xd, constraints: kd, .. },
        ) => {
            lemma_seq_refines_len(xc@, xd@);
            lemma_cons_refines_len(kc@, kd@);
        },
        _ => {},
    }
}

pub proof fn lemma_seq_refines_len<C, R>(c: Seq<NodeConfigs<C, R>>, d: Seq<NodeConfigs<C, R>>)
    requires
        seq_refines(c, d),
    ensures
        seq_main_leaves(d).len() == seq_main_leaves(c).len(),
        seq_target_leaves(d).len() == seq_target_leaves(c).len(),
    decreases c,
{
    if c.len() > 0 {
        lemma_seq_refines_len(c.drop_last(), d.drop_last());
        lemma_refines_len(c.last(), d.last());
    }
}

pub proof fn lemma_cons_refines_len<C, R>(
    c: Seq<(Constraint, NodeConfigs<C, R>)>,
    d: Seq<(Constraint, NodeConfigs<C, R>)>,
)
    requires
        cons_refines(c, d),
    ensures
        cons_leaves(d).len() == cons_leaves(c).len(),
    decreases c,
{
    if c.len() > 0 {
        lemma_cons_refines_len(c.drop_last(), d.drop_last());
        lemma_refines_len(c.last().1, d.last().1);
        assert(node_leaves(d.last().1).len() == node_leaves(c.last().1).len());
        assert(cons_leaves(d).len() == cons_leaves(d.drop_last()).len() + node_leaves(d.last().1).len());
        assert(cons_leaves(c).len() == cons_leaves(c.drop_last()).len() + node_leaves(c.last().1).len());
    }
}

/// Equal handles of two concatenations whose first parts have the same length
/// are equal part by part.
proof fn lemma_split<C, R>(
    x1: Seq<super::config::SingleConfig<C, R>>,
    y1: Seq<super::config::SingleConfig<C, R>>,
    x2: Seq<super::config::SingleConfig<C, R>>,
    y2: Seq<super::config::SingleConfig<C, R>>,
)
    requires
        x1.len() == x2.len(),
        leaf_handles(x1 + y1) == leaf_handles(x2 + y2),
    ensures
        leaf_handles(x1) == leaf_handles(x2),
        leaf_handles(y1) == leaf_handles(y2),
{
    lemma_leaf_handles_concat(x1, y1);
    lemma_leaf_handles_concat(x2, y2);
    let a = leaf_handles(x1 + y1);
    assert(leaf_handles(x1) =~= a.take(x1.len() as int));
    assert(leaf_handles(x2) =~= a.take(x1.len() as int));
    assert(leaf_handles(y1) =~= a.skip(x1.len() as int));
    assert(leaf_handles(y2) =~= a.skip(x1.len() as int));
}

/// Two refinements of one configuration whose single nodes carry the same
/// handles, in the main tree and among the targets, have the same handles.
pub proof fn lemma_refines_same_handles<C, R>(c: NodeConfigs<C, R>, d1: NodeConfigs<C, R>, d2: NodeConfigs<C, R>)
    requires
        refines(c, d1),
        refines(c, d2),
        leaf_handles(main_leaves(d1)) == leaf_handles(main_leaves(d2)),
        leaf_handles(target_leaves(d1)) == leaf_handles(target_leaves(d2)),
    ensures
        same_handles(d1, d2),
    decreases c,
{
    match (c, d1, d2) {
        (
            NodeConfigs::Single { constraints: kc, .. },
            NodeConfigs::Single { config: c1, constraints: k1 },
            NodeConfigs::Single { config: c2, constraints: k2 },
        ) => {
            assert(leaf_handles(main_leaves(d1))[0] == c1.handle);
            assert(leaf_handles(main_leaves(d2))[0] == c2.handle);
            lemma_cons_refines_same_handles(kc@, k1@, k2@);
        },
        (
            NodeConfigs::Multiple { configs: xc, constraints: kc, .. },
            NodeConfigs::Multiple { configs: x1, constraints: k1, .. },
            NodeConfigs::Multiple { configs: x2, constraints: k2, .. },
        ) => {
            lemma_seq_refines_len(xc@, x1@);
            lemma_seq_refines_len(xc@, x2@);
            lemma_split(seq_target_leaves(x1@), cons_leaves(k1@), seq_target_leaves(x2@), cons_leaves(k2@));
            lemma_seq_refines_same_handles(xc@, x1@, x2@);
            lemma_cons_refines_same_handles(kc@, k1@, k2@);
        },
        _ => {},
    }
}

pub proof fn lemma_seq_refines_same_handles<C, R>(
    c: Seq<NodeConfigs<C, R>>,
    d1: Seq<NodeConfigs<C, R>>,
    d2: Seq<NodeConfigs<C, R>>,
)
    requires
        seq_refines(c, d1),
        seq_refines(c, d2),
        leaf_handles(seq_main_leaves(d1)) == leaf_handles(seq_main_leaves(d2)),
        leaf_handles(seq_target_leaves(d1)) == leaf_handles(seq_target_leaves(d2)),
    ensures
        seq_same_handles(d1, d2),
    decreases c,
{
    if c.len() > 0 {
        lemma_seq_refines_len(c.drop_last(), d1.drop_last());
        lemma_seq_refines_len(c.drop_last(), d2.drop_last());
        lemma_split(
            seq_main_leaves(d1.drop_last()),
            main_leaves(d1.last()),
            seq_main_leaves(d2.drop_last()),
            main_leaves(d2.last()),
        );
        lemma_split(
            seq_target_leaves(d1.drop_last()),
            target_leaves(d1.last()),
            seq_target_leaves(d2.drop_last()),
            target_leaves(d2.last()),
        );
        lemma_seq_refines_same_handles(c.drop_last(), d1.drop_last(), d2.drop_last());
        lemma_refines_same_handles(c.last(), d1.last(), d2.last());
    }
}

pub proof fn lemma_cons_refines_same_handles<C, R>(
    c: Seq<(Constraint, NodeConfigs<C, R>)>,
    d1: Seq<(Constraint, NodeConfigs<C, R>)>,
    d2: Seq<(Constraint, NodeConfigs<C, R>)>,
)
    requires
        cons_refines(c, d1),
        cons_refines(c, d2),
        leaf_handles(cons_leaves(d1)) == leaf_handles(cons_leaves(d2)),
    ensures
        cons_same_handles(d1, d2),
    decreases c,
{
    if c.len() > 0 {
        lemma_cons_refines_len(c.drop_last(), d1.drop_last());
        lemma_cons_refines_len(c.drop_last(), d2.drop_last());
        lemma_split(
            cons_leaves(d1.drop_last()),
            node_leaves(d1.last().1),
            cons_leaves(d2.drop_last()),
            node_leaves(d2.last().1),
        );
        lemma_refines_len(c.last().1, d1.last().1);
        lemma_refines_len(c.last().1, d2.last().1);
        lemma_split(
            main_leaves(d1.last().1),
            target_leaves(d1.last().1),
            main_leaves(d2.last().1),
            target_leaves(d2.last().1),
        );
        lemma_cons_refines_same_handles(c.drop_last(), d1.drop_last(), d2.drop_last());
        lemma_refines_same_handles(c.last().1, d1.last().1, d2.last().1);
    }
}

/// What adding a configuration does is determined by the handles its single
/// nodes get: two refinements of `cfg` whose single nodes carry the same
/// handles stand for the same handles and add the same edges.
pub proof fn law_added_edges_determined<C, R>(cfg: NodeConfigs<C, R>, d1: NodeConfigs<C, R>, d2: NodeConfigs<C, R>)
    requires
        refines(cfg, d1),
        refines(cfg, d2),
        leaf_handles(node_leaves(d1)) == leaf_handles(node_leaves(d2)),
    ensures
        handles(d1) == handles(d2),
        cfg_edges(d1) == cfg_edges(d2),
{
    lemma_refines_len(cfg, d1);
    lemma_refines_len(cfg, d2);
    lemma_split(main_leaves(d1), target_leaves(d1), main_leaves(d2), target_leaves(d2));
    lemma_refines_same_handles(cfg, d1, d2);
    lemma_same_handles_edges(d1, d2);
}

} // verus!
