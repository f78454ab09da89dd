//! Partitions of an array: each element of an array index names a partition
//! (or none), and updating the partition lists every element in the partition
//! it names, counts each partition, and gives each listed element its place
//! in its partition's list.
use std::marker::PhantomData;

use vstd::prelude::*;

use super::array::{ArrayIndex, EField};
use super::access::Static;
use super::{Field, FieldRegistry};
use crate::element::Context;
use crate::emanation::Emanation;
use crate::graph::config::{Constraint, NodeConfigs, SingleConfig};

verus! {

/// A value that names a partition, or none.
pub trait PartitionIndex: Copy {
    spec fn spec_to(this: Self) -> u32;

    spec fn spec_null() -> Self;

    /// The number of the partition.
    fn to(this: Self) -> (r: u32)
        ensures
            r == Self::spec_to(this),
    ;

    /// The value that names no partition.
    fn null() -> (r: Self)
        ensures
            r == Self::spec_null(),
    ;
}

impl PartitionIndex for u32 {
    open spec fn spec_to(this: Self) -> u32 {
        this
    }

    open spec fn spec_null() -> Self {
        u32::MAX
    }

    fn to(this: Self) -> (r: u32) {
        this
    }

    fn null() -> (r: Self) {
        u32::MAX
    }
}

/// The number of the partition that `i` names, where it names one.
pub open spec fn names_partition<I: PartitionIndex>(i: I) -> bool {
    I::spec_to(i) != I::spec_to(I::spec_null())
}

/// The number of elements of `parts` that name partition `p`.
pub open spec fn count_in<I: PartitionIndex>(parts: Seq<I>, p: u32) -> nat
    decreases parts.len(),
{
    if parts.len() == 0 {
        0
    } else {
        count_in(parts.drop_last(), p) + if names_partition(parts.last()) && I::spec_to(parts.last()) == p {
            1nat
        } else {
            0nat
        }
    }
}

proof fn lemma_count_prefix<I: PartitionIndex>(parts: Seq<I>, k: int, p: u32)
    requires
        0 <= k <= parts.len(),
    ensures
        count_in(parts.take(k), p) <= count_in(parts, p),
    decreases parts.len() - k,
{
    if k < parts.len() {
        lemma_count_prefix(parts, k + 1, p);
        assert(parts.take(k + 1).drop_last() =~= parts.take(k));
    } else {
        assert(parts.take(k) =~= parts);
    }
}

proof fn lemma_slots_distinct(q: int, p: int, a: int, b: int, max: int)
    requires
        0 <= q,
        0 <= p,
        q != p,
        0 <= a < max,
        0 <= b < max,
    ensures
        q * max + a != p * max + b,
{
    if q < p {
        assert((q + 1) * max <= p * max) by (nonlinear_arith)
            requires
                q + 1 <= p,
                0 < max,
        ;
        assert((q + 1) * max == q * max + max) by (nonlinear_arith);
    } else {
        assert((p + 1) * max <= q * max) by (nonlinear_arith)
            requires
                p + 1 <= q,
                0 < max,
        ;
        assert((p + 1) * max == p * max + max) by (nonlinear_arith);
    }
}

proof fn lemma_slot_bound(q: int, a: int, num: int, max: int)
    requires
        0 <= q < num,
        0 <= a < max,
    ensures
        0 <= q * max + a < num * max,
{
    assert(0 <= q * max) by (nonlinear_arith)
        requires
            0 <= q,
            0 <= max,
    ;
    assert((q + 1) * max <= num * max) by (nonlinear_arith)
        requires
            q + 1 <= num,
            0 <= max,
    ;
    assert((q + 1) * max == q * max + max) by (nonlinear_arith);
}

/// The fields that partition an array, handed to [`Emanation::partition`].
pub struct PartitionFields<I, T> {
    /// The partition of an element where it is known when a kernel is built
    /// (as in a domain over one partition); left unbound.
    pub const_partition: Field<Static<I>, T>,
    /// The partition that each element names.
    pub partition: EField<I, T>,
    /// The element of the partitions that each element belongs to, by its
    /// index in the partitions' array.
    pub partition_map: EField<u32, T>,
}

/// A partition of the elements of an array index `T` among the elements of
/// an array index `P`, with the fields it is read through and its state as
/// last updated: how many elements each partition holds, each listed
/// element's place in its partition's list, and the lists, one slice of
/// `max_partition_size` places per partition.
pub struct ArrayPartition<T, P, I> {
    pub index: ArrayIndex<T>,
    pub const_partition: Field<Static<I>, T>,
    pub partition: EField<I, T>,
    pub partition_map: EField<u32, T>,
    pub partition_ref: EField<u32, T>,
    pub partition_lists: EField<u32, P>,
    pub partition_size: EField<u32, P>,
    pub num_partitions: u32,
    pub max_partition_size: u32,
    pub partition_size_host: Vec<u32>,
    pub refs: Vec<u32>,
    pub lists: Vec<u32>,
}

impl<T, P, I: PartitionIndex> ArrayPartition<T, P, I> {
    /// The sizes of its state fit the arrays.
    pub open spec fn wf(&self) -> bool {
        &&& self.partition_size_host@.len() == self.num_partitions
        &&& self.refs@.len() == self.index.size
        &&& self.num_partitions * self.max_partition_size <= u32::MAX
        &&& self.lists@.len() == self.num_partitions * self.max_partition_size
    }

    /// The field that gives each listed element its place in its partition's list.
    pub fn partition_ref(&self) -> (r: EField<u32, T>)
        ensures
            r == self.partition_ref,
    {
        self.partition_ref
    }

    /// The field that gives each partition its size.
    pub fn partition_size(&self) -> (r: EField<u32, P>)
        ensures
            r == self.partition_size,
    {
        self.partition_size
    }

    /// The sizes of the partitions as last updated.
    pub fn partition_size_host(&self) -> (r: &Vec<u32>)
        ensures
            r@ == self.partition_size_host@,
    {
        &self.partition_size_host
    }

    /// A domain over the partition with a fixed number.
    pub fn select(&self, partition_index: I) -> (r: ArrayPartitionDomain<I, T, P>)
        ensures
            r.partition_index == partition_index,
            r.index == self.index,
            r.const_partition == self.const_partition,
            r.partition == self.partition,
            r.partition_ref == self.partition_ref,
            r.partition_map == self.partition_map,
            r.partition_lists == self.partition_lists,
    {
        ArrayPartitionDomain {
            index: ArrayIndex { field: self.index.field, size: self.index.size },
            const_partition: self.const_partition,
            partition: self.partition,
            partition_ref: self.partition_ref,
            partition_map: self.partition_map,
            partition_lists: self.partition_lists,
            partition_index,
        }
    }

    /// A domain over a partition whose number is given with each dispatch.
    pub fn select_dyn(&self) -> (r: DynArrayPartitionDomain<I, T, P>)
        ensures
            r.partition_index == I::spec_null(),
            r.index == self.index,
            r.partition == self.partition,
            r.partition_ref == self.partition_ref,
            r.partition_map == self.partition_map,
            r.partition_lists == self.partition_lists,
    {
        DynArrayPartitionDomain {
            index: ArrayIndex { field: self.index.field, size: self.index.size },
            partition: self.partition,
            partition_ref: self.partition_ref,
            partition_map: self.partition_map,
            partition_lists: self.partition_lists,
            partition_index: I::null(),
        }
    }

    /// Updates the partition lists from the partition that each element of
    /// the array names: the sizes are counted anew, every element that names a
    /// partition is listed in it, at a place of its own below the partition's
    /// size, and that place is recorded for it. Elements that name no
    /// partition keep the place they had; list places beyond a partition's
    /// size keep what they held.
    pub fn update(&mut self, parts: &Vec<I>)
        requires
            old(self).wf(),
            parts@.len() == old(self).index.size,
            forall|e: int|
                0 <= e < parts@.len() && names_partition(#[trigger] parts@[e]) ==> I::spec_to(parts@[e])
                    < old(self).num_partitions,
            forall|p: u32| p < old(self).num_partitions ==> #[trigger] count_in(parts@, p) <= old(self).max_partition_size,
        ensures
            final(self).wf(),
            final(self).index == old(self).index,
            final(self).num_partitions == old(self).num_partitions,
            final(self).max_partition_size == old(self).max_partition_size,
            forall|p: int|
                0 <= p < final(self).num_partitions ==> #[trigger] final(self).partition_size_host@[p] == count_in(
                    parts@,
                    p as u32,
                ),
            forall|e: int|
                0 <= e < parts@.len() && names_partition(#[trigger] parts@[e]) ==> {
                    let p = I::spec_to(parts@[e]);
                    &&& final(self).refs@[e] < final(self).partition_size_host@[p as int]
                    &&& final(self).lists@[p * final(self).max_partition_size + final(self).refs@[e]] == e
                },
            forall|e: int|
                0 <= e < parts@.len() && !names_partition(#[trigger] parts@[e]) ==> final(self).refs@[e]
                    == old(self).refs@[e],
            forall|e1: int, e2: int|
                0 <= e1 < parts@.len() && 0 <= e2 < parts@.len() && e1 != e2 && names_partition(
                    #[trigger] parts@[e1],
                ) && names_partition(#[trigger] parts@[e2]) && I::spec_to(parts@[e1]) == I::spec_to(
                    parts@[e2],
                ) ==> final(self).refs@[e1] != final(self).refs@[e2],
            forall|p: int, j: int|
                0 <= p < final(self).num_partitions && final(self).partition_size_host@[p] <= j
                    < final(self).max_partition_size ==> #[trigger] final(self).lists@[p
                    * final(self).max_partition_size + j] == old(self).lists@[p
                    * old(self).max_partition_size + j],            forall|p: int, j: int|
                0 <= p < final(self).num_partitions && 0 <= j < final(self).partition_size_host@[p] ==> {
                    let x = #[trigger] final(self).lists@[p * final(self).max_partition_size + j] as int;
                    &&& 0 <= x < parts@.len()
                    &&& names_partition(parts@[x])
                    &&& I::spec_to(parts@[x]) == p
                    &&& final(self).refs@[x] == j
                },
    {
        let num = self.num_partitions;
        let max = self.max_partition_size;
        let null = I::to(I::null());
        let mut sizes: Vec<u32> = Vec::new();
        while sizes.len() < num as usize
            invariant
                sizes@.len() <= num,
                forall|p: int| 0 <= p < sizes@.len() ==> sizes@[p] == 0,
            decreases num - sizes@.len(),
        {
            sizes.push(0);
        }
        let ghost old_lists = self.lists@;
        let n = parts.len();
        let mut e: usize = 0;
        while e < n
            invariant
                n == parts@.len(),
                e <= n,
                num == self.num_partitions,
                max == self.max_partition_size,
                null == I::spec_to(I::spec_null()),
                self.wf(),
                self.index == old(self).index,
                self.num_partitions == old(self).num_partitions,
                self.max_partition_size == old(self).max_partition_size,
                parts@.len() == self.index.size,
                sizes@.len() == num,
                forall|i: int|
                    0 <= i < parts@.len() && names_partition(#[trigger] parts@[i]) ==> I::spec_to(parts@[i])
                        < num,
                forall|p: u32| p < num ==> #[trigger] count_in(parts@, p) <= max,
                forall|p: int| 0 <= p < num ==> #[trigger] sizes@[p] == count_in(parts@.take(e as int), p as u32),
                forall|i: int|
                    0 <= i < e && names_partition(#[trigger] parts@[i]) ==> {
                        let p = I::spec_to(parts@[i]);
                        &&& self.refs@[i] < sizes@[p as int]
                        &&& self.lists@[p * max + self.refs@[i]] == i
                    },
                forall|i: int| e <= i < parts@.len() ==> #[trigger] self.refs@[i] == old(self).refs@[i],
                forall|i: int|
                    0 <= i < e && !names_partition(#[trigger] parts@[i]) ==> self.refs@[i] == old(
                        self,
                    ).refs@[i],
                forall|i1: int, i2: int|
                    0 <= i1 < e && 0 <= i2 < e && i1 != i2 && names_partition(#[trigger] parts@[i1])
                        && names_partition(#[trigger] parts@[i2]) && I::spec_to(parts@[i1]) == I::spec_to(
                        parts@[i2],
                    ) ==> self.refs@[i1] != self.refs@[i2],
                forall|p: int, j: int|
                    0 <= p < num && sizes@[p] <= j < max ==> #[trigger] self.lists@[p * max + j]
                        == old_lists[p * max + j],
                forall|q: int, j: int|
                    0 <= q < num && 0 <= j < sizes@[q] ==> {
                        let x = #[trigger] self.lists@[q * max + j] as int;
                        &&& 0 <= x < e
                        &&& names_partition(parts@[x])
                        &&& I::spec_to(parts@[x]) == q
                        &&& self.refs@[x] == j
                    },
            decreases n - e,
        {
            let part = parts[e];
            let p = I::to(part);
            proof {
                assert(parts@.take(e + 1).drop_last() =~= parts@.take(e as int));
                assert(parts@.take(e + 1).last() == parts@[e as int]);
            }
            if p != null {
                proof {
                    lemma_count_prefix(parts@, e + 1, p);
                    assert(count_in(parts@, p) <= max);
                }
                let r = sizes[p as usize];
                assert(r < max);
                assert((p as int) * (max as int) + (r as int) < (num as int) * (max as int)) by (nonlinear_arith)
                    requires
                        p < num,
                        r < max,
                ;
                let slot = (p * max + r) as usize;
                let ghost lists0 = self.lists@;
                let ghost refs0 = self.refs@;
                let ghost sizes0 = sizes@;
                sizes.set(p as usize, r + 1);
                self.lists.set(slot, e as u32);
                self.refs.set(e, r);
                proof {
                    assert(slot == p * max + r);
                    assert(self.lists@ == lists0.update(slot as int, e as u32));
                    assert(self.refs@ == refs0.update(e as int, r));
                    assert(sizes@ == sizes0.update(p as int, (r + 1) as u32));
                    assert(sizes0[p as int] == r);
                    assert forall|i: int|
                        0 <= i < e + 1 && names_partition(#[trigger] parts@[i]) implies {
                        let q = I::spec_to(parts@[i]);
                        &&& self.refs@[i] < sizes@[q as int]
                        &&& self.lists@[q * max + self.refs@[i]] == i
                    } by {
                        let q = I::spec_to(parts@[i]);
                        if i == e {
                            assert(q == p);
                            assert(self.refs@[i] == r);
                            assert(sizes@[q as int] == r + 1);
                            assert(self.lists@[q * max + self.refs@[i]] == e as u32);
                            assert((e as u32) as int == i);
                        }
                        if i < e {
                            assert(self.refs@[i] == refs0[i]);
                            assert(refs0[i] < sizes0[q as int]);
                            assert(lists0[q * max + refs0[i]] == i);
                            if q == p {
                                assert(refs0[i] < r);
                                assert(q * max + refs0[i] != p * max + r);
                                assert(self.lists@[q * max + refs0[i]] == lists0[q * max + refs0[i]]);
                            } else {
                                lemma_count_prefix(parts@, e as int, q);
                                assert(count_in(parts@, q) <= max);
                                lemma_slots_distinct(q as int, p as int, refs0[i] as int, r as int, max as int);
                                assert(sizes@[q as int] == sizes0[q as int]);
                            }
                            lemma_slot_bound(q as int, refs0[i] as int, num as int, max as int);
                            assert(self.refs@[i] < sizes@[q as int]);
                            assert(self.lists@[q * max + self.refs@[i]] == i);
                        }
                    }
                    assert forall|q: int, j: int|
                        0 <= q < num && sizes@[q] <= j < max implies #[trigger] self.lists@[q * max + j]
                        == old_lists[q * max + j] by {
                        if q != p {
                            lemma_slots_distinct(q, p as int, j, r as int, max as int);
                        } else {
                            assert(sizes@[q] == r + 1);
                            assert(q * max == p * max);
                            assert(q * max + j != p * max + r);
                        }
                        lemma_slot_bound(q, j, num as int, max as int);
                        assert(self.lists@[q * max + j] == lists0[q * max + j]);
                        assert(lists0[q * max + j] == old_lists[q * max + j]);
                    }
                    assert forall|q: int, j: int| 0 <= q < num && 0 <= j < sizes@[q] implies {
                        let x = #[trigger] self.lists@[q * max + j] as int;
                        &&& 0 <= x < e + 1
                        &&& names_partition(parts@[x])
                        &&& I::spec_to(parts@[x]) == q
                        &&& self.refs@[x] == j
                    } by {
                        if q != p {
                            lemma_count_prefix(parts@, e as int, q as u32);
                            assert(sizes@[q] == sizes0[q]);
                        }
                        lemma_slot_bound(q, j, num as int, max as int);
                        if q == p && j == r {
                            assert(self.lists@[q * max + j] == e as u32);
                            assert(names_partition(parts@[e as int]));
                        } else {
                            if q != p {
                                lemma_count_prefix(parts@, e as int, q as u32);
                                lemma_slots_distinct(q, p as int, j, r as int, max as int);
                                assert(sizes0[q] == sizes@[q]);
                            } else {
                                assert(j < r);
                                assert(q * max == p * max);
                            }
                            assert(self.lists@[q * max + j] == lists0[q * max + j]);
                            let x = lists0[q * max + j] as int;
                            assert(x < e);
                            assert(self.refs@[x] == refs0[x]);
                        }
                    }
                }
            } else {
                proof {
                    assert forall|q: int| 0 <= q < num implies #[trigger] sizes@[q] == count_in(
                        parts@.take(e + 1),
                        q as u32,
                    ) by {
                        assert(!names_partition(parts@[e as int]));
                    }
                }
            }
            e = e + 1;
        }
        proof {
            assert(parts@.take(n as int) =~= parts@);
        }
        self.partition_size_host = sizes;
    }
}

/// The single node runs the command `c` and carries nothing else.
pub open spec fn is_command_node<C, R>(cfg: NodeConfigs<C, R>, c: C) -> bool {
    &&& cfg is Single
    &&& cfg->Single_config.command == Some(c)
    &&& cfg->Single_config.handle is None
    &&& cfg->Single_config.tag is None
    &&& cfg->Single_config.debug_name is None
    &&& cfg->Single_config.release is None
    &&& cfg->Single_constraints@.len() == 0
}

impl<T, P, I: PartitionIndex> ArrayPartition<T, P, I> {
    /// The nodes that update the partition on the device: a new container
    /// holding three commands that run one after the other, first `zero`
    /// (which clears the partition sizes), then `update` (which counts and
    /// lists the elements), then `copy` (which copies the sizes back to the
    /// host).
    pub fn update_graph<C, R>(&self, zero: C, update: C, copy: C) -> (r: NodeConfigs<C, R>)
        ensures
            r is Single,
            r->Single_config.handle is None,
            r->Single_config.command is None,
            r->Single_config.tag is None,
            r->Single_config.debug_name is None,
            r->Single_config.release is None,
            r->Single_constraints@.len() == 1,
            r->Single_constraints@[0].0 == Constraint::Contains,
            ({
                let steps = r->Single_constraints@[0].1;
                &&& steps is Multiple
                &&& steps->Multiple_chain
                &&& steps->Multiple_constraints@.len() == 0
                &&& steps->Multiple_configs@.len() == 3
                &&& is_command_node(steps->Multiple_configs@[0], zero)
                &&& is_command_node(steps->Multiple_configs@[1], update)
                &&& is_command_node(steps->Multiple_configs@[2], copy)
            }),
    {
        let configs = vec![NodeConfigs::command(zero), NodeConfigs::command(update), NodeConfigs::command(copy)];
        let steps = NodeConfigs::Multiple { configs, chain: true, constraints: Vec::new() };
        let constraints = vec![(Constraint::Contains, steps)];
        NodeConfigs::Single { config: SingleConfig::empty(), constraints }
    }
}

impl<I: PartitionIndex, T, P> ArrayPartitionDomain<I, T, P> {
    /// Binds, in the context of an element of the domain, its partition
    /// fields: the constant and the dynamic partition to `mappings.partition`
    /// (which gives the selected partition), its place to
    /// `mappings.partition_ref` (the invocation's index), and the array index
    /// to `mappings.index` (the element that the partition's list holds at
    /// that place).
    pub fn bind_fields(&self, ctx: &mut Context, mappings: &PartitionMappings)
        requires
            old(ctx).wf(),
            !old(ctx).local_bindings().contains_key(self.const_partition.id),
            !old(ctx).local_bindings().contains_key(self.partition.id),
            !old(ctx).local_bindings().contains_key(self.partition_ref.id),
            !old(ctx).local_bindings().contains_key(self.index.field.id),
            self.const_partition.id != self.partition.id,
            self.const_partition.id != self.partition_ref.id,
            self.const_partition.id != self.index.field.id,
            self.partition.id != self.partition_ref.id,
            self.partition.id != self.index.field.id,
            self.partition_ref.id != self.index.field.id,
        ensures
            final(ctx).wf(),
            final(ctx).scopes() == old(ctx).scopes(),
            final(ctx).accesses() == old(ctx).accesses(),
            final(ctx).local_bindings() == old(ctx).local_bindings().insert(
                self.const_partition.id,
                mappings.partition,
            ).insert(self.partition.id, mappings.partition).insert(
                self.partition_ref.id,
                mappings.partition_ref,
            ).insert(self.index.field.id, mappings.index),
    {
        ctx.bind_local(self.const_partition.id, mappings.partition);
        ctx.bind_local(self.partition.id, mappings.partition);
        ctx.bind_local(self.partition_ref.id, mappings.partition_ref);
        ctx.bind_local(self.index.field.id, mappings.index);
    }

    /// One invocation per element of the selected partition.
    pub fn dispatch_size(&self, partition: &ArrayPartition<T, P, I>) -> (r: [u32; 3])
        requires
            I::spec_to(self.partition_index) < partition.partition_size_host@.len(),
        ensures
            r@ == seq![partition.partition_size_host@[I::spec_to(self.partition_index) as int], 1u32, 1u32],
    {
        [partition.partition_size_host[I::to(self.partition_index) as usize], 1, 1]
    }
}

impl<I: PartitionIndex, T, P> DynArrayPartitionDomain<I, T, P> {
    /// Selects the partition before a dispatch.
    pub fn before_dispatch(&mut self, index: I)
        ensures
            final(self).partition_index == index,
    {
        self.partition_index = index;
    }

    /// One invocation per element of the partition given.
    pub fn dispatch_size(&self, partition: &ArrayPartition<T, P, I>, index: I) -> (r: [u32; 3])
        requires
            I::spec_to(index) < partition.partition_size_host@.len(),
        ensures
            r@ == seq![partition.partition_size_host@[I::spec_to(index) as int], 1u32, 1u32],
    {
        [partition.partition_size_host[I::to(index) as usize], 1, 1]
    }
}

/// A domain over the elements of one partition, fixed when it is selected,
/// with the fields of the partition that it binds for its elements.
pub struct ArrayPartitionDomain<I, T, P> {
    pub index: ArrayIndex<T>,
    pub const_partition: Field<Static<I>, T>,
    pub partition: EField<I, T>,
    pub partition_ref: EField<u32, T>,
    pub partition_map: EField<u32, T>,
    pub partition_lists: EField<u32, P>,
    pub partition_index: I,
}

/// A domain over the elements of a partition chosen with each dispatch, with
/// the fields of the partition that it binds for its elements.
pub struct DynArrayPartitionDomain<I, T, P> {
    pub index: ArrayIndex<T>,
    pub partition: EField<I, T>,
    pub partition_ref: EField<u32, T>,
    pub partition_map: EField<u32, T>,
    pub partition_lists: EField<u32, P>,
    pub partition_index: I,
}

/// The mappings that a partition domain binds for its elements, as ids: the
/// partition's number, the element's place in its partition's list, and the
/// element of the array that the place lists.
pub struct PartitionMappings {
    pub partition: u64,
    pub partition_ref: u64,
    pub index: u64,
}

impl<T> Emanation<T> {
    /// Partitions the array `index` of this emanation among the elements of
    /// the array `partition_index` of `partitions`, by the partition that the
    /// field `partition` names for each element. Three fields are created,
    /// named after `partition`: `-ref` on this emanation, `-lists` and
    /// `-list-size` on `partitions`. Each partition's list holds
    /// `max_partition_size` places, the length of the array where none is
    /// given; no partition is counted yet.
    pub fn partition<P, I: PartitionIndex>(
        &mut self,
        partitions: &mut Emanation<P>,
        registry: &mut FieldRegistry,
        index: ArrayIndex<T>,
        partition_index: ArrayIndex<P>,
        fields: PartitionFields<I, T>,
        max_partition_size: Option<u32>,
    ) -> (r: ArrayPartition<T, P, I>)
        requires
            old(registry).wf(),
            old(registry).next_field() + 3 <= u64::MAX,
            old(registry).fields().contains_key(fields.partition.id.id),
            partition_index.size * (match max_partition_size {
                Some(m) => m,
                None => index.size,
            }) <= u32::MAX,
        ensures
            r.wf(),
            r.index == index,
            r.partition == fields.partition,
            r.const_partition == fields.const_partition,
            r.partition_map == fields.partition_map,
            forall|k: u64|
                #[trigger] old(registry).fields().contains_key(k) ==> final(registry).fields().contains_key(k)
                    && final(registry).fields()[k] == old(registry).fields()[k],
            r.num_partitions == partition_index.size,
            r.max_partition_size == (match max_partition_size {
                Some(m) => m,
                None => index.size,
            }),
            forall|p: int| 0 <= p < r.num_partitions ==> r.partition_size_host@[p] == 0,
            final(registry).wf(),
            final(registry).next_field() == old(registry).next_field() + 3,
            r.partition_ref.id.id == old(registry).next_field(),
            r.partition_lists.id.id == old(registry).next_field() + 1,
            r.partition_size.id.id == old(registry).next_field() + 2,
            final(registry).fields()[r.partition_ref.id.id].name@ == old(registry).fields()[fields.partition.id.id].name@
                + "-ref"@,
            final(registry).fields()[r.partition_lists.id.id].name@
                == old(registry).fields()[fields.partition.id.id].name@ + "-lists"@,
            final(registry).fields()[r.partition_size.id.id].name@
                == old(registry).fields()[fields.partition.id.id].name@ + "-list-size"@,
            final(self).owned() == old(self).owned().push(super::FieldHandle(r.partition_ref.id)),
            final(partitions).owned() == old(partitions).owned().push(
                super::FieldHandle(r.partition_lists.id),
            ).push(super::FieldHandle(r.partition_size.id)),
    {
        let max = match max_partition_size {
            Some(m) => m,
            None => index.size,
        };
        let partition = fields.partition;
        let name = partition.name(registry);
        let mut ref_name = name.clone();
        ref_name.append("-ref");
        let mut lists_name = name.clone();
        lists_name.append("-lists");
        let mut size_name = name.clone();
        size_name.append("-list-size");
        let partition_ref: EField<u32, T> = self.create_named_field(registry, ref_name.as_str());
        let partition_lists: EField<u32, P> = partitions.create_named_field(registry, lists_name.as_str());
        let partition_size: EField<u32, P> = partitions.create_named_field(registry, size_name.as_str());
        let mut sizes: Vec<u32> = Vec::new();
        while sizes.len() < partition_index.size as usize
            invariant
                sizes@.len() <= partition_index.size,
                forall|p: int| 0 <= p < sizes@.len() ==> sizes@[p] == 0,
            decreases partition_index.size - sizes@.len(),
        {
            sizes.push(0);
        }
        let mut refs: Vec<u32> = Vec::new();
        while refs.len() < index.size as usize
            invariant
                refs@.len() <= index.size,
            decreases index.size - refs@.len(),
        {
            refs.push(0);
        }
        let total = partition_index.size * max;
        let mut lists: Vec<u32> = Vec::new();
        while lists.len() < total as usize
            invariant
                lists@.len() <= total,
            decreases total - lists@.len(),
        {
            lists.push(0);
        }
        ArrayPartition {
            index,
            const_partition: fields.const_partition,
            partition,
            partition_map: fields.partition_map,
            partition_ref,
            partition_lists,
            partition_size,
            num_partitions: partition_index.size,
            max_partition_size: max,
            partition_size_host: sizes,
            refs,
            lists,
        }
    }
}

} // verus!
