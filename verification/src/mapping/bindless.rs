//! Bindless buffers: a mapper hands out the slots of a bindless array, first
//! those given back, then new ones, and records which resource is to be
//! placed in each slot until the array is next updated.
use std::marker::PhantomData;

use vstd::prelude::*;

use super::buffer::BufferRef;
use crate::domain::StaticDomain;
use crate::field::access::Static;
use crate::field::{Field, FieldHandle, FieldRegistry};

verus! {

/// The handle of a buffer placed in a bindless array: its slot.
#[derive(Debug)]
pub struct BindlessBufferHandle<V> {
    pub index: u32,
    pub _marker: PhantomData<V>,
}

impl<V> Clone for BindlessBufferHandle<V> {
    fn clone(&self) -> (r: Self)
        ensures
            r == *self,
    {
        BindlessBufferHandle { index: self.index, _marker: PhantomData }
    }
}

impl<V> Copy for BindlessBufferHandle<V> {}

/// The handle of a resource placed in a bindless array.
pub trait BindlessHandle {
    type Dim;

    spec fn spec_index(&self) -> u32;
}

impl<V> BindlessHandle for BindlessBufferHandle<V> {
    type Dim = usize;

    open spec fn spec_index(&self) -> u32 {
        self.index
    }
}

/// A resource that can be placed in a bindless array.
pub trait Emplace: Sized {
    type H: BindlessHandle;

    spec fn spec_resource(&self) -> u64;

    spec fn spec_dim(&self) -> usize;

    /// Takes a slot of the mapper for the resource.
    fn emplace_self(self, mapper: &mut BindlessMapper) -> (r: Self::H)
        requires
            old(mapper).can_allocate(),
        ensures
            emplaced(*old(mapper), *final(mapper), self.spec_resource(), r.spec_index()),
    ;

    /// The number of values that the resource holds.
    fn dim(&self) -> (r: usize)
        ensures
            r == self.spec_dim(),
    ;
}

/// The slots of a bindless array: those given back, the next one never
/// handed out, and the placements that wait for the next update.
pub struct BindlessMapper {
    pub size: usize,
    pub field: Field<Static<u64>, ()>,
    pub handle: FieldHandle,
    pub free_buffers: Vec<usize>,
    pub next_buffer: usize,
    pub pending: Vec<(usize, u64)>,
}

/// `after` is `before` with the next slot taken and `resource` waiting to be
/// placed in it; `index` is the slot.
pub open spec fn emplaced(before: BindlessMapper, after: BindlessMapper, resource: u64, index: u32) -> bool {
    &&& index == before.next_slot() as u32
    &&& after.allocated(before)
    &&& after.pending() == before.pending().push((before.next_slot(), resource))
    &&& after.size == before.size
    &&& after.field == before.field
}

impl BindlessMapper {
    /// The slots given back, the last to be handed out first.
    pub open spec fn free(&self) -> Seq<usize> {
        self.free_buffers@
    }

    /// The first slot never handed out.
    pub open spec fn next(&self) -> usize {
        self.next_buffer
    }

    /// The placements that wait for the next update: slot and resource.
    pub open spec fn pending(&self) -> Seq<(usize, u64)> {
        self.pending@
    }

    /// A slot can be handed out without the counter overflowing.
    pub open spec fn can_allocate(&self) -> bool {
        self.free().len() > 0 || self.next() < usize::MAX
    }

    /// The slot that is handed out next.
    pub open spec fn next_slot(&self) -> usize {
        if self.free().len() > 0 {
            self.free().last()
        } else {
            self.next()
        }
    }

    /// `self` is `before` with its next slot handed out.
    pub open spec fn allocated(&self, before: BindlessMapper) -> bool {
        if before.free().len() > 0 {
            self.free() == before.free().drop_last() && self.next() == before.next()
        } else {
            self.free() == before.free() && self.next() == before.next() + 1
        }
    }

    /// A mapper over a bindless array of `size` slots, none handed out; the
    /// array is read through a new field, `bindless`, bound to `mapping`.
    pub fn new(size: usize, registry: &mut FieldRegistry, mapping: u64) -> (r: Self)
        requires
            old(registry).wf(),
            old(registry).next_field() < u64::MAX,
        ensures
            final(registry).wf(),
            r.size == size,
            r.free().len() == 0,
            r.next() == 0,
            r.pending().len() == 0,
            r.field.id == r.handle.0,
            r.field.id.id == old(registry).next_field(),
            final(registry).fields().contains_key(r.field.id.id),
            final(registry).fields()[r.field.id.id].name@ == "bindless"@,
            final(registry).fields()[r.field.id.id].binding == Some(mapping),
            final(registry).fields().remove(r.field.id.id) == old(registry).fields(),
    {
        let (field, handle) = Field::create_bind(registry, "bindless", mapping);
        BindlessMapper {
            size,
            field,
            handle,
            free_buffers: Vec::new(),
            next_buffer: 0,
            pending: Vec::new(),
        }
    }

    /// Hands out a slot: the last one given back, else the next new one.
    pub fn next_buffer(&mut self) -> (r: usize)
        requires
            old(self).can_allocate(),
        ensures
            r == old(self).next_slot(),
            final(self).allocated(*old(self)),
            final(self).pending() == old(self).pending(),
            final(self).size == old(self).size,
            final(self).field == old(self).field,
    {
        match self.free_buffers.pop() {
            Some(index) => index,
            None => {
                let index = self.next_buffer;
                self.next_buffer = self.next_buffer + 1;
                index
            },
        }
    }

    /// Places a resource in the next slot, once the array is updated.
    pub fn emplace<T: Emplace>(&mut self, data: T) -> (r: T::H)
        requires
            old(self).can_allocate(),
        ensures
            emplaced(*old(self), *final(self), data.spec_resource(), r.spec_index()),
    {
        data.emplace_self(self)
    }

    /// Places a resource in the next slot and updates the array: gives the
    /// handle and every placement that waited, this one last.
    pub fn emplace_blocking<T: Emplace>(&mut self, data: T) -> (r: (T::H, Vec<(usize, u64)>))
        requires
            old(self).can_allocate(),
        ensures
            r.0.spec_index() == old(self).next_slot() as u32,
            r.1@ == old(self).pending().push((old(self).next_slot(), data.spec_resource())),
            final(self).allocated(*old(self)),
            final(self).pending().len() == 0,
            final(self).size == old(self).size,
            final(self).field == old(self).field,
    {
        let handle = self.emplace(data);
        let placed = self.update();
        (handle, placed)
    }

    /// Updates the array: gives every placement that waited, in order.
    pub fn update(&mut self) -> (r: Vec<(usize, u64)>)
        ensures
            r@ == old(self).pending(),
            final(self).pending().len() == 0,
            final(self).free() == old(self).free(),
            final(self).next() == old(self).next(),
            final(self).size == old(self).size,
            final(self).field == old(self).field,
    {
        let mut placed: Vec<(usize, u64)> = Vec::new();
        std::mem::swap(&mut placed, &mut self.pending);
        placed
    }

    /// A mapping that reads the buffer in a slot: a new field,
    /// `bindless-buffer-field`, bound to `mapping`, which reads the slot of
    /// the array.
    pub fn mapping<V>(&self, registry: &mut FieldRegistry, handle: BindlessBufferHandle<V>, mapping: u64) -> (r:
        BindlessBufferMapping<V>)
        requires
            old(registry).wf(),
            old(registry).next_field() < u64::MAX,
        ensures
            final(registry).wf(),
            r.index == handle.index,
            r.buffer_field.id == r.buffer_field_handle.0,
            r.buffer_field.id.id == old(registry).next_field(),
            final(registry).fields().contains_key(r.buffer_field.id.id),
            final(registry).fields()[r.buffer_field.id.id].name@ == "bindless-buffer-field"@,
            final(registry).fields()[r.buffer_field.id.id].binding == Some(mapping),
            final(registry).fields().remove(r.buffer_field.id.id) == old(registry).fields(),
    {
        let (buffer_field, buffer_field_handle) = Field::create_bind(
            registry,
            "bindless-buffer-field",
            mapping,
        );
        BindlessBufferMapping { buffer_field, buffer_field_handle, index: handle.index, _marker: PhantomData }
    }

    /// Places a buffer in the next slot and maps it.
    pub fn emplace_map<V, T: Emplace<H = BindlessBufferHandle<V>>>(
        &mut self,
        registry: &mut FieldRegistry,
        data: T,
        mapping: u64,
    ) -> (r: BindlessBufferMapping<V>)
        requires
            old(self).can_allocate(),
            old(registry).wf(),
            old(registry).next_field() < u64::MAX,
        ensures
            r.index == old(self).next_slot() as u32,
            final(self).allocated(*old(self)),
            final(self).pending() == old(self).pending().push((old(self).next_slot(), data.spec_resource())),
            final(self).size == old(self).size,
            final(self).field == old(self).field,
            final(registry).wf(),
            r.buffer_field.id.id == old(registry).next_field(),
            final(registry).fields()[r.buffer_field.id.id].name@ == "bindless-buffer-field"@,
            final(registry).fields()[r.buffer_field.id.id].binding == Some(mapping),
            final(registry).fields().remove(r.buffer_field.id.id) == old(registry).fields(),
    {
        let handle = self.emplace(data);
        self.mapping(registry, handle, mapping)
    }
}

/// While no slot has been given back, the slots handed out one after the
/// other are all different: each is the count of those handed out before it.
pub proof fn law_fresh_slots(a: BindlessMapper, b: BindlessMapper, c: BindlessMapper)
    requires
        a.free().len() == 0,
        b.allocated(a),
        c.allocated(b),
    ensures
        b.next_slot() == a.next_slot() + 1,
        c.next_slot() == a.next_slot() + 2,
        a.next_slot() != b.next_slot(),
{
}

/// While no slot has been given back, a run of slots handed out one after the
/// other takes the new slots in order, each different from all the others.
pub proof fn law_slots_in_order(s: Seq<BindlessMapper>)
    requires
        s.len() >= 1,
        s[0].free().len() == 0,
        forall|k: int| 0 <= k < s.len() - 1 ==> #[trigger] s[k + 1].allocated(s[k]),
    ensures
        forall|k: int| 0 <= k < s.len() ==> #[trigger] s[k].next_slot() == s[0].next() + k,
        forall|k1: int, k2: int|
            0 <= k1 < k2 < s.len() ==> #[trigger] s[k1].next_slot() != #[trigger] s[k2].next_slot(),
{
    lemma_slots_prefix(s, s.len() - 1);
}

proof fn lemma_slots_prefix(s: Seq<BindlessMapper>, n: int)
    requires
        0 <= n < s.len(),
        s[0].free().len() == 0,
        forall|k: int| 0 <= k < s.len() - 1 ==> #[trigger] s[k + 1].allocated(s[k]),
    ensures
        forall|k: int| 0 <= k <= n ==> #[trigger] s[k].free().len() == 0 && s[k].next() == s[0].next() + k,
        forall|k: int| 0 <= k <= n ==> #[trigger] s[k].next_slot() == s[0].next() + k,
    decreases n,
{
    if n > 0 {
        lemma_slots_prefix(s, n - 1);
        let k = n - 1;
        assert(s[k + 1].allocated(s[k]));
        assert(k + 1 == n);
        assert(s[n - 1].free().len() == 0);
    }
}

/// Placing a resource and updating the array at once does what placing it
/// and then updating does: the updated placements are those that waited,
/// then the new one, and none waits afterwards.
pub proof fn law_emplace_blocking_is_emplace_then_update(
    a: BindlessMapper,
    b: BindlessMapper,
    c: BindlessMapper,
    resource: u64,
    index: u32,
    placed: Seq<(usize, u64)>,
)
    requires
        emplaced(a, b, resource, index),
        placed == b.pending(),
        c.pending().len() == 0,
        c.free() == b.free(),
        c.next() == b.next(),
        c.size == b.size,
        c.field == b.field,
    ensures
        index == a.next_slot() as u32,
        placed == a.pending().push((a.next_slot(), resource)),
        c.allocated(a),
        c.pending().len() == 0,
        c.size == a.size,
        c.field == a.field,
{
}

impl<V> Emplace for BufferRef<V> {
    type H = BindlessBufferHandle<V>;

    open spec fn spec_resource(&self) -> u64 {
        self.id
    }

    open spec fn spec_dim(&self) -> usize {
        self.len
    }

    fn emplace_self(self, mapper: &mut BindlessMapper) -> (r: BindlessBufferHandle<V>) {
        let index = mapper.next_buffer();
        mapper.pending.push((index, self.id));
        BindlessBufferHandle { index: index as u32, _marker: PhantomData }
    }

    fn dim(&self) -> (r: usize) {
        self.len
    }
}

impl<'a, V> Emplace for &'a BufferRef<V> {
    type H = BindlessBufferHandle<V>;

    open spec fn spec_resource(&self) -> u64 {
        self.id
    }

    open spec fn spec_dim(&self) -> usize {
        self.len
    }

    fn emplace_self(self, mapper: &mut BindlessMapper) -> (r: BindlessBufferHandle<V>) {
        let index = mapper.next_buffer();
        mapper.pending.push((index, self.id));
        BindlessBufferHandle { index: index as u32, _marker: PhantomData }
    }

    fn dim(&self) -> (r: usize) {
        self.len
    }
}

/// A buffer in a bindless slot as the mapping of a field: it reads the slot
/// through `buffer_field`, which it owns.
pub struct BindlessBufferMapping<V> {
    pub buffer_field: Field<Static<u64>, ()>,
    pub buffer_field_handle: FieldHandle,
    pub index: u32,
    pub _marker: PhantomData<V>,
}

impl StaticDomain<1> {
    /// Places a buffer with one value per element of the line in the next
    /// bindless slot, and maps it.
    pub fn map_bindless_buffer<V, T: Emplace<H = BindlessBufferHandle<V>>>(
        &self,
        bindless: &mut BindlessMapper,
        registry: &mut FieldRegistry,
        buffer: T,
        mapping: u64,
    ) -> (r: BindlessBufferMapping<V>)
        requires
            buffer.spec_dim() == self.0@[0],
            old(bindless).can_allocate(),
            old(registry).wf(),
            old(registry).next_field() < u64::MAX,
        ensures
            r.index == old(bindless).next_slot() as u32,
            final(bindless).allocated(*old(bindless)),
            final(bindless).pending() == old(bindless).pending().push(
                (old(bindless).next_slot(), buffer.spec_resource()),
            ),
            final(registry).wf(),
            r.buffer_field.id.id == old(registry).next_field(),
            final(registry).fields()[r.buffer_field.id.id].binding == Some(mapping),
            final(registry).fields().remove(r.buffer_field.id.id) == old(registry).fields(),
    {
        bindless.emplace_map(registry, buffer, mapping)
    }

    /// Places a new buffer, `id`, of one value per element in the next
    /// bindless slot, and maps it.
    pub fn create_bindless_buffer<V>(
        &self,
        bindless: &mut BindlessMapper,
        registry: &mut FieldRegistry,
        id: u64,
        mapping: u64,
    ) -> (r: BindlessBufferMapping<V>)
        requires
            old(bindless).can_allocate(),
            old(registry).wf(),
            old(registry).next_field() < u64::MAX,
        ensures
            r.index == old(bindless).next_slot() as u32,
            final(bindless).allocated(*old(bindless)),
            final(bindless).pending() == old(bindless).pending().push((old(bindless).next_slot(), id)),
            final(registry).wf(),
            r.buffer_field.id.id == old(registry).next_field(),
            final(registry).fields()[r.buffer_field.id.id].binding == Some(mapping),
            final(registry).fields().remove(r.buffer_field.id.id) == old(registry).fields(),
    {
        let buffer = BufferRef::<V> { id, len: self.len() as usize, _marker: PhantomData };
        bindless.emplace_map(registry, buffer, mapping)
    }
}

} // verus!
