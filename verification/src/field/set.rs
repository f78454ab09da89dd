//! Field sets: groups of fields that are released together.
use vstd::prelude::*;

use super::{field_desc_text, Field, FieldHandle, FieldId, FieldRegistry};

verus! {

/// The identity of a field set.
#[derive(Debug, Clone, Copy, PartialEq, Eq, Hash, Structural)]
pub struct FieldSetId {
    pub id: u64,
}

/// A set of fields that it owns.
pub struct FieldSet {
    pub id: FieldSetId,
    pub fields: Vec<FieldHandle>,
}

impl FieldSet {
    /// The ids of the fields of the set.
    pub closed spec fn field_ids(&self) -> Seq<u64> {
        self.fields@.map_values(|h: FieldHandle| h.0.id)
    }

    /// An empty set with a new id.
    pub fn new(registry: &mut FieldRegistry) -> (r: FieldSet)
        ensures
            r.id.id == old(registry).next_set(),
            r.field_ids() == Seq::<u64>::empty(),
            final(registry).next_set() == old(registry).next_set().wrapping_add(1),
            final(registry).next_field() == old(registry).next_field(),
            final(registry).fields() == old(registry).fields(),
    {
        let id = registry.unique_set();
        let r = FieldSet { id: FieldSetId { id }, fields: Vec::new() };
        assert(r.field_ids() =~= Seq::<u64>::empty());
        r
    }

    pub fn id(&self) -> (r: FieldSetId)
        ensures
            r == self.id,
    {
        self.id
    }

    /// Creates a field with the given name, owned by the set.
    pub fn create<X, I>(&mut self, registry: &mut FieldRegistry, name: &str) -> (r: Field<X, I>)
        requires
            old(registry).wf(),
            old(registry).next_field() < u64::MAX,
        ensures
            final(registry).wf(),
            r.id.id == old(registry).next_field(),
            final(registry).fields().contains_key(r.id.id),
            final(registry).fields()[r.id.id].name@ == name@,
            final(registry).fields()[r.id.id].binding is None,
            final(registry).fields().remove(r.id.id) == old(registry).fields(),
            final(self).field_ids() == old(self).field_ids().push(r.id.id),
            final(self).id == old(self).id,
    {
        let (field, handle) = Field::<X, I>::create(registry, name);
        self.fields.push(handle);
        assert(self.field_ids() =~= old(self).field_ids().push(field.id.id));
        field
    }

    /// Creates a field owned by the set and binds a mapping to it.
    pub fn create_bind<X, I>(&mut self, registry: &mut FieldRegistry, name: &str, mapping: u64) -> (r: Field<X, I>)
        requires
            old(registry).wf(),
            old(registry).next_field() < u64::MAX,
        ensures
            final(registry).wf(),
            r.id.id == old(registry).next_field(),
            final(registry).fields().contains_key(r.id.id),
            final(registry).fields()[r.id.id].name@ == name@,
            final(registry).fields()[r.id.id].binding == Some(mapping),
            final(registry).fields().remove(r.id.id) == old(registry).fields(),
            final(self).field_ids() == old(self).field_ids().push(r.id.id),
    {
        let (field, handle) = Field::<X, I>::create_bind(registry, name, mapping);
        self.fields.push(handle);
        assert(self.field_ids() =~= old(self).field_ids().push(field.id.id));
        field
    }

    /// The fields of the set with their descriptions, as the set is shown for
    /// debugging: `Field[dropped]` for a field that no longer exists.
    pub fn describe_fields(&self, registry: &FieldRegistry) -> (r: Vec<(FieldId, String)>)
        ensures
            r@.len() == self.fields@.len(),
            forall|i: int|
                0 <= i < r@.len() ==> {
                    let id = self.fields@[i].0;
                    &&& (#[trigger] r@[i]).0 == id
                    &&& r@[i].1@ == if registry.fields().contains_key(id.id) {
                        field_desc_text(registry.fields()[id.id])
                    } else {
                        "Field[dropped]"@
                    }
                },
    {
        let mut r: Vec<(FieldId, String)> = Vec::new();
        let mut i: usize = 0;
        while i < self.fields.len()
            invariant
                i <= self.fields@.len(),
                r@.len() == i,
                forall|j: int|
                    0 <= j < i ==> {
                        let id = self.fields@[j].0;
                        &&& (#[trigger] r@[j]).0 == id
                        &&& r@[j].1@ == if registry.fields().contains_key(id.id) {
                            field_desc_text(registry.fields()[id.id])
                        } else {
                            "Field[dropped]"@
                        }
                    },
            decreases self.fields@.len() - i,
        {
            let id = self.fields[i].0;
            let desc = match id.field_desc(registry) {
                Some(d) => d,
                None => String::from_str("Field[dropped]"),
            };
            r.push((id, desc));
            i = i + 1;
        }
        r
    }

    /// Releases the set, removing its fields from the registry.
    pub fn release(self, registry: &mut FieldRegistry)
        requires
            old(registry).wf(),
        ensures
            final(registry).wf(),
            forall|k: u64| #[trigger] self.field_ids().contains(k) ==> !final(registry).fields().contains_key(k),
            forall|k: u64|
                !self.field_ids().contains(k) && old(registry).fields().contains_key(k)
                    ==> #[trigger] final(registry).fields().contains_key(k),
    {
        let ghost ids = self.field_ids();
        let mut fields = self.fields;
        let n = fields.len();
        while fields.len() > 0
            invariant
                registry.wf(),
                n == ids.len(),
                fields@.len() <= n,
                forall|j: int| 0 <= j < fields@.len() ==> (#[trigger] fields@[j]).0.id == ids[j],
                forall|j: int| fields@.len() <= j < n ==> !registry.fields().contains_key(#[trigger] ids[j]),
                forall|k: u64|
                    !ids.contains(k) && old(registry).fields().contains_key(k)
                        ==> #[trigger] registry.fields().contains_key(k),
            decreases fields@.len(),
        {
            let h = fields.pop().unwrap();
            h.release(registry);
        }
        assert forall|k: u64| #[trigger] ids.contains(k) implies !registry.fields().contains_key(k) by {
            let j = choose|j: int| 0 <= j < ids.len() && ids[j] == k;
        }
    }
}

} // verus!
