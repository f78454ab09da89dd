//! Fields: named properties of the elements of a domain, registered in a
//! table that gives each its name, the names of its access and index types,
//! and the mapping bound to it.
use std::marker::PhantomData;

use vstd::prelude::*;

pub mod access;
pub mod array;
pub mod partition;
pub mod set;
pub mod table;

use self::table::{table_contents, table_get, table_insert, table_new, table_remove, FieldTable};

verus! {

/// The name of a type, as `pretty_type_name` writes it.
#[verifier::external_body]
fn type_name_of<T: ?Sized>() -> String {
    pretty_type_name::pretty_type_name::<T>()
}

/// The identity of a field.
#[derive(Debug, Clone, Copy, PartialEq, Eq, Hash, Structural)]
pub struct FieldId {
    pub id: u64,
}

/// The registered description of a field. `binding` identifies the mapping
/// bound to the field, if any.
#[derive(Debug, Clone)]
pub struct RawField {
    pub name: String,
    pub access_type_name: String,
    pub index_type_name: String,
    pub binding: Option<u64>,
}

/// The registry of all fields and field sets, which hands out their ids.
pub struct FieldRegistry {
    table: FieldTable,
    next_field: u64,
    next_set: u64,
}

impl FieldRegistry {
    /// The registered fields by id.
    pub closed spec fn fields(&self) -> Map<u64, RawField> {
        table_contents(self.table)
    }

    /// The id that the next field will get.
    pub closed spec fn next_field(&self) -> u64 {
        self.next_field
    }

    /// The id that the next field set will get.
    pub closed spec fn next_set(&self) -> u64 {
        self.next_set
    }

    /// Every registered field has an id below the next one.
    pub open spec fn wf(&self) -> bool {
        forall|k: u64| #[trigger] self.fields().contains_key(k) ==> k < self.next_field()
    }

    /// A registry with no field.
    pub fn new() -> (r: FieldRegistry)
        ensures
            r.wf(),
            r.fields() == Map::<u64, RawField>::empty(),
            r.next_field() == 0,
            r.next_set() == 0,
    {
        FieldRegistry { table: table_new(), next_field: 0, next_set: 0 }
    }

    /// A new field id, as a wrapping counter hands them out.
    pub fn unique_field(&mut self) -> (r: FieldId)
        ensures
            r.id == old(self).next_field(),
            final(self).next_field() == old(self).next_field().wrapping_add(1),
            final(self).next_set() == old(self).next_set(),
            final(self).fields() == old(self).fields(),
    {
        let id = self.next_field;
        self.next_field = self.next_field.wrapping_add(1);
        FieldId { id }
    }

    /// A new field set id, as a wrapping counter hands them out.
    pub fn unique_set(&mut self) -> (r: u64)
        ensures
            r == old(self).next_set(),
            final(self).next_set() == old(self).next_set().wrapping_add(1),
            final(self).next_field() == old(self).next_field(),
            final(self).fields() == old(self).fields(),
    {
        let id = self.next_set;
        self.next_set = self.next_set.wrapping_add(1);
        id
    }

    /// Registers a new field with the given name, access type and index type names.
    pub fn register(&mut self, name: &str, access_type_name: String, index_type_name: String) -> (r: FieldId)
        requires
            old(self).wf(),
            old(self).next_field() < u64::MAX,
        ensures
            final(self).wf(),
            r.id == old(self).next_field(),
            !old(self).fields().contains_key(r.id),
            final(self).next_field() == old(self).next_field() + 1,
            final(self).next_set() == old(self).next_set(),
            final(self).fields() == old(self).fields().insert(
                r.id,
                RawField {
                    name: final(self).fields()[r.id].name,
                    access_type_name,
                    index_type_name,
                    binding: None,
                },
            ),
            final(self).fields()[r.id].name@ == name@,
    {
        let id = self.unique_field();
        let raw = RawField {
            name: String::from_str(name),
            access_type_name,
            index_type_name,
            binding: None,
        };
        table_insert(&mut self.table, id.id, raw);
        id
    }

    /// The registered description of a field.
    pub fn get(&self, id: FieldId) -> (r: Option<RawField>)
        ensures
            r == (if self.fields().contains_key(id.id) {
                Some(self.fields()[id.id])
            } else {
                None::<RawField>
            }),
    {
        table_get(&self.table, id.id)
    }

    /// Removes a field from the registry.
    pub fn remove(&mut self, id: FieldId) -> (r: Option<RawField>)
        requires
            old(self).wf(),
        ensures
            final(self).wf(),
            final(self).fields() == old(self).fields().remove(id.id),
            final(self).next_field() == old(self).next_field(),
            final(self).next_set() == old(self).next_set(),
            r == (if old(self).fields().contains_key(id.id) {
                Some(old(self).fields()[id.id])
            } else {
                None::<RawField>
            }),
    {
        let r = table_remove(&mut self.table, id.id);
        assert forall|k: u64| #[trigger] self.fields().contains_key(k) implies k < self.next_field() by {
            assert(old(self).fields().contains_key(k));
        }
        r
    }

    /// Binds a mapping to a registered field that has none.
    pub fn set_binding(&mut self, id: FieldId, mapping: u64)
        requires
            old(self).wf(),
            old(self).fields().contains_key(id.id),
            old(self).fields()[id.id].binding is None,
        ensures
            final(self).wf(),
            final(self).fields() == old(self).fields().insert(
                id.id,
                RawField { binding: Some(mapping), ..old(self).fields()[id.id] },
            ),
            final(self).next_field() == old(self).next_field(),
            final(self).next_set() == old(self).next_set(),
    {
        let raw = table_get(&self.table, id.id).unwrap();
        let raw = RawField { binding: Some(mapping), ..raw };
        table_insert(&mut self.table, id.id, raw);
    }
}

/// The text that describes a field: `Field<access, index>(name)`.
pub open spec fn field_desc_text(raw: RawField) -> Seq<char> {
    "Field<"@ + raw.access_type_name@ + ", "@ + raw.index_type_name@ + ">("@ + raw.name@ + ")"@
}

impl FieldId {
    /// A description of the field, or `None` if the field has been dropped.
    pub fn field_desc(self, registry: &FieldRegistry) -> (r: Option<String>)
        ensures
            r is Some <==> registry.fields().contains_key(self.id),
            r matches Some(s) ==> s@ == field_desc_text(registry.fields()[self.id]),
    {
        match registry.get(self) {
            Some(raw) => {
                let mut s = String::from_str("Field<");
                s.append(raw.access_type_name.as_str());
                s.append(", ");
                s.append(raw.index_type_name.as_str());
                s.append(">(");
                s.append(raw.name.as_str());
                s.append(")");
                Some(s)
            },
            None => None,
        }
    }
}

/// A handle that owns a field: releasing it removes the field from the registry.
#[derive(Debug, PartialEq, Eq, Hash)]
pub struct FieldHandle(pub FieldId);

impl FieldHandle {
    /// The field that this handle owns.
    pub fn id(&self) -> (r: FieldId)
        ensures
            r == self.0,
    {
        self.0
    }

    /// Removes the field from the registry.
    pub fn release(self, registry: &mut FieldRegistry)
        requires
            old(registry).wf(),
        ensures
            final(registry).wf(),
            final(registry).fields() == old(registry).fields().remove(self.0.id),
            final(registry).next_field() == old(registry).next_field(),
    {
        registry.remove(self.0);
    }
}

/// A single property of the elements of a domain, accessed as `X` at an index
/// of type `I`. A field has no data of its own: a mapping bound to it gives it
/// its values.
pub struct Field<X, I> {
    pub id: FieldId,
    pub _marker: PhantomData<(X, I)>,
}

impl<X, I> Clone for Field<X, I> {
    fn clone(&self) -> (r: Self)
        ensures
            r.id == self.id,
    {
        Field { id: self.id, _marker: PhantomData }
    }
}

impl<X, I> Copy for Field<X, I> {}

impl<X, I> Field<X, I> {
    /// Creates a new field with the given name, returning the field and a root
    /// handle, which removes the field when released.
    pub fn create(registry: &mut FieldRegistry, name: &str) -> (r: (Self, FieldHandle))
        requires
            old(registry).wf(),
            old(registry).next_field() < u64::MAX,
        ensures
            final(registry).wf(),
            r.0.id == r.1.0,
            r.0.id.id == old(registry).next_field(),
            !old(registry).fields().contains_key(r.0.id.id),
            final(registry).next_field() == old(registry).next_field() + 1,
            final(registry).next_set() == old(registry).next_set(),
            final(registry).fields().contains_key(r.0.id.id),
            final(registry).fields()[r.0.id.id].name@ == name@,
            final(registry).fields()[r.0.id.id].binding is None,
            final(registry).fields().remove(r.0.id.id) == old(registry).fields(),
    {
        let id = registry.register(name, type_name_of::<X>(), type_name_of::<I>());
        assert(registry.fields().remove(id.id) =~= old(registry).fields());
        (Field { id, _marker: PhantomData }, FieldHandle(id))
    }

    /// The id of the field.
    pub fn id(&self) -> (r: FieldId)
        ensures
            r == self.id,
    {
        self.id
    }

    /// The name of the field, which must not have been dropped.
    pub fn name(&self, registry: &FieldRegistry) -> (r: String)
        requires
            registry.fields().contains_key(self.id.id),
        ensures
            r@ == registry.fields()[self.id.id].name@,
    {
        let raw = registry.get(self.id).unwrap();
        raw.name
    }

    /// Binds a mapping to the field, which must exist and have none yet.
    pub fn bind(&self, registry: &mut FieldRegistry, mapping: u64) -> (r: Self)
        requires
            old(registry).wf(),
            old(registry).fields().contains_key(self.id.id),
            old(registry).fields()[self.id.id].binding is None,
        ensures
            r.id == self.id,
            final(registry).wf(),
            final(registry).fields() == old(registry).fields().insert(
                self.id.id,
                RawField { binding: Some(mapping), ..old(registry).fields()[self.id.id] },
            ),
            final(registry).next_field() == old(registry).next_field(),
    {
        registry.set_binding(self.id, mapping);
        *self
    }

    /// Creates a field and binds a mapping to it.
    pub fn create_bind(registry: &mut FieldRegistry, name: &str, mapping: u64) -> (r: (Self, FieldHandle))
        requires
            old(registry).wf(),
            old(registry).next_field() < u64::MAX,
        ensures
            final(registry).wf(),
            r.0.id == r.1.0,
            r.0.id.id == old(registry).next_field(),
            final(registry).fields().contains_key(r.0.id.id),
            final(registry).fields()[r.0.id.id].name@ == name@,
            final(registry).fields()[r.0.id.id].binding == Some(mapping),
            final(registry).fields().remove(r.0.id.id) == old(registry).fields(),
    {
        let (field, handle) = Self::create(registry, name);
        field.bind(registry, mapping);
        assert(registry.fields().remove(field.id.id) =~= old(registry).fields());
        (field, handle)
    }
}

} // verus!
