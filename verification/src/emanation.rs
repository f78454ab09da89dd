//! Emanations: the kinds of elements that fields are defined over. An
//! emanation owns the fields created on it and the objects handed to it for
//! release, and gives them up together when it is disposed of.
use std::marker::PhantomData;

use vstd::prelude::*;

use crate::field::{Field, FieldHandle, FieldRegistry};

verus! {

/// The identity of an emanation.
#[derive(Debug, Clone, Copy, PartialEq, Eq, Hash, Structural)]
pub struct EmanationHandle {
    pub id: u64,
}

/// A kind of element, with the type of index by which its elements are found.
pub trait EmanationType {
    type Index;
}

/// The emanation type whose elements are found by an index of type `I`.
pub struct Auto<I> {
    pub _marker: PhantomData<I>,
}

impl<I> EmanationType for Auto<I> {
    type Index = I;
}

/// An emanation of elements of type `T`.
pub struct Emanation<T> {
    pub id: EmanationHandle,
    pub fields: Vec<FieldHandle>,
    pub released: Vec<u64>,
    pub _marker: PhantomData<T>,
}

impl<T> Emanation<T> {
    /// The fields that the emanation owns, in the order of their creation.
    pub open spec fn owned(&self) -> Seq<FieldHandle> {
        self.fields@
    }

    /// The objects handed to the emanation for release, in order.
    pub open spec fn released(&self) -> Seq<u64> {
        self.released@
    }

    /// An emanation that owns nothing.
    pub fn new(id: EmanationHandle) -> (r: Emanation<T>)
        ensures
            r.id == id,
            r.owned() == Seq::<FieldHandle>::empty(),
            r.released() == Seq::<u64>::empty(),
    {
        Emanation { id, fields: Vec::new(), released: Vec::new(), _marker: PhantomData }
    }

    /// A new field of the emanation: a fresh id, with no entry in the
    /// registry of fields, which stays as it is.
    pub fn create_field<X>(&self, registry: &mut FieldRegistry) -> (r: Field<X, T>)
        requires
            old(registry).wf(),
            old(registry).next_field() < u64::MAX,
        ensures
            final(registry).wf(),
            r.id.id == old(registry).next_field(),
            !old(registry).fields().contains_key(r.id.id),
            final(registry).next_field() == old(registry).next_field() + 1,
            final(registry).next_set() == old(registry).next_set(),
            final(registry).fields() == old(registry).fields(),
    {
        let id = registry.unique_field();
        Field { id, _marker: PhantomData }
    }

    /// Creates and registers a field of the emanation, with a name; the
    /// emanation owns it.
    pub fn create_named_field<X>(&mut self, registry: &mut FieldRegistry, name: &str) -> (r: Field<X, T>)
        requires
            old(registry).wf(),
            old(registry).next_field() < u64::MAX,
        ensures
            final(registry).wf(),
            r.id.id == old(registry).next_field(),
            final(registry).next_field() == old(registry).next_field() + 1,
            final(registry).next_set() == old(registry).next_set(),
            final(registry).fields().contains_key(r.id.id),
            final(registry).fields().remove(r.id.id) == old(registry).fields(),
            !old(registry).fields().contains_key(r.id.id),
            final(registry).fields()[r.id.id].name@ == name@,
            final(registry).fields()[r.id.id].binding is None,
            final(self).id == old(self).id,
            final(self).owned() == old(self).owned().push(FieldHandle(r.id)),
            final(self).released() == old(self).released(),
    {
        let (field, handle) = Field::<X, T>::create(registry, name);
        self.fields.push(handle);
        field
    }

    /// Hands an object to the emanation, to be released with it.
    pub fn release(&mut self, object: u64)
        ensures
            final(self).id == old(self).id,
            final(self).owned() == old(self).owned(),
            final(self).released() == old(self).released().push(object),
    {
        self.released.push(object);
    }

    /// Disposes of the emanation: its fields leave the registry, and the
    /// objects handed to it for release are given back, in order.
    pub fn dispose(self, registry: &mut FieldRegistry) -> (r: Vec<u64>)
        requires
            old(registry).wf(),
        ensures
            final(registry).wf(),
            r@ == self.released(),
            final(registry).next_field() == old(registry).next_field(),
            forall|k: u64|
                #[trigger] final(registry).fields().contains_key(k) <==> old(registry).fields().contains_key(k)
                    && !(exists|i: int| 0 <= i < self.owned().len() && self.owned()[i].0.id == k),
            forall|k: u64|
                #[trigger] final(registry).fields().contains_key(k) ==> final(registry).fields()[k]
                    == old(registry).fields()[k],
    {
        let released = self.released;
        let mut fields = self.fields;
        let ghost owned = fields@;
        while fields.len() > 0
            invariant
                registry.wf(),
                registry.next_field() == old(registry).next_field(),
                fields@ == owned.take(fields@.len() as int),
                fields@.len() <= owned.len(),
                forall|k: u64|
                    #[trigger] registry.fields().contains_key(k) <==> old(registry).fields().contains_key(k)
                        && !(exists|j: int| fields@.len() <= j < owned.len() && owned[j].0.id == k),
                forall|k: u64|
                    #[trigger] registry.fields().contains_key(k) ==> registry.fields()[k]
                        == old(registry).fields()[k],
            decreases fields@.len(),
        {
            let ghost len = fields@.len();
            let h = fields.pop().unwrap();
            assert(h == owned[len - 1]);
            h.release(registry);
            assert forall|k: u64|
                #[trigger] registry.fields().contains_key(k) <==> old(registry).fields().contains_key(k)
                    && !(exists|j: int| fields@.len() <= j < owned.len() && owned[j].0.id == k) by {
                if exists|j: int| fields@.len() <= j < owned.len() && owned[j].0.id == k {
                    let j = choose|j: int| fields@.len() <= j < owned.len() && owned[j].0.id == k;
                    if j != len - 1 {
                        assert(len <= j < owned.len() && owned[j].0.id == k);
                    }
                }
                if exists|j: int| len <= j < owned.len() && owned[j].0.id == k {
                    let j = choose|j: int| len <= j < owned.len() && owned[j].0.id == k;
                    assert(fields@.len() <= j < owned.len() && owned[j].0.id == k);
                }
            }
            assert(fields@ =~= owned.take(fields@.len() as int));
        }
        assert forall|k: u64|
            #[trigger] registry.fields().contains_key(k) <==> old(registry).fields().contains_key(k)
                && !(exists|i: int| 0 <= i < owned.len() && owned[i].0.id == k) by {
            assert(fields@.len() == 0);
        }
        assert(owned == self.owned());
        released
    }
}

} // verus!
