//! The contexts of the elements that are alive, held in a generational arena,
//! and the elements themselves: an index and the id of a context.
use generational_arena::{Arena, Index};
use vstd::prelude::*;

use super::{exit_ready, exit_saves, exited, mapping_of, records_access, Context, Save};
use crate::field::access::Access;
use crate::field::{Field, FieldRegistry, RawField};

verus! {

#[verifier::external_type_specification]
#[verifier::external_body]
#[verifier::reject_recursive_types(T)]
pub struct ExArena<T>(Arena<T>);

/// The id of a context: the raw parts of its arena index.
pub type ContextId = (usize, u64);

/// The contexts that an arena holds, by id.
pub uninterp spec fn arena_contents(a: Arena<Context>) -> Map<(usize, u64), Context>;

/// `Arena::new`: an arena that holds nothing.
#[verifier::external_body]
fn arena_new() -> (r: Arena<Context>)
    ensures
        arena_contents(r).dom() == Set::<(usize, u64)>::empty(),
{
    Arena::new()
}

/// `Arena::insert`: stores a context under an index that held nothing.
#[verifier::external_body]
fn arena_insert(a: &mut Arena<Context>, c: Context) -> (r: ContextId)
    ensures
        !arena_contents(*old(a)).contains_key(r),
        arena_contents(*final(a)) == arena_contents(*old(a)).insert(r, c),
{
    a.insert(c).into_raw_parts()
}

/// `Arena::remove`: takes out the context stored under an index, if any.
#[verifier::external_body]
fn arena_remove(a: &mut Arena<Context>, id: ContextId) -> (r: Option<Context>)
    ensures
        arena_contents(*final(a)) == arena_contents(*old(a)).remove(id),
        r == (if arena_contents(*old(a)).contains_key(id) {
            Some(arena_contents(*old(a))[id])
        } else {
            None::<Context>
        }),
{
    a.remove(Index::from_raw_parts(id.0, id.1))
}

/// `Arena::get`: the context stored under an index, if any.
#[verifier::external_body]
fn arena_get(a: &Arena<Context>, id: ContextId) -> (r: Option<&Context>)
    ensures
        r == (if arena_contents(*a).contains_key(id) {
            Some(&arena_contents(*a)[id])
        } else {
            None::<&Context>
        }),
{
    a.get(Index::from_raw_parts(id.0, id.1))
}

/// `Arena::get_mut`: the context stored under an index, if any, to change in place.
#[verifier::external_body]
fn arena_get_mut(a: &mut Arena<Context>, id: ContextId) -> (r: Option<&mut Context>)
    ensures
        arena_contents(*old(a)).contains_key(id) ==> r is Some && *r.unwrap() == arena_contents(*old(a))[id]
            && arena_contents(*final(a)) == arena_contents(*old(a)).insert(id, *final(r.unwrap())),
        !arena_contents(*old(a)).contains_key(id) ==> r is None && arena_contents(*final(a))
            == arena_contents(*old(a)),
{
    a.get_mut(Index::from_raw_parts(id.0, id.1))
}

/// `Arena::iter`: the index of every stored context, each once.
#[verifier::external_body]
fn arena_ids(a: &Arena<Context>) -> (r: Vec<ContextId>)
    ensures
        r@.no_duplicates(),
        forall|i: int| 0 <= i < r@.len() ==> arena_contents(*a).contains_key(#[trigger] r@[i]),
        forall|k: ContextId| #[trigger] arena_contents(*a).contains_key(k) ==> r@.contains(k),
{
    a.iter().map(|(i, _)| i.into_raw_parts()).collect()
}

/// The contexts of the elements that are alive.
pub struct ActiveContexts {
    contexts: Arena<Context>,
}

impl ActiveContexts {
    /// The contexts by id.
    pub closed spec fn contexts(&self) -> Map<ContextId, Context> {
        arena_contents(self.contexts)
    }

    /// Every context is well formed.
    pub open spec fn wf(&self) -> bool {
        forall|k: ContextId| #[trigger] self.contexts().contains_key(k) ==> self.contexts()[k].wf()
    }

    /// No context.
    pub fn new() -> (r: ActiveContexts)
        ensures
            r.wf(),
            r.contexts() == Map::<ContextId, Context>::empty(),
    {
        let r = ActiveContexts { contexts: arena_new() };
        assert(r.contexts() =~= Map::<ContextId, Context>::empty());
        r
    }

    /// Makes a context active, under a new id.
    pub fn register(&mut self, context: Context) -> (r: ContextId)
        requires
            old(self).wf(),
            context.wf(),
        ensures
            final(self).wf(),
            !old(self).contexts().contains_key(r),
            final(self).contexts() == old(self).contexts().insert(r, context),
    {
        let id = arena_insert(&mut self.contexts, context);
        assert forall|k: ContextId| #[trigger] self.contexts().contains_key(k) implies self.contexts()[k].wf() by {
            if k != id {
                assert(old(self).contexts().contains_key(k));
            }
        }
        id
    }

    /// Drops a context from the active ones, giving it back if it was there.
    pub fn unregister(&mut self, id: ContextId) -> (r: Option<Context>)
        requires
            old(self).wf(),
        ensures
            final(self).wf(),
            final(self).contexts() == old(self).contexts().remove(id),
            r == (if old(self).contexts().contains_key(id) {
                Some(old(self).contexts()[id])
            } else {
                None::<Context>
            }),
    {
        let r = arena_remove(&mut self.contexts, id);
        assert forall|k: ContextId| #[trigger] self.contexts().contains_key(k) implies self.contexts()[k].wf() by {
            assert(old(self).contexts().contains_key(k));
        }
        r
    }

    /// The context under an id.
    pub fn get(&self, id: ContextId) -> (r: Option<&Context>)
        ensures
            r == (if self.contexts().contains_key(id) {
                Some(&self.contexts()[id])
            } else {
                None::<&Context>
            }),
    {
        arena_get(&self.contexts, id)
    }

    /// The context under an id, to change in place.
    pub fn get_mut(&mut self, id: ContextId) -> (r: Option<&mut Context>)
        ensures
            old(self).contexts().contains_key(id) ==> r is Some && *r.unwrap() == old(self).contexts()[id]
                && final(self).contexts() == old(self).contexts().insert(id, *final(r.unwrap())),
            !old(self).contexts().contains_key(id) ==> r is None && final(self).contexts()
                == old(self).contexts(),
    {
        arena_get_mut(&mut self.contexts, id)
    }

    /// Enters a block in every active context.
    pub fn enter_block(&mut self)
        requires
            old(self).wf(),
        ensures
            final(self).wf(),
            final(self).contexts().dom() == old(self).contexts().dom(),
            forall|k: ContextId|
                #[trigger] final(self).contexts().contains_key(k) ==> {
                    let (a, b) = (old(self).contexts()[k], final(self).contexts()[k]);
                    &&& b.scopes() == a.scopes().push(Map::empty())
                    &&& b.accesses() == a.accesses().push(Map::empty())
                    &&& b.local_bindings() == a.local_bindings()
                },
    {
        let ids = arena_ids(&self.contexts);
        let mut i: usize = 0;
        while i < ids.len()
            invariant
                i <= ids@.len(),
                ids@.no_duplicates(),
                forall|j: int| 0 <= j < ids@.len() ==> old(self).contexts().contains_key(#[trigger] ids@[j]),
                forall|k: ContextId| #[trigger] old(self).contexts().contains_key(k) ==> ids@.contains(k),
                self.wf(),
                self.contexts().dom() == old(self).contexts().dom(),
                forall|k: ContextId|
                    #[trigger] self.contexts().contains_key(k) ==> {
                        let (a, b) = (old(self).contexts()[k], self.contexts()[k]);
                        if ids@.take(i as int).contains(k) {
                            &&& b.scopes() == a.scopes().push(Map::empty())
                            &&& b.accesses() == a.accesses().push(Map::empty())
                            &&& b.local_bindings() == a.local_bindings()
                        } else {
                            b == a
                        }
                    },
            decreases ids@.len() - i,
        {
            let id = ids[i];
            proof {
                assert(!ids@.take(i as int).contains(id)) by {
                    if ids@.take(i as int).contains(id) {
                        let t = ids@.take(i as int);
                        let j = choose|j: int| 0 <= j < t.len() && #[trigger] t[j] == id;
                        assert(ids@[j] == ids@[i as int]);
                    }
                }
                let t0 = ids@.take(i as int);
                let t1 = ids@.take(i + 1);
                assert forall|k: ContextId| #[trigger] t1.contains(k) == (t0.contains(k) || k == id) by {
                    if t1.contains(k) {
                        let j = choose|j: int| 0 <= j < t1.len() && #[trigger] t1[j] == k;
                        if j < i {
                            assert(t0[j] == k);
                        }
                    }
                    if t0.contains(k) {
                        let j = choose|j: int| 0 <= j < t0.len() && #[trigger] t0[j] == k;
                        assert(t1[j] == k);
                    }
                    if k == id {
                        assert(t1[i as int] == k);
                    }
                }
            }
            match arena_get_mut(&mut self.contexts, id) {
                Some(ctx) => {
                    ctx.enter();
                },
                None => {},
            }
            i = i + 1;
        }
        proof {
            assert(ids@.take(ids@.len() as int) =~= ids@);
        }
    }

    /// Leaves a block in every active context, each of which must be ready to
    /// leave it; gives, for each context, the saves that its mappings are
    /// asked for.
    pub fn exit_block(&mut self, registry: &FieldRegistry) -> (r: Vec<(ContextId, Vec<Save>)>)
        requires
            old(self).wf(),
            forall|k: ContextId|
                #[trigger] old(self).contexts().contains_key(k) ==> exit_ready(
                    old(self).contexts()[k],
                    registry.fields(),
                ),
        ensures
            final(self).wf(),
            final(self).contexts().dom() == old(self).contexts().dom(),
            forall|k: ContextId|
                #[trigger] final(self).contexts().contains_key(k) ==> exited(
                    old(self).contexts()[k],
                    final(self).contexts()[k],
                ),
            r@.map_values(|e: (ContextId, Vec<Save>)| e.0).no_duplicates(),
            forall|j: int|
                0 <= j < r@.len() ==> old(self).contexts().contains_key((#[trigger] r@[j]).0) && exit_saves(
                    old(self).contexts()[r@[j].0],
                    registry.fields(),
                    r@[j].1@,
                ),
            forall|k: ContextId|
                #[trigger] old(self).contexts().contains_key(k) ==> exists|j: int|
                    0 <= j < r@.len() && (#[trigger] r@[j]).0 == k,
    {
        let ids = arena_ids(&self.contexts);
        let mut out: Vec<(ContextId, Vec<Save>)> = Vec::new();
        let mut i: usize = 0;
        while i < ids.len()
            invariant
                i <= ids@.len(),
                out@.len() == i,
                ids@.no_duplicates(),
                forall|j: int| 0 <= j < ids@.len() ==> old(self).contexts().contains_key(#[trigger] ids@[j]),
                forall|k: ContextId| #[trigger] old(self).contexts().contains_key(k) ==> ids@.contains(k),
                forall|k: ContextId|
                    #[trigger] old(self).contexts().contains_key(k) ==> exit_ready(
                        old(self).contexts()[k],
                        registry.fields(),
                    ),
                self.wf(),
                self.contexts().dom() == old(self).contexts().dom(),
                forall|j: int|
                    0 <= j < i ==> (#[trigger] out@[j]).0 == ids@[j] && exit_saves(
                        old(self).contexts()[ids@[j]],
                        registry.fields(),
                        out@[j].1@,
                    ),
                forall|k: ContextId|
                    #[trigger] self.contexts().contains_key(k) ==> {
                        let (a, b) = (old(self).contexts()[k], self.contexts()[k]);
                        if ids@.take(i as int).contains(k) {
                            exited(a, b)
                        } else {
                            b == a
                        }
                    },
            decreases ids@.len() - i,
        {
            let id = ids[i];
            proof {
                assert(!ids@.take(i as int).contains(id)) by {
                    if ids@.take(i as int).contains(id) {
                        let t = ids@.take(i as int);
                        let j = choose|j: int| 0 <= j < t.len() && #[trigger] t[j] == id;
                        assert(ids@[j] == ids@[i as int]);
                    }
                }
                let t0 = ids@.take(i as int);
                let t1 = ids@.take(i + 1);
                assert forall|k: ContextId| #[trigger] t1.contains(k) == (t0.contains(k) || k == id) by {
                    if t1.contains(k) {
                        let j = choose|j: int| 0 <= j < t1.len() && #[trigger] t1[j] == k;
                        if j < i {
                            assert(t0[j] == k);
                        }
                    }
                    if t0.contains(k) {
                        let j = choose|j: int| 0 <= j < t0.len() && #[trigger] t0[j] == k;
                        assert(t1[j] == k);
                    }
                    if k == id {
                        assert(t1[i as int] == k);
                    }
                }
            }
            let saves = match arena_get_mut(&mut self.contexts, id) {
                Some(ctx) => ctx.exit(registry),
                None => Vec::new(),
            };
            out.push((id, saves));
            i = i + 1;
        }
        proof {
            assert(ids@.take(ids@.len() as int) =~= ids@);
            assert(out@.map_values(|e: (ContextId, Vec<Save>)| e.0) =~= ids@);
            assert forall|k: ContextId| #[trigger] old(self).contexts().contains_key(k) implies exists|j: int|
                0 <= j < out@.len() && (#[trigger] out@[j]).0 == k by {
                let j = choose|j: int| 0 <= j < ids@.len() && ids@[j] == k;
                assert(out@[j].0 == k);
            }
        }
        out
    }
}

/// An element of a domain while a kernel is recorded: an index, and the id of
/// the context that it shares with the elements made from it.
pub struct Element<I> {
    pub index: I,
    pub context: ContextId,
}

impl<I> Element<I> {
    /// An element at an index, with a context that becomes active.
    pub fn new(index: I, context: Context, active: &mut ActiveContexts) -> (r: Element<I>)
        requires
            old(active).wf(),
            context.wf(),
        ensures
            final(active).wf(),
            r.index == index,
            !old(active).contexts().contains_key(r.context),
            final(active).contexts() == old(active).contexts().insert(r.context, context),
    {
        let id = active.register(context);
        Element { index, context: id }
    }

    /// The index of the element.
    pub fn index(&self) -> (r: &I)
        ensures
            *r == self.index,
    {
        &self.index
    }

    /// The element at another index, with the same context.
    pub fn with_index<J>(&self, index: J) -> (r: Element<J>)
        ensures
            r.index == index,
            r.context == self.context,
    {
        Element { index, context: self.context }
    }
}

impl<X: Access, I> Field<X, I> {
    /// Accesses the field at an element, in the element's context, which must
    /// be active and serve the field with a mapping; gives the mapping.
    pub fn at(&self, el: &Element<I>, active: &mut ActiveContexts, registry: &FieldRegistry) -> (r: u64)
        requires
            old(active).wf(),
            old(active).contexts().contains_key(el.context),
            old(active).contexts()[el.context].depth() >= 1,
            mapping_of(old(active).contexts()[el.context].local_bindings(), registry.fields(), self.id) is Some,
        ensures
            final(active).wf(),
            final(active).contexts().dom() == old(active).contexts().dom(),
            forall|k: ContextId| k != el.context && #[trigger] old(active).contexts().contains_key(k)
                ==> final(active).contexts()[k] == old(active).contexts()[k],
            final(active).contexts()[el.context].scopes() == old(active).contexts()[el.context].scopes(),
            final(active).contexts()[el.context].local_bindings() == old(active).contexts()[el.context].local_bindings(),
            Some(r) == mapping_of(old(active).contexts()[el.context].local_bindings(), registry.fields(), self.id),
            records_access(
                old(active).contexts()[el.context],
                final(active).contexts()[el.context],
                self.id,
                X::spec_level(),
            ),
    {
        let ctx = active.get_mut(el.context).unwrap();
        let r = self.at_split(ctx, registry);
        proof {
            assert forall|k: ContextId| #[trigger] active.contexts().contains_key(k) implies active.contexts()[k].wf() by {
                if k != el.context {
                    assert(old(active).contexts().contains_key(k));
                }
            }
        }
        r
    }
}

impl<I> Element<I> {
    /// Accesses a field at the element now, so that what it caches is cached
    /// in the current block rather than in a block entered later.
    pub fn resolve<X: Access>(&self, field: &Field<X, I>, active: &mut ActiveContexts, registry: &FieldRegistry)
        requires
            old(active).wf(),
            old(active).contexts().contains_key(self.context),
            old(active).contexts()[self.context].depth() >= 1,
            mapping_of(old(active).contexts()[self.context].local_bindings(), registry.fields(), field.id) is Some,
        ensures
            final(active).wf(),
            final(active).contexts().dom() == old(active).contexts().dom(),
            forall|k: ContextId| k != self.context && #[trigger] old(active).contexts().contains_key(k)
                ==> final(active).contexts()[k] == old(active).contexts()[k],
            final(active).contexts()[self.context].scopes() == old(active).contexts()[self.context].scopes(),
            final(active).contexts()[self.context].local_bindings() == old(
                active,
            ).contexts()[self.context].local_bindings(),
            records_access(
                old(active).contexts()[self.context],
                final(active).contexts()[self.context],
                field.id,
                X::spec_level(),
            ),
    {
        field.at(self, active, registry);
    }
}

} // verus!
