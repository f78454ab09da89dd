use std::cell::Cell;

use sefirot::element::active::{ActiveContexts, Element};
use sefirot::element::{Context, FieldBinding, Save};
use sefirot::field::access::{AccessLevel, ExprAccess, VarAccess};
use sefirot::field::{Field, FieldId, FieldRegistry};

// A cached function mapping, modelled: each access of
// `half` that finds no cached value computes it once more.
#[test]
fn test_context_stack_if() {
    let field = FieldId { id: 0 };
    let binding = FieldBinding::new(field);
    let num_accesses = Cell::new(0u32);
    let access = |ctx: &mut Context| {
        ctx.get_cache_or_insert_with(&binding, || {
            num_accesses.set(num_accesses.get() + 1);
            7
        })
    };

    // Accessed inside the `if` first: the value cached there is dropped at
    // the end of the block, and the access after it computes it again.
    let registry = FieldRegistry::new();
    let mut ctx = Context::new();
    ctx.enter();
    assert_eq!(access(&mut ctx), 7);
    ctx.exit(&registry);
    assert_eq!(access(&mut ctx), 7);
    assert_eq!(num_accesses.get(), 2);

    // Accessed before the `if`: the block sees the cached value.
    let mut ctx = Context::new();
    assert_eq!(access(&mut ctx), 7);
    ctx.enter();
    assert_eq!(access(&mut ctx), 7);
    ctx.exit(&registry);
    assert_eq!(num_accesses.get(), 3);
}

#[test]
fn test_scope_loss() {
    // A value cached for the whole kernel survives the block it was first
    // accessed in.
    let field = FieldId { id: 1 };
    let binding = FieldBinding::new(field);
    let registry = FieldRegistry::new();
    let mut kernel = sefirot::element::KernelContext::new();
    let mut ctx = Context::new();
    ctx.enter();
    assert_eq!(kernel.get_cache_or_insert_with_global(&binding, || 10), 10);
    ctx.exit(&registry);
    assert_eq!(kernel.get_cache_global(&binding), Some(10));
    assert_eq!(kernel.get_cache_or_insert_with_global(&binding, || 11), 10);
}

#[test]
fn context_cache_scopes() {
    let b = FieldBinding::new(FieldId { id: 3 });
    let other = b.next();
    let mut ctx = Context::new();
    assert_eq!(ctx.get_cache(&b), None);
    ctx.insert_cache(&b, 1);
    ctx.enter();
    assert_eq!(ctx.get_cache(&b), Some(1));
    ctx.insert_cache(&b, 2);
    ctx.insert_cache(&other, 5);
    assert_eq!(ctx.get_cache(&b), Some(2));
    ctx.exit(&FieldRegistry::new());
    assert_eq!(ctx.get_cache(&b), Some(1));
    assert_eq!(ctx.get_cache(&other), None);
}

#[test]
fn field_binding_next_push_same() {
    let b = FieldBinding::new(FieldId { id: 2 });
    let n = b.next();
    assert_eq!(n.index, 1);
    assert!(!n.same(&b));
    let p = n.push(9);
    assert_eq!(p.index, 0);
    assert_eq!(p.stack, vec![1, 9]);
    assert!(p.same(&p.clone()));
    assert!(!p.same(&b));
}

#[test]
fn exit_asks_for_saves_deepest_level_first() {
    let mut registry = FieldRegistry::new();
    let f = registry.register("f", String::from("A"), String::from("I"));
    let g = registry.register("g", String::from("A"), String::from("I"));
    registry.set_binding(f, 100);
    let mut ctx = Context::new();
    ctx.bind_local(g, 200);
    ctx.enter();
    ctx.insert_cache(&FieldBinding::new(f), 11);
    assert_eq!(f.at_opt::<ExprAccess<u32>>(&mut ctx, &registry), Some(100));
    assert_eq!(f.at_opt::<VarAccess<u32>>(&mut ctx, &registry), Some(100));
    assert_eq!(g.at_opt::<ExprAccess<u32>>(&mut ctx, &registry), Some(200));
    let saves = ctx.exit(&registry);
    assert_eq!(saves.len(), 3);
    let f_saves: Vec<&Save> = saves.iter().filter(|s| s.field == f).collect();
    assert_eq!(f_saves.len(), 2);
    assert_eq!(f_saves[0].level, AccessLevel(2));
    assert_eq!(f_saves[1].level, AccessLevel(1));
    assert!(f_saves.iter().all(|s| s.mapping == 100 && s.cached == Some(11)));
    let g_saves: Vec<&Save> = saves.iter().filter(|s| s.field == g).collect();
    assert_eq!(g_saves.len(), 1);
    assert_eq!(g_saves[0].mapping, 200);
    assert_eq!(g_saves[0].cached, None);
}

#[test]
fn mapping_prefers_the_local_binding() {
    let mut registry = FieldRegistry::new();
    let f = registry.register("f", String::from("A"), String::from("I"));
    let unbound = registry.register("u", String::from("A"), String::from("I"));
    let mut ctx = Context::new();
    assert_eq!(ctx.on_mapping_opt(f, &registry), None);
    registry.set_binding(f, 1);
    assert_eq!(ctx.on_mapping_opt(f, &registry), Some(1));
    ctx.bind_local(f, 2);
    assert_eq!(ctx.on_mapping_opt(f, &registry), Some(2));
    assert_eq!(ctx.local_binding(f), Some(2));
    assert_eq!(ctx.on_mapping_opt(unbound, &registry), None);
    assert_eq!(ctx.on_mapping_opt(FieldId { id: 99 }, &registry), None);
}

#[test]
fn active_contexts_enter_and_exit_blocks_together() {
    let registry = FieldRegistry::new();
    let mut active = ActiveContexts::new();
    let a: Element<u32> = Element::new(5, Context::new(), &mut active);
    let b = a.with_index(6u64);
    assert_eq!(*b.index(), 6);
    assert_eq!(b.context, a.context);
    let c: Element<u32> = Element::new(7, Context::new(), &mut active);
    assert_ne!(a.context, c.context);
    let binding = FieldBinding::new(FieldId { id: 0 });
    active.enter_block();
    active.get_mut(a.context).unwrap().insert_cache(&binding, 3);
    assert_eq!(active.get(a.context).unwrap().get_cache(&binding), Some(3));
    let saves = active.exit_block(&registry);
    assert_eq!(saves.len(), 2);
    assert!(saves.iter().all(|(_, s)| s.is_empty()));
    assert_eq!(active.get(a.context).unwrap().get_cache(&binding), None);
    let removed = active.unregister(c.context);
    assert!(removed.is_some());
    assert!(active.get(c.context).is_none());
    assert!(active.unregister(c.context).is_none());
}

#[test]
fn field_at_element_gives_bound_mapping_and_records_access() {
    let mut registry = FieldRegistry::new();
    let (f, _handle) = Field::<VarAccess<u32>, u32>::create_bind(&mut registry, "f", 42);
    let (g, _g_handle) = Field::<ExprAccess<u32>, u32>::create(&mut registry, "g");
    let mut active = ActiveContexts::new();
    let mut context = Context::new();
    context.bind_local(g.id, 7);
    let el = Element::new(3u32, context, &mut active);
    assert_eq!(*el.index(), 3);
    active.enter_block();
    assert_eq!(f.at(&el, &mut active, &registry), 42);
    assert_eq!(g.at(&el, &mut active, &registry), 7);
    el.resolve(&g, &mut active, &registry);
    let ctx = active.get_mut(el.context).unwrap();
    assert_eq!(f.at_split(ctx, &registry), 42);
    let saves = ctx.exit(&registry);
    // Each field accessed in the block is saved once per level it was accessed at.
    assert_eq!(saves.iter().filter(|s| s.field == f.id).count(), 1);
    assert_eq!(saves.iter().filter(|s| s.field == g.id).count(), 1);
    assert!(saves.iter().all(|s| s.level == AccessLevel(2) || s.level == AccessLevel(1)));
}

#[test]
fn cached_mapping_runs_once_per_scope() {
    let binding = FieldBinding::new(FieldId { id: 5 });
    let runs = Cell::new(0u32);
    let mut ctx = Context::new();
    ctx.enter();
    let first = ctx.get_cache_or_insert_with(&binding, || {
        runs.set(runs.get() + 1);
        3
    });
    let second = ctx.get_cache_or_insert_with(&binding, || {
        runs.set(runs.get() + 1);
        4
    });
    ctx.enter();
    let nested = ctx.get_cache_or_insert_with(&binding, || {
        runs.set(runs.get() + 1);
        5
    });
    assert_eq!((first, second, nested), (3, 3, 3));
    assert_eq!(runs.get(), 1);
}
