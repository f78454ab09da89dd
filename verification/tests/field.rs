use sefirot::emanation::{Auto, Emanation, EmanationHandle};
use sefirot::field::access::{
    Access, AccessLevel, AccessNil, AtomicAccess, ExprAccess, ListAccess, Static, VarAccess,
};
use sefirot::field::set::FieldSet;
use sefirot::field::{Field, FieldHandle, FieldId, FieldRegistry};

#[test]
fn registry_hands_out_fresh_ids() {
    let mut registry = FieldRegistry::new();
    let a = registry.register("a", String::from("Expr<u32>"), String::from("u32"));
    let b = registry.register("b", String::from("Expr<u32>"), String::from("u32"));
    assert_ne!(a, b);
    assert_eq!(a.id, 0);
    assert_eq!(b.id, 1);
    assert_eq!(registry.get(a).unwrap().name, "a");
    assert!(registry.remove(a).is_some());
    assert!(registry.get(a).is_none());
    assert!(registry.remove(a).is_none());
    let c = registry.register("c", String::from("X"), String::from("I"));
    assert_eq!(c.id, 2);
}

#[test]
fn field_desc_names_types_and_field() {
    let mut registry = FieldRegistry::new();
    let id = registry.register("position", String::from("Expr<Vec2<f32>>"), String::from("u32"));
    assert_eq!(
        id.field_desc(&registry),
        Some(String::from("Field<Expr<Vec2<f32>>, u32>(position)"))
    );
    registry.remove(id);
    assert_eq!(id.field_desc(&registry), None);
}

#[test]
fn field_create_bind_and_release() {
    let mut registry = FieldRegistry::new();
    let (field, handle): (Field<ExprAccess<u32>, u32>, FieldHandle) = Field::create(&mut registry, "data");
    assert_eq!(field.id(), handle.id());
    assert_eq!(field.name(&registry), "data");
    assert_eq!(registry.get(field.id).unwrap().binding, None);
    let field = field.bind(&mut registry, 17);
    assert_eq!(registry.get(field.id).unwrap().binding, Some(17));
    // The recorded type names are those of the access and index types.
    let raw = registry.get(field.id).unwrap();
    assert!(raw.access_type_name.contains("ExprAccess"));
    assert_eq!(raw.index_type_name, "u32");
    handle.release(&mut registry);
    assert!(registry.get(field.id).is_none());
}

#[test]
fn field_set_releases_its_fields_only() {
    let mut registry = FieldRegistry::new();
    let (outside, _h): (Field<ExprAccess<u32>, u32>, FieldHandle) = Field::create(&mut registry, "outside");
    let mut set = FieldSet::new(&mut registry);
    assert_eq!(set.id().id, 0);
    let a: Field<VarAccess<u32>, u32> = set.create(&mut registry, "a");
    let b: Field<ExprAccess<u32>, u32> = set.create_bind(&mut registry, "b", 3);
    assert_eq!(registry.get(b.id).unwrap().binding, Some(3));
    set.release(&mut registry);
    assert!(registry.get(a.id).is_none());
    assert!(registry.get(b.id).is_none());
    assert!(registry.get(outside.id).is_some());
    let second = FieldSet::new(&mut registry);
    assert_eq!(second.id().id, 1);
}

#[test]
fn unique_ids_wrap_around() {
    let mut registry = FieldRegistry::new();
    let first = registry.unique_field();
    let second = registry.unique_field();
    assert_eq!(first, FieldId { id: 0 });
    assert_eq!(second, FieldId { id: 1 });
    assert_eq!(registry.unique_set(), 0);
    assert_eq!(registry.unique_set(), 1);
}

#[test]
fn access_levels() {
    assert_eq!(<AccessNil as ListAccess>::level(), AccessLevel(0));
    assert_eq!(<Static<u32> as ListAccess>::level(), AccessLevel(1));
    assert_eq!(<ExprAccess<u32> as ListAccess>::level(), AccessLevel(1));
    assert_eq!(<VarAccess<u32> as ListAccess>::level(), AccessLevel(2));
    assert_eq!(<AtomicAccess<u32> as ListAccess>::level(), AccessLevel(3));
    fn is_access<X: Access>() {}
    is_access::<VarAccess<u32>>();
}

#[test]
fn emanation_owns_its_fields_and_releases() {
    let mut registry = FieldRegistry::new();
    let (keep, _h): (Field<ExprAccess<u32>, u32>, FieldHandle) = Field::create(&mut registry, "keep");
    let mut e: Emanation<Auto<u32>> = Emanation::new(EmanationHandle { id: 4 });
    let f: Field<ExprAccess<u32>, Auto<u32>> = e.create_named_field(&mut registry, "f");
    let g: Field<VarAccess<u32>, Auto<u32>> = e.create_named_field(&mut registry, "g");
    assert_eq!(registry.get(f.id).unwrap().name, "f");
    e.release(8);
    e.release(9);
    let released = e.dispose(&mut registry);
    assert_eq!(released, vec![8, 9]);
    assert!(registry.get(f.id).is_none());
    assert!(registry.get(g.id).is_none());
    assert!(registry.get(keep.id).is_some());
}

#[test]
fn field_set_describes_its_fields() {
    let mut registry = FieldRegistry::new();
    let mut set = FieldSet::new(&mut registry);
    let a: Field<ExprAccess<u32>, u32> = set.create(&mut registry, "a");
    let b: Field<ExprAccess<u32>, u32> = set.create(&mut registry, "b");
    registry.remove(b.id);
    let d = set.describe_fields(&registry);
    assert_eq!(d.len(), 2);
    assert_eq!(d[0].0, a.id);
    assert!(d[0].1.starts_with("Field<") && d[0].1.ends_with(", u32>(a)"));
    assert_eq!(d[1], (b.id, String::from("Field[dropped]")));
}

#[test]
fn emanation_create_field_takes_a_fresh_id_only() {
    let mut registry = FieldRegistry::new();
    let (keep, _h): (Field<ExprAccess<u32>, u32>, FieldHandle) = Field::create(&mut registry, "keep");
    let e: Emanation<Auto<u32>> = Emanation::new(EmanationHandle { id: 2 });
    let f: Field<ExprAccess<u32>, Auto<u32>> = e.create_field(&mut registry);
    let g: Field<VarAccess<u32>, Auto<u32>> = e.create_field(&mut registry);
    assert_ne!(f.id, keep.id);
    assert_ne!(f.id, g.id);
    assert_eq!(f.id.id, 1);
    assert_eq!(g.id.id, 2);
    assert!(registry.get(f.id).is_none());
    assert!(registry.get(g.id).is_none());
    assert_eq!(registry.get(keep.id).unwrap().name, "keep");
    let next = registry.unique_field();
    assert_eq!(next.id, 3);
}
