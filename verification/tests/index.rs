use sefirot::emanation::{Auto, Emanation, EmanationHandle};
use sefirot::field::array::{
    morton_code, ArrayIndex, ArrayIndex2d, Linear, Planar, SpatialIndex, Vec2,
};
use sefirot::field::FieldRegistry;

type Elems = Auto<u32>;

#[test]
fn morton_code_interleaves_bits() {
    assert_eq!(morton_code(0, 0), 0);
    assert_eq!(morton_code(1, 0), 1);
    assert_eq!(morton_code(0, 1), 2);
    assert_eq!(morton_code(1, 1), 3);
    assert_eq!(morton_code(2, 0), 4);
    assert_eq!(morton_code(3, 5), 0b100111);
    assert_eq!(morton_code(0xffff, 0), 0x5555_5555);
    assert_eq!(morton_code(0, 0xffff), 0xaaaa_aaaa);
    assert_eq!(morton_code(0xffff, 0xffff), u32::MAX);
}

#[test]
fn morton_codes_of_a_square_cover_it_once() {
    let n = 8u32;
    let mut seen = vec![false; (n * n) as usize];
    for y in 0..n {
        for x in 0..n {
            let m = morton_code(x, y) as usize;
            assert!(m < (n * n) as usize);
            assert!(!seen[m]);
            seen[m] = true;
        }
    }
}

#[test]
fn indices_and_their_dispatch_sizes() {
    let mut registry = FieldRegistry::new();
    let mut e: Emanation<Elems> = Emanation::new(EmanationHandle { id: 0 });
    let index: ArrayIndex<Elems> = e.create_index(&mut registry, 12);
    assert_eq!(registry.get(index.field.id).unwrap().name, "index");
    assert_eq!(index.dispatch_size(), [12, 1, 1]);
    assert_eq!(Linear::size(&index), 12);
    let reduced = index.reduce();
    assert_eq!(reduced.size(), 12);
    assert_eq!(reduced.field.id, index.field.id);

    let index2d: ArrayIndex2d<Elems> = e.create_index2d(&mut registry, Vec2 { x: 4, y: 3 });
    assert_eq!(registry.get(index2d.field.id).unwrap().name, "index2d");
    assert_eq!(index2d.dispatch_size(), [4, 3, 1]);
    let reduced2d = index2d.reduce();
    assert_eq!(reduced2d.size(), Vec2 { x: 4, y: 3 });
    assert_eq!(Planar::size(&index2d), Vec2 { x: 4, y: 3 });
}

#[test]
fn morton_index_over_a_square() {
    let mut registry = FieldRegistry::new();
    let mut e: Emanation<Elems> = Emanation::new(EmanationHandle { id: 0 });
    let index2d: ArrayIndex2d<Elems> = e.create_index2d(&mut registry, Vec2 { x: 16, y: 16 });
    let morton = index2d.morton(&mut e, &mut registry, 77);
    assert_eq!(morton.size, 256);
    let raw = registry.get(morton.field.id).unwrap();
    assert_eq!(raw.name, "index2d-morton");
    assert_eq!(raw.binding, Some(77));
    assert_ne!(morton.field.id, index2d.field.id);
    let values = index2d.morton_mapping();
    assert_eq!(values.source, index2d.field.id);
    assert_eq!(values.value(Vec2 { x: 0, y: 0 }), 0);
    assert_eq!(values.value(Vec2 { x: 1, y: 0 }), 1);
    assert_eq!(values.value(Vec2 { x: 0, y: 1 }), 2);
    assert_eq!(values.value(Vec2 { x: 3, y: 5 }), 0b100111);
    let released = e.dispose(&mut registry);
    assert!(released.is_empty());
    assert!(registry.get(morton.field.id).is_none());
}
