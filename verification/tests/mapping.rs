use std::marker::PhantomData;

use sefirot::domain::StaticDomain;
use sefirot::field::array::{Vec2, Vec4};
use sefirot::field::{Field, FieldRegistry};
use sefirot::field::access::ExprAccess;
use sefirot::mapping::bindless::{BindlessMapper, Emplace};
use sefirot::mapping::buffer::{BufferRef, IntoHandled, Tex2dRef, Tex3dRef};
use sefirot::mapping::index::IndexMap;
use sefirot::mapping::storage::{HasPixelStorage, PixelStorage};
use sefirot::utils::FnRelease;

fn buffer(id: u64, len: usize) -> BufferRef<u32> {
    BufferRef { id, len, _marker: PhantomData }
}

#[test]
fn buffers_map_over_lines_of_their_length() {
    let d = StaticDomain::<1>::new(4);
    let owned = d.map_buffer(buffer(1, 4));
    assert_eq!(owned.0.buffer.id, 1);
    assert_eq!(owned.0.handle.map(|b| b.id), Some(1));
    let b = buffer(2, 4);
    let borrowed = d.map_buffer(&b);
    assert!(borrowed.0.handle.is_none());
    let created = d.create_buffer::<u32>(9);
    assert_eq!(created.0.buffer.len, 4);
    assert_eq!(created.0.handle.map(|b| b.id), Some(9));
    let h = (&b).into_handled();
    assert_eq!(h.buffer.id, 2);
}

#[test]
fn textures_take_the_natural_storage() {
    let d2 = StaticDomain::<2>::new(8, 4);
    let t = d2.create_tex2d::<Vec4<u32>>(5);
    assert_eq!(t.0.texture.storage, PixelStorage::Int4);
    assert_eq!((t.0.texture.width, t.0.texture.height), (8, 4));
    let given = Tex2dRef::<u32> { id: 6, storage: PixelStorage::Float1, width: 8, height: 4, _marker: PhantomData };
    assert_eq!(d2.map_tex2d(&given).0.texture.storage, PixelStorage::Float1);
    let d3 = StaticDomain::<3>::new(2, 2, 2);
    let t3 = d3.create_tex3d::<i32>(7);
    assert_eq!(t3.0.texture.storage, PixelStorage::Int1);
    assert_eq!(t3.0.texture.depth, 2);
    let given3 = Tex3dRef::<u32> { id: 8, storage: PixelStorage::Int1, width: 2, height: 2, depth: 2, _marker: PhantomData };
    assert!(d3.map_tex3d(given3).0.handle.is_some());
    assert_eq!(<Vec2<u32> as HasPixelStorage>::storage(), PixelStorage::Int2);
    assert_eq!(<Vec2<i32> as HasPixelStorage>::storage(), PixelStorage::Int2);
    assert_eq!(<u32 as HasPixelStorage>::storage(), PixelStorage::Int1);
    assert_eq!(<Vec4<i32> as HasPixelStorage>::storage(), PixelStorage::Int4);
}

#[test]
fn bindless_slots_are_handed_out_in_order() {
    let mut registry = FieldRegistry::new();
    let mut mapper = BindlessMapper::new(16, &mut registry, 1);
    assert_eq!(registry.get(mapper.field.id).unwrap().name, "bindless");
    assert_eq!(mapper.next_buffer(), 0);
    assert_eq!(mapper.next_buffer(), 1);
    let h = mapper.emplace(buffer(40, 3));
    assert_eq!(h.index, 2);
    assert_eq!(buffer(40, 3).dim(), 3);
    let (h2, placed) = mapper.emplace_blocking(&buffer(41, 3));
    assert_eq!(h2.index, 3);
    assert_eq!(placed, vec![(2, 40), (3, 41)]);
    assert!(mapper.update().is_empty());
    mapper.free_buffers.push(1);
    assert_eq!(mapper.next_buffer(), 1);
    assert_eq!(mapper.next_buffer(), 4);
}

#[test]
fn bindless_buffers_map_through_a_field() {
    let mut registry = FieldRegistry::new();
    let mut mapper = BindlessMapper::new(16, &mut registry, 1);
    let d = StaticDomain::<1>::new(3);
    let m = d.map_bindless_buffer(&mut mapper, &mut registry, buffer(50, 3), 2);
    assert_eq!(m.index, 0);
    let raw = registry.get(m.buffer_field.id).unwrap();
    assert_eq!(raw.name, "bindless-buffer-field");
    assert_eq!(raw.binding, Some(2));
    let created = d.create_bindless_buffer::<u32>(&mut mapper, &mut registry, 51, 3);
    assert_eq!(created.index, 1);
    assert_eq!(mapper.update(), vec![(0, 50), (1, 51)]);
    let direct = mapper.emplace_map(&mut registry, buffer(52, 3), 4);
    assert_eq!(direct.index, 2);
}

#[test]
fn index_map_keeps_its_parts() {
    let mut registry = FieldRegistry::new();
    let (f, _h): (Field<ExprAccess<u32>, u64>, _) = Field::create(&mut registry, "idx");
    let m = IndexMap::new(f, 5u64);
    assert_eq!(m.index.id, f.id);
    assert_eq!(m.mapping, 5);
}

#[test]
fn fn_release_runs_once_released() {
    let ran = std::cell::Cell::new(0);
    let r = FnRelease::new(|| ran.set(ran.get() + 1));
    assert_eq!(ran.get(), 0);
    r.release();
    assert_eq!(ran.get(), 1);
}

#[test]
fn bindless_run_of_slots_and_blocking_placement() {
    let mut registry = FieldRegistry::new();
    let mut mapper = BindlessMapper::new(16, &mut registry, 1);
    let run: Vec<usize> = (0..6).map(|_| mapper.next_buffer()).collect();
    assert_eq!(run, vec![0, 1, 2, 3, 4, 5]);
    // Placing at once is placing, then updating.
    let mut a = BindlessMapper::new(16, &mut registry, 2);
    let mut b = BindlessMapper::new(16, &mut registry, 3);
    a.emplace(buffer(7, 1));
    b.emplace(buffer(7, 1));
    let (ha, placed_a) = a.emplace_blocking(buffer(8, 1));
    let hb = b.emplace(buffer(8, 1));
    let placed_b = b.update();
    assert_eq!((ha.index, placed_a), (hb.index, placed_b));
    assert_eq!((a.next_buffer, a.pending.len()), (b.next_buffer, b.pending.len()));
}
