use sefirot::bindless::{Bindless, BufferHandle, Tex2dHandle, Tex3dHandle};

#[test]
fn bindless_kinds_count_their_own_slots() {
    let mut b = Bindless::new(1, 2);
    assert!(!b.needs_update());
    assert_eq!(b.push_tex2d(10, 0), Tex2dHandle { index: 0, texture: 10, sampler: 0 });
    assert!(b.needs_update());
    assert_eq!(b.push_tex2d(11, 3), Tex2dHandle { index: 1, texture: 11, sampler: 3 });
    assert_eq!(b.push_buffer(20), BufferHandle { index: 0, buffer: 20 });
    assert_eq!(b.push_tex3d(30, 1), Tex3dHandle { index: 0, texture: 30, sampler: 1 });
    assert_eq!(b.push_buffer(21), BufferHandle { index: 1, buffer: 21 });
    assert_eq!((b.next_tex2d, b.next_tex3d, b.next_buffer), (2, 1, 2));
    assert_eq!((b.array, b.device), (1, 2));
}

#[test]
fn bindless_counter_wraps_around() {
    let mut b = Bindless::new(0, 0);
    b.next_buffer = u32::MAX;
    assert_eq!(b.push_buffer(5).index, u32::MAX);
    assert_eq!(b.push_buffer(6).index, 0);
}
