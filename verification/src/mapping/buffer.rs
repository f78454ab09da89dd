//! Buffers and textures as mappings over static domains. A device resource
//! is stood for by its id and size; a handled resource also says whether the
//! mapping owns it, and mapping one over a domain checks that their sizes
//! agree.
use std::marker::PhantomData;

use vstd::prelude::*;

use super::storage::{HasPixelStorage, PixelStorage};
use crate::domain::StaticDomain;

verus! {

/// A device buffer of `len` values of `V`.
#[derive(Debug)]
pub struct BufferRef<V> {
    pub id: u64,
    pub len: usize,
    pub _marker: PhantomData<V>,
}

/// A device texture of `width` by `height` texels of `V`.
#[derive(Debug)]
pub struct Tex2dRef<V> {
    pub id: u64,
    pub storage: PixelStorage,
    pub width: u32,
    pub height: u32,
    pub _marker: PhantomData<V>,
}

/// A device texture of `width` by `height` by `depth` texels of `V`.
#[derive(Debug)]
pub struct Tex3dRef<V> {
    pub id: u64,
    pub storage: PixelStorage,
    pub width: u32,
    pub height: u32,
    pub depth: u32,
    pub _marker: PhantomData<V>,
}

impl<V> Clone for BufferRef<V> {
    fn clone(&self) -> (r: Self)
        ensures
            r == *self,
    {
        BufferRef { id: self.id, len: self.len, _marker: PhantomData }
    }
}

impl<V> Copy for BufferRef<V> {}

impl<V> Clone for Tex2dRef<V> {
    fn clone(&self) -> (r: Self)
        ensures
            r == *self,
    {
        Tex2dRef {
            id: self.id,
            storage: self.storage,
            width: self.width,
            height: self.height,
            _marker: PhantomData,
        }
    }
}

impl<V> Copy for Tex2dRef<V> {}

impl<V> Clone for Tex3dRef<V> {
    fn clone(&self) -> (r: Self)
        ensures
            r == *self,
    {
        Tex3dRef {
            id: self.id,
            storage: self.storage,
            width: self.width,
            height: self.height,
            depth: self.depth,
            _marker: PhantomData,
        }
    }
}

impl<V> Copy for Tex3dRef<V> {}

/// A view of a buffer, with the buffer itself where the view owns it.
pub struct HandledBuffer<V> {
    pub buffer: BufferRef<V>,
    pub handle: Option<BufferRef<V>>,
}

/// A view of a texture, with the texture itself where the view owns it.
pub struct HandledTex2d<V> {
    pub texture: Tex2dRef<V>,
    pub handle: Option<Tex2dRef<V>>,
}

/// A view of a texture, with the texture itself where the view owns it.
pub struct HandledTex3d<V> {
    pub texture: Tex3dRef<V>,
    pub handle: Option<Tex3dRef<V>>,
}

/// A resource that can be viewed as a handled one.
pub trait IntoHandled: Sized {
    type H;

    spec fn spec_into_handled(self) -> Self::H;

    fn into_handled(self) -> (r: Self::H)
        ensures
            r == self.spec_into_handled(),
    ;
}

impl<V> IntoHandled for BufferRef<V> {
    type H = HandledBuffer<V>;

    open spec fn spec_into_handled(self) -> HandledBuffer<V> {
        HandledBuffer { buffer: self, handle: Some(self) }
    }

    fn into_handled(self) -> (r: HandledBuffer<V>) {
        HandledBuffer { buffer: self, handle: Some(self) }
    }
}

impl<'a, V> IntoHandled for &'a BufferRef<V> {
    type H = HandledBuffer<V>;

    open spec fn spec_into_handled(self) -> HandledBuffer<V> {
        HandledBuffer { buffer: *self, handle: None }
    }

    fn into_handled(self) -> (r: HandledBuffer<V>) {
        HandledBuffer { buffer: *self, handle: None }
    }
}

impl<V> IntoHandled for Tex2dRef<V> {
    type H = HandledTex2d<V>;

    open spec fn spec_into_handled(self) -> HandledTex2d<V> {
        HandledTex2d { texture: self, handle: Some(self) }
    }

    fn into_handled(self) -> (r: HandledTex2d<V>) {
        HandledTex2d { texture: self, handle: Some(self) }
    }
}

impl<'a, V> IntoHandled for &'a Tex2dRef<V> {
    type H = HandledTex2d<V>;

    open spec fn spec_into_handled(self) -> HandledTex2d<V> {
        HandledTex2d { texture: *self, handle: None }
    }

    fn into_handled(self) -> (r: HandledTex2d<V>) {
        HandledTex2d { texture: *self, handle: None }
    }
}

impl<V> IntoHandled for Tex3dRef<V> {
    type H = HandledTex3d<V>;

    open spec fn spec_into_handled(self) -> HandledTex3d<V> {
        HandledTex3d { texture: self, handle: Some(self) }
    }

    fn into_handled(self) -> (r: HandledTex3d<V>) {
        HandledTex3d { texture: self, handle: Some(self) }
    }
}

impl<'a, V> IntoHandled for &'a Tex3dRef<V> {
    type H = HandledTex3d<V>;

    open spec fn spec_into_handled(self) -> HandledTex3d<V> {
        HandledTex3d { texture: *self, handle: None }
    }

    fn into_handled(self) -> (r: HandledTex3d<V>) {
        HandledTex3d { texture: *self, handle: None }
    }
}

/// A buffer as the mapping of a field over a line.
pub struct BufferMapping<V>(pub HandledBuffer<V>);

/// A texture as the mapping of a field over a rectangle.
pub struct Tex2dMapping<V>(pub HandledTex2d<V>);

/// A texture as the mapping of a field over a box.
pub struct Tex3dMapping<V>(pub HandledTex3d<V>);

impl StaticDomain<1> {
    /// Maps a buffer with one value per element of the line.
    pub fn map_buffer<V, B: IntoHandled<H = HandledBuffer<V>>>(&self, buffer: B) -> (r: BufferMapping<V>)
        requires
            buffer.spec_into_handled().buffer.len == self.0@[0],
        ensures
            r.0 == buffer.spec_into_handled(),
    {
        let buffer = buffer.into_handled();
        BufferMapping(buffer)
    }

    /// Maps a new buffer, `id`, of one value per element, which the mapping owns.
    pub fn create_buffer<V>(&self, id: u64) -> (r: BufferMapping<V>)
        ensures
            r.0.buffer == (BufferRef::<V> { id, len: self.0@[0] as usize, _marker: PhantomData }),
            r.0.handle == Some(r.0.buffer),
    {
        let buffer = BufferRef::<V> { id, len: self.len() as usize, _marker: PhantomData };
        self.map_buffer(buffer)
    }
}

impl StaticDomain<2> {
    /// Maps a texture with one texel per element of the rectangle.
    pub fn map_tex2d<V, B: IntoHandled<H = HandledTex2d<V>>>(&self, texture: B) -> (r: Tex2dMapping<V>)
        requires
            texture.spec_into_handled().texture.width == self.0@[0],
            texture.spec_into_handled().texture.height == self.0@[1],
        ensures
            r.0 == texture.spec_into_handled(),
    {
        let texture = texture.into_handled();
        Tex2dMapping(texture)
    }

    /// Maps a new texture, `id`, with the natural storage of `V`, which the mapping owns.
    pub fn create_tex2d<V: HasPixelStorage>(&self, id: u64) -> (r: Tex2dMapping<V>)
        ensures
            r.0.texture == (Tex2dRef::<V> {
                id,
                storage: V::spec_storage(),
                width: self.0@[0],
                height: self.0@[1],
                _marker: PhantomData,
            }),
            r.0.handle == Some(r.0.texture),
    {
        self.create_tex2d_with_storage(V::storage(), id)
    }

    /// Maps a new texture, `id`, with the given storage, which the mapping owns.
    pub fn create_tex2d_with_storage<V>(&self, storage: PixelStorage, id: u64) -> (r: Tex2dMapping<V>)
        ensures
            r.0.texture == (Tex2dRef::<V> {
                id,
                storage,
                width: self.0@[0],
                height: self.0@[1],
                _marker: PhantomData,
            }),
            r.0.handle == Some(r.0.texture),
    {
        let texture = Tex2dRef::<V> {
            id,
            storage,
            width: self.width(),
            height: self.height(),
            _marker: PhantomData,
        };
        self.map_tex2d(texture)
    }
}

impl StaticDomain<3> {
    /// Maps a texture with one texel per element of the box.
    pub fn map_tex3d<V, B: IntoHandled<H = HandledTex3d<V>>>(&self, texture: B) -> (r: Tex3dMapping<V>)
        requires
            texture.spec_into_handled().texture.width == self.0@[0],
            texture.spec_into_handled().texture.height == self.0@[1],
            texture.spec_into_handled().texture.depth == self.0@[2],
        ensures
            r.0 == texture.spec_into_handled(),
    {
        let texture = texture.into_handled();
        Tex3dMapping(texture)
    }

    /// Maps a new texture, `id`, with the natural storage of `V`, which the mapping owns.
    pub fn create_tex3d<V: HasPixelStorage>(&self, id: u64) -> (r: Tex3dMapping<V>)
        ensures
            r.0.texture == (Tex3dRef::<V> {
                id,
                storage: V::spec_storage(),
                width: self.0@[0],
                height: self.0@[1],
                depth: self.0@[2],
                _marker: PhantomData,
            }),
            r.0.handle == Some(r.0.texture),
    {
        self.create_tex3d_with_storage(V::storage(), id)
    }

    /// Maps a new texture, `id`, with the given storage, which the mapping owns.
    pub fn create_tex3d_with_storage<V>(&self, storage: PixelStorage, id: u64) -> (r: Tex3dMapping<V>)
        ensures
            r.0.texture == (Tex3dRef::<V> {
                id,
                storage,
                width: self.0@[0],
                height: self.0@[1],
                depth: self.0@[2],
                _marker: PhantomData,
            }),
            r.0.handle == Some(r.0.texture),
    {
        let texture = Tex3dRef::<V> {
            id,
            storage,
            width: self.width(),
            height: self.height(),
            depth: self.depth(),
            _marker: PhantomData,
        };
        self.map_tex3d(texture)
    }
}

} // verus!
