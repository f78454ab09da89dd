//! A bindless array shared by 2d textures, 3d textures and buffers. Each
//! kind of resource takes the next slot of its own counter, and the array is
//! marked as needing an update once anything has been placed in it. The array,
//! the device and the resources are held by id: the caller places each
//! resource in the slot that its handle names.
use vstd::prelude::*;

verus! {

/// A 2d texture in a slot of the bindless array, with its sampler.
#[derive(Debug, Clone, Copy, PartialEq, Eq)]
pub struct Tex2dHandle {
    pub index: u32,
    pub texture: u64,
    pub sampler: u64,
}

/// A 3d texture in a slot of the bindless array, with its sampler.
#[derive(Debug, Clone, Copy, PartialEq, Eq)]
pub struct Tex3dHandle {
    pub index: u32,
    pub texture: u64,
    pub sampler: u64,
}

/// A buffer in a slot of the bindless array.
#[derive(Debug, Clone, Copy, PartialEq, Eq)]
pub struct BufferHandle {
    pub index: u32,
    pub buffer: u64,
}

/// The slot after `n`; the counters wrap around past the largest.
pub open spec fn next_slot(n: u32) -> u32 {
    if n == u32::MAX {
        0
    } else {
        (n + 1) as u32
    }
}

/// The bindless array of a device, with the next free slot for each kind of
/// resource.
pub struct Bindless {
    pub array: u64,
    pub device: u64,
    pub next_tex2d: u32,
    pub next_tex3d: u32,
    pub next_buffer: u32,
    pub needs_update: bool,
}

impl Bindless {
    /// An empty bindless array: every counter at the first slot.
    pub fn new(array: u64, device: u64) -> (r: Self)
        ensures
            r.array == array,
            r.device == device,
            r.next_tex2d == 0,
            r.next_tex3d == 0,
            r.next_buffer == 0,
            !r.needs_update,
    {
        Bindless { array, device, next_tex2d: 0, next_tex3d: 0, next_buffer: 0, needs_update: false }
    }

    /// Places a 2d texture in the next 2d slot.
    pub fn push_tex2d(&mut self, texture: u64, sampler: u64) -> (r: Tex2dHandle)
        ensures
            r == (Tex2dHandle { index: old(self).next_tex2d, texture, sampler }),
            final(self).next_tex2d == next_slot(old(self).next_tex2d),
            final(self).next_tex3d == old(self).next_tex3d,
            final(self).next_buffer == old(self).next_buffer,
            final(self).needs_update,
            final(self).array == old(self).array,
            final(self).device == old(self).device,
    {
        let index = self.next_tex2d;
        self.next_tex2d = index.wrapping_add(1);
        self.needs_update = true;
        Tex2dHandle { index, texture, sampler }
    }

    /// Places a 3d texture in the next 3d slot.
    pub fn push_tex3d(&mut self, texture: u64, sampler: u64) -> (r: Tex3dHandle)
        ensures
            r == (Tex3dHandle { index: old(self).next_tex3d, texture, sampler }),
            final(self).next_tex3d == next_slot(old(self).next_tex3d),
            final(self).next_tex2d == old(self).next_tex2d,
            final(self).next_buffer == old(self).next_buffer,
            final(self).needs_update,
            final(self).array == old(self).array,
            final(self).device == old(self).device,
    {
        let index = self.next_tex3d;
        self.next_tex3d = index.wrapping_add(1);
        self.needs_update = true;
        Tex3dHandle { index, texture, sampler }
    }

    /// Places a buffer in the next buffer slot.
    pub fn push_buffer(&mut self, buffer: u64) -> (r: BufferHandle)
        ensures
            r == (BufferHandle { index: old(self).next_buffer, buffer }),
            final(self).next_buffer == next_slot(old(self).next_buffer),
            final(self).next_tex2d == old(self).next_tex2d,
            final(self).next_tex3d == old(self).next_tex3d,
            final(self).needs_update,
            final(self).array == old(self).array,
            final(self).device == old(self).device,
    {
        let index = self.next_buffer;
        self.next_buffer = index.wrapping_add(1);
        self.needs_update = true;
        BufferHandle { index, buffer }
    }

    /// Whether something has been placed in the array since it was made; the
    /// array is then not to be handed to a kernel as it stands.
    pub fn needs_update(&self) -> (r: bool)
        ensures
            r == self.needs_update,
    {
        self.needs_update
    }
}

} // verus!
