//! The natural pixel storage of the texel types that a texture can hold.
use vstd::prelude::*;

use crate::field::array::{Vec2, Vec4};

verus! {

/// How the pixels of a texture are stored.
#[derive(Debug, Clone, Copy, PartialEq, Eq, Hash, Structural)]
pub enum PixelStorage {
    Byte1,
    Byte2,
    Byte4,
    Short1,
    Short2,
    Short4,
    Int1,
    Int2,
    Int4,
    Half1,
    Half2,
    Half4,
    Float1,
    Float2,
    Float4,
}

/// A texel type with the storage that holds it without loss.
pub trait HasPixelStorage {
    spec fn spec_storage() -> PixelStorage;

    fn storage() -> (r: PixelStorage)
        ensures
            r == Self::spec_storage(),
    ;
}

impl HasPixelStorage for u32 {
    open spec fn spec_storage() -> PixelStorage {
        PixelStorage::Int1
    }

    fn storage() -> (r: PixelStorage) {
        PixelStorage::Int1
    }
}

impl HasPixelStorage for Vec2<u32> {
    open spec fn spec_storage() -> PixelStorage {
        PixelStorage::Int2
    }

    fn storage() -> (r: PixelStorage) {
        PixelStorage::Int2
    }
}

impl HasPixelStorage for Vec4<u32> {
    open spec fn spec_storage() -> PixelStorage {
        PixelStorage::Int4
    }

    fn storage() -> (r: PixelStorage) {
        PixelStorage::Int4
    }
}

impl HasPixelStorage for i32 {
    open spec fn spec_storage() -> PixelStorage {
        PixelStorage::Int1
    }

    fn storage() -> (r: PixelStorage) {
        PixelStorage::Int1
    }
}

impl HasPixelStorage for Vec2<i32> {
    open spec fn spec_storage() -> PixelStorage {
        PixelStorage::Int2
    }

    fn storage() -> (r: PixelStorage) {
        PixelStorage::Int2
    }
}

impl HasPixelStorage for Vec4<i32> {
    open spec fn spec_storage() -> PixelStorage {
        PixelStorage::Int4
    }

    fn storage() -> (r: PixelStorage) {
        PixelStorage::Int4
    }
}

} // verus!
