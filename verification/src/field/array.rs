//! Array indices: fields that place the elements of an emanation in a one- or
//! two-dimensional array, the sizes that kernels over them are dispatched
//! with, and the Morton order of a square power-of-two array.
use vstd::prelude::*;

use super::access::ExprAccess;
use super::{Field, FieldId, FieldRegistry};
use crate::emanation::Emanation;

verus! {

/// A vector of two components.
#[derive(Debug, Clone, Copy, PartialEq, Eq, Hash, Structural)]
pub struct Vec2<T> {
    pub x: T,
    pub y: T,
}

/// A vector of three components.
#[derive(Debug, Clone, Copy, PartialEq, Eq, Hash, Structural)]
pub struct Vec3<T> {
    pub x: T,
    pub y: T,
    pub z: T,
}

/// A vector of four components.
#[derive(Debug, Clone, Copy, PartialEq, Eq, Hash, Structural)]
pub struct Vec4<T> {
    pub x: T,
    pub y: T,
    pub z: T,
    pub w: T,
}

/// A field read as an expression of `V`, over elements of `T`.
pub type EField<V, T> = Field<ExprAccess<V>, T>;

/// An index that places each element of `T` in a one-dimensional array.
pub trait Linear<T> {
    spec fn spec_field(&self) -> EField<u32, T>;

    spec fn spec_size(&self) -> u32;

    /// The field that holds each element's place.
    fn field(&self) -> (r: EField<u32, T>)
        ensures
            r == self.spec_field(),
    ;

    /// The length of the array.
    fn size(&self) -> (r: u32)
        ensures
            r == self.spec_size(),
    ;

    /// The index with nothing but its field and size.
    fn reduce(&self) -> (r: ReducedIndex<T>)
        ensures
            r.field == self.spec_field(),
            r.size == self.spec_size(),
    {
        ReducedIndex { field: self.field(), size: self.size() }
    }
}

/// An index that places each element of `T` in a two-dimensional array.
pub trait Planar<T> {
    spec fn spec_field(&self) -> EField<Vec2<u32>, T>;

    spec fn spec_size(&self) -> Vec2<u32>;

    /// The field that holds each element's place.
    fn field(&self) -> (r: EField<Vec2<u32>, T>)
        ensures
            r == self.spec_field(),
    ;

    /// The width and height of the array.
    fn size(&self) -> (r: Vec2<u32>)
        ensures
            r == self.spec_size(),
    ;

    /// The index with nothing but its field and size.
    fn reduce(&self) -> (r: ReducedIndex2d<T>)
        ensures
            r.field == self.spec_field(),
            r.size == self.spec_size(),
    {
        ReducedIndex2d { field: self.field(), size: self.size() }
    }
}

/// An index over which a kernel is dispatched once per place of the array.
pub trait SpatialIndex<T> {
    spec fn spec_dispatch_size(&self) -> (u32, u32, u32);

    /// The dispatch size of a kernel over the whole array.
    fn dispatch_size(&self) -> (r: [u32; 3])
        ensures
            (r[0], r[1], r[2]) == self.spec_dispatch_size(),
    ;
}

/// A one-dimensional index reduced to its field and size.
pub struct ReducedIndex<T> {
    pub field: EField<u32, T>,
    pub size: u32,
}

impl<T> ReducedIndex<T> {
    /// The length of the array.
    pub fn size(&self) -> (r: u32)
        ensures
            r == self.size,
    {
        self.size
    }
}

impl<T> Linear<T> for ReducedIndex<T> {
    open spec fn spec_field(&self) -> EField<u32, T> {
        self.field
    }

    open spec fn spec_size(&self) -> u32 {
        self.size
    }

    fn field(&self) -> (r: EField<u32, T>) {
        self.field
    }

    fn size(&self) -> (r: u32) {
        self.size
    }
}

/// A two-dimensional index reduced to its field and size.
pub struct ReducedIndex2d<T> {
    pub field: EField<Vec2<u32>, T>,
    pub size: Vec2<u32>,
}

impl<T> ReducedIndex2d<T> {
    /// The width and height of the array.
    pub fn size(&self) -> (r: Vec2<u32>)
        ensures
            r == self.size,
    {
        self.size
    }
}

impl<T> Planar<T> for ReducedIndex2d<T> {
    open spec fn spec_field(&self) -> EField<Vec2<u32>, T> {
        self.field
    }

    open spec fn spec_size(&self) -> Vec2<u32> {
        self.size
    }

    fn field(&self) -> (r: EField<Vec2<u32>, T>) {
        self.field
    }

    fn size(&self) -> (r: Vec2<u32>) {
        self.size
    }
}

/// A field that maps the elements of `T` to a one-dimensional array of
/// `size` places; kernels over it run once per place.
pub struct ArrayIndex<T> {
    pub field: EField<u32, T>,
    pub size: u32,
}

impl<T> Linear<T> for ArrayIndex<T> {
    open spec fn spec_field(&self) -> EField<u32, T> {
        self.field
    }

    open spec fn spec_size(&self) -> u32 {
        self.size
    }

    fn field(&self) -> (r: EField<u32, T>) {
        self.field
    }

    fn size(&self) -> (r: u32) {
        self.size
    }
}

impl<T> SpatialIndex<T> for ArrayIndex<T> {
    open spec fn spec_dispatch_size(&self) -> (u32, u32, u32) {
        (self.size, 1, 1)
    }

    fn dispatch_size(&self) -> (r: [u32; 3]) {
        [self.size, 1, 1]
    }
}

/// A field that maps the elements of `T` to a two-dimensional array of
/// `size.x` by `size.y` places; kernels over it run once per place.
pub struct ArrayIndex2d<T> {
    pub field: EField<Vec2<u32>, T>,
    pub size: Vec2<u32>,
}

impl<T> Planar<T> for ArrayIndex2d<T> {
    open spec fn spec_field(&self) -> EField<Vec2<u32>, T> {
        self.field
    }

    open spec fn spec_size(&self) -> Vec2<u32> {
        self.size
    }

    fn field(&self) -> (r: EField<Vec2<u32>, T>) {
        self.field
    }

    fn size(&self) -> (r: Vec2<u32>) {
        self.size
    }
}

impl<T> SpatialIndex<T> for ArrayIndex2d<T> {
    open spec fn spec_dispatch_size(&self) -> (u32, u32, u32) {
        (self.size.x, self.size.y, 1)
    }

    fn dispatch_size(&self) -> (r: [u32; 3]) {
        [self.size.x, self.size.y, 1]
    }
}

/// `x` is a power of two.
pub open spec fn is_power_of_two(x: u32) -> bool {
    x != 0 && x & ((x - 1) as u32) == 0
}

/// `r` interleaves the low sixteen bits of `x` and `y`: bit `2i` of `r` is bit
/// `i` of `x`, and bit `2i + 1` of `r` is bit `i` of `y`.
pub open spec fn is_morton_code(x: u32, y: u32, r: u32) -> bool {
    forall|i: u32|
        i < 16 ==> {
            &&& (#[trigger] (r >> (2 * i))) & 1 == (x >> i) & 1
            &&& (r >> (2 * i + 1)) & 1 == (y >> i) & 1
        }
}

/// The low sixteen bits of `x`, spread to the even bits.
pub open spec fn spread_bits(x: u32) -> u32 {
    let a = (x | (x << 8u32)) & 0x00ff00ffu32;
    let b = (a | (a << 4u32)) & 0x0f0f0f0fu32;
    let c = (b | (b << 2u32)) & 0x33333333u32;
    (c | (c << 1u32)) & 0x55555555u32
}

/// The even bits from `x`, the odd bits from `y`.
pub open spec fn morton_bits(x: u32, y: u32) -> u32 {
    spread_bits(x) | (spread_bits(y) << 1u32)
}

/// Within a square array of side `2^k`, the Morton code of a place is below
/// the number of places.
pub proof fn law_morton_bound(x: u32, y: u32, k: u32)
    requires
        k <= 16,
        x < (1u32 << k),
        y < (1u32 << k),
    ensures
        (morton_bits(x, y) as u64) < (1u64 << (2 * k)),
{
    assert((morton_bits(x, y) as u64) < (1u64 << (2 * k))) by (bit_vector)
        requires
            k <= 16,
            x < (1u32 << k),
            y < (1u32 << k),
    ;
}

/// Distinct places have distinct Morton codes.
pub proof fn law_morton_injective(x1: u32, y1: u32, x2: u32, y2: u32)
    requires
        x1 < 0x10000,
        y1 < 0x10000,
        x2 < 0x10000,
        y2 < 0x10000,
        morton_bits(x1, y1) == morton_bits(x2, y2),
    ensures
        x1 == x2,
        y1 == y2,
{
    assert(x1 == x2 && y1 == y2) by (bit_vector)
        requires
            x1 < 0x10000,
            y1 < 0x10000,
            x2 < 0x10000,
            y2 < 0x10000,
            morton_bits(x1, y1) == morton_bits(x2, y2),
    ;
}

/// The Morton code of a place `(x, y)` of a square array: the bits of the two
/// coordinates interleaved, `x` in the even bits.
pub fn morton_code(x: u32, y: u32) -> (r: u32)
    requires
        x < 0x10000,
        y < 0x10000,
    ensures
        is_morton_code(x, y, r),
        r == morton_bits(x, y),
{
    let mut a = x;
    a = (a | (a << 8u32)) & 0x00ff00ffu32;
    a = (a | (a << 4u32)) & 0x0f0f0f0fu32;
    a = (a | (a << 2u32)) & 0x33333333u32;
    a = (a | (a << 1u32)) & 0x55555555u32;
    let mut b = y;
    b = (b | (b << 8u32)) & 0x00ff00ffu32;
    b = (b | (b << 4u32)) & 0x0f0f0f0fu32;
    b = (b | (b << 2u32)) & 0x33333333u32;
    b = (b | (b << 1u32)) & 0x55555555u32;
    assert(a == spread_bits(x) && b == spread_bits(y));
    assert(is_morton_code(x, y, spread_bits(x) | (spread_bits(y) << 1u32))) by (bit_vector)
        requires
            x < 0x10000,
            y < 0x10000,
    ;
    a | (b << 1u32)
}

/// The mapping that gives each element of a square array the Morton code of
/// its place, read from the two-dimensional index field `source`.
#[derive(Debug, Clone, Copy, PartialEq, Eq)]
pub struct MortonMapping {
    pub source: FieldId,
}

impl MortonMapping {
    /// The value of the mapping at an element whose place is `place`.
    pub fn value(&self, place: Vec2<u32>) -> (r: u32)
        requires
            place.x < 0x10000,
            place.y < 0x10000,
        ensures
            r == morton_bits(place.x, place.y),
            is_morton_code(place.x, place.y, r),
    {
        morton_code(place.x, place.y)
    }
}

impl<T> ArrayIndex2d<T> {
    /// The mapping of the Morton index of this array: each element's Morton
    /// code, computed from this index's field.
    pub fn morton_mapping(&self) -> (r: MortonMapping)
        ensures
            r.source == self.field.id,
    {
        MortonMapping { source: self.field.id }
    }

    /// A one-dimensional index over the same square power-of-two array, in
    /// Morton order: a new field of the emanation, named after this index's
    /// field with `-morton` appended, bound to `mapping`, the id under which
    /// the caller holds `self.morton_mapping()`, which gives each element the
    /// `morton_code` of its two-dimensional place.
    pub fn morton(&self, emanation: &mut Emanation<T>, registry: &mut FieldRegistry, mapping: u64) -> (r:
        ArrayIndex<T>)
        requires
            old(registry).wf(),
            old(registry).next_field() < u64::MAX,
            old(registry).fields().contains_key(self.field.id.id),
            self.size.x == self.size.y,
            is_power_of_two(self.size.x),
            self.size.x <= 0x10000,
            self.size.x * self.size.y <= u32::MAX,
        ensures
            final(registry).wf(),
            r.size == self.size.x * self.size.y,
            r.field.id.id == old(registry).next_field(),
            !old(registry).fields().contains_key(r.field.id.id),
            final(registry).fields().contains_key(r.field.id.id),
            final(registry).fields()[r.field.id.id].name@ == old(registry).fields()[self.field.id.id].name@
                + "-morton"@,
            final(registry).fields()[r.field.id.id].binding == Some(mapping),
            final(registry).fields().remove(r.field.id.id) == old(registry).fields(),
            final(registry).next_field() == old(registry).next_field() + 1,
            final(emanation).id == old(emanation).id,
            final(emanation).owned() == old(emanation).owned().push(super::FieldHandle(r.field.id)),
            final(emanation).released() == old(emanation).released(),
    {
        let mut name = self.field.name(registry);
        name.append("-morton");
        let field: EField<u32, T> = emanation.create_named_field(registry, name.as_str());
        let ghost created = registry.fields();
        let field = field.bind(registry, mapping);
        proof {
            assert(registry.fields().remove(field.id.id) =~= created.remove(field.id.id));
        }
        ArrayIndex { field, size: self.size.x * self.size.y }
    }
}

impl<T> Emanation<T> {
    /// A new one-dimensional index of the given length, named `index`.
    pub fn create_index(&mut self, registry: &mut FieldRegistry, length: u32) -> (r: ArrayIndex<T>)
        requires
            old(registry).wf(),
            old(registry).next_field() < u64::MAX,
        ensures
            final(registry).wf(),
            r.size == length,
            r.field.id.id == old(registry).next_field(),
            final(registry).fields().contains_key(r.field.id.id),
            final(registry).fields()[r.field.id.id].name@ == "index"@,
            final(registry).fields()[r.field.id.id].binding is None,
            final(registry).fields().remove(r.field.id.id) == old(registry).fields(),
            final(registry).next_field() == old(registry).next_field() + 1,
            final(self).id == old(self).id,
            final(self).owned() == old(self).owned().push(super::FieldHandle(r.field.id)),
            final(self).released() == old(self).released(),
    {
        let field: EField<u32, T> = self.create_named_field(registry, "index");
        ArrayIndex { field, size: length }
    }

    /// A new two-dimensional index of the given size, named `index2d`.
    pub fn create_index2d(&mut self, registry: &mut FieldRegistry, size: Vec2<u32>) -> (r: ArrayIndex2d<T>)
        requires
            old(registry).wf(),
            old(registry).next_field() < u64::MAX,
        ensures
            final(registry).wf(),
            r.size == size,
            r.field.id.id == old(registry).next_field(),
            final(registry).fields().contains_key(r.field.id.id),
            final(registry).fields()[r.field.id.id].name@ == "index2d"@,
            final(registry).fields()[r.field.id.id].binding is None,
            final(registry).fields().remove(r.field.id.id) == old(registry).fields(),
            final(registry).next_field() == old(registry).next_field() + 1,
            final(self).id == old(self).id,
            final(self).owned() == old(self).owned().push(super::FieldHandle(r.field.id)),
            final(self).released() == old(self).released(),
    {
        let field: EField<Vec2<u32>, T> = self.create_named_field(registry, "index2d");
        ArrayIndex2d { field, size }
    }
}

} // verus!
