//! Mappings: what gives a field its values. Device buffers and textures are
//! stood for by their ids and sizes; a mapping over one checks that it fits
//! the domain it is made for.
pub mod bindless;
pub mod buffer;
pub mod index;
pub mod storage;
