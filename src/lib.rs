//! Decoding and re-encoding of the meshes and palette-indexed textures held in a
//! console game's binary asset containers.
pub mod cursor;
pub mod ddm;
pub mod grid;
pub mod model;
pub mod texture;
pub mod vec;
