//! Index bookkeeping of hexagonal meshes.
//!
//! A mesh is a set of parallel vertex buffers and a list of triangles that
//! index into them. The vertex payloads (positions, normals, texture
//! coordinates) are type parameters: this module never computes with them,
//! it places them and keeps every triangle index pointing at the vertex it
//! was made for.
pub mod utils;
pub mod mesh_info;
pub mod column_builder;
