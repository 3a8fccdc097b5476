//! Hexagonal grid geometry on integer axial coordinates.
//!
//! The crate holds the exact, integer part of a hexagonal grid toolkit:
//! directions and their rotations, the coordinate algebra, rings, spirals
//! and lines, bounded regions with wrapping, path and visibility searches,
//! and the index bookkeeping of hexagonal meshes. Every function carries a
//! contract that is machine checked, and the laws that connect the
//! functions are stated and proved beside them.
pub mod direction;
pub mod hex;
pub mod ring;
pub mod round;
pub mod line;
pub mod bounds;
pub mod algorithms;
pub mod mesh;
