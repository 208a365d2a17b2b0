//! Square heightmaps generated with the diamond-square midpoint-displacement
//! algorithm, on a grid with toroidal addressing.

pub mod pixel_map;
pub mod diamond_square;
pub mod lattice;
