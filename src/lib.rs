//! Integer core of a path-tracing renderer: the permutation tables that hash
//! Perlin lattice points, the layout of a bounding-volume hierarchy built from
//! sort keys of the primitives' boxes, and texel lookup in a decoded bitmap.

pub mod bvh;
pub mod perlin;
pub mod texture;
pub mod utilities;
