//! The hit-testing core of a ray tracer, in exact arithmetic.
//!
//! Points and directions lie on an integer grid and a ray parameter is an exact fraction,
//! so the slab test, box intersection and nearest-hit queries are decided without rounding.
//!
//! - `geom`: grid points and exact ray parameters with their order.
//! - `ray`: rays on the grid.
//! - `aabb`: bounding volumes, their union and the slab test.
//! - `cube`: the box primitive and its nearest face crossing.
//! - `hitrecord`: what a hit reports.
//! - `tree`: tree nodes, median-split construction, pruned and unconditional traversal and
//!   the linear scan.
//! - `bvhnode`, `kdnode`: trees over a whole scene, searched with and without pruning.
//! - `dielectric`: the choice between reflection and refraction at a refractive box face.

pub mod aabb;
pub mod bvhnode;
pub mod cube;
pub mod dielectric;
pub mod geom;
pub mod hitrecord;
pub mod kdnode;
pub mod ray;
pub mod tree;
