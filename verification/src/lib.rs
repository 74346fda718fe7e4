//! Quasi-uniform triangular meshes of an annulus.
//!
//! The mesh is produced in stages: fixed vertices are placed on the two
//! boundary circles, the interior is filled by Poisson-disc sampling over a
//! bucket grid, an outside geometry engine triangulates the points, the
//! faces are turned into per-vertex neighbour lists, and the free vertices
//! are relaxed towards the centroid of their neighbours.
//!
//! Vertex identity is the position in the point vector. Coordinates never
//! enter this crate as numbers: the point type is a parameter, and every
//! geometric question (where a candidate lies, which cell holds it, whether
//! two points are far enough apart) is put to functions that the caller
//! supplies. What is proved here is the bookkeeping around those answers.

pub mod error;
pub mod boundary;
pub mod adjacency;
pub mod triangulation;
pub mod grid;
pub mod sampler;
pub mod blue_noise;
pub mod smoother;
