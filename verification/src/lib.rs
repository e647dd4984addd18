//! A software 3D rasterizer's geometry core, verified: exact
//! homogeneous-plane clipping of triangles, the four-edge viewport clip
//! pass, painter's-algorithm depth ordering, flat-shading palette lookup,
//! and the integer scan-conversion rasterizer (pixel, line, triangle
//! fill), each with a contract that pins its result down exactly.

use vstd::prelude::*;

pub mod clip;
pub mod depth;
pub mod geometry;
pub mod mesh;
pub mod raster;
pub mod shade;
pub mod viewport;

verus! {

/// A degenerate geometric input: a clipping plane whose normal is the zero
/// vector carries no orientation, so the triangle being clipped is dropped.
#[derive(Clone, Copy, Debug, PartialEq, Eq, Structural)]
pub enum GeomError {
    DegenerateGeometry,
}

} // verus!
