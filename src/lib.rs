//! Verified index and front bookkeeping for a parametric-geometry meshing kernel:
//! stitching sample grids into triangles, ear clipping and hole bridging over
//! polygon contours, the advancing-front mesher, and the combinatorial parts of
//! Bezier curves and knot vectors. Geometric predicates and point arithmetic are
//! supplied by the caller as closures, so the same code serves any point type.

pub mod curve;
pub mod knot;
pub mod mesh;
pub mod meshgen;
pub mod polygon;
