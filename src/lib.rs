//! A boundary-representation topology kernel.
//!
//! The arena in [`topo`] stores vertices, curves and surfaces together with
//! the edges, faces and solids that connect them by index. The geometry
//! itself is supplied through the traits of [`geometry`], so that the
//! connectivity logic (deduplication, remapping, loop discovery and face
//! synthesis) is independent of the numeric representation of points.
pub mod direction;
pub mod error;
pub mod geometry;
pub mod laws;
pub mod loops;
pub mod ops;
pub mod topo;

pub use direction::Direction;
pub use error::{Error, TopoError};
pub use geometry::{CurveGeometry, PointGeometry, Reflect, SurfaceGeometry};
pub use loops::find_loops;
pub use ops::{add_planar_faces, combine, loop_vertices, planar_face, supporting_plane};
pub use topo::{
    reflect, CurveIndex, DirectedEdge, DirectedFace, Edge, EdgeEndpoints, EdgeIndex, Face,
    FaceIndex, Loop, Shell, Solid, SolidIndex, SurfaceIndex, Topo, TopoResult, VertexIndex,
};
