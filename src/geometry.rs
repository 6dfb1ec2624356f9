use vstd::prelude::*;

use crate::direction::Direction;
use crate::error::TopoError;

verus! {

/// Points stored as the vertices of a topology.
pub trait PointGeometry: Sized {
    /// Whether two points are the same within the coincidence tolerance.
    fn coincident(&self, other: &Self) -> bool;
}

/// Curves stored as the reference geometry of edges.
pub trait CurveGeometry<P>: Sized {
    /// Whether two curves occupy the same space, and if so whether their
    /// travel directions agree.
    fn coincident(&self, other: &Self) -> Option<Direction>;

    /// The straight line through two distinct points, parameterised from
    /// the first towards the second.
    fn line_from_two_points(p0: &P, p1: &P) -> Result<Self, TopoError>;

    /// The circle through three points, oriented to pass from the first
    /// through the second to the third.
    fn circle_from_three_points(p0: &P, p1: &P, p2: &P) -> Result<Self, TopoError>;

    /// Points whose convex hull contains the part of the curve between the
    /// given bounds, or the whole curve when there are none.
    fn hull(&self, bounds: Option<(&P, &P)>) -> Vec<P>;
}

/// Surfaces stored as the reference geometry of faces.
pub trait SurfaceGeometry<P>: Sized {
    /// Whether two surfaces occupy the same space, and if so whether their
    /// senses agree.
    fn coincident(&self, other: &Self) -> Option<Direction>;

    /// The plane through three points, or `None` when they do not span one.
    fn plane_from_three_points(p0: &P, p1: &P, p2: &P) -> Option<Self>;

    /// Whether a point lies on the surface within the coincidence tolerance.
    fn contains(&self, p: &P) -> bool;
}

/// Geometry that can be mirrored in an entity of type `M`.
pub trait Reflect<M>: Sized {
    fn reflect(&self, mirror: &M) -> Self;
}

} // verus!
