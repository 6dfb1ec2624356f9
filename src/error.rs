use vstd::prelude::*;

verus! {

/// Conditions under which a coordinate cannot become a vertex.
#[derive(Debug, Clone, Copy, PartialEq, Eq, Structural)]
pub enum Error {
    NotANumber,
    OutOfBounds,
    VerticesTooClose,
}

impl Error {
    /// A short human-readable description of the condition.
    pub fn message(&self) -> (r: &'static str)
        ensures
            *self == Error::NotANumber ==> r@ == "Not a number"@,
            *self == Error::OutOfBounds ==> r@ == "Out of bounds"@,
            *self == Error::VerticesTooClose ==> r@ == "Vertices too close"@,
    {
        match self {
            Error::NotANumber => "Not a number",
            Error::OutOfBounds => "Out of bounds",
            Error::VerticesTooClose => "Vertices too close",
        }
    }
}

/// Degenerate-geometry and unsupported-operation conditions reported by
/// the topology builders.
#[derive(Debug, Clone, Copy, PartialEq, Eq, Structural)]
pub enum TopoError {
    /// Two points that must be distinct coincide.
    CoincidentPoints,
    /// Three points that must span a plane or a circle are collinear.
    CollinearPoints,
    /// A loop has no supporting plane.
    DegenerateLoop,
    /// The operation is not implemented for the entities present.
    NotSupported,
}

} // verus!
