use vstd::prelude::*;

verus! {

/// The sense in which a curve, edge or face is used.
#[derive(Debug, Clone, Copy, PartialEq, Eq, Structural)]
pub enum Direction {
    Forward,
    Reverse,
}

/// Composition of two senses: equal senses give `Forward`, differing ones `Reverse`.
pub open spec fn compose(a: Direction, b: Direction) -> Direction {
    if a == b {
        Direction::Forward
    } else {
        Direction::Reverse
    }
}

impl core::ops::BitXor for Direction {
    type Output = Direction;

    /// Composes two senses, as when an edge is remapped onto a curve that
    /// was itself matched in the reversed sense.
    fn bitxor(self, rhs: Direction) -> (r: Direction) {
        match (self, rhs) {
            (Direction::Forward, Direction::Forward) => Direction::Forward,
            (Direction::Forward, Direction::Reverse) => Direction::Reverse,
            (Direction::Reverse, Direction::Forward) => Direction::Reverse,
            (Direction::Reverse, Direction::Reverse) => Direction::Forward,
        }
    }
}

impl vstd::std_specs::ops::BitXorSpecImpl for Direction {
    open spec fn obeys_bitxor_spec() -> bool {
        true
    }

    open spec fn bitxor_req(self, rhs: Direction) -> bool {
        true
    }

    open spec fn bitxor_spec(self, rhs: Direction) -> Direction {
        compose(self, rhs)
    }
}

} // verus!
