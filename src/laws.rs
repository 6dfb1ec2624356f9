use vstd::prelude::*;

use crate::geometry::PointGeometry;
use crate::topo::{points_reported, vertex_pushed};

verus! {

/// Pushing the same point twice stores it at most once and returns the same
/// index both times.
///
/// This holds whenever the coincidence test reports the point coincident
/// with itself and answers each question about the point the same way
/// every time it is asked (a point with a not-a-number coordinate, for
/// instance, is not coincident with itself).
pub proof fn lemma_push_vertex_twice<P: PointGeometry>(
    before: Seq<P>,
    p: P,
    once: Seq<P>,
    first: nat,
    twice: Seq<P>,
    second: nat,
)
    requires
        vertex_pushed(before, p, once, first),
        vertex_pushed(once, p, twice, second),
        forall|r: bool| points_reported(p, p, r) ==> r,
        forall|x: P, r1: bool, r2: bool|
            points_reported(p, x, r1) && points_reported(p, x, r2) ==> r1 == r2,
    ensures
        first == second,
        twice == once,
        once.len() <= before.len() + 1,
{
    if first < before.len() {
        assert(once == before);
        if second > first {
            assert(points_reported(p, once[first as int], false));
        } else if second < first {
            assert(points_reported(p, before[second as int], false));
        }
    } else {
        assert(once == before.push(p));
        if second < before.len() {
            assert(points_reported(p, before[second as int], false));
            assert(once[second as int] == before[second as int]);
        } else if second > before.len() {
            assert(once[before.len() as int] == p);
            assert(points_reported(p, once[before.len() as int], false));
        }
    }
}

} // verus!
