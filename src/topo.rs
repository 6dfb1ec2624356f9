use vstd::prelude::*;

use crate::direction::Direction;
use crate::error::TopoError;
use crate::geometry::{CurveGeometry, PointGeometry, Reflect, SurfaceGeometry};
use crate::loops::{find_loops, is_found_loop, loop_elements, loops_by_search};

verus! {

pub type VertexIndex = usize;

pub type EdgeIndex = usize;

pub type FaceIndex = usize;

pub type SolidIndex = usize;

pub type CurveIndex = usize;

pub type SurfaceIndex = usize;

pub type TopoResult<T> = Result<T, TopoError>;

/// The indices of the start and end vertices of a bounded edge.
#[derive(Debug, Clone, Copy, PartialEq, Eq, Structural)]
pub struct EdgeEndpoints {
    pub start: VertexIndex,
    pub end: VertexIndex,
}

impl EdgeEndpoints {
    /// The vertex at which the edge starts when travelled in `direction`.
    pub open spec fn start_in(self, direction: Direction) -> VertexIndex {
        match direction {
            Direction::Forward => self.start,
            Direction::Reverse => self.end,
        }
    }

    /// The vertex at which the edge ends when travelled in `direction`.
    pub open spec fn end_in(self, direction: Direction) -> VertexIndex {
        match direction {
            Direction::Forward => self.end,
            Direction::Reverse => self.start,
        }
    }

    /// Endpoints running from `start` to `end`, swapped when `direction` is `Reverse`.
    pub open spec fn oriented(start: VertexIndex, end: VertexIndex, direction: Direction) -> Self {
        match direction {
            Direction::Forward => EdgeEndpoints { start, end },
            Direction::Reverse => EdgeEndpoints { start: end, end: start },
        }
    }

    pub fn new_with_direction(start: VertexIndex, end: VertexIndex, direction: Direction) -> (r:
        Self)
        ensures
            r == Self::oriented(start, end, direction),
            r.start_in(direction) == start,
            r.end_in(direction) == end,
    {
        match direction {
            Direction::Forward => EdgeEndpoints { start, end },
            Direction::Reverse => EdgeEndpoints { start: end, end: start },
        }
    }

    pub fn start_with_direction(&self, direction: Direction) -> (r: VertexIndex)
        ensures
            r == self.start_in(direction),
    {
        match direction {
            Direction::Forward => self.start,
            Direction::Reverse => self.end,
        }
    }

    pub fn end_with_direction(&self, direction: Direction) -> (r: VertexIndex)
        ensures
            r == self.end_in(direction),
    {
        match direction {
            Direction::Forward => self.end,
            Direction::Reverse => self.start,
        }
    }
}

/// A section of a curve. Without bounds the curve must be closed and the
/// edge uses all of it; with `start == end` the edge is closed through one
/// vertex.
#[derive(Debug, Clone, Copy, PartialEq, Eq, Structural)]
pub struct Edge {
    pub curve: CurveIndex,
    pub bounds: Option<EdgeEndpoints>,
}

impl Edge {
    /// The edge refers only to vertices and curves that exist.
    pub open spec fn valid(self, n_vertices: nat, n_curves: nat) -> bool {
        &&& self.curve < n_curves
        &&& match self.bounds {
            Some(b) => b.start < n_vertices && b.end < n_vertices,
            None => true,
        }
    }
}

impl Edge {
    /// The edge with its curve and vertices renumbered through the tables,
    /// its endpoints swapped when its curve was matched in reverse.
    pub open spec fn remapped(self, vertex_remap: Seq<VertexIndex>, curve_remap: Seq<(CurveIndex, Direction)>) -> Edge {
        let (curve, direction) = curve_remap[self.curve as int];
        Edge {
            curve,
            bounds: match self.bounds {
                Some(b) => Some(
                    EdgeEndpoints::oriented(vertex_remap[b.start as int], vertex_remap[b.end as int], direction),
                ),
                None => None,
            },
        }
    }

    /// Renumbers the edge through the tables; see [`Edge::remapped`].
    /// Returns the new edge and the sense in which its curve was matched.
    pub fn remap(&self, vertex_remap: &[VertexIndex], curve_remap: &[(CurveIndex, Direction)]) -> (r: (
        Edge,
        Direction,
    ))
        requires
            self.valid(vertex_remap@.len(), curve_remap@.len()),
        ensures
            r.0 == self.remapped(vertex_remap@, curve_remap@),
            r.1 == curve_remap@[self.curve as int].1,
    {
        let (curve, direction) = curve_remap[self.curve];
        let bounds = match &self.bounds {
            Some(endpoints) => Some(
                EdgeEndpoints::new_with_direction(
                    vertex_remap[endpoints.start],
                    vertex_remap[endpoints.end],
                    direction,
                ),
            ),
            None => None,
        };
        (Edge { curve, bounds }, direction)
    }
}

/// An edge together with the sense in which a loop travels it.
#[derive(Debug, Clone, Copy, PartialEq, Eq, Structural)]
pub struct DirectedEdge {
    pub edge: EdgeIndex,
    pub direction: Direction,
}

/// A closed chain of directed edges bounding a face, listed in order and
/// with a consistent winding.
#[derive(Debug, Clone)]
pub struct Loop {
    pub elements: Vec<DirectedEdge>,
}

/// A section of a surface, bounded by loops. Without bounds the surface
/// must be closed.
#[derive(Debug, Clone)]
pub struct Face {
    pub surface: SurfaceIndex,
    pub bounds: Vec<Loop>,
}

/// A face together with the sense in which a shell uses it.
#[derive(Debug, Clone, Copy, PartialEq, Eq, Structural)]
pub struct DirectedFace {
    pub face: FaceIndex,
    pub direction: Direction,
}

/// A closed set of consistently oriented faces bounding a solid.
#[derive(Debug, Clone)]
pub struct Shell {
    pub elements: Vec<DirectedFace>,
}

/// A region of space bounded by one shell, plus one more per internal void.
#[derive(Debug, Clone)]
pub struct Solid {
    pub bounds: Vec<Shell>,
}

impl Loop {
    /// Every element refers to an edge that exists.
    pub open spec fn valid(self, n_edges: nat) -> bool {
        forall|i: int| 0 <= i < self.elements@.len() ==> #[trigger] self.elements@[i].edge < n_edges
    }
}

impl Face {
    pub open spec fn valid(self, n_surfaces: nat, n_edges: nat) -> bool {
        &&& self.surface < n_surfaces
        &&& forall|i: int| 0 <= i < self.bounds@.len() ==> #[trigger] self.bounds@[i].valid(n_edges)
    }
}

impl Shell {
    pub open spec fn valid(self, n_faces: nat) -> bool {
        forall|i: int| 0 <= i < self.elements@.len() ==> #[trigger] self.elements@[i].face < n_faces
    }
}

impl Solid {
    pub open spec fn valid(self, n_faces: nat) -> bool {
        forall|i: int| 0 <= i < self.bounds@.len() ==> #[trigger] self.bounds@[i].valid(n_faces)
    }
}

/// The outcome that a point's coincidence test reported for a pair.
pub open spec fn points_reported<P: PointGeometry>(a: P, b: P, r: bool) -> bool {
    call_ensures(P::coincident, (&a, &b), r)
}

/// The outcome that a curve's coincidence test reported for a pair.
pub open spec fn curves_reported<P, C: CurveGeometry<P>>(a: C, b: C, r: Option<Direction>) -> bool {
    call_ensures(C::coincident, (&a, &b), r)
}

/// The outcome that a surface's coincidence test reported for a pair.
pub open spec fn surfaces_reported<P, S: SurfaceGeometry<P>>(a: S, b: S, r: Option<Direction>) -> bool {
    call_ensures(S::coincident, (&a, &b), r)
}

/// `after` and `r` are what pushing `p` onto `before` gives: the first
/// stored point reported coincident with `p`, or `p` appended.
pub open spec fn vertex_pushed<P: PointGeometry>(before: Seq<P>, p: P, after: Seq<P>, r: nat) -> bool {
    &&& r <= before.len()
    &&& forall|j: int| 0 <= j < r ==> points_reported(p, #[trigger] before[j], false)
    &&& if r < before.len() {
        points_reported(p, before[r as int], true) && after == before
    } else {
        after == before.push(p)
    }
}

/// `after` and `r` are what pushing `c` onto `before` gives: the first
/// stored curve reported coincident with `c`, with the reported sense, or
/// `c` appended in the forward sense.
pub open spec fn curve_pushed<P, C: CurveGeometry<P>>(
    before: Seq<C>,
    c: C,
    after: Seq<C>,
    r: (usize, Direction),
) -> bool {
    &&& r.0 <= before.len()
    &&& forall|j: int| 0 <= j < r.0 ==> curves_reported(c, #[trigger] before[j], None)
    &&& if r.0 < before.len() {
        curves_reported(c, before[r.0 as int], Some(r.1)) && after == before
    } else {
        r.1 == Direction::Forward && after == before.push(c)
    }
}

/// As [`curve_pushed`], for surfaces.
pub open spec fn surface_pushed<P, S: SurfaceGeometry<P>>(
    before: Seq<S>,
    s: S,
    after: Seq<S>,
    r: (usize, Direction),
) -> bool {
    &&& r.0 <= before.len()
    &&& forall|j: int| 0 <= j < r.0 ==> surfaces_reported(s, #[trigger] before[j], None)
    &&& if r.0 < before.len() {
        surfaces_reported(s, before[r.0 as int], Some(r.1)) && after == before
    } else {
        r.1 == Direction::Forward && after == before.push(s)
    }
}

/// `after` and `r` are what pushing `e` onto `before` gives: the first
/// structurally equal edge, or `e` appended.
pub open spec fn edge_pushed(before: Seq<Edge>, e: Edge, after: Seq<Edge>, r: nat) -> bool {
    &&& r <= before.len()
    &&& forall|j: int| 0 <= j < r ==> #[trigger] before[j] != e
    &&& if r < before.len() {
        before[r as int] == e && after == before
    } else {
        after == before.push(e)
    }
}

/// An arena of geometry and the connectivity between it. Entities are
/// referred to by their index and are never removed.
#[derive(Debug, Clone)]
pub struct Topo<P, C, S> {
    vertices: Vec<P>,
    curves: Vec<C>,
    surfaces: Vec<S>,
    edges: Vec<Edge>,
    faces: Vec<Face>,
    solids: Vec<Solid>,
}

impl<P, C, S> Topo<P, C, S> {
    pub closed spec fn vertex_seq(&self) -> Seq<P> {
        self.vertices@
    }

    pub closed spec fn curve_seq(&self) -> Seq<C> {
        self.curves@
    }

    pub closed spec fn surface_seq(&self) -> Seq<S> {
        self.surfaces@
    }

    pub closed spec fn edge_seq(&self) -> Seq<Edge> {
        self.edges@
    }

    pub closed spec fn face_seq(&self) -> Seq<Face> {
        self.faces@
    }

    pub closed spec fn solid_seq(&self) -> Seq<Solid> {
        self.solids@
    }

    /// Every index stored in the arena refers to an entity that exists.
    pub closed spec fn wf(&self) -> bool {
        &&& forall|i: int|
            0 <= i < self.edges@.len() ==> (#[trigger] self.edges@[i]).valid(
                self.vertices@.len(),
                self.curves@.len(),
            )
        &&& forall|i: int|
            0 <= i < self.faces@.len() ==> (#[trigger] self.faces@[i]).valid(
                self.surfaces@.len(),
                self.edges@.len(),
            )
        &&& forall|i: int|
            0 <= i < self.solids@.len() ==> (#[trigger] self.solids@[i]).valid(self.faces@.len())
    }

    /// In a well-formed arena every edge refers to vertices and curves that exist.
    pub proof fn lemma_edges_valid(&self)
        requires
            self.wf(),
        ensures
            forall|i: int|
                0 <= i < self.edge_seq().len() ==> (#[trigger] self.edge_seq()[i]).valid(
                    self.vertex_seq().len(),
                    self.curve_seq().len(),
                ),
    {
    }

    pub fn vertices(&self) -> (r: &[P])
        ensures
            r@ == self.vertex_seq(),
    {
        self.vertices.as_slice()
    }

    pub fn curves(&self) -> (r: &[C])
        ensures
            r@ == self.curve_seq(),
    {
        self.curves.as_slice()
    }

    pub fn surfaces(&self) -> (r: &[S])
        ensures
            r@ == self.surface_seq(),
    {
        self.surfaces.as_slice()
    }

    pub fn edges(&self) -> (r: &[Edge])
        ensures
            r@ == self.edge_seq(),
    {
        self.edges.as_slice()
    }

    pub fn faces(&self) -> (r: &[Face])
        ensures
            r@ == self.face_seq(),
    {
        self.faces.as_slice()
    }

    pub fn solids(&self) -> (r: &[Solid])
        ensures
            r@ == self.solid_seq(),
    {
        self.solids.as_slice()
    }

    /// The topology that holds nothing.
    pub fn empty() -> (r: Self)
        ensures
            r.wf(),
            r.vertex_seq().len() == 0,
            r.curve_seq().len() == 0,
            r.surface_seq().len() == 0,
            r.edge_seq().len() == 0,
            r.face_seq().len() == 0,
            r.solid_seq().len() == 0,
    {
        Topo {
            vertices: Vec::new(),
            curves: Vec::new(),
            surfaces: Vec::new(),
            edges: Vec::new(),
            faces: Vec::new(),
            solids: Vec::new(),
        }
    }
}


impl<P: PointGeometry, C, S> Topo<P, C, S> {
    /// Stores `vertex` unless a stored vertex is coincident with it, and
    /// returns the index of the vertex that stands for it.
    pub fn push_vertex(&mut self, vertex: P) -> (r: VertexIndex)
        requires
            old(self).wf(),
        ensures
            final(self).wf(),
            vertex_pushed(old(self).vertex_seq(), vertex, final(self).vertex_seq(), r as nat),
            final(self).curve_seq() == old(self).curve_seq(),
            final(self).surface_seq() == old(self).surface_seq(),
            final(self).edge_seq() == old(self).edge_seq(),
            final(self).face_seq() == old(self).face_seq(),
            final(self).solid_seq() == old(self).solid_seq(),
    {
        let n = self.vertices.len();
        let mut i: usize = 0;
        while i < n
            invariant
                *self == *old(self),
                old(self).wf(),
                n == self.vertices@.len(),
                i <= n,
                forall|j: int| 0 <= j < i ==> points_reported(vertex, #[trigger] self.vertices@[j], false),
            decreases n - i,
        {
            if P::coincident(&vertex, &self.vertices[i]) {
                return i;
            }
            i = i + 1;
        }
        self.vertices.push(vertex);
        n
    }

    /// The topology that holds just one vertex.
    pub fn vertex(vertex: P) -> (r: Self)
        ensures
            r.wf(),
            r.vertex_seq() == seq![vertex],
            r.curve_seq().len() == 0,
            r.surface_seq().len() == 0,
            r.edge_seq().len() == 0,
            r.face_seq().len() == 0,
            r.solid_seq().len() == 0,
    {
        Topo {
            vertices: vec![vertex],
            curves: Vec::new(),
            surfaces: Vec::new(),
            edges: Vec::new(),
            faces: Vec::new(),
            solids: Vec::new(),
        }
    }
}

impl<P, C: CurveGeometry<P>, S> Topo<P, C, S> {
    /// Stores `curve` unless a stored curve is coincident with it. Returns
    /// the index of the curve that stands for it and whether that curve runs
    /// in the same sense.
    pub fn push_curve(&mut self, curve: C) -> (r: (CurveIndex, Direction))
        requires
            old(self).wf(),
        ensures
            final(self).wf(),
            curve_pushed(old(self).curve_seq(), curve, final(self).curve_seq(), r),
            final(self).vertex_seq() == old(self).vertex_seq(),
            final(self).surface_seq() == old(self).surface_seq(),
            final(self).edge_seq() == old(self).edge_seq(),
            final(self).face_seq() == old(self).face_seq(),
            final(self).solid_seq() == old(self).solid_seq(),
    {
        let n = self.curves.len();
        let mut i: usize = 0;
        while i < n
            invariant
                *self == *old(self),
                old(self).wf(),
                n == self.curves@.len(),
                i <= n,
                forall|j: int| 0 <= j < i ==> curves_reported(curve, #[trigger] self.curves@[j], None),
            decreases n - i,
        {
            match C::coincident(&curve, &self.curves[i]) {
                Some(direction) => {
                    return (i, direction);
                },
                None => {},
            }
            i = i + 1;
        }
        self.curves.push(curve);
        (n, Direction::Forward)
    }
}

impl<P, C, S: SurfaceGeometry<P>> Topo<P, C, S> {
    /// Stores `surface` unless a stored surface is coincident with it.
    /// Returns the index of the surface that stands for it and whether that
    /// surface has the same sense.
    pub fn push_surface(&mut self, surface: S) -> (r: (SurfaceIndex, Direction))
        requires
            old(self).wf(),
        ensures
            final(self).wf(),
            surface_pushed(old(self).surface_seq(), surface, final(self).surface_seq(), r),
            final(self).vertex_seq() == old(self).vertex_seq(),
            final(self).curve_seq() == old(self).curve_seq(),
            final(self).edge_seq() == old(self).edge_seq(),
            final(self).face_seq() == old(self).face_seq(),
            final(self).solid_seq() == old(self).solid_seq(),
    {
        let n = self.surfaces.len();
        let mut i: usize = 0;
        while i < n
            invariant
                *self == *old(self),
                old(self).wf(),
                n == self.surfaces@.len(),
                i <= n,
                forall|j: int|
                    0 <= j < i ==> surfaces_reported(surface, #[trigger] self.surfaces@[j], None),
            decreases n - i,
        {
            match S::coincident(&surface, &self.surfaces[i]) {
                Some(direction) => {
                    return (i, direction);
                },
                None => {},
            }
            i = i + 1;
        }
        self.surfaces.push(surface);
        proof {
            assert forall|k: int| 0 <= k < self.faces@.len() implies (#[trigger] self.faces@[k]).valid(
                self.surfaces@.len(),
                self.edges@.len(),
            ) by {
                assert(old(self).faces@[k].valid(old(self).surfaces@.len(), old(self).edges@.len()));
            }
        }
        (n, Direction::Forward)
    }
}

impl<P, C, S> Topo<P, C, S> {
    /// Stores `edge` unless a structurally equal edge is stored, and returns
    /// the index of the edge that stands for it.
    pub fn push_edge(&mut self, edge: Edge) -> (r: EdgeIndex)
        requires
            old(self).wf(),
            edge.valid(old(self).vertex_seq().len(), old(self).curve_seq().len()),
        ensures
            final(self).wf(),
            edge_pushed(old(self).edge_seq(), edge, final(self).edge_seq(), r as nat),
            final(self).vertex_seq() == old(self).vertex_seq(),
            final(self).curve_seq() == old(self).curve_seq(),
            final(self).surface_seq() == old(self).surface_seq(),
            final(self).face_seq() == old(self).face_seq(),
            final(self).solid_seq() == old(self).solid_seq(),
    {
        let n = self.edges.len();
        let mut i: usize = 0;
        while i < n
            invariant
                *self == *old(self),
                old(self).wf(),
                n == self.edges@.len(),
                i <= n,
                forall|j: int| 0 <= j < i ==> #[trigger] self.edges@[j] != edge,
            decreases n - i,
        {
            if self.edges[i] == edge {
                return i;
            }
            i = i + 1;
        }
        self.edges.push(edge);
        proof {
            assert forall|k: int| 0 <= k < self.faces@.len() implies (#[trigger] self.faces@[k]).valid(
                self.surfaces@.len(),
                self.edges@.len(),
            ) by {
                let f = self.faces@[k];
                assert(old(self).faces@[k].valid(old(self).surfaces@.len(), old(self).edges@.len()));
                assert forall|l: int| 0 <= l < f.bounds@.len() implies (#[trigger] f.bounds@[l]).valid(
                    self.edges@.len(),
                ) by {
                    assert(f.bounds@[l].valid(old(self).edges@.len()));
                }
            }
        }
        n
    }

    /// Appends `face` and returns its index.
    pub fn push_face(&mut self, face: Face) -> (r: FaceIndex)
        requires
            old(self).wf(),
            face.valid(old(self).surface_seq().len(), old(self).edge_seq().len()),
        ensures
            final(self).wf(),
            r == old(self).face_seq().len(),
            final(self).face_seq() == old(self).face_seq().push(face),
            final(self).vertex_seq() == old(self).vertex_seq(),
            final(self).curve_seq() == old(self).curve_seq(),
            final(self).surface_seq() == old(self).surface_seq(),
            final(self).edge_seq() == old(self).edge_seq(),
            final(self).solid_seq() == old(self).solid_seq(),
    {
        let n = self.faces.len();
        self.faces.push(face);
        proof {
            assert forall|k: int| 0 <= k < self.solids@.len() implies (#[trigger] self.solids@[k]).valid(
                self.faces@.len(),
            ) by {
                let so = self.solids@[k];
                assert(old(self).solids@[k].valid(old(self).faces@.len()));
                assert forall|l: int| 0 <= l < so.bounds@.len() implies (#[trigger] so.bounds@[l]).valid(
                    self.faces@.len(),
                ) by {
                    assert(so.bounds@[l].valid(old(self).faces@.len()));
                }
            }
        }
        n
    }
}


/// `t` holds exactly one edge, on `curve`, bounded by the vertices that
/// pushing the two points of `bounds` gives, if there are any.
pub open spec fn holds_single_edge<P: PointGeometry, C, S>(
    t: Topo<P, C, S>,
    curve: C,
    bounds: Option<(P, P)>,
) -> bool {
    &&& t.wf()
    &&& t.curve_seq() == seq![curve]
    &&& t.surface_seq().len() == 0
    &&& t.face_seq().len() == 0
    &&& t.solid_seq().len() == 0
    &&& t.edge_seq().len() == 1
    &&& t.edge_seq()[0].curve == 0
    &&& match bounds {
        None => t.vertex_seq().len() == 0 && t.edge_seq()[0].bounds.is_none(),
        Some((start, end)) => match t.edge_seq()[0].bounds {
            Some(b) => b.start == 0 && vertex_pushed(seq![start], end, t.vertex_seq(), b.end as nat),
            None => false,
        },
    }
}

impl<P: PointGeometry, C: CurveGeometry<P>, S> Topo<P, C, S> {
    /// The topology of one edge on `curve`, with its endpoint vertices if
    /// it is bounded.
    pub fn edge(curve: C, bounds: Option<(P, P)>) -> (r: TopoResult<Self>)
        ensures
            r is Ok,
            r matches Ok(t) && holds_single_edge(t, curve, bounds),
    {
        let mut topo = Topo::empty();
        let (curve_index, direction) = topo.push_curve(curve);
        assert(topo.curve_seq() =~= seq![curve]);
        let bounds = match bounds {
            Some((start_pt, end_pt)) => {
                let start = topo.push_vertex(start_pt);
                assert(topo.vertex_seq() =~= seq![start_pt]);
                let end = topo.push_vertex(end_pt);
                Some(EdgeEndpoints::new_with_direction(start, end, direction))
            },
            None => None,
        };
        topo.push_edge(Edge { curve: curve_index, bounds });
        Ok(topo)
    }

    /// The topology of the line segment from `start` to `end`.
    pub fn line_segment_from_two_points(start: P, end: P) -> (r: TopoResult<Self>)
        ensures
            match r {
                Ok(t) => exists|c: C|
                    call_ensures(C::line_from_two_points, (&start, &end), Ok(c))
                        && #[trigger] holds_single_edge(t, c, Some((start, end))),
                Err(e) => call_ensures(C::line_from_two_points, (&start, &end), Err(e)),
            },
    {
        match C::line_from_two_points(&start, &end) {
            Ok(curve) => Self::edge(curve, Some((start, end))),
            Err(e) => Err(e),
        }
    }

    /// The topology of the circular arc from `start` through `middle` to `end`.
    pub fn circular_arc_from_three_points(start: P, middle: P, end: P) -> (r: TopoResult<Self>)
        ensures
            match r {
                Ok(t) => exists|c: C|
                    call_ensures(C::circle_from_three_points, (&start, &middle, &end), Ok(c))
                        && #[trigger] holds_single_edge(t, c, Some((start, end))),
                Err(e) => call_ensures(
                    C::circle_from_three_points,
                    (&start, &middle, &end),
                    Err(e),
                ),
            },
    {
        match C::circle_from_three_points(&start, &middle, &end) {
            Ok(curve) => Self::edge(curve, Some((start, end))),
            Err(e) => Err(e),
        }
    }
}

impl<P, C, S> Topo<P, C, S> {
    /// Finds the closed loops that the edges of the arena form; see
    /// [`find_loops`].
    pub fn possible_loops(&self) -> (r: Vec<Loop>)
        requires
            2 * self.edge_seq().len() <= usize::MAX,
        ensures
            loop_elements(r@) == loops_by_search(self.edge_seq()),
            forall|i: int| 0 <= i < r@.len() ==> is_found_loop(self.edge_seq(), #[trigger] r@[i]),
    {
        find_loops(self.edges.as_slice())
    }
}

/// The arena with every vertex and curve replaced by its mirror image in
/// `mirror`. Connectivity is unchanged. Surfaces have no mirror operation
/// yet, so an arena that holds any is refused with `NotSupported` rather
/// than returned with stale surfaces.
pub fn reflect<P: Reflect<M>, C: Reflect<M>, S, M>(topo: Topo<P, C, S>, mirror: &M) -> (r: TopoResult<
    Topo<P, C, S>,
>)
    requires
        topo.wf(),
    ensures
        r is Err <==> topo.surface_seq().len() > 0,
        r is Err ==> r == Err::<Topo<P, C, S>, TopoError>(TopoError::NotSupported),
        r matches Ok(t) ==> {
            &&& t.wf()
            &&& t.vertex_seq().len() == topo.vertex_seq().len()
            &&& forall|i: int|
                0 <= i < t.vertex_seq().len() ==> call_ensures(
                    P::reflect,
                    (&topo.vertex_seq()[i], mirror),
                    #[trigger] t.vertex_seq()[i],
                )
            &&& t.curve_seq().len() == topo.curve_seq().len()
            &&& forall|i: int|
                0 <= i < t.curve_seq().len() ==> call_ensures(
                    C::reflect,
                    (&topo.curve_seq()[i], mirror),
                    #[trigger] t.curve_seq()[i],
                )
            &&& t.surface_seq().len() == 0
            &&& t.edge_seq() == topo.edge_seq()
            &&& t.face_seq() == topo.face_seq()
            &&& t.solid_seq() == topo.solid_seq()
        },
{
    if topo.surfaces.len() > 0 {
        return Err(TopoError::NotSupported);
    }
    let Topo { vertices, curves, surfaces, edges, faces, solids } = topo;
    let mut new_vertices: Vec<P> = Vec::new();
    let mut i: usize = 0;
    while i < vertices.len()
        invariant
            i <= vertices@.len(),
            new_vertices@.len() == i,
            forall|j: int|
                0 <= j < i ==> call_ensures(
                    P::reflect,
                    (&vertices@[j], mirror),
                    #[trigger] new_vertices@[j],
                ),
        decreases vertices@.len() - i,
    {
        new_vertices.push(vertices[i].reflect(mirror));
        i = i + 1;
    }
    let mut new_curves: Vec<C> = Vec::new();
    i = 0;
    while i < curves.len()
        invariant
            i <= curves@.len(),
            new_curves@.len() == i,
            forall|j: int|
                0 <= j < i ==> call_ensures(C::reflect, (&curves@[j], mirror), #[trigger] new_curves@[j]),
        decreases curves@.len() - i,
    {
        new_curves.push(curves[i].reflect(mirror));
        i = i + 1;
    }
    Ok(Topo { vertices: new_vertices, curves: new_curves, surfaces, edges, faces, solids })
}

} // verus!
