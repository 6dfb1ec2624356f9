use arcade::{
    add_planar_faces, combine, find_loops, supporting_plane, loop_vertices, planar_face, reflect, CurveGeometry, DirectedEdge,
    Direction, Edge, EdgeEndpoints, Error, Loop, PointGeometry, Reflect, SurfaceGeometry, Topo,
    TopoError,
};

const EPSILON: f64 = 1e-9;

#[derive(Debug, Clone, Copy, PartialEq)]
struct Pt {
    x: f64,
    y: f64,
    z: f64,
}

fn pt(x: f64, y: f64, z: f64) -> Pt {
    Pt { x, y, z }
}

fn sub(a: &Pt, b: &Pt) -> Pt {
    pt(a.x - b.x, a.y - b.y, a.z - b.z)
}

fn cross(a: &Pt, b: &Pt) -> Pt {
    pt(a.y * b.z - a.z * b.y, a.z * b.x - a.x * b.z, a.x * b.y - a.y * b.x)
}

fn dot(a: &Pt, b: &Pt) -> f64 {
    a.x * b.x + a.y * b.y + a.z * b.z
}

fn norm(a: &Pt) -> f64 {
    dot(a, a).sqrt()
}

impl PointGeometry for Pt {
    fn coincident(&self, other: &Pt) -> bool {
        norm(&sub(self, other)) < EPSILON
    }
}

#[derive(Debug, Clone, Copy)]
enum Crv {
    Line { p0: Pt, p1: Pt },
    Arc { p0: Pt, p1: Pt, p2: Pt },
}

impl CurveGeometry<Pt> for Crv {
    fn coincident(&self, _other: &Crv) -> Option<Direction> {
        None
    }

    fn line_from_two_points(p0: &Pt, p1: &Pt) -> Result<Crv, TopoError> {
        if p0.coincident(p1) {
            Err(TopoError::CoincidentPoints)
        } else {
            Ok(Crv::Line { p0: *p0, p1: *p1 })
        }
    }

    fn circle_from_three_points(p0: &Pt, p1: &Pt, p2: &Pt) -> Result<Crv, TopoError> {
        if p0.coincident(p1) || p1.coincident(p2) || p0.coincident(p2) {
            Err(TopoError::CoincidentPoints)
        } else if norm(&cross(&sub(p1, p0), &sub(p2, p0))) < EPSILON {
            Err(TopoError::CollinearPoints)
        } else {
            Ok(Crv::Arc { p0: *p0, p1: *p1, p2: *p2 })
        }
    }

    fn hull(&self, bounds: Option<(&Pt, &Pt)>) -> Vec<Pt> {
        match (self, bounds) {
            (Crv::Line { .. }, Some((a, b))) => vec![*a, *b],
            (Crv::Line { p0, p1 }, None) => vec![*p0, *p1],
            (Crv::Arc { p1, .. }, Some((a, b))) => vec![*a, *p1, *b],
            (Crv::Arc { p0, p1, p2 }, None) => vec![*p0, *p1, *p2],
        }
    }
}

#[derive(Debug, Clone)]
struct Pln {
    normal: Pt,
    offset: f64,
}

impl SurfaceGeometry<Pt> for Pln {
    fn coincident(&self, _other: &Pln) -> Option<Direction> {
        None
    }

    fn plane_from_three_points(p0: &Pt, p1: &Pt, p2: &Pt) -> Option<Pln> {
        let n = cross(&sub(p1, p0), &sub(p2, p0));
        let len = norm(&n);
        if len < EPSILON {
            None
        } else {
            let normal = pt(n.x / len, n.y / len, n.z / len);
            Some(Pln { normal, offset: -dot(&normal, p0) })
        }
    }

    fn contains(&self, p: &Pt) -> bool {
        (dot(&self.normal, p) + self.offset).abs() <= EPSILON
    }
}

impl Reflect<Pln> for Pt {
    fn reflect(&self, mirror: &Pln) -> Pt {
        let d = dot(&mirror.normal, self) + mirror.offset;
        pt(self.x - 2.0 * d * mirror.normal.x, self.y - 2.0 * d * mirror.normal.y, self.z - 2.0 * d * mirror.normal.z)
    }
}

impl Reflect<Pln> for Crv {
    fn reflect(&self, mirror: &Pln) -> Crv {
        match self {
            Crv::Line { p0, p1 } => Crv::Line { p0: p0.reflect(mirror), p1: p1.reflect(mirror) },
            Crv::Arc { p0, p1, p2 } => Crv::Arc {
                p0: p0.reflect(mirror),
                p1: p1.reflect(mirror),
                p2: p2.reflect(mirror),
            },
        }
    }
}

type T = Topo<Pt, Crv, Pln>;

fn segment(a: Pt, b: Pt) -> T {
    T::line_segment_from_two_points(a, b).unwrap()
}

fn mirror_y() -> Pln {
    Pln { normal: pt(0.0, 1.0, 0.0), offset: 0.0 }
}

fn directed(edge: usize, direction: Direction) -> DirectedEdge {
    DirectedEdge { edge, direction }
}

#[test]
fn direction_composition() {
    assert_eq!(Direction::Forward ^ Direction::Forward, Direction::Forward);
    assert_eq!(Direction::Forward ^ Direction::Reverse, Direction::Reverse);
    assert_eq!(Direction::Reverse ^ Direction::Forward, Direction::Reverse);
    assert_eq!(Direction::Reverse ^ Direction::Reverse, Direction::Forward);
}

#[test]
fn endpoints_follow_direction() {
    let f = EdgeEndpoints::new_with_direction(3, 5, Direction::Forward);
    assert_eq!(f, EdgeEndpoints { start: 3, end: 5 });
    let r = EdgeEndpoints::new_with_direction(3, 5, Direction::Reverse);
    assert_eq!(r, EdgeEndpoints { start: 5, end: 3 });
    assert_eq!(r.start_with_direction(Direction::Reverse), 3);
    assert_eq!(r.end_with_direction(Direction::Reverse), 5);
    assert_eq!(r.start_with_direction(Direction::Forward), 5);
    assert_eq!(r.end_with_direction(Direction::Forward), 3);
}

#[test]
fn remap_renumbers_and_swaps_on_reverse() {
    let edge = Edge { curve: 1, bounds: Some(EdgeEndpoints { start: 0, end: 1 }) };
    let (forward, d) = edge.remap(&[7, 9], &[(0, Direction::Reverse), (4, Direction::Forward)]);
    assert_eq!(d, Direction::Forward);
    assert_eq!(forward, Edge { curve: 4, bounds: Some(EdgeEndpoints { start: 7, end: 9 }) });
    let (reversed, d) = edge.remap(&[7, 9], &[(0, Direction::Forward), (2, Direction::Reverse)]);
    assert_eq!(d, Direction::Reverse);
    assert_eq!(reversed, Edge { curve: 2, bounds: Some(EdgeEndpoints { start: 9, end: 7 }) });
    let closed = Edge { curve: 0, bounds: None };
    let (c, _) = closed.remap(&[], &[(3, Direction::Forward)]);
    assert_eq!(c, Edge { curve: 3, bounds: None });
}

#[test]
fn pushing_a_vertex_twice_stores_it_once() {
    let mut t = T::empty();
    let a = t.push_vertex(pt(1.0, 2.0, 3.0));
    let b = t.push_vertex(pt(1.0, 2.0, 3.0));
    assert_eq!(a, 0);
    assert_eq!(a, b);
    assert_eq!(t.vertices().len(), 1);
}

#[test]
fn pushing_nearby_and_distant_vertices() {
    let mut t = T::vertex(pt(0.0, 0.0, 0.0));
    assert_eq!(t.push_vertex(pt(1.0, 0.0, 0.0)), 1);
    assert_eq!(t.push_vertex(pt(1.0e-12, 0.0, 0.0)), 0);
    assert_eq!(t.push_vertex(pt(1.0, 1.0e-12, 0.0)), 1);
    assert_eq!(t.push_vertex(pt(0.0, 0.0, 2.0)), 2);
    assert_eq!(t.vertices().len(), 3);
}

#[test]
fn pushing_equal_edges_dedups_structurally() {
    let mut t = segment(pt(0.0, 0.0, 0.0), pt(1.0, 0.0, 0.0));
    let again = t.push_edge(Edge { curve: 0, bounds: Some(EdgeEndpoints { start: 0, end: 1 }) });
    assert_eq!(again, 0);
    let reversed = t.push_edge(Edge { curve: 0, bounds: Some(EdgeEndpoints { start: 1, end: 0 }) });
    assert_eq!(reversed, 1);
    assert_eq!(t.edges().len(), 2);
}

#[test]
fn pushing_curves_never_merges() {
    let mut t = T::empty();
    let line = Crv::Line { p0: pt(0.0, 0.0, 0.0), p1: pt(1.0, 0.0, 0.0) };
    assert_eq!(t.push_curve(line), (0, Direction::Forward));
    assert_eq!(t.push_curve(line), (1, Direction::Forward));
    assert_eq!(t.curves().len(), 2);
}

#[test]
fn empty_and_single_vertex_topologies() {
    let e = T::empty();
    assert!(e.vertices().is_empty() && e.edges().is_empty() && e.curves().is_empty());
    assert!(e.faces().is_empty() && e.solids().is_empty() && e.surfaces().is_empty());
    let v = T::vertex(pt(4.0, 5.0, 6.0));
    assert_eq!(v.vertices(), &[pt(4.0, 5.0, 6.0)]);
    assert!(v.edges().is_empty());
}

#[test]
fn line_segment_has_two_vertices_and_one_edge() {
    let t = segment(pt(0.0, 0.0, 0.0), pt(2.0, 0.0, 0.0));
    assert_eq!(t.vertices(), &[pt(0.0, 0.0, 0.0), pt(2.0, 0.0, 0.0)]);
    assert_eq!(t.curves().len(), 1);
    assert_eq!(t.edges(), &[Edge { curve: 0, bounds: Some(EdgeEndpoints { start: 0, end: 1 }) }]);
}

#[test]
fn line_segment_between_coincident_points_fails() {
    let r = T::line_segment_from_two_points(pt(1.0, 1.0, 1.0), pt(1.0, 1.0, 1.0));
    assert_eq!(r.unwrap_err(), TopoError::CoincidentPoints);
}

#[test]
fn arc_through_collinear_points_fails() {
    let r = T::circular_arc_from_three_points(pt(0.0, 0.0, 0.0), pt(1.0, 0.0, 0.0), pt(2.0, 0.0, 0.0));
    assert_eq!(r.unwrap_err(), TopoError::CollinearPoints);
}

#[test]
fn closed_edge_has_no_vertices() {
    let circle = Crv::Arc { p0: pt(1.0, 0.0, 0.0), p1: pt(0.0, 1.0, 0.0), p2: pt(-1.0, 0.0, 0.0) };
    let t = T::edge(circle, None).unwrap();
    assert!(t.vertices().is_empty());
    assert_eq!(t.edges(), &[Edge { curve: 0, bounds: None }]);
}

#[test]
fn edge_closed_through_one_point_keeps_one_vertex() {
    let curve = Crv::Line { p0: pt(0.0, 0.0, 0.0), p1: pt(1.0, 0.0, 0.0) };
    let t = T::edge(curve, Some((pt(0.0, 0.0, 0.0), pt(0.0, 0.0, 0.0)))).unwrap();
    assert_eq!(t.vertices().len(), 1);
    assert_eq!(t.edges(), &[Edge { curve: 0, bounds: Some(EdgeEndpoints { start: 0, end: 0 }) }]);
}

#[test]
fn combine_merges_the_shared_endpoint() {
    let a = pt(0.0, 0.0, 0.0);
    let b = pt(1.0, 0.0, 0.0);
    let c = pt(1.0, 1.0, 0.0);
    let t = combine(&[segment(a, b), segment(b, c)]).unwrap();
    assert_eq!(t.vertices().len(), 3);
    assert_eq!(t.edges().len(), 2);
    assert_eq!(t.edges()[0].bounds, Some(EdgeEndpoints { start: 0, end: 1 }));
    assert_eq!(t.edges()[1].bounds, Some(EdgeEndpoints { start: 1, end: 2 }));
    assert_eq!(t.edges()[1].curve, 1);
}

#[test]
fn combine_of_nothing_is_empty() {
    let t = combine::<Pt, Crv, Pln>(&[]).unwrap();
    assert!(t.vertices().is_empty() && t.edges().is_empty());
}

#[test]
fn combine_refuses_faces() {
    let tri = triangle(pt(0.0, 0.0, 0.0), pt(1.0, 0.0, 0.0), pt(0.0, 1.0, 0.0));
    let faced = planar_face(tri).unwrap();
    assert_eq!(combine(&[faced]).unwrap_err(), TopoError::NotSupported);
}

fn triangle(a: Pt, b: Pt, c: Pt) -> T {
    combine(&[segment(a, b), segment(b, c), segment(c, a)]).unwrap()
}

#[test]
fn triangle_has_exactly_one_loop() {
    let t = triangle(pt(0.0, 0.0, 0.0), pt(1.0, 0.0, 0.0), pt(0.0, 1.0, 0.0));
    let loops = t.possible_loops();
    assert_eq!(loops.len(), 1);
    assert_eq!(
        loops[0].elements,
        vec![
            directed(2, Direction::Forward),
            directed(0, Direction::Forward),
            directed(1, Direction::Forward),
        ]
    );
}

#[test]
fn open_chain_has_no_loops() {
    let t = combine(&[
        segment(pt(0.0, 0.0, 0.0), pt(1.0, 0.0, 0.0)),
        segment(pt(1.0, 0.0, 0.0), pt(1.0, 1.0, 0.0)),
    ])
    .unwrap();
    assert!(t.possible_loops().is_empty());
}

#[test]
fn loop_finder_on_raw_edges() {
    let ring = [
        Edge { curve: 0, bounds: Some(EdgeEndpoints { start: 0, end: 1 }) },
        Edge { curve: 1, bounds: Some(EdgeEndpoints { start: 2, end: 1 }) },
        Edge { curve: 2, bounds: Some(EdgeEndpoints { start: 2, end: 0 }) },
        Edge { curve: 3, bounds: None },
    ];
    let loops = find_loops(&ring);
    assert_eq!(loops.len(), 1);
    let l = &loops[0];
    assert_eq!(l.elements.len(), 3);
    assert_eq!(l.elements[0].direction, Direction::Forward);
    assert!(find_loops(&[]).is_empty());
}

#[test]
fn loop_vertices_are_sorted_and_unique() {
    let edges = [
        Edge { curve: 0, bounds: Some(EdgeEndpoints { start: 4, end: 1 }) },
        Edge { curve: 1, bounds: Some(EdgeEndpoints { start: 1, end: 3 }) },
        Edge { curve: 2, bounds: None },
    ];
    let l = Loop {
        elements: vec![directed(0, Direction::Forward), directed(1, Direction::Forward), directed(2, Direction::Reverse)],
    };
    assert_eq!(loop_vertices(&edges, &l), vec![1, 3, 4]);
}

#[test]
fn planar_triangle_gives_one_face() {
    let t = triangle(pt(0.0, 0.0, 0.0), pt(1.0, 0.0, 0.0), pt(0.0, 1.0, 0.0));
    let faced = planar_face(t).unwrap();
    assert_eq!(faced.faces().len(), 1);
    assert_eq!(faced.surfaces().len(), 1);
    assert_eq!(faced.faces()[0].surface, 0);
    assert_eq!(faced.faces()[0].bounds.len(), 1);
    assert_eq!(faced.faces()[0].bounds[0].elements.len(), 3);
    assert_eq!(faced.vertices().len(), 3);
    assert_eq!(faced.edges().len(), 3);
}

#[test]
fn triangle_with_curved_side_out_of_plane_gives_no_face() {
    let a = pt(0.0, 0.0, 0.0);
    let b = pt(1.0, 0.0, 0.0);
    let c = pt(0.0, 1.0, 0.0);
    let bulge = T::circular_arc_from_three_points(c, pt(0.3, 0.3, 1.0e-3), a).unwrap();
    let t = combine(&[segment(a, b), segment(b, c), bulge]).unwrap();
    let faced = planar_face(t).unwrap();
    assert_eq!(faced.faces().len(), 0);
}

#[test]
fn perturbed_quadrilateral_gives_no_face() {
    let a = pt(0.0, 0.0, 0.0);
    let b = pt(1.0, 0.0, 0.0);
    let c = pt(1.0, 1.0, 0.0);
    let d = pt(0.0, 1.0, 2.0e-9);
    let t = combine(&[segment(a, b), segment(b, c), segment(c, d), segment(d, a)]).unwrap();
    let faced = planar_face(t).unwrap();
    assert_eq!(faced.faces().len(), 0);
}

#[test]
fn loop_without_a_plane_is_an_error() {
    let a = pt(0.0, 0.0, 0.0);
    let b = pt(1.0, 0.0, 0.0);
    let t = combine(&[segment(a, b), segment(b, a)]).unwrap();
    assert_eq!(t.possible_loops().len(), 1);
    assert_eq!(planar_face(t).unwrap_err(), TopoError::DegenerateLoop);
}

#[test]
fn reflect_mirrors_geometry_and_keeps_connectivity() {
    let t = segment(pt(1.0, 2.0, 3.0), pt(4.0, -5.0, 6.0));
    let m = reflect(t.clone(), &mirror_y()).unwrap();
    assert_eq!(m.vertices(), &[pt(1.0, -2.0, 3.0), pt(4.0, 5.0, 6.0)]);
    assert_eq!(m.edges(), t.edges());
    let back = reflect(m, &mirror_y()).unwrap();
    assert_eq!(back.vertices(), t.vertices());
}

#[test]
fn mirrored_profile_closes_into_one_loop() {
    let p0 = pt(-2.5, 0.0, 0.0);
    let p1 = pt(-2.5, -0.75, 0.0);
    let p2 = pt(0.0, -1.5, 0.0);
    let p3 = pt(2.5, -0.75, 0.0);
    let p4 = pt(2.5, 0.0, 0.0);
    let half = combine(&[
        segment(p0, p1),
        T::circular_arc_from_three_points(p1, p2, p3).unwrap(),
        segment(p3, p4),
    ])
    .unwrap();
    let mirrored = reflect(half.clone(), &mirror_y()).unwrap();
    let whole = combine(&[half, mirrored]).unwrap();
    assert_eq!(whole.vertices().len(), 6);
    assert_eq!(whole.edges().len(), 6);
    let loops = whole.possible_loops();
    assert_eq!(loops.len(), 1);
    assert_eq!(loops[0].elements.len(), 6);
    let faced = planar_face(whole).unwrap();
    assert_eq!(faced.faces().len(), 1);
}

#[test]
fn error_messages() {
    assert_eq!(Error::NotANumber.message(), "Not a number");
    assert_eq!(Error::OutOfBounds.message(), "Out of bounds");
    assert_eq!(Error::VerticesTooClose.message(), "Vertices too close");
}

#[test]
fn perturbed_straight_triangle_is_still_planar() {
    let t = triangle(pt(0.0, 0.0, 0.0), pt(1.0, 0.0, 0.0), pt(0.0, 1.0, 0.5));
    let faced = planar_face(t).unwrap();
    assert_eq!(faced.faces().len(), 1);
}

#[test]
fn faces_are_added_only_for_loops_with_a_plane() {
    let t = triangle(pt(0.0, 0.0, 0.0), pt(1.0, 0.0, 0.0), pt(0.0, 1.0, 0.0));
    let loops = t.possible_loops();
    let flat = Pln { normal: pt(0.0, 0.0, 1.0), offset: 0.0 };
    let with = add_planar_faces(t.clone(), &loops, vec![Some(flat)]);
    assert_eq!(with.faces().len(), 1);
    assert_eq!(with.surfaces().len(), 1);
    assert_eq!(with.faces()[0].bounds[0].elements, loops[0].elements);
    let without = add_planar_faces(t, &loops, vec![None]);
    assert!(without.faces().is_empty());
    assert!(without.surfaces().is_empty());
}

#[test]
fn reflect_refuses_surfaces() {
    let t = triangle(pt(0.0, 0.0, 0.0), pt(1.0, 0.0, 0.0), pt(0.0, 1.0, 0.0));
    let faced = planar_face(t).unwrap();
    assert_eq!(reflect(faced, &mirror_y()).unwrap_err(), TopoError::NotSupported);
}

#[test]
fn combine_of_one_clean_arena_copies_it() {
    let t = segment(pt(0.0, 0.0, 0.0), pt(1.0, 0.0, 0.0));
    let c = combine(&[t.clone()]).unwrap();
    assert_eq!(c.vertices(), t.vertices());
    assert_eq!(c.edges(), t.edges());
    assert_eq!(c.curves().len(), t.curves().len());
}

#[test]
fn supporting_plane_decisions() {
    let a = pt(0.0, 0.0, 0.0);
    let b = pt(1.0, 0.0, 0.0);
    let t = triangle(a, b, pt(0.0, 1.0, 0.0));
    let loops = t.possible_loops();
    let flat: Option<Pln> = supporting_plane(t.vertices(), t.curves(), t.edges(), &loops[0]).unwrap();
    assert!(flat.is_some());
    let quad = combine(&[
        segment(a, b),
        segment(b, pt(1.0, 1.0, 0.0)),
        segment(pt(1.0, 1.0, 0.0), pt(0.0, 1.0, 2.0e-9)),
        segment(pt(0.0, 1.0, 2.0e-9), a),
    ])
    .unwrap();
    let ql = quad.possible_loops();
    let off: Option<Pln> = supporting_plane(quad.vertices(), quad.curves(), quad.edges(), &ql[0]).unwrap();
    assert!(off.is_none());
    let two = combine(&[segment(a, b), segment(b, a)]).unwrap();
    let tl = two.possible_loops();
    let r: Result<Option<Pln>, TopoError> = supporting_plane(two.vertices(), two.curves(), two.edges(), &tl[0]);
    assert_eq!(r.unwrap_err(), TopoError::DegenerateLoop);
}
