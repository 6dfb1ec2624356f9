use vstd::prelude::*;

use crate::direction::Direction;
use crate::error::TopoError;
use crate::geometry::{CurveGeometry, PointGeometry, SurfaceGeometry};
use crate::loops::{follows, is_found_loop, loop_elements, loops_by_search};
use crate::topo::{
    curves_reported, curve_pushed, edge_pushed, points_reported, surfaces_reported, vertex_pushed,
    CurveIndex, DirectedEdge, Edge, EdgeIndex, Face, Loop, Topo, TopoResult, VertexIndex,
};

verus! {

/// The topology carries surfaces, faces or solids, which merging does not handle.
pub open spec fn has_faces<P, C, S>(t: Topo<P, C, S>) -> bool {
    t.surface_seq().len() > 0 || t.face_seq().len() > 0 || t.solid_seq().len() > 0
}

/// No stored vertex was reported coincident with one stored before it.
pub open spec fn vertices_distinct<P: PointGeometry>(vs: Seq<P>) -> bool {
    forall|a: int, b: int| 0 <= a < b < vs.len() ==> #[trigger] points_reported(vs[b], vs[a], false)
}

/// No stored curve was reported coincident with one stored before it.
pub open spec fn curves_distinct<P, C: CurveGeometry<P>>(cs: Seq<C>) -> bool {
    forall|a: int, b: int| 0 <= a < b < cs.len() ==> #[trigger] curves_reported(cs[b], cs[a], None)
}

/// A record of pushing the items of each group in turn onto a sequence that
/// starts empty: `states[k][i]` is the sequence before item `i` of group `k`
/// is pushed, `states[k][i + 1]` the sequence after, `idx[k][i]` the index
/// that the push returned, and `last` the sequence after the last push.
/// `step` relates one push to its outcome.
pub open spec fn push_chain<A, I>(
    step: spec_fn(Seq<A>, A, Seq<A>, I) -> bool,
    items: Seq<Seq<A>>,
    states: Seq<Seq<Seq<A>>>,
    idx: Seq<Seq<I>>,
    last: Seq<A>,
) -> bool {
    &&& states.len() == items.len()
    &&& idx.len() == items.len()
    &&& forall|k: int|
        0 <= k < items.len() ==> #[trigger] states[k].len() == items[k].len() + 1 && idx[k].len()
            == items[k].len()
    &&& if items.len() == 0 {
        last == Seq::<A>::empty()
    } else {
        states[0][0] == Seq::<A>::empty() && states[items.len() - 1][items[items.len() - 1].len() as int]
            == last
    }
    &&& forall|k: int|
        0 < k < items.len() ==> #[trigger] states[k][0] == states[k - 1][items[k - 1].len() as int]
    &&& forall|k: int, i: int|
        #![trigger items[k][i]]
        0 <= k < items.len() && 0 <= i < items[k].len() ==> step(
            states[k][i],
            items[k][i],
            states[k][i + 1],
            idx[k][i],
        )
}

/// One push of a vertex; see [`vertex_pushed`].
pub open spec fn vertex_step<P: PointGeometry>() -> spec_fn(Seq<P>, P, Seq<P>, VertexIndex) -> bool {
    |b: Seq<P>, x: P, a: Seq<P>, r: VertexIndex| vertex_pushed(b, x, a, r as nat)
}

/// One push of a curve; see [`curve_pushed`].
pub open spec fn curve_step<P, C: CurveGeometry<P>>() -> spec_fn(
    Seq<C>,
    C,
    Seq<C>,
    (CurveIndex, Direction),
) -> bool {
    |b: Seq<C>, x: C, a: Seq<C>, r: (CurveIndex, Direction)| curve_pushed(b, x, a, r)
}

/// One push of an edge; see [`edge_pushed`].
pub open spec fn edge_step() -> spec_fn(Seq<Edge>, Edge, Seq<Edge>, EdgeIndex) -> bool {
    |b: Seq<Edge>, x: Edge, a: Seq<Edge>, r: EdgeIndex| edge_pushed(b, x, a, r as nat)
}

/// The vertices of each topology.
pub open spec fn vertex_groups<P, C, S>(topos: Seq<Topo<P, C, S>>) -> Seq<Seq<P>> {
    topos.map_values(|t: Topo<P, C, S>| t.vertex_seq())
}

/// The curves of each topology.
pub open spec fn curve_groups<P, C, S>(topos: Seq<Topo<P, C, S>>) -> Seq<Seq<C>> {
    topos.map_values(|t: Topo<P, C, S>| t.curve_seq())
}

/// The edges of each topology, renumbered through its tables.
pub open spec fn edge_groups<P, C, S>(
    topos: Seq<Topo<P, C, S>>,
    vm: Seq<Seq<VertexIndex>>,
    cm: Seq<Seq<(CurveIndex, Direction)>>,
) -> Seq<Seq<Edge>> {
    Seq::new(topos.len(), |k: int| topos[k].edge_seq().map_values(|e: Edge| e.remapped(vm[k], cm[k])))
}

proof fn lemma_chain_extend<A, I>(
    step: spec_fn(Seq<A>, A, Seq<A>, I) -> bool,
    items: Seq<Seq<A>>,
    states: Seq<Seq<Seq<A>>>,
    idx: Seq<Seq<I>>,
    last: Seq<A>,
    group: Seq<A>,
    gstates: Seq<Seq<A>>,
    gidx: Seq<I>,
)
    requires
        push_chain(step, items, states, idx, last),
        gstates.len() == group.len() + 1,
        gidx.len() == group.len(),
        gstates[0] == last,
        forall|i: int| 0 <= i < group.len() ==> step(gstates[i], #[trigger] group[i], gstates[i + 1], gidx[i]),
    ensures
        push_chain(step, items.push(group), states.push(gstates), idx.push(gidx), gstates[group.len() as int]),
{
    let items2 = items.push(group);
    let states2 = states.push(gstates);
    let idx2 = idx.push(gidx);
    assert forall|k: int| 0 <= k < items2.len() implies #[trigger] states2[k].len() == items2[k].len() + 1
        && idx2[k].len() == items2[k].len() by {
        if k < items.len() {
            assert(states[k].len() == items[k].len() + 1);
        }
    }
    assert forall|k: int| 0 < k < items2.len() implies #[trigger] states2[k][0] == states2[k - 1][items2[k
        - 1].len() as int] by {
        if k < items.len() {
            assert(states[k][0] == states[k - 1][items[k - 1].len() as int]);
        }
    }
    assert forall|k: int, i: int|
        #![trigger items2[k][i]]
        0 <= k < items2.len() && 0 <= i < items2[k].len() implies step(
        states2[k][i],
        items2[k][i],
        states2[k][i + 1],
        idx2[k][i],
    ) by {
        if k < items.len() {
            assert(step(states[k][i], items[k][i], states[k][i + 1], idx[k][i]));
        } else {
            assert(step(gstates[i], group[i], gstates[i + 1], gidx[i]));
        }
    }
}

/// `t` holds what pushing, from an empty arena, every vertex of `topos` in
/// order, then every curve, then every edge renumbered through the tables
/// `vm` and `cm` that those pushes returned, gives.
pub open spec fn merged_by_pushes<P: PointGeometry, C: CurveGeometry<P>, S>(
    topos: Seq<Topo<P, C, S>>,
    t: Topo<P, C, S>,
    vs: Seq<Seq<Seq<P>>>,
    vm: Seq<Seq<VertexIndex>>,
    cs: Seq<Seq<Seq<C>>>,
    cm: Seq<Seq<(CurveIndex, Direction)>>,
    es: Seq<Seq<Seq<Edge>>>,
    em: Seq<Seq<EdgeIndex>>,
) -> bool {
    &&& push_chain(vertex_step::<P>(), vertex_groups(topos), vs, vm, t.vertex_seq())
    &&& push_chain(curve_step::<P, C>(), curve_groups(topos), cs, cm, t.curve_seq())
    &&& push_chain(edge_step(), edge_groups(topos, vm, cm), es, em, t.edge_seq())
}

/// Merges the vertices, curves and edges of several topologies into one.
/// No boolean operation is applied. Starting from an empty arena, every
/// vertex of every input is pushed in order, then every curve, then every
/// edge renumbered onto what its vertices and curve were stored as: so
/// coincident vertices and curves are stored once.
pub fn combine<P: PointGeometry + Copy, C: CurveGeometry<P> + Copy, S>(
    topos: &[Topo<P, C, S>],
) -> (r: TopoResult<Topo<P, C, S>>)
    requires
        forall|k: int| 0 <= k < topos@.len() ==> (#[trigger] topos@[k]).wf(),
    ensures
        r is Err <==> exists|k: int| 0 <= k < topos@.len() && #[trigger] has_faces(topos@[k]),
        r is Err ==> r == Err::<Topo<P, C, S>, TopoError>(TopoError::NotSupported),
        r matches Ok(t) ==> {
            &&& t.wf()
            &&& !has_faces(t)
            &&& vertices_distinct(t.vertex_seq())
            &&& curves_distinct(t.curve_seq())
            &&& t.edge_seq().no_duplicates()
            &&& exists|
                vs: Seq<Seq<Seq<P>>>,
                vm: Seq<Seq<VertexIndex>>,
                cs: Seq<Seq<Seq<C>>>,
                cm: Seq<Seq<(CurveIndex, Direction)>>,
                es: Seq<Seq<Seq<Edge>>>,
                em: Seq<Seq<EdgeIndex>>,
            | #[trigger] merged_by_pushes(topos@, t, vs, vm, cs, cm, es, em)
        },
{
    let n = topos.len();
    let mut k: usize = 0;
    while k < n
        invariant
            n == topos@.len(),
            k <= n,
            forall|q: int| 0 <= q < k ==> !#[trigger] has_faces(topos@[q]),
        decreases n - k,
    {
        if topos[k].surfaces().len() > 0 || topos[k].faces().len() > 0 || topos[k].solids().len() > 0 {
            assert(has_faces(topos@[k as int]));
            return Err(TopoError::NotSupported);
        }
        k = k + 1;
    }
    let mut result: Topo<P, C, S> = Topo::empty();
    proof {
        assert(result.vertex_seq() =~= Seq::empty());
        assert(push_chain(vertex_step::<P>(), vertex_groups(topos@).subrange(0, 0), Seq::empty(), Seq::empty(), result.vertex_seq()));
    }

    // Vertices
    let mut vertex_maps: Vec<Vec<VertexIndex>> = Vec::new();
    let ghost mut vm: Seq<Seq<VertexIndex>> = Seq::empty();
    let ghost mut vst: Seq<Seq<Seq<P>>> = Seq::empty();
    k = 0;
    while k < n
        invariant
            n == topos@.len(),
            k <= n,
            forall|q: int| 0 <= q < n ==> (#[trigger] topos@[q]).wf(),
            forall|q: int| 0 <= q < n ==> !#[trigger] has_faces(topos@[q]),
            result.wf(),
            result.curve_seq().len() == 0,
            result.edge_seq().len() == 0,
            !has_faces(result),
            vertices_distinct(result.vertex_seq()),
            vertex_maps@.len() == k,
            vm.len() == k,
            forall|q: int| 0 <= q < k ==> (#[trigger] vertex_maps@[q])@ == vm[q],
            push_chain(vertex_step::<P>(), vertex_groups(topos@).subrange(0, k as int), vst, vm, result.vertex_seq()),
            forall|q: int, i: int|
                0 <= q < k && 0 <= i < topos@[q].vertex_seq().len() ==> #[trigger] vm[q][i]
                    < result.vertex_seq().len(),
        decreases n - k,
    {
        let vs = topos[k].vertices();
        let ghost g0 = result.vertex_seq();
        let ghost mut gst: Seq<Seq<P>> = seq![g0];
        let mut map: Vec<VertexIndex> = Vec::new();
        let mut i: usize = 0;
        while i < vs.len()
            invariant
                n == topos@.len(),
                k < n,
                vs@ == topos@[k as int].vertex_seq(),
                i <= vs@.len(),
                result.wf(),
                result.curve_seq().len() == 0,
                result.edge_seq().len() == 0,
                !has_faces(result),
                vertices_distinct(result.vertex_seq()),
                map@.len() == i,
                gst.len() == i + 1,
                gst[0] == g0,
                gst[i as int] == result.vertex_seq(),
                g0.len() <= result.vertex_seq().len(),
                forall|j: int|
                    0 <= j < i ==> vertex_pushed(gst[j], #[trigger] vs@[j], gst[j + 1], map@[j] as nat),
                forall|j: int| 0 <= j < i ==> #[trigger] map@[j] < result.vertex_seq().len(),
                forall|q: int, i2: int|
                    0 <= q < k && 0 <= i2 < topos@[q].vertex_seq().len() ==> #[trigger] vm[q][i2]
                        < g0.len(),
            decreases vs@.len() - i,
        {
            let copy = vs[i];
            let ghost before = result.vertex_seq();
            let idx = result.push_vertex(copy);
            proof {
                let after = result.vertex_seq();
                assert(forall|j: int| 0 <= j < before.len() ==> after[j] == before[j]);
                if idx == before.len() {
                    assert forall|a: int, b: int| 0 <= a < b < after.len() implies #[trigger] points_reported(
                        after[b],
                        after[a],
                        false,
                    ) by {
                        if b < before.len() {
                            assert(points_reported(before[b], before[a], false));
                        }
                    }
                }
                gst = gst.push(after);
            }
            map.push(idx);
            i = i + 1;
        }
        proof {
            assert(vertex_groups(topos@).subrange(0, k + 1) =~= vertex_groups(topos@).subrange(0, k as int).push(vs@));
            assert forall|j: int| 0 <= j < vs@.len() implies (vertex_step::<P>())(gst[j], #[trigger] vs@[j], gst[j + 1], map@[j]) by {
                assert(vertex_pushed(gst[j], vs@[j], gst[j + 1], map@[j] as nat));
            }
            lemma_chain_extend(vertex_step::<P>(), vertex_groups(topos@).subrange(0, k as int), vst, vm, g0, vs@, gst, map@);
        }
        vertex_maps.push(map);
        proof {
            vm = vm.push(map@);
            vst = vst.push(gst);
        }
        k = k + 1;
    }
    proof {
        assert(vertex_groups(topos@).subrange(0, n as int) =~= vertex_groups(topos@));
        assert(result.curve_seq() =~= Seq::empty());
        assert(push_chain(curve_step::<P, C>(), curve_groups(topos@).subrange(0, 0), Seq::empty(), Seq::empty(), result.curve_seq()));
    }

    // Curves
    let mut curve_maps: Vec<Vec<(CurveIndex, Direction)>> = Vec::new();
    let ghost mut cm: Seq<Seq<(CurveIndex, Direction)>> = Seq::empty();
    let ghost mut cst: Seq<Seq<Seq<C>>> = Seq::empty();
    let ghost rv = result.vertex_seq();
    k = 0;
    while k < n
        invariant
            n == topos@.len(),
            k <= n,
            forall|q: int| 0 <= q < n ==> (#[trigger] topos@[q]).wf(),
            forall|q: int| 0 <= q < n ==> !#[trigger] has_faces(topos@[q]),
            result.wf(),
            result.vertex_seq() == rv,
            result.edge_seq().len() == 0,
            !has_faces(result),
            curves_distinct(result.curve_seq()),
            curve_maps@.len() == k,
            cm.len() == k,
            forall|q: int| 0 <= q < k ==> (#[trigger] curve_maps@[q])@ == cm[q],
            push_chain(curve_step::<P, C>(), curve_groups(topos@).subrange(0, k as int), cst, cm, result.curve_seq()),
            forall|q: int, c: int|
                0 <= q < k && 0 <= c < topos@[q].curve_seq().len() ==> #[trigger] cm[q][c].0
                    < result.curve_seq().len(),
        decreases n - k,
    {
        let cs = topos[k].curves();
        let ghost g0 = result.curve_seq();
        let ghost mut gst: Seq<Seq<C>> = seq![g0];
        let mut map: Vec<(CurveIndex, Direction)> = Vec::new();
        let mut i: usize = 0;
        while i < cs.len()
            invariant
                n == topos@.len(),
                k < n,
                cs@ == topos@[k as int].curve_seq(),
                i <= cs@.len(),
                result.wf(),
                result.vertex_seq() == rv,
                result.edge_seq().len() == 0,
                !has_faces(result),
                curves_distinct(result.curve_seq()),
                map@.len() == i,
                gst.len() == i + 1,
                gst[0] == g0,
                gst[i as int] == result.curve_seq(),
                g0.len() <= result.curve_seq().len(),
                forall|j: int| 0 <= j < i ==> curve_pushed(gst[j], #[trigger] cs@[j], gst[j + 1], map@[j]),
                forall|j: int| 0 <= j < i ==> #[trigger] map@[j].0 < result.curve_seq().len(),
                forall|q: int, c: int|
                    0 <= q < k && 0 <= c < topos@[q].curve_seq().len() ==> #[trigger] cm[q][c].0
                        < g0.len(),
            decreases cs@.len() - i,
        {
            let copy = cs[i];
            let ghost before = result.curve_seq();
            let pushed = result.push_curve(copy);
            proof {
                let after = result.curve_seq();
                assert(forall|j: int| 0 <= j < before.len() ==> after[j] == before[j]);
                if pushed.0 == before.len() {
                    assert forall|a: int, b: int| 0 <= a < b < after.len() implies #[trigger] curves_reported(
                        after[b],
                        after[a],
                        None,
                    ) by {
                        if b < before.len() {
                            assert(curves_reported(before[b], before[a], None));
                        }
                    }
                }
                gst = gst.push(after);
            }
            map.push(pushed);
            i = i + 1;
        }
        proof {
            assert(curve_groups(topos@).subrange(0, k + 1) =~= curve_groups(topos@).subrange(0, k as int).push(cs@));
            assert forall|j: int| 0 <= j < cs@.len() implies (curve_step::<P, C>())(gst[j], #[trigger] cs@[j], gst[j + 1], map@[j]) by {
                assert(curve_pushed(gst[j], cs@[j], gst[j + 1], map@[j]));
            }
            lemma_chain_extend(curve_step::<P, C>(), curve_groups(topos@).subrange(0, k as int), cst, cm, g0, cs@, gst, map@);
        }
        curve_maps.push(map);
        proof {
            cm = cm.push(map@);
            cst = cst.push(gst);
        }
        k = k + 1;
    }
    proof {
        assert(curve_groups(topos@).subrange(0, n as int) =~= curve_groups(topos@));
        assert(result.edge_seq() =~= Seq::empty());
        assert(push_chain(edge_step(), edge_groups(topos@, vm, cm).subrange(0, 0), Seq::empty(), Seq::empty(), result.edge_seq()));
    }

    // Edges
    proof {
        assert forall|q: int| 0 <= q < n implies #[trigger] vm[q].len() == topos@[q].vertex_seq().len() by {
            assert(vst[q].len() == vertex_groups(topos@)[q].len() + 1);
            assert(vertex_groups(topos@)[q] == topos@[q].vertex_seq());
        }
        assert forall|q: int| 0 <= q < n implies #[trigger] cm[q].len() == topos@[q].curve_seq().len() by {
            assert(cst[q].len() == curve_groups(topos@)[q].len() + 1);
            assert(curve_groups(topos@)[q] == topos@[q].curve_seq());
        }
    }
    let ghost rc = result.curve_seq();
    let ghost groups = edge_groups(topos@, vm, cm);
    let ghost mut est: Seq<Seq<Seq<Edge>>> = Seq::empty();
    let ghost mut em: Seq<Seq<EdgeIndex>> = Seq::empty();
    k = 0;
    while k < n
        invariant
            n == topos@.len(),
            k <= n,
            groups == edge_groups(topos@, vm, cm),
            forall|q: int| 0 <= q < n ==> (#[trigger] topos@[q]).wf(),
            result.wf(),
            !has_faces(result),
            result.vertex_seq() == rv,
            result.curve_seq() == rc,
            result.edge_seq().no_duplicates(),
            vertex_maps@.len() == n,
            curve_maps@.len() == n,
            vm.len() == n,
            cm.len() == n,
            forall|q: int| 0 <= q < n ==> (#[trigger] vertex_maps@[q])@ == vm[q],
            forall|q: int| 0 <= q < n ==> (#[trigger] curve_maps@[q])@ == cm[q],
            forall|q: int| 0 <= q < n ==> #[trigger] vm[q].len() == topos@[q].vertex_seq().len(),
            forall|q: int| 0 <= q < n ==> #[trigger] cm[q].len() == topos@[q].curve_seq().len(),
            forall|q: int, i: int|
                0 <= q < n && 0 <= i < topos@[q].vertex_seq().len() ==> #[trigger] vm[q][i] < rv.len(),
            forall|q: int, c: int|
                0 <= q < n && 0 <= c < topos@[q].curve_seq().len() ==> #[trigger] cm[q][c].0 < rc.len(),
            push_chain(edge_step(), groups.subrange(0, k as int), est, em, result.edge_seq()),
        decreases n - k,
    {
        let es = topos[k].edges();
        proof {
            topos@[k as int].lemma_edges_valid();
        }
        let ghost g0 = result.edge_seq();
        let ghost mut gst: Seq<Seq<Edge>> = seq![g0];
        let ghost mut gidx: Seq<EdgeIndex> = Seq::empty();
        let mut i: usize = 0;
        while i < es.len()
            invariant
                n == topos@.len(),
                k < n,
                es@ == topos@[k as int].edge_seq(),
                forall|e: int|
                    0 <= e < es@.len() ==> (#[trigger] es@[e]).valid(
                        vm[k as int].len(),
                        cm[k as int].len(),
                    ),
                i <= es@.len(),
                result.wf(),
                !has_faces(result),
                result.vertex_seq() == rv,
                result.curve_seq() == rc,
                result.edge_seq().no_duplicates(),
                vertex_maps@.len() == n,
                curve_maps@.len() == n,
                vertex_maps@[k as int]@ == vm[k as int],
                curve_maps@[k as int]@ == cm[k as int],
                forall|x: int| 0 <= x < vm[k as int].len() ==> #[trigger] vm[k as int][x] < rv.len(),
                forall|c: int| 0 <= c < cm[k as int].len() ==> #[trigger] cm[k as int][c].0 < rc.len(),
                gst.len() == i + 1,
                gidx.len() == i,
                gst[0] == g0,
                gst[i as int] == result.edge_seq(),
                forall|j: int|
                    0 <= j < i ==> edge_pushed(
                        gst[j],
                        (#[trigger] es@[j]).remapped(vm[k as int], cm[k as int]),
                        gst[j + 1],
                        gidx[j] as nat,
                    ),
            decreases es@.len() - i,
        {
            let (edge, _direction) = es[i].remap(vertex_maps[k].as_slice(), curve_maps[k].as_slice());
            proof {
                let e = es@[i as int];
                assert(e.valid(vm[k as int].len(), cm[k as int].len()));
                assert(cm[k as int][e.curve as int].0 < rc.len());
                match e.bounds {
                    Some(b) => {
                        assert(vm[k as int][b.start as int] < rv.len());
                        assert(vm[k as int][b.end as int] < rv.len());
                    },
                    None => {},
                }
            }
            let ghost before = result.edge_seq();
            let idx = result.push_edge(edge);
            proof {
                let after = result.edge_seq();
                if idx == before.len() {
                    assert forall|a: int, b: int| 0 <= a < b < after.len() implies after[a] != after[b] by {
                        if b == before.len() {
                            assert(before[a] != edge);
                        }
                    }
                }
                gst = gst.push(after);
                gidx = gidx.push(idx);
            }
            i = i + 1;
        }
        proof {
            let group = groups[k as int];
            assert(group =~= es@.map_values(|e: Edge| e.remapped(vm[k as int], cm[k as int])));
            assert(groups.subrange(0, k + 1) =~= groups.subrange(0, k as int).push(group));
            assert forall|j: int| 0 <= j < group.len() implies (edge_step())(gst[j], #[trigger] group[j], gst[j + 1], gidx[j]) by {
                assert(group[j] == es@[j].remapped(vm[k as int], cm[k as int]));
                assert(edge_pushed(gst[j], es@[j].remapped(vm[k as int], cm[k as int]), gst[j + 1], gidx[j] as nat));
            }
            lemma_chain_extend(edge_step(), groups.subrange(0, k as int), est, em, g0, group, gst, gidx);
            est = est.push(gst);
            em = em.push(gidx);
        }
        k = k + 1;
    }
    proof {
        assert(groups.subrange(0, n as int) =~= groups);
        assert(push_chain(vertex_step::<P>(), vertex_groups(topos@), vst, vm, result.vertex_seq()));
        assert(merged_by_pushes(topos@, result, vst, vm, cst, cm, est, em));
    }
    Ok(result)
}

/// Vertex `v` bounds one of the edges of loop `l`.
pub open spec fn loop_touches(edges: Seq<Edge>, l: Loop, v: VertexIndex) -> bool {
    exists|i: int|
        0 <= i < l.elements@.len() && match edges[(#[trigger] l.elements@[i]).edge as int].bounds {
            Some(b) => b.start == v || b.end == v,
            None => false,
        }
}

/// Inserts `x` into the strictly increasing `v` unless it is there already.
fn insert_sorted(v: &mut Vec<VertexIndex>, x: VertexIndex)
    requires
        forall|i: int, j: int| 0 <= i < j < old(v)@.len() ==> old(v)@[i] < old(v)@[j],
    ensures
        forall|i: int, j: int| 0 <= i < j < final(v)@.len() ==> final(v)@[i] < final(v)@[j],
        forall|y: VertexIndex| final(v)@.contains(y) <==> (old(v)@.contains(y) || y == x),
{
    let mut p: usize = 0;
    while p < v.len() && v[p] < x
        invariant
            v@ == old(v)@,
            forall|i: int, j: int| 0 <= i < j < v@.len() ==> v@[i] < v@[j],
            p <= v@.len(),
            forall|i: int| 0 <= i < p ==> v@[i] < x,
        decreases v@.len() - p,
    {
        p = p + 1;
    }
    if p < v.len() && v[p] == x {
        assert(v@[p as int] == x);
        return;
    }
    let ghost before = v@;
    v.insert(p, x);
    proof {
        assert(v@ == before.insert(p as int, x));
        assert forall|y: VertexIndex| v@.contains(y) <==> (before.contains(y) || y == x) by {
            if v@.contains(y) {
                let w = choose|w: int| 0 <= w < v@.len() && v@[w] == y;
                if w < p {
                    assert(before[w] == y);
                } else if w > p {
                    assert(before[w - 1] == y);
                }
            }
            if before.contains(y) {
                let w = choose|w: int| 0 <= w < before.len() && before[w] == y;
                if w < p {
                    assert(v@[w] == y);
                } else {
                    assert(v@[w + 1] == y);
                }
            }
            if y == x {
                assert(v@[p as int] == x);
            }
        }
        assert(before == old(v)@);
        assert(forall|y: VertexIndex| v@.contains(y) <==> (old(v)@.contains(y) || y == x));
    }
}

/// The vertices that bound the edges of `l`, in increasing order, each once.
pub fn loop_vertices(edges: &[Edge], l: &Loop) -> (r: Vec<VertexIndex>)
    requires
        l.valid(edges@.len()),
    ensures
        forall|i: int, j: int| 0 <= i < j < r@.len() ==> r@[i] < r@[j],
        forall|v: VertexIndex| r@.contains(v) <==> loop_touches(edges@, *l, v),
{
    let mut r: Vec<VertexIndex> = Vec::new();
    let mut i: usize = 0;
    while i < l.elements.len()
        invariant
            l.valid(edges@.len()),
            i <= l.elements@.len(),
            forall|a: int, b: int| 0 <= a < b < r@.len() ==> r@[a] < r@[b],
            forall|v: VertexIndex|
                r@.contains(v) <==> exists|q: int|
                    0 <= q < i && match edges@[(#[trigger] l.elements@[q]).edge as int].bounds {
                        Some(b) => b.start == v || b.end == v,
                        None => false,
                    },
        decreases l.elements@.len() - i,
    {
        let e = l.elements[i].edge;
        assert(e < edges@.len());
        match edges[e].bounds {
            Some(b) => {
                insert_sorted(&mut r, b.start);
                insert_sorted(&mut r, b.end);
            },
            None => {},
        }
        proof {
            assert forall|v: VertexIndex|
                r@.contains(v) <==> exists|q: int|
                    0 <= q < i + 1 && match edges@[(#[trigger] l.elements@[q]).edge as int].bounds {
                        Some(b) => b.start == v || b.end == v,
                        None => false,
                    } by {
                if r@.contains(v) && !(exists|q: int|
                    0 <= q < i && match edges@[(#[trigger] l.elements@[q]).edge as int].bounds {
                        Some(b) => b.start == v || b.end == v,
                        None => false,
                    }) {
                    assert(l.elements@[i as int].edge == e);
                }
            }
        }
        i = i + 1;
    }
    r
}

/// A loop that the loop finder reports refers only to edges that exist.
proof fn lemma_found_loop_valid(edges: Seq<Edge>, l: Loop)
    requires
        is_found_loop(edges, l),
    ensures
        l.valid(edges.len()),
{
    let s = l.elements@;
    assert forall|i: int| 0 <= i < s.len() implies #[trigger] s[i].edge < edges.len() by {
        if i < s.len() - 1 {
            assert(follows(edges, s[i], s[i + 1]));
        } else {
            assert(follows(edges, s[s.len() - 1], s[0]));
        }
    }
}

/// A copy of `l`.
fn copy_loop(l: &Loop) -> (r: Loop)
    ensures
        r.elements@ == l.elements@,
{
    let mut elements: Vec<DirectedEdge> = Vec::new();
    let mut i: usize = 0;
    while i < l.elements.len()
        invariant
            i <= l.elements@.len(),
            elements@ == l.elements@.subrange(0, i as int),
        decreases l.elements@.len() - i,
    {
        elements.push(l.elements[i]);
        i = i + 1;
        assert(elements@ =~= l.elements@.subrange(0, i as int));
    }
    assert(elements@ =~= l.elements@);
    Loop { elements }
}

/// `pts` is a hull that the curve of `edge` reported for the part of it
/// that the edge uses.
pub open spec fn hull_reported<P, C: CurveGeometry<P>>(
    vertices: Seq<P>,
    curves: Seq<C>,
    edge: Edge,
    pts: Seq<P>,
) -> bool {
    exists|v: Vec<P>|
        #![trigger v@]
        v@ == pts && match edge.bounds {
            Some(b) => call_ensures(
                C::hull,
                (&curves[edge.curve as int], Some((&vertices[b.start as int], &vertices[b.end as int]))),
                v,
            ),
            None => call_ensures(C::hull, (&curves[edge.curve as int], None), v),
        }
}

/// The plane reported for three points.
pub open spec fn plane_reported<P, S: SurfaceGeometry<P>>(p0: P, p1: P, p2: P, r: Option<S>) -> bool {
    call_ensures(S::plane_from_three_points, (&p0, &p1, &p2), r)
}

/// What containment was reported for a point and a surface.
pub open spec fn contains_reported<P, S: SurfaceGeometry<P>>(s: S, p: P, r: bool) -> bool {
    call_ensures(S::contains, (&s, &p), r)
}

/// No three consecutive points of `pts` were reported to span a plane.
pub open spec fn no_plane<P, S: SurfaceGeometry<P>>(pts: Seq<P>) -> bool {
    forall|j: int|
        0 <= j && j + 2 < pts.len() ==> #[trigger] plane_reported::<P, S>(pts[j], pts[j + 1], pts[j + 2], None)
}

/// `s` is the plane reported for the first triple of consecutive points of
/// `pts` that spans one.
pub open spec fn first_plane<P, S: SurfaceGeometry<P>>(pts: Seq<P>, s: S) -> bool {
    exists|i: int|
        0 <= i && i + 2 < pts.len() && #[trigger] plane_reported(pts[i], pts[i + 1], pts[i + 2], Some(s))
            && forall|j: int|
            0 <= j < i ==> #[trigger] plane_reported::<P, S>(pts[j], pts[j + 1], pts[j + 2], None)
}

/// `s` is the candidate plane of a loop: from its vertices if three of them
/// span one, or else from the hull of the first of its edges whose hull does.
pub open spec fn candidate_plane<P, S: SurfaceGeometry<P>>(vpts: Seq<P>, hulls: Seq<Seq<P>>, s: S) -> bool {
    ||| first_plane(vpts, s)
    ||| (no_plane::<P, S>(vpts) && exists|e: int|
        0 <= e < hulls.len() && #[trigger] first_plane(hulls[e], s) && forall|q: int|
            0 <= q < e ==> #[trigger] no_plane::<P, S>(hulls[q]))
}

/// Every hull point was reported to lie on `s`.
pub open spec fn all_contained<P, S: SurfaceGeometry<P>>(hulls: Seq<Seq<P>>, s: S) -> bool {
    forall|e: int, j: int|
        0 <= e < hulls.len() && 0 <= j < hulls[e].len() ==> #[trigger] contains_reported(s, hulls[e][j], true)
}

/// Given the loop's vertex points and its edges' hulls, `r` is the decision:
/// an error when neither spans a plane; otherwise the candidate plane when
/// every hull point was reported on it, and `None` when one was reported off it.
pub open spec fn plane_decided<P, S: SurfaceGeometry<P>>(
    vpts: Seq<P>,
    hulls: Seq<Seq<P>>,
    r: TopoResult<Option<S>>,
) -> bool {
    match r {
        Err(e) => e == TopoError::DegenerateLoop && no_plane::<P, S>(vpts) && forall|q: int|
            0 <= q < hulls.len() ==> #[trigger] no_plane::<P, S>(hulls[q]),
        Ok(Some(s)) => candidate_plane(vpts, hulls, s) && all_contained(hulls, s),
        Ok(None) => exists|s: S|
            #[trigger] candidate_plane(vpts, hulls, s) && exists|e: int, j: int|
                0 <= e < hulls.len() && 0 <= j < hulls[e].len() && #[trigger] contains_reported(
                    s,
                    hulls[e][j],
                    false,
                ),
    }
}

/// `r` is the supporting-plane decision for the loop with directed edges
/// `l`: taken on its sorted vertices and on one reported hull per edge.
pub open spec fn plane_outcome<P, C: CurveGeometry<P>, S: SurfaceGeometry<P>>(
    vertices: Seq<P>,
    curves: Seq<C>,
    edges: Seq<Edge>,
    l: Seq<DirectedEdge>,
    r: TopoResult<Option<S>>,
) -> bool {
    exists|vs: Seq<VertexIndex>, hulls: Seq<Seq<P>>|
        #[trigger] support_witness(vertices, curves, edges, l, vs, hulls, r)
}

pub open spec fn support_witness<P, C: CurveGeometry<P>, S: SurfaceGeometry<P>>(
    vertices: Seq<P>,
    curves: Seq<C>,
    edges: Seq<Edge>,
    l: Seq<DirectedEdge>,
    vs: Seq<VertexIndex>,
    hulls: Seq<Seq<P>>,
    r: TopoResult<Option<S>>,
) -> bool {
    &&& forall|i: int, j: int| 0 <= i < j < vs.len() ==> vs[i] < vs[j]
    &&& forall|v: VertexIndex| vs.contains(v) <==> touches(edges, l, v)
    &&& hulls.len() == l.len()
    &&& forall|e: int|
        0 <= e < l.len() ==> #[trigger] hull_reported(vertices, curves, edges[l[e].edge as int], hulls[e])
    &&& plane_decided(vertex_points(vertices, vs), hulls, r)
}

/// The points of the vertices `vs`.
pub open spec fn vertex_points<P>(vertices: Seq<P>, vs: Seq<VertexIndex>) -> Seq<P> {
    vs.map_values(|v: VertexIndex| vertices[v as int])
}

/// Vertex `v` bounds one of the edges of the chain `l`.
pub open spec fn touches(edges: Seq<Edge>, l: Seq<DirectedEdge>, v: VertexIndex) -> bool {
    exists|i: int|
        0 <= i < l.len() && match edges[(#[trigger] l[i]).edge as int].bounds {
            Some(b) => b.start == v || b.end == v,
            None => false,
        }
}

/// The hull points of the part of its curve that `edge` uses.
fn edge_hull<P, C: CurveGeometry<P>>(vertices: &[P], curves: &[C], edge: &Edge) -> (r: Vec<P>)
    requires
        edge.valid(vertices@.len(), curves@.len()),
    ensures
        hull_reported(vertices@, curves@, *edge, r@),
{
    let bounds = match &edge.bounds {
        Some(b) => Some((&vertices[b.start], &vertices[b.end])),
        None => None,
    };
    curves[edge.curve].hull(bounds)
}

/// The plane of the first triple of consecutive points of `pts` that spans one.
fn plane_through<P, S: SurfaceGeometry<P>>(pts: &[P]) -> (r: Option<S>)
    ensures
        match r {
            Some(s) => first_plane(pts@, s),
            None => no_plane::<P, S>(pts@),
        },
{
    let mut i: usize = 0;
    while pts.len() >= 3 && i < pts.len() - 2
        invariant
            forall|j: int| 0 <= j < i ==> #[trigger] plane_reported::<P, S>(pts@[j], pts@[j + 1], pts@[j + 2], None),
        decreases pts@.len() - i,
    {
        let r = S::plane_from_three_points(&pts[i], &pts[i + 1], &pts[i + 2]);
        match r {
            Some(plane) => {
                assert(plane_reported(pts@[i as int], pts@[i + 1], pts@[i + 2], Some(plane)));
                return Some(plane);
            },
            None => {},
        }
        i = i + 1;
    }
    None
}

/// Decides the supporting plane of loop `l`; see [`plane_outcome`]. The
/// candidate comes from three consecutive vertices of the loop if they
/// span a plane, or else from the hull of one of its curves; the loop is
/// planar when every hull point lies on it.
pub fn supporting_plane<P, C: CurveGeometry<P>, S: SurfaceGeometry<P>>(
    vertices: &[P],
    curves: &[C],
    edges: &[Edge],
    l: &Loop,
) -> (r: TopoResult<Option<S>>)
    requires
        l.valid(edges@.len()),
        forall|i: int|
            0 <= i < edges@.len() ==> (#[trigger] edges@[i]).valid(vertices@.len(), curves@.len()),
    ensures
        plane_outcome(vertices@, curves@, edges@, l.elements@, r),
{
    let vs = loop_vertices(edges, l);
    proof {
        assert forall|k: int| 0 <= k < vs@.len() implies #[trigger] vs@[k] < vertices@.len() by {
            assert(vs@.contains(vs@[k]));
            assert(loop_touches(edges@, *l, vs@[k]));
            let q = choose|q: int|
                0 <= q < l.elements@.len() && match edges@[(#[trigger] l.elements@[q]).edge as int].bounds {
                    Some(b) => b.start == vs@[k] || b.end == vs@[k],
                    None => false,
                };
            assert(edges@[l.elements@[q].edge as int].valid(vertices@.len(), curves@.len()));
        }
        assert forall|v: VertexIndex| vs@.contains(v) <==> touches(edges@, l.elements@, v) by {
            assert(loop_touches(edges@, *l, v) == touches(edges@, l.elements@, v));
        }
    }
    let ghost vpts = vertex_points(vertices@, vs@);
    // One hull per edge of the loop.
    let mut hulls: Vec<Vec<P>> = Vec::new();
    let mut e: usize = 0;
    while e < l.elements.len()
        invariant
            l.valid(edges@.len()),
            forall|i: int|
                0 <= i < edges@.len() ==> (#[trigger] edges@[i]).valid(vertices@.len(), curves@.len()),
            e <= l.elements@.len(),
            hulls@.len() == e,
            forall|q: int|
                0 <= q < e ==> #[trigger] hull_reported(
                    vertices@,
                    curves@,
                    edges@[l.elements@[q].edge as int],
                    hulls@[q]@,
                ),
        decreases l.elements@.len() - e,
    {
        assert(l.elements@[e as int].edge < edges@.len());
        hulls.push(edge_hull(vertices, curves, &edges[l.elements[e].edge]));
        e = e + 1;
    }
    let ghost hs = hulls@.map_values(|h: Vec<P>| h@);
    // The candidate plane from the vertices.
    let mut plane: Option<S> = None;
    let mut i: usize = 0;
    while plane.is_none() && vs.len() >= 3 && i < vs.len() - 2
        invariant
            forall|k: int| 0 <= k < vs@.len() ==> #[trigger] vs@[k] < vertices@.len(),
            vpts == vertex_points(vertices@, vs@),
            match plane {
                Some(s) => first_plane(vpts, s),
                None => forall|j: int|
                    0 <= j < i ==> #[trigger] plane_reported::<P, S>(vpts[j], vpts[j + 1], vpts[j + 2], None),
            },
        decreases vs@.len() - i,
    {
        plane = S::plane_from_three_points(&vertices[vs[i]], &vertices[vs[i + 1]], &vertices[vs[i + 2]]);
        proof {
            assert(vpts[i as int] == vertices@[vs@[i as int] as int]);
            assert(vpts[i + 1] == vertices@[vs@[i + 1] as int]);
            assert(vpts[i + 2] == vertices@[vs@[i + 2] as int]);
            if plane is Some {
                assert(plane_reported(vpts[i as int], vpts[i + 1], vpts[i + 2], plane));
            }
        }
        i = i + 1;
    }
    let ghost from_vertices = plane is Some;
    // Or else from the first hull that spans one.
    let mut e: usize = 0;
    while plane.is_none() && e < hulls.len()
        invariant
            hs == hulls@.map_values(|h: Vec<P>| h@),
            from_vertices ==> plane is Some && first_plane(vpts, plane->Some_0),
            !from_vertices ==> no_plane::<P, S>(vpts),
            !from_vertices ==> match plane {
                Some(s) => exists|q: int|
                    0 <= q < hs.len() && #[trigger] first_plane(hs[q], s) && forall|w: int|
                        0 <= w < q ==> #[trigger] no_plane::<P, S>(hs[w]),
                None => forall|w: int| 0 <= w < e ==> #[trigger] no_plane::<P, S>(hs[w]),
            },
            e <= hulls@.len(),
        decreases hulls@.len() - e,
    {
        plane = plane_through(hulls[e].as_slice());
        proof {
            assert(hs[e as int] == hulls@[e as int]@);
            if plane is Some {
                assert(first_plane(hs[e as int], plane->Some_0));
            }
        }
        e = e + 1;
    }
    let plane = match plane {
        Some(p) => p,
        None => {
            proof {
                assert(support_witness(vertices@, curves@, edges@, l.elements@, vs@, hs, Err::<Option<S>, TopoError>(TopoError::DegenerateLoop)));
            }
            return Err(TopoError::DegenerateLoop);
        },
    };
    assert(candidate_plane(vpts, hs, plane));
    assert forall|q: int|
        0 <= q < l.elements@.len() implies #[trigger] hull_reported(vertices@, curves@, edges@[l.elements@[q].edge as int], hs[q]) by {
        assert(hs[q] == hulls@[q]@);
    }
    // Every hull point must lie on it.
    e = 0;
    while e < hulls.len()
        invariant
            hs == hulls@.map_values(|h: Vec<P>| h@),
            candidate_plane(vpts, hs, plane),
            vpts == vertex_points(vertices@, vs@),
            hs.len() == l.elements@.len(),
            forall|q: int|
                0 <= q < l.elements@.len() ==> #[trigger] hull_reported(vertices@, curves@, edges@[l.elements@[q].edge as int], hs[q]),
            forall|a: int, b: int| 0 <= a < b < vs@.len() ==> vs@[a] < vs@[b],
            forall|v: VertexIndex| vs@.contains(v) <==> touches(edges@, l.elements@, v),
            e <= hulls@.len(),
            forall|q: int, j: int|
                0 <= q < e && 0 <= j < hs[q].len() ==> #[trigger] contains_reported(plane, hs[q][j], true),
        decreases hulls@.len() - e,
    {
        let hull = &hulls[e];
        let mut j: usize = 0;
        while j < hull.len()
            invariant
                hs == hulls@.map_values(|h: Vec<P>| h@),
                candidate_plane(vpts, hs, plane),
                vpts == vertex_points(vertices@, vs@),
            vpts == vertex_points(vertices@, vs@),
                hs.len() == l.elements@.len(),
                forall|q: int|
                    0 <= q < l.elements@.len() ==> #[trigger] hull_reported(vertices@, curves@, edges@[l.elements@[q].edge as int], hs[q]),
                forall|a: int, b: int| 0 <= a < b < vs@.len() ==> vs@[a] < vs@[b],
                forall|v: VertexIndex| vs@.contains(v) <==> touches(edges@, l.elements@, v),
                e < hulls@.len(),
                *hull == hulls@[e as int],
                j <= hull@.len(),
                forall|q: int, k: int|
                    0 <= q < e && 0 <= k < hs[q].len() ==> #[trigger] contains_reported(plane, hs[q][k], true),
                forall|k: int| 0 <= k < j ==> #[trigger] contains_reported(plane, hs[e as int][k], true),
            decreases hull@.len() - j,
        {
            if !plane.contains(&hull[j]) {
                proof {
                    assert(contains_reported(plane, hs[e as int][j as int], false));
                    assert(plane_decided(vpts, hs, Ok::<Option<S>, TopoError>(None)));
                    assert(support_witness(vertices@, curves@, edges@, l.elements@, vs@, hs, Ok::<Option<S>, TopoError>(None)));
                }
                return Ok(None);
            }
            j = j + 1;
        }
        e = e + 1;
    }
    proof {
        assert(all_contained(hs, plane));
        assert(support_witness(vertices@, curves@, edges@, l.elements@, vs@, hs, Ok::<Option<S>, TopoError>(Some(plane))));
    }
    Ok(Some(plane))
}

/// The number of loops among the first `i` that have a plane.
pub open spec fn planes_before<S>(planes: Seq<Option<S>>, i: int) -> nat
    decreases i,
{
    if i <= 0 {
        0
    } else {
        planes_before(planes, i - 1) + if planes[i - 1] is Some {
            1nat
        } else {
            0nat
        }
    }
}

proof fn lemma_planes_before_bound<S>(planes: Seq<Option<S>>, i: int)
    requires
        0 <= i,
    ensures
        planes_before(planes, i) <= i,
    decreases i,
{
    if i > 0 {
        lemma_planes_before_bound(planes, i - 1);
    }
}

/// `after` is `before` with one face appended for each loop that has a
/// plane, in order: the face is bounded by that loop alone, on a surface
/// that stands for the plane (the plane itself, or a stored surface that
/// was reported coincident with it).
pub open spec fn faces_added<P, S: SurfaceGeometry<P>>(
    before: Seq<Face>,
    after: Seq<Face>,
    surfaces: Seq<S>,
    loops: Seq<Seq<DirectedEdge>>,
    planes: Seq<Option<S>>,
) -> bool {
    &&& after.len() == before.len() + planes_before(planes, planes.len() as int)
    &&& after.subrange(0, before.len() as int) == before
    &&& forall|i: int|
        0 <= i < planes.len() && (#[trigger] planes[i]) is Some ==> {
            let f = after[(before.len() + planes_before(planes, i)) as int];
            &&& f.bounds@.len() == 1
            &&& f.bounds@[0].elements@ == loops[i]
            &&& f.surface < surfaces.len()
            &&& (surfaces[f.surface as int] == planes[i]->Some_0 || exists|d: Direction|
                surfaces_reported(planes[i]->Some_0, surfaces[f.surface as int], Some(d)))
        }
}

/// Adds a planar face for each loop that has a plane; see [`faces_added`].
/// Vertices, curves, edges and solids are unchanged, and surfaces are only
/// appended.
pub fn add_planar_faces<P, C, S: SurfaceGeometry<P>>(
    topo: Topo<P, C, S>,
    loops: &Vec<Loop>,
    planes: Vec<Option<S>>,
) -> (r: Topo<P, C, S>)
    requires
        topo.wf(),
        loops@.len() == planes@.len(),
        forall|i: int| 0 <= i < loops@.len() ==> (#[trigger] loops@[i]).valid(topo.edge_seq().len()),
    ensures
        r.wf(),
        r.vertex_seq() == topo.vertex_seq(),
        r.curve_seq() == topo.curve_seq(),
        r.edge_seq() == topo.edge_seq(),
        r.solid_seq() == topo.solid_seq(),
        r.surface_seq().len() >= topo.surface_seq().len(),
        r.surface_seq().subrange(0, topo.surface_seq().len() as int) == topo.surface_seq(),
        faces_added(topo.face_seq(), r.face_seq(), r.surface_seq(), loop_elements(loops@), planes@),
{
    let ghost all_planes = planes@;
    let ghost original = topo;
    let mut topo = topo;
    let mut planes = planes;
    let mut i: usize = 0;
    while i < loops.len()
        invariant
            loops@.len() == all_planes.len(),
            i <= loops@.len(),
            planes@ == all_planes.subrange(i as int, all_planes.len() as int),
            forall|k: int| 0 <= k < loops@.len() ==> (#[trigger] loops@[k]).valid(original.edge_seq().len()),
            topo.wf(),
            topo.vertex_seq() == original.vertex_seq(),
            topo.curve_seq() == original.curve_seq(),
            topo.edge_seq() == original.edge_seq(),
            topo.solid_seq() == original.solid_seq(),
            topo.surface_seq().len() >= original.surface_seq().len(),
            topo.surface_seq().subrange(0, original.surface_seq().len() as int) == original.surface_seq(),
            topo.face_seq().len() == original.face_seq().len() + planes_before(all_planes, i as int),
            topo.face_seq().subrange(0, original.face_seq().len() as int) == original.face_seq(),
            forall|k: int|
                0 <= k < i && (#[trigger] all_planes[k]) is Some ==> {
                    let f = topo.face_seq()[(original.face_seq().len() + planes_before(all_planes, k)) as int];
                    &&& f.bounds@.len() == 1
                    &&& f.bounds@[0].elements@ == loops@[k].elements@
                    &&& f.surface < topo.surface_seq().len()
                    &&& (topo.surface_seq()[f.surface as int] == all_planes[k]->Some_0 || exists|d: Direction|
                        surfaces_reported(all_planes[k]->Some_0, topo.surface_seq()[f.surface as int], Some(d)))
                },
        decreases loops@.len() - i,
    {
        proof {
            lemma_planes_before_bound(all_planes, i as int);
        }
        let ghost s0 = topo.surface_seq();
        let ghost f0 = topo.face_seq();
        let plane = planes.remove(0);
        assert(plane == all_planes[i as int]);
        match plane {
            Some(plane) => {
                let (surface, direction) = topo.push_surface(plane);
                let l = copy_loop(&loops[i]);
                let face = Face { surface, bounds: vec![l] };
                proof {
                    assert(face.bounds@[0].elements@ == loops@[i as int].elements@);
                    assert(face.bounds@[0].valid(topo.edge_seq().len()));
                    assert(topo.surface_seq().subrange(0, original.surface_seq().len() as int)
                        =~= original.surface_seq()) by {
                        assert(s0.subrange(0, original.surface_seq().len() as int) == original.surface_seq());
                    }
                    if surface < s0.len() {
                        assert(surfaces_reported(all_planes[i as int]->Some_0, topo.surface_seq()[surface as int], Some(direction)));
                    }
                }
                topo.push_face(face);
                proof {
                    assert(topo.face_seq().subrange(0, original.face_seq().len() as int)
                        =~= original.face_seq()) by {
                        assert(f0.subrange(0, original.face_seq().len() as int) == original.face_seq());
                    }
                    assert forall|k: int|
                        0 <= k < i + 1 && (#[trigger] all_planes[k]) is Some implies {
                            let f = topo.face_seq()[(original.face_seq().len() + planes_before(all_planes, k)) as int];
                            &&& f.bounds@.len() == 1
                            &&& f.bounds@[0].elements@ == loops@[k].elements@
                            &&& f.surface < topo.surface_seq().len()
                            &&& (topo.surface_seq()[f.surface as int] == all_planes[k]->Some_0 || exists|d: Direction|
                                surfaces_reported(all_planes[k]->Some_0, topo.surface_seq()[f.surface as int], Some(d)))
                        } by {
                        if k < i {
                            lemma_planes_before_bound(all_planes, k);
                            assert(planes_before(all_planes, k) < planes_before(all_planes, i as int)) by {
                                lemma_planes_before_monotone(all_planes, k + 1, i as int);
                            }
                            let j = (original.face_seq().len() + planes_before(all_planes, k)) as int;
                            assert(topo.face_seq()[j] == f0[j]);
                            assert(topo.surface_seq()[f0[j].surface as int] == s0[f0[j].surface as int]);
                        } else {
                            if surface < s0.len() {
                                assert(surfaces_reported(all_planes[k]->Some_0, topo.surface_seq()[surface as int], Some(direction)));
                            }
                        }
                    }
                }
            },
            None => {
                proof {
                    assert forall|k: int|
                        0 <= k < i + 1 && (#[trigger] all_planes[k]) is Some implies {
                            let f = topo.face_seq()[(original.face_seq().len() + planes_before(all_planes, k)) as int];
                            &&& f.bounds@.len() == 1
                            &&& f.bounds@[0].elements@ == loops@[k].elements@
                            &&& f.surface < topo.surface_seq().len()
                            &&& (topo.surface_seq()[f.surface as int] == all_planes[k]->Some_0 || exists|d: Direction|
                                surfaces_reported(all_planes[k]->Some_0, topo.surface_seq()[f.surface as int], Some(d)))
                        } by {
                        assert(k < i);
                    }
                }
            },
        }
        proof {
            assert(planes@ =~= all_planes.subrange(i + 1, all_planes.len() as int));
        }
        i = i + 1;
    }
    topo
}

proof fn lemma_planes_before_monotone<S>(planes: Seq<Option<S>>, a: int, b: int)
    requires
        0 <= a <= b,
    ensures
        planes_before(planes, a) <= planes_before(planes, b),
    decreases b - a,
{
    if a < b {
        lemma_planes_before_monotone(planes, a, b - 1);
    }
}

/// Turns each closed loop of coplanar edges into a planar face: for each
/// loop found in the edges, in order, [`supporting_plane`] decides whether
/// it is planar. A loop with a curve off its plane is skipped; a loop that
/// spans no plane at all is an error.
pub fn planar_face<P, C: CurveGeometry<P>, S: SurfaceGeometry<P>>(topo: Topo<P, C, S>) -> (r:
    TopoResult<Topo<P, C, S>>)
    requires
        topo.wf(),
        2 * topo.edge_seq().len() <= usize::MAX,
    ensures
        r is Err ==> {
            &&& r == Err::<Topo<P, C, S>, TopoError>(TopoError::DegenerateLoop)
            &&& exists|i: int|
                0 <= i < loops_by_search(topo.edge_seq()).len() && #[trigger] plane_outcome(
                    topo.vertex_seq(),
                    topo.curve_seq(),
                    topo.edge_seq(),
                    loops_by_search(topo.edge_seq())[i],
                    Err::<Option<S>, TopoError>(TopoError::DegenerateLoop),
                )
        },
        r matches Ok(t) ==> {
            &&& t.wf()
            &&& t.vertex_seq() == topo.vertex_seq()
            &&& t.curve_seq() == topo.curve_seq()
            &&& t.edge_seq() == topo.edge_seq()
            &&& t.solid_seq() == topo.solid_seq()
            &&& t.surface_seq().len() >= topo.surface_seq().len()
            &&& t.surface_seq().subrange(0, topo.surface_seq().len() as int) == topo.surface_seq()
            &&& exists|planes: Seq<Option<S>>|
                {
                    &&& planes.len() == loops_by_search(topo.edge_seq()).len()
                    &&& forall|i: int|
                        0 <= i < planes.len() ==> plane_outcome(
                            topo.vertex_seq(),
                            topo.curve_seq(),
                            topo.edge_seq(),
                            loops_by_search(topo.edge_seq())[i],
                            Ok::<Option<S>, TopoError>(#[trigger] planes[i]),
                        )
                    &&& faces_added(
                        topo.face_seq(),
                        t.face_seq(),
                        t.surface_seq(),
                        loops_by_search(topo.edge_seq()),
                        planes,
                    )
                }
        },
{
    let loops = topo.possible_loops();
    let ghost searched = loops_by_search(topo.edge_seq());
    let mut planes: Vec<Option<S>> = Vec::new();
    let mut i: usize = 0;
    while i < loops.len()
        invariant
            topo.wf(),
            loop_elements(loops@) == searched,
            searched == loops_by_search(topo.edge_seq()),
            forall|k: int| 0 <= k < loops@.len() ==> is_found_loop(topo.edge_seq(), #[trigger] loops@[k]),
            i <= loops@.len(),
            planes@.len() == i,
            forall|k: int|
                0 <= k < i ==> plane_outcome(
                    topo.vertex_seq(),
                    topo.curve_seq(),
                    topo.edge_seq(),
                    searched[k],
                    Ok::<Option<S>, TopoError>(#[trigger] planes@[k]),
                ),
        decreases loops@.len() - i,
    {
        proof {
            lemma_found_loop_valid(topo.edge_seq(), loops@[i as int]);
            topo.lemma_edges_valid();
            assert(searched[i as int] == loops@[i as int].elements@);
        }
        let decision = supporting_plane(topo.vertices(), topo.curves(), topo.edges(), &loops[i]);
        match decision {
            Err(e) => {
                proof {
                    assert(plane_outcome(
                        topo.vertex_seq(),
                        topo.curve_seq(),
                        topo.edge_seq(),
                        searched[i as int],
                        Err::<Option<S>, TopoError>(e),
                    ));
                    let w = choose|vs: Seq<VertexIndex>, hulls: Seq<Seq<P>>|
                        #[trigger] support_witness(topo.vertex_seq(), topo.curve_seq(), topo.edge_seq(), searched[i as int], vs, hulls, Err::<Option<S>, TopoError>(e));
                    assert(e == TopoError::DegenerateLoop);
                }
                return Err(e);
            },
            Ok(plane) => {
                planes.push(plane);
            },
        }
        i = i + 1;
    }
    proof {
        assert forall|k: int| 0 <= k < loops@.len() implies (#[trigger] loops@[k]).valid(topo.edge_seq().len()) by {
            lemma_found_loop_valid(topo.edge_seq(), loops@[k]);
        }
    }
    let ghost chosen = planes@;
    assert(chosen.len() == loops@.len());
    assert(loop_elements(loops@).len() == loops@.len());
    let t = add_planar_faces(topo, &loops, planes);
    proof {
        assert(faces_added(topo.face_seq(), t.face_seq(), t.surface_seq(), searched, chosen));
        assert(chosen.len() == searched.len());
    }
    Ok(t)
}

} // verus!
