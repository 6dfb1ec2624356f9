use vstd::prelude::*;

use crate::direction::Direction;
use crate::topo::{DirectedEdge, Edge, Loop};

verus! {

/// The directed edge that node `k` of the search graph stands for: each
/// edge `e` gives node `2e` (forward) and node `2e + 1` (reverse).
pub open spec fn node(k: int) -> DirectedEdge {
    DirectedEdge {
        edge: (k / 2) as usize,
        direction: if k % 2 == 0 {
            Direction::Forward
        } else {
            Direction::Reverse
        },
    }
}

/// Directed edge `b` may follow directed edge `a` in a loop: they lie on
/// different bounded edges, and `b` starts where `a` ends.
pub open spec fn follows(edges: Seq<Edge>, a: DirectedEdge, b: DirectedEdge) -> bool {
    &&& a.edge < edges.len()
    &&& b.edge < edges.len()
    &&& a.edge != b.edge
    &&& match (edges[a.edge as int].bounds, edges[b.edge as int].bounds) {
        (Some(x), Some(y)) => x.end_in(a.direction) == y.start_in(b.direction),
        _ => false,
    }
}

/// `s` is a closed chain: each element is followed by the next, and the
/// last by the first.
pub open spec fn is_closed_chain(edges: Seq<Edge>, s: Seq<DirectedEdge>) -> bool {
    &&& s.len() > 0
    &&& forall|i: int| 0 <= i < s.len() - 1 ==> #[trigger] follows(edges, s[i], s[i + 1])
    &&& follows(edges, s[s.len() - 1], s[0])
}

/// What the loop finder promises of each loop it reports: a closed chain
/// that uses no directed edge twice and starts with a forward one.
pub open spec fn is_found_loop(edges: Seq<Edge>, l: Loop) -> bool {
    &&& is_closed_chain(edges, l.elements@)
    &&& l.elements@.no_duplicates()
    &&& l.elements@[0].direction == Direction::Forward
}

/// The nodes below `m` that may follow node `a`, in increasing order.
pub open spec fn successors_below(edges: Seq<Edge>, a: int, m: int) -> Seq<usize>
    decreases m,
{
    if m <= 0 {
        Seq::empty()
    } else {
        successors_below(edges, a, m - 1) + if follows(edges, node(a), node(m - 1)) {
            seq![(m - 1) as usize]
        } else {
            Seq::empty()
        }
    }
}

/// The nodes that may follow node `a`, in increasing order.
pub open spec fn successors_of(edges: Seq<Edge>, a: int) -> Seq<usize> {
    successors_below(edges, a, 2 * edges.len() as int)
}

proof fn lemma_no_successors(edges: Seq<Edge>, a: int, m: int)
    requires
        !(edges[node(a).edge as int].bounds is Some),
    ensures
        successors_below(edges, a, m) == Seq::<usize>::empty(),
    decreases m,
{
    if m > 0 {
        lemma_no_successors(edges, a, m - 1);
        assert(!follows(edges, node(a), node(m - 1)));
        assert(successors_below(edges, a, m) =~= Seq::<usize>::empty());
    }
}

proof fn lemma_successors_len(edges: Seq<Edge>, a: int, m: int)
    requires
        0 <= m,
    ensures
        successors_below(edges, a, m).len() <= m,
    decreases m,
{
    if m > 0 {
        lemma_successors_len(edges, a, m - 1);
    }
}

fn node_at(k: usize) -> (r: DirectedEdge)
    ensures
        r == node(k as int),
{
    DirectedEdge {
        edge: k / 2,
        direction: if k % 2 == 0 {
            Direction::Forward
        } else {
            Direction::Reverse
        },
    }
}

/// The nodes that may follow node `a`, in increasing order.
fn successors(edges: &[Edge], a: usize) -> (r: Vec<usize>)
    requires
        a < 2 * edges@.len(),
        2 * edges@.len() <= usize::MAX,
    ensures
        forall|j: int|
            0 <= j < r@.len() ==> #[trigger] r@[j] < 2 * edges@.len() && follows(
                edges@,
                node(a as int),
                node(r@[j] as int),
            ),
        forall|m: int|
            0 <= m < 2 * edges@.len() && follows(edges@, node(a as int), node(m)) ==> r@.contains(
                m as usize,
            ),
        forall|i: int, j: int| 0 <= i < j < r@.len() ==> r@[i] < r@[j],
        r@ == successors_of(edges@, a as int),
{
    let da = node_at(a);
    assert(da.edge < edges@.len());
    let mut r: Vec<usize> = Vec::new();
    match edges[da.edge].bounds {
        None => {
            proof {
                lemma_no_successors(edges@, a as int, 2 * edges@.len() as int);
            }
        },
        Some(ea) => {
            let end = ea.end_with_direction(da.direction);
            let n = edges.len() * 2;
            let mut m: usize = 0;
            while m < n
                invariant
                    n == 2 * edges@.len(),
                    m <= n,
                    da == node(a as int),
                    da.edge < edges@.len(),
                    edges@[da.edge as int].bounds == Some(ea),
                    end == ea.end_in(da.direction),
                    forall|j: int|
                        0 <= j < r@.len() ==> #[trigger] r@[j] < m && follows(
                            edges@,
                            node(a as int),
                            node(r@[j] as int),
                        ),
                    forall|k: int|
                        0 <= k < m && follows(edges@, node(a as int), node(k)) ==> r@.contains(
                            k as usize,
                        ),
                    forall|i: int, j: int| 0 <= i < j < r@.len() ==> r@[i] < r@[j],
                    r@ == successors_below(edges@, a as int, m as int),
                decreases n - m,
            {
                let dm = node_at(m);
                assert(dm.edge < edges@.len());
                let ghost r_before = r@;
                if dm.edge != da.edge {
                    match edges[dm.edge].bounds {
                        Some(em) => {
                            if em.start_with_direction(dm.direction) == end {
                                assert(follows(edges@, da, dm));
                                r.push(m);
                            }
                        },
                        None => {},
                    }
                }
                proof {
                    if follows(edges@, node(a as int), node(m as int)) {
                        assert(r@ =~= r_before + seq![m]);
                    } else {
                        assert(r@ =~= r_before + Seq::<usize>::empty());
                    }
                    assert forall|k: int|
                        0 <= k < m + 1 && follows(edges@, node(a as int), node(k)) implies r@.contains(
                        k as usize,
                    ) by {
                        if k == m {
                            assert(dm.edge != da.edge);
                            assert(edges@[dm.edge as int].bounds is Some);
                            assert(r@[r@.len() - 1] == m);
                        } else {
                            assert(r_before.contains(k as usize));
                            let w = choose|w: int| 0 <= w < r_before.len() && r_before[w] == k as usize;
                            assert(r@[w] == k as usize);
                        }
                    }
                }
                m = m + 1;
            }
        },
    }
    r
}


/// Distinct nodes stand for distinct directed edges.
proof fn lemma_node_injective(a: int, b: int)
    requires
        0 <= a <= usize::MAX,
        0 <= b <= usize::MAX,
        node(a) == node(b),
    ensures
        a == b,
{
    assert(a / 2 == b / 2);
    assert(a % 2 == b % 2);
}

/// The loop made of the nodes of `path` from position `start` on.
fn loop_from_path(edges: &[Edge], path: &Vec<usize>, start: usize) -> (r: Loop)
    requires
        start < path@.len(),
        forall|j: int|
            0 < j < path@.len() ==> #[trigger] follows(
                edges@,
                node(path@[j - 1] as int),
                node(path@[j] as int),
            ),
        follows(edges@, node(path@[path@.len() - 1] as int), node(path@[start as int] as int)),
        path@[start as int] % 2 == 0,
        forall|i: int, j: int| 0 <= i < j < path@.len() ==> path@[i] != path@[j],
    ensures
        is_found_loop(edges@, r),
        r.elements@.len() == path@.len() - start,
        forall|i: int|
            0 <= i < r.elements@.len() ==> #[trigger] r.elements@[i] == node(
                path@[start + i] as int,
            ),
{
    let mut elements: Vec<DirectedEdge> = Vec::new();
    let mut k: usize = start;
    while k < path.len()
        invariant
            start <= k <= path@.len(),
            elements@.len() == k - start,
            forall|i: int|
                0 <= i < elements@.len() ==> #[trigger] elements@[i] == node(
                    path@[start + i] as int,
                ),
        decreases path@.len() - k,
    {
        elements.push(node_at(path[k]));
        k = k + 1;
    }
    let ghost s = elements@;
    assert forall|i: int| 0 <= i < s.len() - 1 implies #[trigger] follows(edges@, s[i], s[i + 1]) by {
        assert(follows(edges@, node(path@[start + i + 1 - 1] as int), node(path@[start + i + 1] as int)));
    }
    assert forall|i: int, j: int| 0 <= i < s.len() && 0 <= j < s.len() && i != j implies s[i] != s[j] by {
        if s[i] == s[j] {
            lemma_node_injective(path@[start + i] as int, path@[start + j] as int);
            if i < j {
                assert(path@[start + i] != path@[start + j]);
            } else {
                assert(path@[start + j] != path@[start + i]);
            }
        }
    }
    Loop { elements }
}


/// Search state of a node: not yet visited, on the current path, or done.
#[derive(Clone, Copy, PartialEq, Eq, Structural)]
pub enum Color {
    White,
    Grey,
    Black,
}

spec fn whites(c: Seq<Color>) -> nat
    decreases c.len(),
{
    if c.len() == 0 {
        0
    } else {
        whites(c.drop_last()) + if c.last() == Color::White {
            1nat
        } else {
            0nat
        }
    }
}

proof fn lemma_whites_update(c: Seq<Color>, k: int, v: Color)
    requires
        0 <= k < c.len(),
        v != Color::White,
    ensures
        c[k] == Color::White ==> whites(c.update(k, v)) + 1 == whites(c),
        c[k] != Color::White ==> whites(c.update(k, v)) == whites(c),
    decreases c.len(),
{
    if k == c.len() - 1 {
        assert(c.update(k, v).drop_last() =~= c.drop_last());
    } else {
        assert(c.update(k, v).drop_last() =~= c.drop_last().update(k, v));
        lemma_whites_update(c.drop_last(), k, v);
    }
}

/// Whether stack position `i` holds the visit of a node on the current path.
spec fn on_path(path_len: int, ppos: Seq<int>, pc: Seq<int>, i: int) -> bool {
    pc[i] < path_len && ppos[pc[i]] == i
}

/// Node `b` may follow node `a`.
#[verifier::opaque]
spec fn adj(edges: Seq<Edge>, a: int, b: int) -> bool {
    follows(edges, node(a), node(b))
}

/// The number of nodes of the search graph.
spec fn nodes(edges: Seq<Edge>) -> int {
    2 * edges.len() as int
}

/// Every listed successor is a node that may follow.
spec fn conn_ok(edges: Seq<Edge>, conn: Seq<Vec<usize>>) -> bool {
    &&& nodes(edges) <= usize::MAX
    &&& conn.len() == nodes(edges)
    &&& forall|a: int, j: int|
        0 <= a < nodes(edges) && 0 <= j < conn[a]@.len() ==> #[trigger] conn[a]@[j] < nodes(edges) && adj(edges, a, conn[a]@[j] as int)
}

/// `path` is a chain of distinct grey nodes, visited at increasing stack
/// positions `ppos`, and every grey node is on it at its place `gidx`.
spec fn path_ok(edges: Seq<Edge>, color: Seq<Color>, path: Seq<usize>, ppos: Seq<int>, gidx: Seq<int>) -> bool {
    &&& color.len() == nodes(edges)
    &&& gidx.len() == nodes(edges)
    &&& ppos.len() == path.len()
    &&& forall|j: int|
        0 <= j < path.len() ==> #[trigger] path[j] < nodes(edges) && color[path[j] as int]
            == Color::Grey && gidx[path[j] as int] == j
    &&& forall|j: int| 0 < j < path.len() ==> ppos[j - 1] < #[trigger] ppos[j]
    &&& forall|j: int|
        0 < j < path.len() ==> #[trigger] adj(edges, path[j - 1] as int, path[j] as int)
    &&& forall|x: int|
        0 <= x < nodes(edges) && #[trigger] color[x] == Color::Grey ==> 0 <= gidx[x] && gidx[x]
            < path.len() && path[gidx[x]] == x
}

/// The stack holds nodes, and each path node sits at its stack position.
spec fn stack_ok(edges: Seq<Edge>, stack: Seq<usize>, path: Seq<usize>, ppos: Seq<int>) -> bool {
    &&& forall|i: int| 0 <= i < stack.len() ==> #[trigger] stack[i] < nodes(edges)
    &&& forall|j: int|
        0 <= j < path.len() ==> 0 <= #[trigger] ppos[j] && ppos[j] < stack.len() && stack[ppos[j]]
            == path[j]
}

/// What is known of stack position `i`: `pc[i]` counts the path positions
/// below it, and an entry off the path was pushed by the visit of the last
/// path node below it (or at the start, when there is none).
spec fn entry_ok(
    edges: Seq<Edge>,
    stack: Seq<usize>,
    color: Seq<Color>,
    path: Seq<usize>,
    ppos: Seq<int>,
    pc: Seq<int>,
    parent: Seq<int>,
    gidx: Seq<int>,
    i: int,
) -> bool {
    &&& 0 <= pc[i] <= path.len()
    &&& pc[i] < path.len() ==> ppos[pc[i]] >= i
    &&& pc[i] > 0 ==> ppos[pc[i] - 1] < i
    &&& !on_path(path.len() as int, ppos, pc, i) ==> {
        &&& if parent[i] < 0 {
            pc[i] == 0
        } else {
            &&& pc[i] > 0
            &&& parent[i] == ppos[pc[i] - 1]
            &&& adj(edges, stack[parent[i]] as int, stack[i] as int)
        }
        &&& color[stack[i] as int] == Color::Grey ==> ppos[gidx[stack[i] as int]] > i
    }
}

/// The invariant of the depth-first search.
///
/// `path` is the chain of grey nodes being explored, `ppos[j]` the stack
/// position at which `path[j]` was visited, `pc[i]` the number of path
/// positions below stack position `i`, `parent[i]` the stack position of the
/// visit that pushed entry `i` (negative for the entries pushed at the
/// start), and `gidx[x]` the place of grey node `x` on the path.
spec fn search_inv(
    edges: Seq<Edge>,
    conn: Seq<Vec<usize>>,
    stack: Seq<usize>,
    color: Seq<Color>,
    path: Seq<usize>,
    ppos: Seq<int>,
    pc: Seq<int>,
    parent: Seq<int>,
    gidx: Seq<int>,
) -> bool {
    &&& conn_ok(edges, conn)
    &&& path_ok(edges, color, path, ppos, gidx)
    &&& stack_ok(edges, stack, path, ppos)
    &&& pc.len() == stack.len()
    &&& parent.len() == stack.len()
    &&& forall|i: int|
        0 <= i < stack.len() ==> #[trigger] entry_ok(
            edges,
            stack,
            color,
            path,
            ppos,
            pc,
            parent,
            gidx,
            i,
        )
}

/// The state of the search: the stack of nodes still to explore, the mark
/// of each node, the path of nodes being explored, and the loops found.
pub type SearchState = (Seq<usize>, Seq<Color>, Seq<usize>, Seq<Seq<DirectedEdge>>);

/// The first place at or after `i` where `m` stands on `path`.
pub open spec fn first_index(path: Seq<usize>, m: usize, i: int) -> int
    decreases path.len() - i,
{
    if 0 <= i < path.len() {
        if path[i] == m {
            i
        } else {
            first_index(path, m, i + 1)
        }
    } else {
        path.len() as int
    }
}

/// The loop closed by stepping back to node `m` of the path: the directed
/// edges of the path from `m` on.
pub open spec fn path_loop(path: Seq<usize>, m: usize) -> Seq<DirectedEdge> {
    path.subrange(first_index(path, m, 0), path.len() as int).map_values(|k: usize| node(k as int))
}

/// Examines the successors `succ[j..]` of the node just marked: a
/// successor not yet visited is pushed to be explored, and one on the path
/// closes a loop, which is kept when the successor is a forward node.
pub open spec fn visit_successors(succ: Seq<usize>, j: int, st: SearchState) -> SearchState
    decreases succ.len() - j,
{
    if 0 <= j < succ.len() {
        let m = succ[j];
        let next = if st.1[m as int] == Color::White {
            (st.0.push(m), st.1, st.2, st.3)
        } else if st.1[m as int] == Color::Grey && m % 2 == 0 {
            (st.0, st.1, st.2, st.3.push(path_loop(st.2, m)))
        } else {
            st
        };
        visit_successors(succ, j + 1, next)
    } else {
        st
    }
}

/// One step of the search on the node at the top of the stack: a node not
/// yet visited is marked, joins the path and has its successors examined;
/// a node on the path is finished and leaves it; a finished one is dropped.
pub open spec fn search_step(edges: Seq<Edge>, st: SearchState) -> SearchState {
    if st.0.len() == 0 {
        st
    } else {
        let top = st.0.last();
        if st.1[top as int] == Color::White {
            visit_successors(
                successors_of(edges, top as int),
                0,
                (st.0, st.1.update(top as int, Color::Grey), st.2.push(top), st.3),
            )
        } else if st.1[top as int] == Color::Grey {
            (st.0.drop_last(), st.1.update(top as int, Color::Black), st.2.drop_last(), st.3)
        } else {
            (st.0.drop_last(), st.1, st.2, st.3)
        }
    }
}

/// The loops found when the search runs from `st` until its stack is empty,
/// or for at most `fuel` steps.
pub open spec fn search_from(edges: Seq<Edge>, st: SearchState, fuel: nat) -> Seq<Seq<DirectedEdge>>
    decreases fuel,
{
    if fuel == 0 || st.0.len() == 0 {
        st.3
    } else {
        search_from(edges, search_step(edges, st), (fuel - 1) as nat)
    }
}

/// Every node on the stack, highest on top, all unvisited, nothing found.
pub open spec fn initial_search(edges: Seq<Edge>) -> SearchState {
    let n = 2 * edges.len();
    (Seq::new(n, |i: int| i as usize), Seq::new(n, |i: int| Color::White), Seq::empty(), Seq::empty())
}

/// The loops that the depth-first search over the directed edges finds.
/// The search always ends within this many steps.
pub open spec fn loops_by_search(edges: Seq<Edge>) -> Seq<Seq<DirectedEdge>> {
    let n = 2 * edges.len();
    search_from(edges, initial_search(edges), n * n + 3 * n)
}

/// The directed edges of each loop.
pub open spec fn loop_elements(loops: Seq<Loop>) -> Seq<Seq<DirectedEdge>> {
    loops.map_values(|l: Loop| l.elements@)
}

proof fn lemma_first_index(path: Seq<usize>, m: usize, i: int, s: int)
    requires
        0 <= i <= s < path.len(),
        path[s] == m,
        forall|k: int| 0 <= k < s ==> path[k] != m,
    ensures
        first_index(path, m, i) == s,
    decreases s - i,
{
    if i < s {
        lemma_first_index(path, m, i + 1, s);
    }
}

proof fn lemma_whites_all(n: nat)
    ensures
        whites(Seq::new(n, |i: int| Color::White)) == n,
    decreases n,
{
    if n > 0 {
        lemma_whites_all((n - 1) as nat);
        assert(Seq::new(n, |i: int| Color::White).drop_last() =~= Seq::new((n - 1) as nat, |i: int| Color::White));
    }
}

proof fn lemma_whites_bound(c: Seq<Color>)
    ensures
        whites(c) <= c.len(),
    decreases c.len(),
{
    if c.len() > 0 {
        lemma_whites_bound(c.drop_last());
    }
}

/// On a white top entry: the entry is off the path, and marking it grey
/// and appending it to the path keeps the invariant.
proof fn lemma_visit(
    edges: Seq<Edge>,
    conn: Seq<Vec<usize>>,
    stack: Seq<usize>,
    color: Seq<Color>,
    path: Seq<usize>,
    ppos: Seq<int>,
    pc: Seq<int>,
    parent: Seq<int>,
    gidx: Seq<int>,
)
    requires
        search_inv(edges, conn, stack, color, path, ppos, pc, parent, gidx),
        stack.len() > 0,
        color[stack[stack.len() - 1] as int] == Color::White,
    ensures
        search_inv(
            edges,
            conn,
            stack,
            color.update(stack[stack.len() - 1] as int, Color::Grey),
            path.push(stack[stack.len() - 1]),
            ppos.push(stack.len() - 1),
            pc,
            parent,
            gidx.update(stack[stack.len() - 1] as int, path.len() as int),
        ),
{
    let t = stack.len() - 1;
    let top = stack[t];
    let l = path.len() as int;
    assert(entry_ok(edges, stack, color, path, ppos, pc, parent, gidx, t));
    assert(0 <= pc[t] <= l);
    if pc[t] < l {
        assert(ppos[pc[t]] >= t);
        assert(stack[ppos[pc[t]]] == path[pc[t]]);
        assert(color[path[pc[t]] as int] == Color::Grey);
    }
    assert(pc[t] == l);
    assert(!on_path(l, ppos, pc, t));
    let color2 = color.update(top as int, Color::Grey);
    let path2 = path.push(top);
    let ppos2 = ppos.push(t);
    let gidx2 = gidx.update(top as int, l);
    assert forall|j: int| 0 <= j < path2.len() implies (0 <= #[trigger] ppos2[j] && ppos2[j] < stack.len() && stack[ppos2[j]] == path2[j] && path2[j] < nodes(edges) && color2[path2[j] as int] == Color::Grey && gidx2[path2[j] as int] == j) by {
        if j < l {
            assert(stack[ppos[j]] == path[j]);
            assert(color[path[j] as int] == Color::Grey);
        }
    }
    assert forall|j: int| 0 < j < path2.len() implies ppos2[j - 1] < #[trigger] ppos2[j] by {
        if j == l {
            assert(stack[ppos[j - 1]] == path[j - 1]);
            assert(color[path[j - 1] as int] == Color::Grey);
        }
    }
    assert forall|j: int|
        0 < j < path2.len() implies #[trigger] adj(edges, path2[j - 1] as int, path2[j] as int) by {
        if j == l {
            assert(parent[t] >= 0);
            assert(stack[ppos[l - 1]] == path[l - 1]);
        } else {
            assert(adj(edges, path[j - 1] as int, path[j] as int));
        }
    }
    assert forall|x: int|
        0 <= x < nodes(edges) && #[trigger] color2[x] == Color::Grey implies 0 <= gidx2[x] && gidx2[x] < path2.len()
        && path2[gidx2[x]] == x by {
        if x != top {
            assert(color[x] == Color::Grey);
        }
    }
    assert forall|i: int| 0 <= i < stack.len() implies #[trigger] entry_ok(
        edges,
        stack,
        color2,
        path2,
        ppos2,
        pc,
        parent,
        gidx2,
        i,
    ) by {
        assert(entry_ok(edges, stack, color, path, ppos, pc, parent, gidx, i));
        assert(0 <= pc[i] <= l);
        if !on_path(path2.len() as int, ppos2, pc, i) {
            assert(!on_path(l, ppos, pc, i));
            if color2[stack[i] as int] == Color::Grey && stack[i] != top {
                assert(color[stack[i] as int] == Color::Grey);
                assert(0 <= gidx[stack[i] as int] < l);
            }
        }
    }
}

/// After a visit, pushing a white successor of the visited node keeps the
/// invariant.
#[verifier::rlimit(60)]
proof fn lemma_push_successor(
    edges: Seq<Edge>,
    conn: Seq<Vec<usize>>,
    stack: Seq<usize>,
    color: Seq<Color>,
    path: Seq<usize>,
    ppos: Seq<int>,
    pc: Seq<int>,
    parent: Seq<int>,
    gidx: Seq<int>,
    m: usize,
)
    requires
        search_inv(edges, conn, stack, color, path, ppos, pc, parent, gidx),
        path.len() > 0,
        m < nodes(edges),
        adj(edges, path[path.len() - 1] as int, m as int),
        color[m as int] == Color::White,
    ensures
        search_inv(
            edges,
            conn,
            stack.push(m),
            color,
            path,
            ppos,
            pc.push(path.len() as int),
            parent.push(ppos[path.len() - 1]),
            gidx,
        ),
{
    let l = path.len() as int;
    let stack2 = stack.push(m);
    let pc2 = pc.push(l);
    let parent2 = parent.push(ppos[l - 1]);
    assert(stack[ppos[l - 1]] == path[l - 1]);
    assert forall|j: int| 0 <= j < path.len() implies (0 <= #[trigger] ppos[j] && ppos[j] < stack2.len() && stack2[ppos[j]] == path[j] && path[j] < nodes(edges) && color[path[j] as int] == Color::Grey && gidx[path[j] as int] == j) by {}
    assert forall|i: int| 0 <= i < stack2.len() implies #[trigger] stack2[i] < nodes(edges) by {
        if i < stack.len() {
            assert(stack[i] < nodes(edges));
        }
    }
    assert forall|i: int| 0 <= i < stack2.len() implies #[trigger] entry_ok(
        edges,
        stack2,
        color,
        path,
        ppos,
        pc2,
        parent2,
        gidx,
        i,
    ) by {
        if i < stack.len() {
            assert(entry_ok(edges, stack, color, path, ppos, pc, parent, gidx, i));
        }
        if i < stack.len() {
            assert(0 <= pc[i] <= l);
            assert(pc2[i] == pc[i]);
            if !on_path(l, ppos, pc2, i) {
                assert(!on_path(l, ppos, pc, i));
                if parent[i] >= 0 {
                    assert(stack2[parent2[i]] == stack[parent[i]]);
                }
            }
        } else {
            assert(ppos[l - 1] < stack.len());
        }
    }
}

/// On a grey top entry: it is the last node of the path, and finishing it
/// keeps the invariant.
#[verifier::rlimit(60)]
proof fn lemma_finish(
    edges: Seq<Edge>,
    conn: Seq<Vec<usize>>,
    stack: Seq<usize>,
    color: Seq<Color>,
    path: Seq<usize>,
    ppos: Seq<int>,
    pc: Seq<int>,
    parent: Seq<int>,
    gidx: Seq<int>,
)
    requires
        search_inv(edges, conn, stack, color, path, ppos, pc, parent, gidx),
        stack.len() > 0,
        color[stack[stack.len() - 1] as int] == Color::Grey,
    ensures
        path.len() > 0,
        search_inv(
            edges,
            conn,
            stack.drop_last(),
            color.update(stack[stack.len() - 1] as int, Color::Black),
            path.drop_last(),
            ppos.drop_last(),
            pc.drop_last(),
            parent.drop_last(),
            gidx,
        ),
{
    let t = stack.len() - 1;
    let top = stack[t];
    assert(entry_ok(edges, stack, color, path, ppos, pc, parent, gidx, t));
    assert(0 <= pc[t] <= path.len());
    if !on_path(path.len() as int, ppos, pc, t) {
        assert(0 <= gidx[top as int] && gidx[top as int] < path.len());
        assert(ppos[gidx[top as int]] < stack.len());
    }
    assert(on_path(path.len() as int, ppos, pc, t));
    let l = path.len() as int;
    if pc[t] < l - 1 {
        assert(ppos[pc[t] + 1] > ppos[pc[t]]);
        assert(ppos[pc[t] + 1] < stack.len());
    }
    assert(pc[t] == l - 1);
    assert(ppos[l - 1] == t);
    assert(path[l - 1] == top);
    let stack2 = stack.drop_last();
    let color2 = color.update(top as int, Color::Black);
    let path2 = path.drop_last();
    let ppos2 = ppos.drop_last();
    let pc2 = pc.drop_last();
    let parent2 = parent.drop_last();
    assert forall|j: int| 0 <= j < path2.len() implies (0 <= #[trigger] ppos2[j] && ppos2[j] < stack2.len() && stack2[ppos2[j]] == path2[j] && path2[j] < nodes(edges) && color2[path2[j] as int] == Color::Grey && gidx[path2[j] as int] == j) by {
        assert(gidx[path[j] as int] == j);
        assert(gidx[path[l - 1] as int] == l - 1);
        assert(path[j] != top);
        assert(ppos[j] != t);
    }
    assert forall|j: int| 0 < j < path2.len() implies ppos2[j - 1] < #[trigger] ppos2[j] by {
        assert(ppos[j - 1] < ppos[j]);
    }
    assert forall|j: int|
        0 < j < path2.len() implies #[trigger] adj(edges, path2[j - 1] as int, path2[j] as int) by {
        assert(adj(edges, path[j - 1] as int, path[j] as int));
    }
    assert forall|x: int|
        0 <= x < nodes(edges) && #[trigger] color2[x] == Color::Grey implies 0 <= gidx[x] && gidx[x] < path2.len()
        && path2[gidx[x]] == x by {
        assert(color[x] == Color::Grey);
        assert(x != top);
    }
    assert forall|i: int| 0 <= i < stack2.len() implies #[trigger] stack2[i] < nodes(edges) by {
        assert(stack[i] < nodes(edges));
    }
    assert forall|i: int| 0 <= i < stack2.len() implies #[trigger] entry_ok(
        edges,
        stack2,
        color2,
        path2,
        ppos2,
        pc2,
        parent2,
        gidx,
        i,
    ) by {
        assert(entry_ok(edges, stack, color, path, ppos, pc, parent, gidx, i));
        assert(0 <= pc[i] <= l);
        if pc[i] == l {
            assert(ppos[l - 1] < i);
        }
        if !on_path(path2.len() as int, ppos2, pc2, i) {
            assert(!on_path(l, ppos, pc, i));
            if parent[i] >= 0 {
                assert(stack2[parent2[i]] == stack[parent[i]]);
            }
            if color2[stack[i] as int] == Color::Grey {
                assert(stack[i] != top);
                assert(color[stack[i] as int] == Color::Grey);
                assert(0 <= gidx[stack[i] as int] < l);
                assert(gidx[stack[i] as int] != l - 1);
            }
        }
    }
}

/// Dropping a black top entry keeps the path part of the invariant.
#[verifier::rlimit(60)]
proof fn lemma_path_drop_black(
    edges: Seq<Edge>,
    stack: Seq<usize>,
    color: Seq<Color>,
    path: Seq<usize>,
    ppos: Seq<int>,
    gidx: Seq<int>,
)
    requires
        path_ok(edges, color, path, ppos, gidx),
        stack_ok(edges, stack, path, ppos),
        stack.len() > 0,
        color[stack[stack.len() - 1] as int] == Color::Black,
    ensures
        stack_ok(edges, stack.drop_last(), path, ppos),
{
    let t = stack.len() - 1;
    assert forall|j: int| 0 <= j < path.len() implies (0 <= #[trigger] ppos[j] && ppos[j] < stack.drop_last().len() && stack.drop_last()[ppos[j]] == path[j] && path[j] < nodes(edges) && color[path[j] as int] == Color::Grey && gidx[path[j] as int] == j) by {
        assert(stack[ppos[j]] == path[j]);
        assert(color[path[j] as int] == Color::Grey);
        assert(ppos[j] != t);
        assert(path[j] < nodes(edges));
        assert(gidx[path[j] as int] == j);
    }
    assert forall|i: int| 0 <= i < stack.drop_last().len() implies #[trigger] stack.drop_last()[i]
        < nodes(edges) by {
        assert(stack[i] < nodes(edges));
    }
}

/// Dropping a black top entry keeps the invariant.
proof fn lemma_drop_black(
    edges: Seq<Edge>,
    conn: Seq<Vec<usize>>,
    stack: Seq<usize>,
    color: Seq<Color>,
    path: Seq<usize>,
    ppos: Seq<int>,
    pc: Seq<int>,
    parent: Seq<int>,
    gidx: Seq<int>,
)
    requires
        search_inv(edges, conn, stack, color, path, ppos, pc, parent, gidx),
        stack.len() > 0,
        color[stack[stack.len() - 1] as int] == Color::Black,
    ensures
        search_inv(
            edges,
            conn,
            stack.drop_last(),
            color,
            path,
            ppos,
            pc.drop_last(),
            parent.drop_last(),
            gidx,
        ),
{
    lemma_path_drop_black(edges, stack, color, path, ppos, gidx);
    let stack2 = stack.drop_last();
    let pc2 = pc.drop_last();
    let parent2 = parent.drop_last();
    assert forall|i: int| 0 <= i < stack2.len() implies #[trigger] entry_ok(
        edges,
        stack2,
        color,
        path,
        ppos,
        pc2,
        parent2,
        gidx,
        i,
    ) by {
        assert(entry_ok(edges, stack, color, path, ppos, pc, parent, gidx, i));
        if !on_path(path.len() as int, ppos, pc2, i) {
            assert(!on_path(path.len() as int, ppos, pc, i));
            if parent[i] >= 0 {
                assert(stack2[parent2[i]] == stack[parent[i]]);
            }
        }
    }
}

/// Finds closed loops among `edges` by a depth-first search over their
/// directed edges. Each loop is reported once, in the winding whose
/// closing step enters a forward directed edge. The loops are exactly those
/// of [`loops_by_search`], and each is a closed chain.
///
/// When the search steps back onto a node of the current path, the loop is
/// read off the path from that node on. Reading it off the search stack
/// instead would also take in entries that were pushed but not yet explored
/// (siblings on the path, and successors of the current node), which are not
/// part of the chain.
pub fn find_loops(edges: &[Edge]) -> (r: Vec<Loop>)
    requires
        2 * edges@.len() <= usize::MAX,
    ensures
        loop_elements(r@) == loops_by_search(edges@),
        forall|i: int| 0 <= i < r@.len() ==> is_found_loop(edges@, #[trigger] r@[i]),
{
    let n = edges.len() * 2;
    let mut connectivity: Vec<Vec<usize>> = Vec::new();
    let mut a: usize = 0;
    while a < n
        invariant
            n == 2 * edges@.len(),
            2 * edges@.len() <= usize::MAX,
            a <= n,
            connectivity@.len() == a,
            forall|b: int, j: int|
                0 <= b < a && 0 <= j < connectivity@[b]@.len() ==> #[trigger] connectivity@[b]@[j]
                    < n && adj(edges@, b, connectivity@[b]@[j] as int),
            forall|b: int| 0 <= b < a ==> (#[trigger] connectivity@[b])@ == successors_of(edges@, b),
        decreases n - a,
    {
        let succ = successors(edges, a);
        connectivity.push(succ);
        proof {
            assert forall|b: int, j: int|
                0 <= b < a + 1 && 0 <= j < connectivity@[b]@.len() implies #[trigger] connectivity@[b]@[j]
                < n && adj(edges@, b, connectivity@[b]@[j] as int) by {
                reveal(adj);
                if b == a {
                    assert(connectivity@[b]@[j] == succ@[j]);
                }
            }
        }
        a = a + 1;
    }
    let mut stack: Vec<usize> = Vec::new();
    let mut color: Vec<Color> = Vec::new();
    let mut k: usize = 0;
    while k < n
        invariant
            n == 2 * edges@.len(),
            k <= n,
            stack@.len() == k,
            color@.len() == k,
            forall|i: int| 0 <= i < k ==> #[trigger] stack@[i] == i,
            forall|i: int| 0 <= i < k ==> #[trigger] color@[i] == Color::White,
        decreases n - k,
    {
        stack.push(k);
        color.push(Color::White);
        k = k + 1;
    }
    let ghost mut pc: Seq<int> = Seq::new(n as nat, |i: int| 0int);
    let ghost mut parent: Seq<int> = Seq::new(n as nat, |i: int| -1int);
    let ghost mut gidx: Seq<int> = Seq::new(n as nat, |i: int| 0int);
    let ghost mut ppos: Seq<int> = Seq::empty();
    let mut path: Vec<usize> = Vec::new();
    let mut loops: Vec<Loop> = Vec::new();
    let ghost nn: int = n as int;
    let ghost mut fuel: nat = (nn * nn + 3 * nn) as nat;
    proof {
        assert(search_inv(edges@, connectivity@, stack@, color@, path@, ppos, pc, parent, gidx));
        let init = initial_search(edges@);
        assert(stack@ =~= init.0);
        assert(color@ =~= init.1);
        assert(path@ =~= init.2);
        assert(loop_elements(loops@) =~= init.3);
        lemma_whites_all(n as nat);
        assert(color@ =~= Seq::new(n as nat, |i: int| Color::White));
        assert((nn + 2) * nn + nn == nn * nn + 3 * nn) by (nonlinear_arith);
    }
    while stack.len() > 0
        invariant
            nn == 2 * edges@.len(),
            search_inv(edges@, connectivity@, stack@, color@, path@, ppos, pc, parent, gidx),
            forall|i: int| 0 <= i < loops@.len() ==> is_found_loop(edges@, #[trigger] loops@[i]),
            forall|b: int| 0 <= b < nn ==> (#[trigger] connectivity@[b])@ == successors_of(edges@, b),
            search_from(edges@, (stack@, color@, path@, loop_elements(loops@)), fuel) == loops_by_search(
                edges@,
            ),
            fuel >= (nn + 2) * whites(color@) + stack@.len(),
        decreases whites(color@), stack@.len(),
    {
        let ghost old_color = color@;
        let ghost cur: SearchState = (stack@, color@, path@, loop_elements(loops@));
        let ghost w = whites(color@);
        proof {
            assert(w >= 0);
            assert((nn + 2) * w >= 0) by (nonlinear_arith)
                requires nn >= 0 && w >= 0;
            assert(fuel >= 1);
            assert(search_from(edges@, cur, fuel) == search_from(edges@, search_step(edges@, cur), (fuel - 1) as nat));
        }
        let t = stack.len() - 1;
        let top = stack[t];
        match color[top] {
            Color::White => {
                proof {
                    lemma_whites_update(color@, top as int, Color::Grey);
                    lemma_visit(edges@, connectivity@, stack@, color@, path@, ppos, pc, parent, gidx);
                }
                color.set(top, Color::Grey);
                proof {
                    gidx = gidx.update(top as int, path@.len() as int);
                    ppos = ppos.push(t as int);
                }
                path.push(top);
                let succ = &connectivity[top];
                let ghost marked: SearchState = (stack@, color@, path@, loop_elements(loops@));
                proof {
                    assert(marked == (cur.0, cur.1.update(top as int, Color::Grey), cur.2.push(top), cur.3));
                    assert(cur.0.last() == top);
                    assert(succ@ == successors_of(edges@, top as int));
                    assert(search_step(edges@, cur) == visit_successors(succ@, 0, marked));
                    lemma_successors_len(edges@, top as int, nn);
                }
                let mut j: usize = 0;
                while j < succ.len()
                    invariant
                        search_inv(edges@, connectivity@, stack@, color@, path@, ppos, pc, parent, gidx),
                        forall|i: int| 0 <= i < loops@.len() ==> is_found_loop(edges@, #[trigger] loops@[i]),
                        path@.len() > 0,
                        path@[path@.len() - 1] == top,
                        top < 2 * edges@.len(),
                        ppos[path@.len() - 1] == t,
                        *succ == connectivity@[top as int],
                        j <= succ@.len(),
                        whites(color@) < whites(old_color),
                        color@ == marked.1,
                        path@ == marked.2,
                        stack@.len() <= marked.0.len() + j,
                        visit_successors(succ@, j as int, (stack@, color@, path@, loop_elements(loops@)))
                            == visit_successors(succ@, 0, marked),
                    decreases succ@.len() - j,
                {
                    let m = succ[j];
                    let ghost before: SearchState = (stack@, color@, path@, loop_elements(loops@));
                    match color[m] {
                        Color::White => {
                            proof {
                                assert(connectivity@[top as int]@[j as int] == m);
                                lemma_push_successor(
                                    edges@,
                                    connectivity@,
                                    stack@,
                                    color@,
                                    path@,
                                    ppos,
                                    pc,
                                    parent,
                                    gidx,
                                    m,
                                );
                                parent = parent.push(t as int);
                                pc = pc.push(path@.len() as int);
                            }
                            stack.push(m);
                        },
                        Color::Grey => {
                            if m % 2 == 0 {
                                proof {
                                    assert(connectivity@[top as int]@[j as int] == m);
                                    assert(m < nodes(edges@));
                                    assert(color@[m as int] == Color::Grey);
                                }
                                let mut s: usize = 0;
                                while s < path.len() && path[s] != m
                                    invariant
                                        0 <= gidx[m as int] < path@.len(),
                                        path@[gidx[m as int]] == m,
                                        s <= gidx[m as int],
                                        forall|q: int| 0 <= q < s ==> path@[q] != m,
                                    decreases gidx[m as int] - s,
                                {
                                    s = s + 1;
                                }
                                proof {
                                    assert(path@[s as int] == m);
                                    assert(adj(edges@, top as int, m as int));
                                    assert forall|a: int, b: int|
                                        0 <= a < b < path@.len() implies path@[a] != path@[b] by {
                                        assert(gidx[path@[a] as int] == a);
                                        assert(gidx[path@[b] as int] == b);
                                    }
                                    assert forall|q: int|
                                        0 < q < path@.len() implies #[trigger] follows(
                                        edges@,
                                        node(path@[q - 1] as int),
                                        node(path@[q] as int),
                                    ) by {
                                        assert(adj(edges@, path@[q - 1] as int, path@[q] as int));
                                        reveal(adj);
                                    }
                                    reveal(adj);
                                    lemma_first_index(path@, m, 0, s as int);
                                }
                                let l = loop_from_path(edges, &path, s);
                                proof {
                                    assert(l.elements@ =~= path_loop(path@, m));
                                }
                                loops.push(l);
                                proof {
                                    assert(loop_elements(loops@) =~= before.3.push(path_loop(before.2, m)));
                                }
                            }
                        },
                        Color::Black => {},
                    }
                    proof {
                        assert((stack@, color@, path@, loop_elements(loops@)) == if before.1[m as int]
                            == Color::White {
                            (before.0.push(m), before.1, before.2, before.3)
                        } else if before.1[m as int] == Color::Grey && m % 2 == 0 {
                            (before.0, before.1, before.2, before.3.push(path_loop(before.2, m)))
                        } else {
                            before
                        });
                    }
                    j = j + 1;
                }
                proof {
                    assert(whites(color@) + 1 == w);
                    assert((nn + 2) * (w - 1) == (nn + 2) * w - (nn + 2)) by (nonlinear_arith);
                    fuel = (fuel - 1) as nat;
                }
            },
            Color::Grey => {
                proof {
                    lemma_whites_update(color@, top as int, Color::Black);
                    lemma_finish(edges@, connectivity@, stack@, color@, path@, ppos, pc, parent, gidx);
                }
                color.set(top, Color::Black);
                stack.pop();
                path.pop();
                proof {
                    ppos = ppos.drop_last();
                    pc = pc.drop_last();
                    parent = parent.drop_last();
                    fuel = (fuel - 1) as nat;
                }
            },
            Color::Black => {
                proof {
                    lemma_drop_black(edges@, connectivity@, stack@, color@, path@, ppos, pc, parent, gidx);
                }
                stack.pop();
                proof {
                    pc = pc.drop_last();
                    parent = parent.drop_last();
                    fuel = (fuel - 1) as nat;
                }
            },
        }
    }
    loops
}

} // verus!
