//! Directed graphs on the vertices `0..n`, given by their arcs, and the
//! traversals that are run on them.

use vstd::prelude::*;
use petgraph::algo::{is_cyclic_directed, tarjan_scc};
use petgraph::graph::NodeIndex;
use petgraph::visit::{depth_first_search, DfsEvent};
use petgraph::{Directed, Graph};

verus! {

/// Every arc joins two of the vertices `0..n`.
pub open spec fn arcs_fit(n: usize, arcs: Seq<(usize, usize)>) -> bool {
    forall|k: int| 0 <= k < arcs.len() ==> (#[trigger] arcs[k]).0 < n && arcs[k].1 < n
}

/// A walk: at least one vertex, and an arc from each vertex to the next.
pub open spec fn is_walk(arcs: Seq<(usize, usize)>, p: Seq<usize>) -> bool {
    p.len() >= 1 && forall|i: int|
        0 <= i < p.len() - 1 ==> arcs.contains((#[trigger] p[i], p[i + 1]))
}

/// Whether some walk leads from `a` to `b`. Every vertex reaches itself.
pub open spec fn reaches(arcs: Seq<(usize, usize)>, a: usize, b: usize) -> bool {
    exists|p: Seq<usize>| is_walk(arcs, p) && p.first() == a && p.last() == b
}

/// A walk that an arc closes: from its last vertex back to its first.
pub open spec fn is_cycle(arcs: Seq<(usize, usize)>, p: Seq<usize>) -> bool {
    is_walk(arcs, p) && arcs.contains((p.last(), p.first()))
}

/// Whether the graph has a cycle. A loop at one vertex is one.
pub open spec fn cyclic(arcs: Seq<(usize, usize)>) -> bool {
    exists|p: Seq<usize>| is_cycle(arcs, p)
}

/// Whether some part holds the vertex `v`.
pub open spec fn listed(parts: Seq<Vec<usize>>, v: usize) -> bool {
    exists|c: int, k: int|
        0 <= c < parts.len() && 0 <= k < parts[c].len() && #[trigger] parts[c]@[k] == v
}

/// No part is empty, and the parts hold vertices of the graph.
pub open spec fn parts_fit(n: usize, parts: Seq<Vec<usize>>) -> bool {
    &&& forall|c: int| 0 <= c < parts.len() ==> (#[trigger] parts[c]).len() > 0
    &&& forall|c: int, k: int|
        0 <= c < parts.len() && 0 <= k < parts[c].len() ==> (#[trigger] parts[c]@[k]) < n
}

/// Every vertex of the graph is in some part.
pub open spec fn parts_cover(n: usize, parts: Seq<Vec<usize>>) -> bool {
    forall|v: usize| v < n ==> #[trigger] listed(parts, v)
}

/// Two places hold the same vertex only if they are the same place.
#[verifier::opaque]
pub open spec fn parts_are_apart(parts: Seq<Vec<usize>>) -> bool {
    forall|c: int, k: int, d: int, l: int|
        0 <= c < parts.len() && 0 <= k < parts[c].len() && 0 <= d < parts.len() && 0 <= l
            < parts[d].len() && #[trigger] parts[c]@[k] == #[trigger] parts[d]@[l] ==> c == d && k
            == l
}

/// Two vertices share a part exactly if each reaches the other.
#[verifier::opaque]
pub open spec fn parts_are_connected(arcs: Seq<(usize, usize)>, parts: Seq<Vec<usize>>) -> bool {
    forall|c: int, k: int, d: int, l: int|
        0 <= c < parts.len() && 0 <= k < parts[c].len() && 0 <= d < parts.len() && 0 <= l
            < parts[d].len() ==> (c == d <==> reaches(
            arcs,
            #[trigger] parts[c]@[k],
            #[trigger] parts[d]@[l],
        ) && reaches(arcs, parts[d]@[l], parts[c]@[k]))
}

/// An arc between two parts enters the earlier one.
#[verifier::opaque]
pub open spec fn parts_are_ordered(arcs: Seq<(usize, usize)>, parts: Seq<Vec<usize>>) -> bool {
    forall|c: int, k: int, d: int, l: int|
        0 <= c < parts.len() && 0 <= k < parts[c].len() && 0 <= d < parts.len() && 0 <= l
            < parts[d].len() && c != d && arcs.contains(
            (#[trigger] parts[c]@[k], #[trigger] parts[d]@[l]),
        ) ==> d < c
}

/// Whether `parts` lists the strongly connected components of the graph, a
/// component that an arc leaves standing after the one that the arc enters.
pub open spec fn is_component_list(
    n: usize,
    arcs: Seq<(usize, usize)>,
    parts: Seq<Vec<usize>>,
) -> bool {
    &&& parts_fit(n, parts)
    &&& parts_cover(n, parts)
    &&& parts_are_apart(parts)
    &&& parts_are_connected(arcs, parts)
    &&& parts_are_ordered(arcs, parts)
}

/// Whether `back` and `done` can be what a depth-first traversal from `start`
/// reports: `done` the vertices in the order in which they are finished,
/// `back` the arcs that were found to enter a vertex not yet finished.
#[verifier::opaque]
pub open spec fn is_traversal(
    arcs: Seq<(usize, usize)>,
    start: usize,
    back: Seq<(usize, usize)>,
    done: Seq<usize>,
) -> bool {
    &&& done.no_duplicates()
    &&& done.contains(start)
    &&& forall|i: int| 0 <= i < done.len() ==> reaches(arcs, start, #[trigger] done[i])
    &&& forall|k: int|
        0 <= k < back.len() ==> arcs.contains(#[trigger] back[k]) && done.contains(back[k].1)
    // every arc that leaves a finished vertex was followed: it is a back arc,
    // or it enters a vertex that was finished earlier
    &&& forall|k: int, i: int|
        0 <= k < arcs.len() && 0 <= i < done.len() && (#[trigger] arcs[k]).0 == #[trigger] done[i]
            ==> back.contains(arcs[k]) || exists|j: int| 0 <= j < i && done[j] == arcs[k].1
}

/// The vertex that follows place `i` on a cycle.
pub open spec fn next_on<T>(p: Seq<T>, i: int) -> T {
    if i + 1 < p.len() {
        p[i + 1]
    } else {
        p[0]
    }
}

/// Whether the cycle `p` runs along one of the given arcs.
pub open spec fn crosses<T>(p: Seq<T>, arcs: Seq<(T, T)>) -> bool {
    exists|i: int| 0 <= i < p.len() && arcs.contains((#[trigger] p[i], next_on(p, i)))
}

/// Where `v` stands in the finishing order.
pub open spec fn finished_at(done: Seq<usize>, v: usize) -> int {
    choose|i: int| 0 <= i < done.len() && done[i] == v
}

/// A traversal finishes every vertex on a walk that starts at a finished
/// vertex.
pub proof fn traversal_covers_walk(
    arcs: Seq<(usize, usize)>,
    start: usize,
    back: Seq<(usize, usize)>,
    done: Seq<usize>,
    q: Seq<usize>,
    i: int,
)
    requires
        is_traversal(arcs, start, back, done),
        is_walk(arcs, q),
        done.contains(q[0]),
        0 <= i < q.len(),
    ensures
        done.contains(q[i]),
    decreases i,
{
    if i > 0 {
        traversal_covers_walk(arcs, start, back, done, q, i - 1);
        arc_stays_finished(arcs, start, back, done, q[i - 1], q[i]);
    }
}

/// An arc that leaves a finished vertex enters a finished vertex; unless it
/// is a back arc, one that was finished earlier.
pub proof fn arc_stays_finished(
    arcs: Seq<(usize, usize)>,
    start: usize,
    back: Seq<(usize, usize)>,
    done: Seq<usize>,
    a: usize,
    b: usize,
)
    requires
        is_traversal(arcs, start, back, done),
        arcs.contains((a, b)),
        done.contains(a),
    ensures
        done.contains(b),
        !back.contains((a, b)) ==> finished_at(done, b) < finished_at(done, a),
{
    reveal(is_traversal);
    let k = choose|k: int| 0 <= k < arcs.len() && arcs[k] == (a, b);
    let i = finished_at(done, a);
    assert(arcs[k].0 == done[i]);
    if back.contains(arcs[k]) {
        let e = choose|e: int| 0 <= e < back.len() && back[e] == arcs[k];
        assert(done.contains(back[e].1));
    } else {
        let j = choose|j: int| 0 <= j < i && done[j] == arcs[k].1;
        assert(done[j] == b);
        let jj = finished_at(done, b);
        assert(jj == j);
    }
}

/// What a traversal finishes is reached from the start, and the start is
/// finished.
pub proof fn traversal_stays_in_reach(
    arcs: Seq<(usize, usize)>,
    start: usize,
    back: Seq<(usize, usize)>,
    done: Seq<usize>,
    v: usize,
)
    requires
        is_traversal(arcs, start, back, done),
    ensures
        done.contains(start),
        done.contains(v) ==> reaches(arcs, start, v),
        forall|k: int| 0 <= k < back.len() ==> arcs.contains(#[trigger] back[k]),
{
    reveal(is_traversal);
    if done.contains(v) {
        let i = choose|i: int| 0 <= i < done.len() && done[i] == v;
        assert(reaches(arcs, start, done[i]));
    }
}

/// Every cycle through a finished vertex runs along a back arc.
pub proof fn traversal_cuts_cycles(
    arcs: Seq<(usize, usize)>,
    start: usize,
    back: Seq<(usize, usize)>,
    done: Seq<usize>,
    q: Seq<usize>,
)
    requires
        is_traversal(arcs, start, back, done),
        is_cycle(arcs, q),
        done.contains(q[0]),
    ensures
        crosses(q, back),
{
    if !crosses(q, back) {
        assert forall|i: int| 0 <= i < q.len() implies finished_at(done, #[trigger] q[i])
            <= finished_at(done, q[0]) - i by {
            falls_along_walk(arcs, start, back, done, q, i);
        }
        let l = q.len() - 1;
        traversal_covers_walk(arcs, start, back, done, q, l);
        assert(!back.contains((q[l], next_on(q, l))));
        arc_stays_finished(arcs, start, back, done, q[l], q[0]);
        assert(finished_at(done, q[l]) <= finished_at(done, q[0]) - l);
    }
}

/// Along a walk that runs along no back arc the finishing places fall.
proof fn falls_along_walk(
    arcs: Seq<(usize, usize)>,
    start: usize,
    back: Seq<(usize, usize)>,
    done: Seq<usize>,
    q: Seq<usize>,
    i: int,
)
    requires
        is_traversal(arcs, start, back, done),
        is_walk(arcs, q),
        done.contains(q[0]),
        !crosses(q, back),
        0 <= i < q.len(),
    ensures
        finished_at(done, q[i]) <= finished_at(done, q[0]) - i,
    decreases i,
{
    if i > 0 {
        falls_along_walk(arcs, start, back, done, q, i - 1);
        traversal_covers_walk(arcs, start, back, done, q, i - 1);
        assert(!back.contains((q[i - 1], next_on(q, i - 1))));
        arc_stays_finished(arcs, start, back, done, q[i - 1], q[i]);
    }
}

/// The strongly connected components of the graph, as `petgraph::algo::tarjan_scc`
/// computes them on a `petgraph::Graph` with `n` nodes and the given arcs.
/// Taken from its documentation: each element is a strongly connected
/// component, and the components come in reverse topological order.
#[verifier::external_body]
pub(crate) fn tarjan_components(n: usize, arcs: &Vec<(usize, usize)>) -> (parts: Vec<Vec<usize>>)
    requires
        arcs_fit(n, arcs@),
    ensures
        is_component_list(n, arcs@, parts@),
{
    let mut g = Graph::<(), (), Directed, usize>::with_capacity(n, arcs.len());
    for _ in 0..n {
        g.add_node(());
    }
    for &(a, b) in arcs.iter() {
        g.add_edge(NodeIndex::new(a), NodeIndex::new(b), ());
    }
    tarjan_scc(&g).into_iter().map(|c| c.into_iter().map(|x| x.index()).collect()).collect()
}

/// Whether the graph has a cycle, as `petgraph::algo::is_cyclic_directed`
/// finds on a `petgraph::Graph` with `n` nodes and the given arcs. Taken from
/// its documentation: true if the directed graph contains a cycle.
#[verifier::external_body]
pub(crate) fn has_cycle(n: usize, arcs: &Vec<(usize, usize)>) -> (r: bool)
    requires
        arcs_fit(n, arcs@),
    ensures
        r == cyclic(arcs@),
{
    let mut g = Graph::<(), (), Directed, usize>::with_capacity(n, arcs.len());
    for _ in 0..n {
        g.add_node(());
    }
    for &(a, b) in arcs.iter() {
        g.add_edge(NodeIndex::new(a), NodeIndex::new(b), ());
    }
    is_cyclic_directed(&g)
}

/// The back arcs and the finishing order that `petgraph::visit::depth_first_search`
/// reports from `start` on a `petgraph::Graph` with `n` nodes and the given
/// arcs. Taken from its source: only the start and what an arc from a
/// discovered vertex enters is discovered, and every discovered vertex is
/// finished once, when all its arcs were followed; an arc is reported as a
/// back arc if it enters a vertex that is discovered and not finished, and
/// every other arc enters a vertex that is finished before the one it
/// leaves.
#[verifier::external_body]
pub(crate) fn traversal(n: usize, arcs: &Vec<(usize, usize)>, start: usize) -> (r: (
    Vec<(usize, usize)>,
    Vec<usize>,
))
    requires
        arcs_fit(n, arcs@),
        start < n,
    ensures
        is_traversal(arcs@, start, r.0@, r.1@),
        forall|i: int| 0 <= i < r.1.len() ==> (#[trigger] r.1@[i]) < n,
{
    let mut g = Graph::<(), (), Directed, usize>::with_capacity(n, arcs.len());
    for _ in 0..n {
        g.add_node(());
    }
    for &(a, b) in arcs.iter() {
        g.add_edge(NodeIndex::new(a), NodeIndex::new(b), ());
    }
    let (mut back, mut done) = (Vec::new(), Vec::new());
    depth_first_search(&g, Some(NodeIndex::new(start)), |e| match e {
        DfsEvent::BackEdge(u, v) => back.push((u.index(), v.index())),
        DfsEvent::Finish(u, _) => done.push(u.index()),
        _ => (),
    });
    (back, done)
}

} // verus!
