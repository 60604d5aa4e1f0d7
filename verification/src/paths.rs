//! Walks and cycles of a block graph, and how they show in the graph of its
//! slots.

use vstd::prelude::*;
use crate::digraph::{arcs_fit, crosses, cyclic, is_cycle, is_traversal, is_walk, next_on, reaches,
    traversal_covers_walk, traversal_cuts_cycles, traversal_stays_in_reach};
use crate::graph::GraphView;
use crate::vertex::{VAGNodeId, Vertex};

verus! {

impl<N: VAGNodeId> GraphView<N> {
    /// A walk: it starts at a block, and an edge leads from each vertex to
    /// the next.
    pub open spec fn is_walk(self, p: Seq<Vertex<N>>) -> bool {
        p.len() >= 1 && self.has(p[0]) && forall|i: int|
            0 <= i < p.len() - 1 ==> self.edge(#[trigger] p[i], p[i + 1])
    }

    /// Whether some walk leads from `u` to `v`. Every block reaches itself.
    pub open spec fn reaches(self, u: Vertex<N>, v: Vertex<N>) -> bool {
        exists|p: Seq<Vertex<N>>| self.is_walk(p) && p.first() == u && p.last() == v
    }

    /// A walk that an edge closes.
    pub open spec fn is_cycle(self, p: Seq<Vertex<N>>) -> bool {
        self.is_walk(p) && self.edge(p.last(), p.first())
    }

    /// Whether the graph has a cycle. A block that names itself is one.
    pub open spec fn cyclic(self) -> bool {
        exists|p: Seq<Vertex<N>>| self.is_cycle(p)
    }

    /// Whether the arcs are the edges of the graph, slot by slot.
    pub open spec fn mirrored_by(self, arcs: Seq<(usize, usize)>) -> bool {
        &&& self.size() <= usize::MAX
        &&& arcs_fit(self.size() as usize, arcs)
        &&& forall|a: usize, b: usize|
            a < self.size() && b < self.size() ==> (#[trigger] arcs.contains((a, b)) <==> self.edge(
                self.addr(a as int),
                self.addr(b as int),
            ))
    }

    /// The slots of the vertices of a walk.
    pub open spec fn slots(self, p: Seq<Vertex<N>>) -> Seq<usize> {
        Seq::new(p.len(), |i: int| self.slot(p[i]) as usize)
    }

    /// The addresses in the slots of a walk.
    pub open spec fn addrs(self, q: Seq<usize>) -> Seq<Vertex<N>> {
        Seq::new(q.len(), |i: int| self.addr(q[i] as int))
    }

    /// Every vertex of a walk in a closed graph is a block.
    pub proof fn walk_stays_inside(self, p: Seq<Vertex<N>>, i: int)
        requires
            self.wf(),
            self.closed(),
            self.is_walk(p),
            0 <= i < p.len(),
        ensures
            self.has(p[i]),
        decreases i,
    {
        if i > 0 {
            self.walk_stays_inside(p, i - 1);
            assert(self.edge(p[i - 1], p[i]));
            self.edge_ends(p[i - 1], p[i]);
        }
    }

    /// Both ends of an edge of a closed graph are blocks.
    pub proof fn edge_ends(self, u: Vertex<N>, v: Vertex<N>)
        requires
            self.wf(),
            self.closed(),
            self.edge(u, v),
        ensures
            self.has(u),
            self.has(v),
            0 <= self.slot(u) < self.size(),
            0 <= self.slot(v) < self.size(),
            self.addr(self.slot(u)) == u,
            self.addr(self.slot(v)) == v,
    {
        let i = self.slot(u);
        let k = choose|k: int| 0 <= k < self.at(u).targets.len() && self.at(u).targets[k] == v;
        assert(self.has(self.blocks[i].targets[k]));
    }

    /// A walk of the graph is a walk of its slots.
    pub proof fn walk_in_slots(self, arcs: Seq<(usize, usize)>, p: Seq<Vertex<N>>)
        requires
            self.wf(),
            self.closed(),
            self.mirrored_by(arcs),
            self.is_walk(p),
        ensures
            is_walk(arcs, self.slots(p)),
            self.slots(p).len() == p.len(),
            forall|i: int| 0 <= i < p.len() ==> (#[trigger] self.slots(p)[i]) < self.size()
                && self.addr(self.slots(p)[i] as int) == p[i],
    {
        let q = self.slots(p);
        assert forall|i: int| 0 <= i < p.len() implies (#[trigger] q[i]) < self.size() && self.addr(
            q[i] as int,
        ) == p[i] by {
            self.walk_stays_inside(p, i);
        }
        assert forall|i: int| 0 <= i < q.len() - 1 implies arcs.contains((#[trigger] q[i], q[i + 1])) by {
            assert(self.edge(p[i], p[i + 1]));
            assert(q[i + 1] < self.size());
        }
    }

    /// A walk of the slots that starts at a block is a walk of the graph.
    pub proof fn walk_from_slots(self, arcs: Seq<(usize, usize)>, q: Seq<usize>)
        requires
            self.wf(),
            self.mirrored_by(arcs),
            is_walk(arcs, q),
            q[0] < self.size(),
        ensures
            self.is_walk(self.addrs(q)),
            forall|i: int| 0 <= i < q.len() ==> (#[trigger] q[i]) < self.size(),
    {
        let p = self.addrs(q);
        assert forall|i: int| 0 <= i < q.len() implies (#[trigger] q[i]) < self.size() by {
            if i > 0 {
                assert(arcs.contains((q[i - 1], q[i - 1 + 1])));
                let k = choose|k: int| 0 <= k < arcs.len() && arcs[k] == (q[i - 1], q[i]);
                assert(arcs[k].1 < self.size());
            }
        }
        assert(self.addr(q[0] as int) == p[0]);
        assert forall|i: int| 0 <= i < p.len() - 1 implies self.edge(#[trigger] p[i], p[i + 1]) by {
            assert(arcs.contains((q[i], q[i + 1])));
            assert(q[i] < self.size());
            assert(q[i + 1] < self.size());
        }
    }

    /// Slots reach one another exactly as their blocks do.
    pub proof fn reaches_in_slots(self, arcs: Seq<(usize, usize)>, a: usize, b: usize)
        requires
            self.wf(),
            self.closed(),
            self.mirrored_by(arcs),
            a < self.size(),
            b < self.size(),
        ensures
            reaches(arcs, a, b) <==> self.reaches(self.addr(a as int), self.addr(b as int)),
    {
        if reaches(arcs, a, b) {
            let q = choose|q: Seq<usize>| is_walk(arcs, q) && q.first() == a && q.last() == b;
            self.walk_from_slots(arcs, q);
            let p = self.addrs(q);
            assert(p.first() == self.addr(a as int) && p.last() == self.addr(b as int));
        }
        if self.reaches(self.addr(a as int), self.addr(b as int)) {
            let p = choose|p: Seq<Vertex<N>>|
                self.is_walk(p) && p.first() == self.addr(a as int) && p.last() == self.addr(
                    b as int,
                );
            self.walk_in_slots(arcs, p);
            self.slot_is_unique(a as int);
            self.slot_is_unique(b as int);
            let q = self.slots(p);
            assert(q.first() == a && q.last() == b);
        }
    }

    /// The graph has a cycle exactly if the graph of its slots has one.
    pub proof fn cyclic_in_slots(self, arcs: Seq<(usize, usize)>)
        requires
            self.wf(),
            self.closed(),
            self.mirrored_by(arcs),
        ensures
            cyclic(arcs) <==> self.cyclic(),
    {
        if cyclic(arcs) {
            let q = choose|q: Seq<usize>| is_cycle(arcs, q);
            let k = choose|k: int| 0 <= k < arcs.len() && arcs[k] == (q.last(), q.first());
            assert(arcs[k].1 < self.size());
            self.walk_from_slots(arcs, q);
            let p = self.addrs(q);
            assert(q[q.len() - 1] < self.size());
            assert(self.is_cycle(p));
        }
        if self.cyclic() {
            let p = choose|p: Seq<Vertex<N>>| self.is_cycle(p);
            self.walk_in_slots(arcs, p);
            let q = self.slots(p);
            assert(q[q.len() - 1] < self.size() && q[0] < self.size());
            assert(is_cycle(arcs, q));
        }
    }

    /// An edge is a walk.
    pub proof fn edge_reaches(self, u: Vertex<N>, v: Vertex<N>)
        requires
            self.edge(u, v),
        ensures
            self.reaches(u, v),
    {
        let p = seq![u, v];
        assert(self.is_walk(p) && p.first() == u && p.last() == v);
    }

    /// The start of a walk reaches each of its vertices, and each of them
    /// reaches its end.
    pub proof fn walk_parts(self, p: Seq<Vertex<N>>, i: int)
        requires
            self.wf(),
            self.closed(),
            self.is_walk(p),
            0 <= i < p.len(),
        ensures
            self.reaches(p.first(), p[i]),
            self.reaches(p[i], p.last()),
    {
        let a = p.take(i + 1);
        assert(self.is_walk(a) && a.first() == p.first() && a.last() == p[i]) by {
            assert forall|k: int| 0 <= k < a.len() - 1 implies self.edge(#[trigger] a[k], a[k + 1]) by {
                assert(self.edge(p[k], p[k + 1]));
            }
        }
        let b = p.skip(i);
        self.walk_stays_inside(p, i);
        assert(self.is_walk(b) && b.first() == p[i] && b.last() == p.last()) by {
            assert forall|k: int| 0 <= k < b.len() - 1 implies self.edge(#[trigger] b[k], b[k + 1]) by {
                assert(self.edge(p[i + k], p[i + k + 1]));
            }
        }
    }

    /// Reaching goes on: from `a` to `b` and from `b` to `c` is from `a` to `c`.
    pub proof fn reaches_is_transitive(self, a: Vertex<N>, b: Vertex<N>, c: Vertex<N>)
        requires
            self.reaches(a, b),
            self.reaches(b, c),
        ensures
            self.reaches(a, c),
    {
        let p = choose|p: Seq<Vertex<N>>| self.is_walk(p) && p.first() == a && p.last() == b;
        let q = choose|q: Seq<Vertex<N>>| self.is_walk(q) && q.first() == b && q.last() == c;
        let r = p + q.skip(1);
        assert forall|k: int| 0 <= k < r.len() - 1 implies self.edge(#[trigger] r[k], r[k + 1]) by {
            if k < p.len() - 1 {
                assert(self.edge(p[k], p[k + 1]));
            } else if k == p.len() - 1 {
                assert(self.edge(q[0int], q[0int + 1]));
            } else {
                let j = k - p.len() + 1;
                assert(self.edge(q[j], q[j + 1]));
            }
        }
        assert(r[0] == p[0]);
        assert(self.is_walk(r) && r.first() == a && r.last() == c);
    }

    /// A graph in which a rank falls along every edge has no cycle.
    pub proof fn ranked_is_acyclic(self, rank: spec_fn(Vertex<N>) -> int)
        requires
            forall|u: Vertex<N>, v: Vertex<N>| #[trigger] self.edge(u, v) ==> rank(v) < rank(u),
        ensures
            !self.cyclic(),
    {
        if self.cyclic() {
            let p = choose|p: Seq<Vertex<N>>| self.is_cycle(p);
            self.rank_falls(rank, p, p.len() - 1);
            assert(self.edge(p.last(), p.first()));
        }
    }

    /// Along a walk the rank falls by one at least with every edge.
    proof fn rank_falls(self, rank: spec_fn(Vertex<N>) -> int, p: Seq<Vertex<N>>, i: int)
        requires
            forall|u: Vertex<N>, v: Vertex<N>| #[trigger] self.edge(u, v) ==> rank(v) < rank(u),
            self.is_walk(p),
            0 <= i < p.len(),
        ensures
            rank(p[i]) <= rank(p[0]) - i,
        decreases i,
    {
        if i > 0 {
            self.rank_falls(rank, p, i - 1);
            assert(self.edge(p[i - 1], p[i - 1 + 1]));
        }
    }

    /// Whether `edges` are the given arcs between slots, as edges between
    /// the blocks in these slots.
    pub open spec fn names_arcs(
        self,
        arcs: Seq<(usize, usize)>,
        edges: Seq<(Vertex<N>, Vertex<N>)>,
    ) -> bool {
        &&& edges.len() == arcs.len()
        &&& forall|k: int|
            0 <= k < arcs.len() ==> (#[trigger] arcs[k]).0 < self.size() && arcs[k].1 < self.size()
                && edges[k] == (self.addr(arcs[k].0 as int), self.addr(arcs[k].1 as int))
    }

    /// Arcs of the graph of slots are edges of the graph.
    pub proof fn back_arcs_are_edges(
        self,
        arcs: Seq<(usize, usize)>,
        back: Seq<(usize, usize)>,
        edges: Seq<(Vertex<N>, Vertex<N>)>,
    )
        requires
            self.wf(),
            self.mirrored_by(arcs),
            self.names_arcs(back, edges),
            forall|k: int| 0 <= k < back.len() ==> arcs.contains(#[trigger] back[k]),
        ensures
            forall|k: int| 0 <= k < edges.len() ==> self.edge((#[trigger] edges[k]).0, edges[k].1),
    {
        assert forall|k: int| 0 <= k < edges.len() implies self.edge(
            (#[trigger] edges[k]).0,
            edges[k].1,
        ) by {
            assert(arcs.contains(back[k]));
            assert(arcs.contains((back[k].0, back[k].1)));
        }
    }

    /// A cycle that the entry reaches runs along one of the back edges of a
    /// traversal from the entry.
    pub proof fn back_arcs_cut_cycle(
        self,
        arcs: Seq<(usize, usize)>,
        start: usize,
        back: Seq<(usize, usize)>,
        done: Seq<usize>,
        edges: Seq<(Vertex<N>, Vertex<N>)>,
        p: Seq<Vertex<N>>,
    )
        requires
            self.wf(),
            self.closed(),
            self.mirrored_by(arcs),
            start < self.size(),
            self.addr(start as int) == self.entry,
            is_traversal(arcs, start, back, done),
            self.names_arcs(back, edges),
            self.is_cycle(p),
            self.reaches(self.entry, p[0]),
        ensures
            crosses(p, edges),
    {
        let w = choose|w: Seq<Vertex<N>>|
            self.is_walk(w) && w.first() == self.entry && w.last() == p[0];
        self.walk_in_slots(arcs, w);
        self.walk_in_slots(arcs, p);
        let qw = self.slots(w);
        let q = self.slots(p);
        self.slot_is_unique(start as int);
        assert(qw[0] == start);
        traversal_stays_in_reach(arcs, start, back, done, start);
        traversal_covers_walk(arcs, start, back, done, qw, qw.len() - 1);
        assert(qw[qw.len() - 1] == q[0]);
        assert(q[q.len() - 1] < self.size() && q[0] < self.size());
        assert(self.edge(p.last(), p.first()));
        assert(is_cycle(arcs, q));
        traversal_cuts_cycles(arcs, start, back, done, q);
        let i = choose|i: int| 0 <= i < q.len() && back.contains((#[trigger] q[i], next_on(q, i)));
        let k = choose|k: int| 0 <= k < back.len() && back[k] == (q[i], next_on(q, i));
        assert(edges[k] == (p[i], next_on(p, i)));
        assert(edges.contains((p[i], next_on(p, i))));
    }
}

} // verus!
