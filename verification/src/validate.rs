//! Bringing a graph that was put together by hand into a state in which it
//! can be laid out.

use vstd::prelude::*;
use crate::block::BlockView;
use crate::digraph::{is_traversal, traversal, traversal_covers_walk, traversal_stays_in_reach};
use crate::graph::GraphView;
use crate::vag::VirtualAddressGraph;
use crate::vertex::{VAGNodeId, Vertex};

verus! {

impl<N: VAGNodeId> GraphView<N> {
    /// Those among the first `k` of `targets` that are blocks of the graph.
    pub open spec fn staying(self, targets: Seq<Vertex<N>>, k: int) -> Seq<Vertex<N>>
        decreases k,
    {
        if k <= 0 {
            Seq::empty()
        } else {
            let front = self.staying(targets, k - 1);
            if self.has(targets[k - 1]) {
                front.push(targets[k - 1])
            } else {
                front
            }
        }
    }

    /// The edges from `u` to those among the first `k` of `targets` that are
    /// no blocks of the graph.
    pub open spec fn leaving(self, u: Vertex<N>, targets: Seq<Vertex<N>>, k: int) -> Seq<
        (Vertex<N>, Vertex<N>),
    >
        decreases k,
    {
        if k <= 0 {
            Seq::empty()
        } else {
            let front = self.leaving(u, targets, k - 1);
            if self.has(targets[k - 1]) {
                front
            } else {
                front.push((u, targets[k - 1]))
            }
        }
    }

    /// The edges that leave the graph, from the first `n` blocks.
    pub open spec fn leaving_upto(self, n: int) -> Seq<(Vertex<N>, Vertex<N>)>
        decreases n,
    {
        if n <= 0 {
            Seq::empty()
        } else {
            self.leaving_upto(n - 1) + self.leaving(
                self.addr(n - 1),
                self.blocks[n - 1].targets,
                self.blocks[n - 1].targets.len() as int,
            )
        }
    }

    /// The edges that leave the graph: those to a vertex that is no block.
    pub open spec fn outgoing_edges(self) -> Seq<(Vertex<N>, Vertex<N>)> {
        self.leaving_upto(self.size() as int)
    }

    /// The graph without the edges that leave it.
    pub open spec fn without_outgoing(self) -> Self {
        GraphView {
            blocks: Seq::new(
                self.size(),
                |i: int|
                    BlockView {
                        targets: self.staying(
                            self.blocks[i].targets,
                            self.blocks[i].targets.len() as int,
                        ),
                        ..self.blocks[i]
                    },
            ),
            ..self
        }
    }

    /// The graph as it is laid out: without the edges that leave it, and
    /// with predecessors and indegrees recorded from the edges that stay.
    pub open spec fn validated(self) -> Self {
        self.without_outgoing().relinked()
    }

    /// What stays of the successors are the blocks among them, each once.
    pub proof fn staying_properties(self, targets: Seq<Vertex<N>>, k: int)
        requires
            0 <= k <= targets.len(),
            targets.no_duplicates(),
        ensures
            self.staying(targets, k).no_duplicates(),
            self.staying(targets, k).len() <= k,
            forall|t: Vertex<N>| #[trigger]
                self.staying(targets, k).contains(t) <==> targets.take(k).contains(t) && self.has(t),
        decreases k,
    {
        broadcast use vstd::seq_lib::lemma_seq_contains_after_push;

        if k > 0 {
            self.staying_properties(targets, k - 1);
            let front = targets.take(k - 1);
            let x = targets[k - 1];
            let kept = self.staying(targets, k - 1);
            assert(targets.take(k) =~= front.push(x));
            if front.contains(x) {
                let i = choose|i: int| 0 <= i < front.len() && front[i] == x;
                assert(targets[i] == targets[k - 1]);
            }
            assert(!kept.contains(x));
            assert forall|t: Vertex<N>| #[trigger]
                self.staying(targets, k).contains(t) <==> targets.take(k).contains(t) && self.has(
                    t,
                ) by {
                assert(front.push(x).contains(t) <==> x == t || front.contains(t));
                assert(kept.contains(t) <==> front.contains(t) && self.has(t));
                if self.has(x) {
                    assert(kept.push(x).contains(t) <==> x == t || kept.contains(t));
                }
            }
        } else {
            assert(targets.take(0) =~= Seq::<Vertex<N>>::empty());
        }
    }

    /// What stays of the successors of a block are those that are blocks.
    pub proof fn staying_of_block(self, i: int)
        requires
            self.wf(),
            0 <= i < self.size(),
        ensures
            self.without_outgoing().blocks[i].wf(),
            forall|t: Vertex<N>| #[trigger]
                self.without_outgoing().blocks[i].targets.contains(t)
                    <==> self.blocks[i].targets.contains(t) && self.has(t),
    {
        let ts = self.blocks[i].targets;
        assert(self.blocks[i].wf());
        self.staying_properties(ts, ts.len() as int);
        assert(ts.take(ts.len() as int) =~= ts);
        let kept = self.staying(ts, ts.len() as int);
        assert(self.without_outgoing().blocks[i].targets == kept);
        assert forall|t: Vertex<N>| #[trigger]
            kept.contains(t) <==> ts.contains(t) && self.has(t) by {
            assert(kept.contains(t) <==> ts.take(ts.len() as int).contains(t) && self.has(t));
        }
    }

    /// The blocks in the first `n` slots that are not among the given slots.
    pub open spec fn missing(self, slots: Seq<usize>, n: int) -> Seq<Vertex<N>>
        decreases n,
    {
        if n <= 0 {
            Seq::empty()
        } else if slots.contains((n - 1) as usize) {
            self.missing(slots, n - 1)
        } else {
            self.missing(slots, n - 1).push(self.addr(n - 1))
        }
    }

    /// What is missing are the blocks in the slots that are not given, each
    /// once.
    pub proof fn missing_properties(self, slots: Seq<usize>, n: int)
        requires
            self.keyed(),
            0 <= n <= self.size(),
            self.size() <= usize::MAX,
        ensures
            self.missing(slots, n).no_duplicates(),
            forall|v: Vertex<N>| #[trigger]
                self.missing(slots, n).contains(v) <==> self.has(v) && self.slot(v) < n
                    && !slots.contains(self.slot(v) as usize),
        decreases n,
    {
        broadcast use vstd::seq_lib::lemma_seq_contains_after_push;

        if n <= 0 {
            assert forall|v: Vertex<N>| #[trigger]
                self.missing(slots, n).contains(v) <==> self.has(v) && self.slot(v) < n
                    && !slots.contains(self.slot(v) as usize) by {
                if self.has(v) {
                    assert(self.addr(self.slot(v)) == v);
                }
            }
        }
        if n > 0 {
            self.missing_properties(slots, n - 1);
            self.slot_is_unique(n - 1);
            let front = self.missing(slots, n - 1);
            let x = self.addr(n - 1);
            assert(!front.contains(x));
            assert forall|v: Vertex<N>| #[trigger]
                self.missing(slots, n).contains(v) <==> self.has(v) && self.slot(v) < n
                    && !slots.contains(self.slot(v) as usize) by {
                assert(front.contains(v) <==> self.has(v) && self.slot(v) < n - 1
                    && !slots.contains(self.slot(v) as usize));
                assert(front.push(x).contains(v) <==> x == v || front.contains(v));
                if self.has(v) {
                    let t = self.slot(v);
                    assert(self.addr(t) == v);
                    if t == n - 1 {
                        assert(v == x);
                    }
                }
            }
        }
    }

    /// A traversal from the entry finishes exactly the blocks that the entry
    /// reaches.
    pub proof fn traversal_reaches(
        self,
        arcs: Seq<(usize, usize)>,
        start: usize,
        back: Seq<(usize, usize)>,
        done: Seq<usize>,
        s: usize,
    )
        requires
            self.wf(),
            self.closed(),
            self.mirrored_by(arcs),
            start < self.size(),
            self.addr(start as int) == self.entry,
            is_traversal(arcs, start, back, done),
            s < self.size(),
        ensures
            done.contains(s) <==> self.reaches(self.entry, self.addr(s as int)),
    {
        self.reaches_in_slots(arcs, start, s);
        traversal_stays_in_reach(arcs, start, back, done, s);
        if crate::digraph::reaches(arcs, start, s) {
            let q = choose|q: Seq<usize>|
                crate::digraph::is_walk(arcs, q) && q.first() == start && q.last() == s;
            traversal_covers_walk(arcs, start, back, done, q, q.len() - 1);
        }
    }

    /// Without the edges that leave it the graph is closed, and has the same
    /// blocks and every edge that led to a block.
    pub proof fn without_outgoing_properties(self)
        requires
            self.wf(),
        ensures
            self.without_outgoing().wf(),
            self.without_outgoing().closed(),
            self.same_blocks(self.without_outgoing()),
            forall|v: Vertex<N>| self.has(v) <==> self.without_outgoing().has(v),
            forall|u: Vertex<N>, v: Vertex<N>|
                self.without_outgoing().edge(u, v) <==> self.edge(u, v) && self.has(v),
    {
        let h = self.without_outgoing();
        self.same_blocks_properties(h);
        assert forall|i: int| 0 <= i < h.size() implies (#[trigger] h.blocks[i]).wf() by {
            self.staying_of_block(i);
        }
        assert forall|i: int, k: int|
            0 <= i < h.blocks.len() && 0 <= k < h.blocks[i].targets.len() implies h.has(
            #[trigger] h.blocks[i].targets[k],
        ) by {
            self.staying_of_block(i);
            assert(h.blocks[i].targets.contains(h.blocks[i].targets[k]));
        }
        assert forall|u: Vertex<N>, v: Vertex<N>| h.edge(u, v) <==> self.edge(u, v) && self.has(
            v,
        ) by {
            if self.has(u) {
                let i = self.slot(u);
                assert(h.slot(u) == i);
                self.staying_of_block(i);
            }
        }
    }

    /// The graph as it is laid out is sound, and has the blocks of the graph
    /// and every edge of it that led to a block.
    pub proof fn validated_properties(self)
        requires
            self.wf(),
            self.size() <= usize::MAX,
        ensures
            self.validated().sound(),
            self.same_blocks(self.validated()),
            self.plain() ==> self.validated().plain(),
            forall|v: Vertex<N>| self.has(v) <==> self.validated().has(v),
            forall|u: Vertex<N>, v: Vertex<N>|
                self.validated().edge(u, v) <==> self.edge(u, v) && self.has(v),
    {
        self.without_outgoing_properties();
        let h = self.without_outgoing();
        h.relinked_is_linked();
        h.same_edges_properties(h.relinked());
        let r = self.validated();
        if self.plain() {
            assert forall|i: int| 0 <= i < r.blocks.len() implies (#[trigger] r.addr(i)) is Id by {
                assert(self.addr(i) is Id);
            }
        }
    }
}

impl<N: VAGNodeId> VirtualAddressGraph<N> {
    /// Takes out every edge that leaves the graph, and returns these edges.
    pub fn erase_outgoing_edges(&mut self) -> (erased: Vec<(Vertex<N>, Vertex<N>)>)
        requires
            old(self).wf(),
        ensures
            final(self).wf(),
            final(self)@ == old(self)@.without_outgoing(),
            erased@ == old(self)@.outgoing_edges(),
    {
        let ghost g = self@;
        let n = self.size();
        let mut erased: Vec<(Vertex<N>, Vertex<N>)> = Vec::new();
        let mut kept: Vec<Vec<Vertex<N>>> = Vec::new();
        let mut i: usize = 0;
        while i < n
            invariant
                i <= n,
                n == g.size(),
                g == self@,
                erased@ == g.leaving_upto(i as int),
                kept.len() == i,
                forall|j: int|
                    0 <= j < i ==> (#[trigger] kept@[j])@ == g.staying(
                        g.blocks[j].targets,
                        g.blocks[j].targets.len() as int,
                    ),
            decreases n - i,
        {
            let blocks = self.nodes();
            let source = blocks[i].address();
            let targets = blocks[i].targets();
            proof {
                assert(blocks@[i as int]@ == g.blocks[i as int]);
            }
            let ghost before = erased@;
            let mut stay: Vec<Vertex<N>> = Vec::new();
            let mut k: usize = 0;
            while k < targets.len()
                invariant
                    k <= targets.len(),
                    g == self@,
                    i < n,
                    n == g.size(),
                    source == g.addr(i as int),
                    targets@ == g.blocks[i as int].targets,
                    stay@ == g.staying(targets@, k as int),
                    erased@ == before + g.leaving(source, targets@, k as int),
                decreases targets.len() - k,
            {
                let target = targets[k];
                if self.contains(target) {
                    stay.push(target);
                } else {
                    erased.push((source, target));
                    proof {
                        assert(erased@ =~= before + g.leaving(source, targets@, k + 1));
                    }
                }
                k += 1;
            }
            kept.push(stay);
            i += 1;
        }
        proof {
            g.without_outgoing_properties();
        }
        self.set_targets(&kept);
        proof {
            assert(self@.blocks =~= g.without_outgoing().blocks);
        }
        erased
    }

    /// The blocks that cannot be reached from the entry.
    pub fn unreachable_from_start(&self) -> (lost: Vec<Vertex<N>>)
        requires
            self.wf(),
            self@.closed(),
            self@.has(self@.entry),
        ensures
            lost@.no_duplicates(),
            forall|v: Vertex<N>|
                lost@.contains(v) <==> self@.has(v) && !self@.reaches(self@.entry, v),
    {
        let ghost g = self@;
        let n = self.size();
        let arcs = self.arcs();
        let start = self.position(self.address()).unwrap();
        let (back, done) = traversal(n, &arcs, start);
        let blocks = self.nodes();
        let mut lost: Vec<Vertex<N>> = Vec::new();
        let mut s: usize = 0;
        while s < n
            invariant
                s <= n,
                n == g.size(),
                crate::vag::views(blocks@) == g.blocks,
                lost@ == g.missing(done@, s as int),
            decreases n - s,
        {
            if !Self::holds(&done, s) {
                proof {
                    assert(blocks@[s as int]@ == g.blocks[s as int]);
                }
                lost.push(blocks[s].address());
            }
            s += 1;
        }
        proof {
            g.missing_properties(done@, n as int);
            assert forall|v: Vertex<N>| lost@.contains(v) <==> g.has(v) && !g.reaches(g.entry, v) by {
                if g.has(v) {
                    let t = g.slot(v);
                    assert(g.addr(t) == v);
                    g.traversal_reaches(arcs@, start, back@, done@, t as usize);
                }
            }
        }
        lost
    }

    /// Whether the slot is among the given ones.
    fn holds(slots: &Vec<usize>, s: usize) -> (r: bool)
        ensures
            r == slots@.contains(s),
    {
        let mut i: usize = 0;
        while i < slots.len()
            invariant
                i <= slots.len(),
                forall|k: int| 0 <= k < i ==> slots@[k] != s,
            decreases slots.len() - i,
        {
            if slots[i] == s {
                return true;
            }
            i += 1;
        }
        false
    }
}

} // verus!
