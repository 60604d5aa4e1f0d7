//! The predecessors of a block, and how the records of a graph are brought
//! into line with its edges.

use vstd::prelude::*;
use crate::block::BlockView;
use crate::graph::GraphView;
use crate::members::{without, without_properties};
use crate::vertex::{VAGNodeId, Vertex};

verus! {

impl<N: VAGNodeId> GraphView<N> {
    /// The addresses of those among the first `n` blocks that name `v`, in
    /// the order of their slots.
    pub open spec fn naming(self, v: Vertex<N>, n: nat) -> Seq<Vertex<N>>
        decreases n,
    {
        if n == 0 {
            Seq::empty()
        } else {
            let front = self.naming(v, (n - 1) as nat);
            if self.blocks[n - 1].targets.contains(v) {
                front.push(self.addr(n - 1))
            } else {
                front
            }
        }
    }

    /// The blocks that have an edge to `v`, in the order of their slots.
    pub open spec fn predecessors(self, v: Vertex<N>) -> Seq<Vertex<N>> {
        self.naming(v, self.size())
    }

    /// The graph with the predecessors of every block recorded anew from the
    /// edges. The indegrees stay.
    pub open spec fn with_sources_renewed(self) -> Self {
        GraphView {
            blocks: Seq::new(
                self.size(),
                |i: int| BlockView { sources: self.predecessors(self.addr(i)), ..self.blocks[i] },
            ),
            ..self
        }
    }

    /// The graph with the indegree of every block counted anew from the
    /// edges. The recorded predecessors stay.
    pub open spec fn with_indegrees_renewed(self) -> Self {
        GraphView {
            blocks: Seq::new(
                self.size(),
                |i: int|
                    BlockView {
                        indegree: self.predecessors(self.addr(i)).len(),
                        ..self.blocks[i]
                    },
            ),
            ..self
        }
    }

    /// The graph with predecessors and indegrees recorded anew from the edges.
    pub open spec fn relinked(self) -> Self {
        GraphView {
            blocks: Seq::new(
                self.size(),
                |i: int|
                    BlockView {
                        sources: self.predecessors(self.addr(i)),
                        indegree: self.predecessors(self.addr(i)).len(),
                        ..self.blocks[i]
                    },
            ),
            ..self
        }
    }

    /// Whether the two graphs have the same blocks with the same weights and
    /// successors, in the same slots.
    pub open spec fn same_edges(self, other: Self) -> bool {
        &&& self.entry == other.entry
        &&& self.size() == other.size()
        &&& forall|i: int|
            0 <= i < self.size() ==> (#[trigger] self.blocks[i]).address == other.blocks[i].address
                && self.blocks[i].len == other.blocks[i].len && self.blocks[i].targets
                == other.blocks[i].targets
    }

    /// What `naming` holds: each block among the first `n` that names `v`, once.
    pub proof fn naming_properties(self, v: Vertex<N>, n: nat)
        requires
            self.wf(),
            n <= self.size(),
        ensures
            self.naming(v, n).no_duplicates(),
            self.naming(v, n).len() <= n,
            forall|u: Vertex<N>|
                self.naming(v, n).contains(u) <==> exists|j: int|
                    0 <= j < n && #[trigger] self.addr(j) == u && self.blocks[j].targets.contains(v),
        decreases n,
    {
        broadcast use vstd::seq_lib::lemma_seq_contains_after_push;

        if n > 0 {
            let m = (n - 1) as nat;
            self.naming_properties(v, m);
            let front = self.naming(v, m);
            let all = self.naming(v, n);
            if self.blocks[n - 1].targets.contains(v) {
                if front.contains(self.addr(n - 1)) {
                    let j = choose|j: int|
                        0 <= j < m && #[trigger] self.addr(j) == self.addr(n - 1)
                            && self.blocks[j].targets.contains(v);
                    assert(self.addr(j) != self.addr(n - 1));
                }
            }
            assert forall|u: Vertex<N>|
                all.contains(u) <==> exists|j: int|
                    0 <= j < n && #[trigger] self.addr(j) == u && self.blocks[j].targets.contains(
                        v,
                    ) by {
                if all.contains(u) {
                    if front.contains(u) {
                        let j = choose|j: int|
                            0 <= j < m && #[trigger] self.addr(j) == u
                                && self.blocks[j].targets.contains(v);
                        assert(0 <= j < n && self.addr(j) == u);
                    } else {
                        assert(self.addr(n - 1) == u);
                    }
                }
                if exists|j: int|
                    0 <= j < n && #[trigger] self.addr(j) == u && self.blocks[j].targets.contains(v) {
                    let j = choose|j: int|
                        0 <= j < n && #[trigger] self.addr(j) == u
                            && self.blocks[j].targets.contains(v);
                    if j < m {
                        assert(front.contains(u));
                    }
                }
            }
        }
    }

    /// The predecessors of `v` are exactly the blocks with an edge to `v`.
    pub proof fn predecessors_are_sources(self, v: Vertex<N>)
        requires
            self.wf(),
        ensures
            self.predecessors(v).no_duplicates(),
            self.predecessors(v).len() <= self.size(),
            forall|u: Vertex<N>| self.predecessors(v).contains(u) <==> self.edge(u, v),
    {
        self.naming_properties(v, self.size());
        assert forall|u: Vertex<N>| self.predecessors(v).contains(u) <==> self.edge(u, v) by {
            if self.predecessors(v).contains(u) {
                let j = choose|j: int|
                    0 <= j < self.size() && #[trigger] self.addr(j) == u
                        && self.blocks[j].targets.contains(v);
                self.slot_is_unique(j);
            }
            if self.edge(u, v) {
                let j = self.slot(u);
                assert(self.addr(j) == u && self.blocks[j].targets.contains(v));
            }
        }
    }

    /// Two graphs with the same edges have the same blocks, edges and
    /// predecessors, and are closed together.
    pub proof fn same_edges_properties(self, other: Self)
        requires
            self.same_edges(other),
            self.keyed(),
        ensures
            other.keyed(),
            forall|v: Vertex<N>| self.has(v) <==> other.has(v),
            forall|v: Vertex<N>| self.has(v) ==> self.slot(v) == other.slot(v),
            forall|u: Vertex<N>, v: Vertex<N>| self.edge(u, v) <==> other.edge(u, v),
            forall|v: Vertex<N>| self.predecessors(v) == other.predecessors(v),
            self.closed() <==> other.closed(),
            forall|p: Seq<Vertex<N>>| self.is_cycle(p) <==> other.is_cycle(p),
            self.cyclic() <==> other.cyclic(),
    {
        assert forall|v: Vertex<N>| self.has(v) <==> other.has(v) by {
            if self.has(v) {
                let i = self.slot(v);
                assert(other.addr(i) == v);
            }
            if other.has(v) {
                let i = other.slot(v);
                assert(self.addr(i) == v);
            }
        }
        assert forall|i: int, j: int| 0 <= i < j < other.blocks.len() implies #[trigger] other.addr(
            i,
        ) != #[trigger] other.addr(j) by {
            assert(self.addr(i) != self.addr(j));
        }
        assert forall|v: Vertex<N>| self.has(v) implies self.slot(v) == other.slot(v) by {
            let i = self.slot(v);
            assert(other.addr(i) == v);
            other.slot_is_unique(i);
        }
        assert forall|u: Vertex<N>, v: Vertex<N>| self.edge(u, v) <==> other.edge(u, v) by {}
        assert forall|v: Vertex<N>| self.predecessors(v) == other.predecessors(v) by {
            self.same_naming(other, v, self.size());
        }
        if self.closed() {
            assert forall|i: int, k: int|
                0 <= i < other.blocks.len() && 0 <= k < other.blocks[i].targets.len() implies other.has(
                #[trigger] other.blocks[i].targets[k],
            ) by {
                assert(self.has(self.blocks[i].targets[k]));
            }
        }
        if other.closed() {
            assert forall|i: int, k: int|
                0 <= i < self.blocks.len() && 0 <= k < self.blocks[i].targets.len() implies self.has(
                #[trigger] self.blocks[i].targets[k],
            ) by {
                assert(other.has(other.blocks[i].targets[k]));
            }
        }
        assert forall|p: Seq<Vertex<N>>| self.is_cycle(p) <==> other.is_cycle(p) by {}
        if self.cyclic() {
            let p = choose|p: Seq<Vertex<N>>| self.is_cycle(p);
            assert(other.is_cycle(p));
        }
        if other.cyclic() {
            let p = choose|p: Seq<Vertex<N>>| other.is_cycle(p);
            assert(self.is_cycle(p));
        }
    }

    /// Graphs with the same edges have the same blocks that name `v`.
    proof fn same_naming(self, other: Self, v: Vertex<N>, n: nat)
        requires
            self.same_edges(other),
            n <= self.size(),
        ensures
            self.naming(v, n) == other.naming(v, n),
        decreases n,
    {
        if n > 0 {
            self.same_naming(other, v, (n - 1) as nat);
            assert(self.blocks[n - 1].address == other.blocks[n - 1].address);
        }
    }

    /// Recording predecessors and indegrees anew keeps the edges and makes
    /// the records agree with them.
    pub proof fn relinked_is_linked(self)
        requires
            self.wf(),
            self.size() <= usize::MAX,
        ensures
            self.same_edges(self.relinked()),
            self.relinked().wf(),
            self.relinked().linked(),
            self.closed() ==> self.relinked().sound(),
    {
        let r = self.relinked();
        self.same_edges_properties(r);
        assert forall|i: int| 0 <= i < r.blocks.len() implies (#[trigger] r.blocks[i]).wf() by {
            self.predecessors_are_sources(self.addr(i));
            assert(self.blocks[i].wf());
        }
        assert forall|i: int, j: int| 0 <= i < j < r.blocks.len() implies #[trigger] r.addr(i)
            != #[trigger] r.addr(j) by {
            assert(self.addr(i) != self.addr(j));
        }
        assert forall|i: int, u: Vertex<N>| 0 <= i < r.blocks.len() implies (
        #[trigger] r.blocks[i].sources.contains(u) <==> r.edge(u, r.addr(i))) by {
            self.predecessors_are_sources(self.addr(i));
        }
    }
}

} // verus!
