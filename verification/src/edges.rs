//! Taking edges out of a block graph, on both sides at once.

use vstd::prelude::*;
use crate::block::BlockView;
use crate::graph::GraphView;
use crate::members::{without, without_properties};
use crate::vertex::{VAGNodeId, Vertex};

verus! {

impl<N: VAGNodeId> GraphView<N> {
    /// The graph in which the block at `u` no longer names `v`.
    pub open spec fn without_target(self, u: Vertex<N>, v: Vertex<N>) -> Self {
        let i = self.slot(u);
        let b = self.blocks[i];
        GraphView {
            blocks: self.blocks.update(i, BlockView { targets: without(b.targets, v), ..b }),
            ..self
        }
    }

    /// The graph in which the block at `v` no longer records `u` as a
    /// predecessor, and counts one incoming edge less if it did record it.
    pub open spec fn without_source(self, v: Vertex<N>, u: Vertex<N>) -> Self {
        let i = self.slot(v);
        let b = self.blocks[i];
        GraphView {
            blocks: self.blocks.update(
                i,
                BlockView {
                    sources: without(b.sources, u),
                    indegree: if b.sources.contains(u) {
                        (b.indegree - 1) as nat
                    } else {
                        b.indegree
                    },
                    ..b
                },
            ),
            ..self
        }
    }

    /// The graph without the edge from `u` to `v`: taken out at both ends.
    pub open spec fn erase_edge(self, u: Vertex<N>, v: Vertex<N>) -> Self {
        self.without_target(u, v).without_source(v, u)
    }

    /// The graph without the given edges, taken out one after the other.
    pub open spec fn erase_edges(self, edges: Seq<(Vertex<N>, Vertex<N>)>) -> Self
        decreases edges.len(),
    {
        if edges.len() == 0 {
            self
        } else {
            self.erase_edges(edges.drop_last()).erase_edge(edges.last().0, edges.last().1)
        }
    }

    /// Whether both ends of every one of the edges are blocks.
    pub open spec fn holds_ends(self, edges: Seq<(Vertex<N>, Vertex<N>)>) -> bool {
        forall|k: int|
            0 <= k < edges.len() ==> self.has((#[trigger] edges[k]).0) && self.has(edges[k].1)
    }

    /// Whether the two graphs have the same blocks in the same slots, with
    /// the same weights.
    pub open spec fn same_blocks(self, other: Self) -> bool {
        &&& self.entry == other.entry
        &&& self.size() == other.size()
        &&& forall|i: int|
            0 <= i < self.size() ==> (#[trigger] self.blocks[i]).address == other.blocks[i].address
                && self.blocks[i].len == other.blocks[i].len
    }

    /// Two graphs with the same blocks store the same addresses in the same
    /// slots.
    pub proof fn same_blocks_properties(self, other: Self)
        requires
            self.same_blocks(other),
            self.keyed(),
        ensures
            other.keyed(),
            forall|v: Vertex<N>| self.has(v) <==> other.has(v),
            forall|v: Vertex<N>| self.has(v) ==> self.slot(v) == other.slot(v),
    {
        assert forall|i: int, j: int| 0 <= i < j < other.blocks.len() implies #[trigger] other.addr(
            i,
        ) != #[trigger] other.addr(j) by {
            assert(self.addr(i) != self.addr(j));
        }
        assert forall|v: Vertex<N>| self.has(v) <==> other.has(v) by {
            if self.has(v) {
                let i = self.slot(v);
                assert(other.addr(i) == v);
            }
            if other.has(v) {
                let i = other.slot(v);
                assert(self.addr(i) == v);
            }
        }
        assert forall|v: Vertex<N>| self.has(v) implies self.slot(v) == other.slot(v) by {
            let i = self.slot(v);
            assert(other.addr(i) == v);
            other.slot_is_unique(i);
        }
    }

    /// What taking out an edge changes: the edge is gone, all others stay.
    pub proof fn erase_edge_properties(self, u: Vertex<N>, v: Vertex<N>)
        requires
            self.wf(),
            self.has(u),
            self.has(v),
            self.at(v).sources.contains(u) ==> self.at(v).indegree > 0,
        ensures
            self.erase_edge(u, v).wf(),
            self.same_blocks(self.erase_edge(u, v)),
            forall|a: Vertex<N>, b: Vertex<N>|
                self.erase_edge(u, v).edge(a, b) <==> self.edge(a, b) && !(a == u && b == v),
            self.closed() ==> self.erase_edge(u, v).closed(),
            self.linked() ==> self.erase_edge(u, v).linked(),
    {
        let iu = self.slot(u);
        let iv = self.slot(v);
        let g1 = self.without_target(u, v);
        let g2 = self.erase_edge(u, v);
        self.slot_is_unique(iu);
        self.slot_is_unique(iv);
        assert(self.blocks[iu].wf());
        assert(self.blocks[iv].wf());
        without_properties(self.blocks[iu].targets, v);
        self.same_blocks_properties(g1);
        assert(g1.slot(v) == iv);
        without_properties(g1.blocks[iv].sources, u);
        g1.same_blocks_properties(g2);
        assert forall|i: int| 0 <= i < g1.blocks.len() implies (#[trigger] g1.blocks[i]).wf() by {
            assert(self.blocks[i].wf());
        }
        assert forall|i: int| 0 <= i < g2.blocks.len() implies (#[trigger] g2.blocks[i]).wf() by {
            assert(g1.blocks[i].wf());
        }
        assert forall|i: int| 0 <= i < g2.size() implies (#[trigger] g2.blocks[i]).targets == (if i
            == iu {
            without(self.blocks[i].targets, v)
        } else {
            self.blocks[i].targets
        }) by {}
        assert forall|a: Vertex<N>, b: Vertex<N>|
            g2.edge(a, b) <==> self.edge(a, b) && !(a == u && b == v) by {
            if self.has(a) {
                let i = self.slot(a);
                self.slot_is_unique(i);
                assert(g2.slot(a) == i);
                assert(i == iu <==> a == u);
            }
        }
        if self.closed() {
            assert forall|i: int, k: int|
                0 <= i < g2.blocks.len() && 0 <= k < g2.blocks[i].targets.len() implies g2.has(
                #[trigger] g2.blocks[i].targets[k],
            ) by {
                let t = g2.blocks[i].targets[k];
                assert(g2.blocks[i].targets.contains(t));
                assert(self.blocks[i].targets.contains(t));
                let l = choose|l: int|
                    0 <= l < self.blocks[i].targets.len() && self.blocks[i].targets[l] == t;
                assert(self.has(self.blocks[i].targets[l]));
            }
        }
        if self.linked() {
            assert forall|i: int| 0 <= i < g2.blocks.len() implies (#[trigger] g2.blocks[i]).indegree
                == g2.blocks[i].sources.len() by {
                assert(self.blocks[i].indegree == self.blocks[i].sources.len());
            }
            assert forall|i: int, a: Vertex<N>| 0 <= i < g2.blocks.len() implies (
            #[trigger] g2.blocks[i].sources.contains(a) <==> g2.edge(a, g2.addr(i))) by {
                assert(self.blocks[i].sources.contains(a) <==> self.edge(a, self.addr(i)));
                self.slot_is_unique(i);
                assert(i == iv <==> self.addr(i) == v);
            }
        }
    }

    /// In a graph whose records agree with its edges, a block that records
    /// a predecessor has an indegree above zero.
    pub proof fn sources_are_counted(self, v: Vertex<N>)
        requires
            self.linked(),
            self.has(v),
        ensures
            self.at(v).indegree == self.at(v).sources.len(),
            forall|u: Vertex<N>| self.at(v).sources.contains(u) ==> self.at(v).indegree > 0,
    {
        let i = self.slot(v);
        assert(0 <= i < self.blocks.len() && self.addr(i) == v);
        assert(self.blocks[i].indegree == self.blocks[i].sources.len());
    }

    /// What taking out a run of edges changes: these edges are gone, all
    /// others stay.
    pub proof fn erase_edges_properties(self, edges: Seq<(Vertex<N>, Vertex<N>)>)
        requires
            self.wf(),
            self.linked(),
            self.holds_ends(edges),
        ensures
            self.erase_edges(edges).wf(),
            self.erase_edges(edges).linked(),
            self.same_blocks(self.erase_edges(edges)),
            forall|v: Vertex<N>| self.has(v) <==> self.erase_edges(edges).has(v),
            forall|a: Vertex<N>, b: Vertex<N>|
                self.erase_edges(edges).edge(a, b) <==> self.edge(a, b) && !edges.contains((a, b)),
            self.closed() ==> self.erase_edges(edges).closed(),
        decreases edges.len(),
    {
        if edges.len() == 0 {
            self.same_blocks_properties(self);
        } else {
            let front = edges.drop_last();
            let (u, v) = edges.last();
            assert forall|k: int| 0 <= k < front.len() implies self.has((#[trigger] front[k]).0)
                && self.has(front[k].1) by {
                assert(front[k] == edges[k]);
            }
            self.erase_edges_properties(front);
            let g1 = self.erase_edges(front);
            assert(self.has(edges[edges.len() - 1].0) && self.has(edges[edges.len() - 1].1));
            g1.sources_are_counted(v);
            g1.erase_edge_properties(u, v);
            let g2 = g1.erase_edge(u, v);
            self.same_blocks_properties(g1);
            g1.same_blocks_properties(g2);
            assert(edges =~= front.push((u, v)));
            assert forall|a: Vertex<N>, b: Vertex<N>|
                g2.edge(a, b) <==> self.edge(a, b) && !edges.contains((a, b)) by {
                broadcast use vstd::seq_lib::lemma_seq_contains_after_push;

                assert(g2.edge(a, b) <==> g1.edge(a, b) && !(a == u && b == v));
                assert(g1.edge(a, b) <==> self.edge(a, b) && !front.contains((a, b)));
                assert(front.push((u, v)).contains((a, b)) <==> (u, v) == (a, b) || front.contains(
                    (a, b),
                ));
            }
        }
    }
}

} // verus!
