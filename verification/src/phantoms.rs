//! The two phantom vertices that close a component off from the rest of its
//! graph.

use vstd::prelude::*;
use crate::block::BlockView;
use crate::graph::GraphView;
use crate::members::{distinct, distinct_keeps_members, with, with_properties, without,
    without_properties};
use crate::vertex::{VAGNodeId, Vertex};

verus! {

/// The weight of the phantom source: above that of any block, so that among
/// blocks with as many predecessors it is placed first.
pub const SOURCE_WEIGHT: usize = 99999;

/// The vertices that the edges leave.
pub open spec fn tails<N: VAGNodeId>(edges: Seq<(Vertex<N>, Vertex<N>)>) -> Seq<Vertex<N>> {
    Seq::new(edges.len(), |i: int| edges[i].0)
}

/// The vertices that the edges enter.
pub open spec fn heads<N: VAGNodeId>(edges: Seq<(Vertex<N>, Vertex<N>)>) -> Seq<Vertex<N>> {
    Seq::new(edges.len(), |i: int| edges[i].1)
}

/// The phantom source for the given incoming edges: it names every vertex
/// that one of them enters, and has no predecessor of its own.
pub open spec fn source_block<N: VAGNodeId>(in_edges: Seq<(Vertex<N>, Vertex<N>)>) -> BlockView<N> {
    BlockView {
        address: Vertex::Source,
        len: SOURCE_WEIGHT as nat,
        sources: Seq::empty(),
        targets: distinct(heads(in_edges)),
        indegree: 0,
    }
}

/// The phantom sink for the given outgoing edges: it records every vertex
/// that one of them leaves, counts the edges, and names nothing.
pub open spec fn sink_block<N: VAGNodeId>(out_edges: Seq<(Vertex<N>, Vertex<N>)>) -> BlockView<N> {
    BlockView {
        address: Vertex::Sink,
        len: 0,
        sources: distinct(tails(out_edges)),
        targets: Seq::empty(),
        indegree: out_edges.len(),
    }
}

impl<N: VAGNodeId> GraphView<N> {
    /// The graph in which the block at `u` names the sink in place of `x`.
    pub open spec fn redirect(self, u: Vertex<N>, x: Vertex<N>) -> Self {
        let i = self.slot(u);
        let b = self.blocks[i];
        GraphView {
            blocks: self.blocks.update(
                i,
                BlockView { targets: with(without(b.targets, x), Vertex::Sink), ..b },
            ),
            ..self
        }
    }

    /// The graph in which each of the given edges leads to the sink.
    pub open spec fn redirect_all(self, out_edges: Seq<(Vertex<N>, Vertex<N>)>) -> Self
        decreases out_edges.len(),
    {
        if out_edges.len() == 0 {
            self
        } else {
            self.redirect_all(out_edges.drop_last()).redirect(
                out_edges.last().0,
                out_edges.last().1,
            )
        }
    }

    /// The graph with the phantom source for the given incoming edges.
    pub open spec fn with_source(self, in_edges: Seq<(Vertex<N>, Vertex<N>)>) -> Self {
        self.put(source_block(in_edges))
    }

    /// The graph with the phantom sink, and all the given outgoing edges led
    /// to it.
    pub open spec fn with_sink(self, out_edges: Seq<(Vertex<N>, Vertex<N>)>) -> Self {
        self.put(sink_block(out_edges)).redirect_all(out_edges)
    }

    /// What leading one edge to the sink changes.
    pub proof fn redirect_properties(self, u: Vertex<N>, x: Vertex<N>)
        requires
            self.wf(),
            self.has(u),
        ensures
            self.redirect(u, x).wf(),
            self.same_blocks(self.redirect(u, x)),
            forall|i: int|
                0 <= i < self.size() ==> (#[trigger] self.redirect(u, x).blocks[i]).sources
                    == self.blocks[i].sources && self.redirect(u, x).blocks[i].indegree
                    == self.blocks[i].indegree,
            forall|i: int, t: Vertex<N>|
                0 <= i < self.size() ==> (#[trigger] self.redirect(u, x).blocks[i].targets.contains(t)
                    <==> if self.addr(i) == u {
                    (self.blocks[i].targets.contains(t) && t != x) || t == Vertex::<N>::Sink
                } else {
                    self.blocks[i].targets.contains(t)
                }),
    {
        let k = self.slot(u);
        let g = self.redirect(u, x);
        self.slot_is_unique(k);
        assert(self.blocks[k].wf());
        without_properties(self.blocks[k].targets, x);
        with_properties(without(self.blocks[k].targets, x), Vertex::<N>::Sink);
        assert forall|i: int| 0 <= i < g.blocks.len() implies (#[trigger] g.blocks[i]).wf() by {
            assert(self.blocks[i].wf());
        }
        self.same_blocks_properties(g);
        assert forall|i: int, t: Vertex<N>| 0 <= i < self.size() implies (
        #[trigger] g.blocks[i].targets.contains(t) <==> if self.addr(i) == u {
            (self.blocks[i].targets.contains(t) && t != x) || t == Vertex::<N>::Sink
        } else {
            self.blocks[i].targets.contains(t)
        }) by {
            self.slot_is_unique(i);
        }
    }

    /// What leading a run of edges to the sink changes: a block that one of
    /// them leaves names the sink, and no longer what the edges entered.
    pub proof fn redirect_all_properties(self, out_edges: Seq<(Vertex<N>, Vertex<N>)>)
        requires
            self.wf(),
            forall|k: int| 0 <= k < out_edges.len() ==> self.has((#[trigger] out_edges[k]).0),
        ensures
            self.redirect_all(out_edges).wf(),
            self.same_blocks(self.redirect_all(out_edges)),
            forall|v: Vertex<N>| self.has(v) <==> self.redirect_all(out_edges).has(v),
            forall|i: int|
                0 <= i < self.size() ==> (#[trigger] self.redirect_all(out_edges).blocks[i]).sources
                    == self.blocks[i].sources && self.redirect_all(out_edges).blocks[i].indegree
                    == self.blocks[i].indegree,
            forall|i: int, t: Vertex<N>|
                0 <= i < self.size() ==> (#[trigger] self.redirect_all(
                    out_edges,
                ).blocks[i].targets.contains(t) <==> (self.blocks[i].targets.contains(t)
                    && !out_edges.contains((self.addr(i), t))) || (t == Vertex::<N>::Sink && tails(
                    out_edges,
                ).contains(self.addr(i)))),
        decreases out_edges.len(),
    {
        if out_edges.len() == 0 {
            self.same_blocks_properties(self);
        } else {
            let front = out_edges.drop_last();
            let (u, x) = out_edges.last();
            assert forall|k: int| 0 <= k < front.len() implies self.has((#[trigger] front[k]).0) by {
                assert(front[k] == out_edges[k]);
            }
            self.redirect_all_properties(front);
            let g1 = self.redirect_all(front);
            assert(self.has(out_edges[out_edges.len() - 1].0));
            g1.redirect_properties(u, x);
            let g2 = g1.redirect(u, x);
            self.same_blocks_properties(g1);
            g1.same_blocks_properties(g2);
            assert(out_edges =~= front.push((u, x)));
            assert(tails(out_edges) =~= tails(front).push(u));
            assert forall|i: int| 0 <= i < self.size() implies (#[trigger] g2.blocks[i]).sources
                == self.blocks[i].sources && g2.blocks[i].indegree == self.blocks[i].indegree by {
                assert(g1.blocks[i].sources == self.blocks[i].sources);
            }
            assert forall|i: int, t: Vertex<N>| 0 <= i < self.size() implies (
            #[trigger] g2.blocks[i].targets.contains(t) <==> (self.blocks[i].targets.contains(t)
                && !out_edges.contains((self.addr(i), t))) || (t == Vertex::<N>::Sink && tails(
                out_edges,
            ).contains(self.addr(i)))) by {
                broadcast use vstd::seq_lib::lemma_seq_contains_after_push;

                let a = self.addr(i);
                assert(g1.addr(i) == a);
                assert(g2.blocks[i].targets.contains(t) <==> if a == u {
                    (g1.blocks[i].targets.contains(t) && t != x) || t == Vertex::<N>::Sink
                } else {
                    g1.blocks[i].targets.contains(t)
                });
                assert(g1.blocks[i].targets.contains(t) <==> (self.blocks[i].targets.contains(t)
                    && !front.contains((a, t))) || (t == Vertex::<N>::Sink && tails(front).contains(
                    a,
                )));
                assert(front.push((u, x)).contains((a, t)) <==> (u, x) == (a, t) || front.contains(
                    (a, t),
                ));
                assert(tails(front).push(u).contains(a) <==> u == a || tails(front).contains(a));
            }
        }
    }
}

} // verus!
