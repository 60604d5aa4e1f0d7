//! The block graph on which the layout is computed.

use vstd::prelude::*;
use crate::block::{BlockView, NoInstrBasicBlock};
use crate::digraph::{arcs_fit, crosses, has_cycle, is_cycle, next_on, traversal,
    traversal_covers_walk, traversal_cuts_cycles, traversal_stays_in_reach};
use crate::phantoms::{heads, sink_block, source_block, tails, SOURCE_WEIGHT};
use crate::graph::GraphView;
use crate::members::{contains, copied, distinct_of_distinct};
use crate::vertex::{VAGNodeId, Vertex};

verus! {

/// A graph of basic blocks, each stored under its address.
#[derive(Debug)]
pub struct VirtualAddressGraph<N: VAGNodeId> {
    address: Vertex<N>,
    nodes: Vec<NoInstrBasicBlock<N>>,
}

/// The views of a run of blocks.
pub open spec fn views<N: VAGNodeId>(blocks: Seq<NoInstrBasicBlock<N>>) -> Seq<BlockView<N>> {
    blocks.map_values(|b: NoInstrBasicBlock<N>| b@)
}

impl<N: VAGNodeId> View for VirtualAddressGraph<N> {
    type V = GraphView<N>;

    closed spec fn view(&self) -> GraphView<N> {
        GraphView { entry: self.address, blocks: views(self.nodes@) }
    }
}

impl<N: VAGNodeId> VirtualAddressGraph<N> {
    /// Every graph that the library hands out is well formed.
    pub open spec fn wf(&self) -> bool {
        self@.wf()
    }

    /// A graph from its entry and its blocks. Of two blocks with the same
    /// address the later one stays, in the place of the earlier.
    pub fn new(address: Vertex<N>, nodes: Vec<NoInstrBasicBlock<N>>) -> (graph: Self)
        requires
            forall|i: int| 0 <= i < nodes.len() ==> (#[trigger] nodes[i]).wf(),
        ensures
            graph.wf(),
            graph@ == GraphView::filled(address, views(nodes@), nodes.len() as int),
    {
        let mut graph = VirtualAddressGraph { address, nodes: Vec::new() };
        let mut i: usize = 0;
        assert(graph@.blocks =~= Seq::empty());
        while i < nodes.len()
            invariant
                i <= nodes.len(),
                graph.wf(),
                forall|k: int| 0 <= k < nodes.len() ==> (#[trigger] nodes[k]).wf(),
                graph@ == GraphView::filled(address, views(nodes@), i as int),
            decreases nodes.len() - i,
        {
            graph.add_block_without_update(nodes[i].duplicate());
            i += 1;
        }
        graph
    }

    /// The entry vertex.
    pub fn address(&self) -> (r: Vertex<N>)
        ensures
            r == self@.entry,
    {
        self.address
    }

    /// The blocks, in the order in which they are stored.
    pub fn nodes(&self) -> (r: &Vec<NoInstrBasicBlock<N>>)
        ensures
            views(r@) == self@.blocks,
    {
        &self.nodes
    }

    /// Number of blocks.
    pub fn size(&self) -> (r: usize)
        ensures
            r == self@.size(),
    {
        self.nodes.len()
    }

    /// The slot of the block stored under `v`, if there is one.
    pub fn position(&self, v: Vertex<N>) -> (r: Option<usize>)
        ensures
            match r {
                Some(i) => i < self@.size() && self@.addr(i as int) == v,
                None => !self@.has(v),
            },
            self.wf() && r is Some ==> r->Some_0 == self@.slot(v),
    {
        let mut i: usize = 0;
        while i < self.nodes.len()
            invariant
                i <= self.nodes.len(),
                forall|j: int| 0 <= j < i ==> #[trigger] self@.addr(j) != v,
            decreases self.nodes.len() - i,
        {
            if self.nodes[i].address().same(&v) {
                proof {
                    if self.wf() {
                        self@.slot_is_unique(i as int);
                    }
                }
                return Some(i);
            }
            i += 1;
        }
        None
    }

    /// Whether a block is stored under `v`.
    pub fn contains(&self, v: Vertex<N>) -> (r: bool)
        ensures
            r == self@.has(v),
    {
        self.position(v).is_some()
    }

    /// The block stored under `target`.
    pub fn node_at_target(&self, target: Vertex<N>) -> (r: &NoInstrBasicBlock<N>)
        requires
            self.wf(),
            self@.has(target),
        ensures
            r@ == self@.at(target),
    {
        let i = self.position(target).unwrap();
        &self.nodes[i]
    }

    /// The weight of the block stored under `node`: the number of its
    /// instructions.
    pub fn weight(&self, node: Vertex<N>) -> (r: usize)
        requires
            self.wf(),
            self@.has(node),
        ensures
            r == self@.at(node).len,
    {
        self.node_at_target(node).len()
    }

    /// Stores `node` under its address and leaves all other blocks as they
    /// are: the neighbours of the new block are not told of it.
    pub fn add_block_without_update(&mut self, node: NoInstrBasicBlock<N>)
        requires
            old(self).wf(),
            node.wf(),
        ensures
            final(self).wf(),
            final(self)@ == old(self)@.put(node@),
    {
        proof {
            self@.put_properties(node@);
        }
        match self.position(node.address()) {
            Some(i) => {
                self.nodes[i] = node;
                assert(self@.blocks =~= old(self)@.blocks.update(i as int, node@));
            },
            None => {
                self.nodes.push(node);
                assert(self@.blocks =~= old(self)@.blocks.push(node@));
            },
        }
    }

    /// The edges of the graph as arcs between slots: block by block, and for
    /// each block in the order of its successors.
    pub fn arcs(&self) -> (arcs: Vec<(usize, usize)>)
        requires
            self.wf(),
            self@.closed(),
        ensures
            self@.mirrored_by(arcs@),
    {
        let n = self.nodes.len();
        let mut arcs: Vec<(usize, usize)> = Vec::new();
        let mut i: usize = 0;
        while i < n
            invariant
                self.wf(),
                self@.closed(),
                n == self@.size(),
                n == self.nodes.len(),
                i <= n,
                arcs_fit(n, arcs@),
                forall|e: int|
                    0 <= e < arcs.len() ==> self@.blocks[(#[trigger] arcs@[e]).0 as int].targets.contains(
                        self@.addr(arcs@[e].1 as int),
                    ),
                forall|a: int, k: int|
                    0 <= a < i && 0 <= k < self@.blocks[a].targets.len() ==> arcs@.contains(
                        (a as usize, self@.slot(#[trigger] self@.blocks[a].targets[k]) as usize),
                    ),
            decreases n - i,
        {
            let targets = self.nodes[i].targets();
            let mut k: usize = 0;
            while k < targets.len()
                invariant
                    self.wf(),
                    self@.closed(),
                    n == self@.size(),
                    n == self.nodes.len(),
                    i < n,
                    k <= targets.len(),
                    targets@ == self@.blocks[i as int].targets,
                    arcs_fit(n, arcs@),
                    forall|e: int|
                        0 <= e < arcs.len() ==> self@.blocks[(#[trigger] arcs@[e]).0 as int].targets.contains(
                            self@.addr(arcs@[e].1 as int),
                        ),
                    forall|a: int, k: int|
                        0 <= a < i && 0 <= k < self@.blocks[a].targets.len() ==> arcs@.contains(
                            (a as usize, self@.slot(#[trigger] self@.blocks[a].targets[k]) as usize),
                        ),
                    forall|l: int|
                        0 <= l < k ==> arcs@.contains(
                            (i, self@.slot(#[trigger] self@.blocks[i as int].targets[l]) as usize),
                        ),
                decreases targets.len() - k,
            {
                let t = targets[k];
                proof {
                    assert(self@.has(self@.blocks[i as int].targets[k as int]));
                }
                let j = self.position(t).unwrap();
                let ghost before = arcs@;
                arcs.push((i, j));
                proof {
                    assert(arcs@[before.len() as int] == (i, j));
                    assert forall|x: (usize, usize)| before.contains(x) implies arcs@.contains(x) by {
                        let e = choose|e: int| 0 <= e < before.len() && before[e] == x;
                        assert(arcs@[e] == x);
                    }
                }
                k += 1;
            }
            i += 1;
        }
        proof {
            assert forall|a: usize, b: usize| a < self@.size() && b < self@.size() implies (
            #[trigger] arcs@.contains((a, b)) <==> self@.edge(
                self@.addr(a as int),
                self@.addr(b as int),
            )) by {
                self@.slot_is_unique(a as int);
                self@.slot_is_unique(b as int);
                if arcs@.contains((a, b)) {
                    let e = choose|e: int| 0 <= e < arcs.len() && arcs@[e] == (a, b);
                    assert(self@.blocks[arcs@[e].0 as int].targets.contains(
                        self@.addr(arcs@[e].1 as int),
                    ));
                }
                if self@.edge(self@.addr(a as int), self@.addr(b as int)) {
                    let ts = self@.blocks[a as int].targets;
                    let k = choose|k: int| 0 <= k < ts.len() && ts[k] == self@.addr(b as int);
                    assert(arcs@.contains((a, self@.slot(self@.blocks[a as int].targets[k]) as usize)));
                }
            }
        }
        arcs
    }

    /// Whether the graph has a cycle.
    pub fn is_cyclic(&self) -> (r: bool)
        requires
            self.wf(),
            self@.closed(),
        ensures
            r == self@.cyclic(),
    {
        let arcs = self.arcs();
        proof {
            self@.cyclic_in_slots(arcs@);
        }
        has_cycle(self.nodes.len(), &arcs)
    }

    /// The blocks that name `v`, in the order of their slots.
    pub fn predecessors(&self, v: Vertex<N>) -> (r: Vec<Vertex<N>>)
        ensures
            r@ == self@.predecessors(v),
    {
        let mut r: Vec<Vertex<N>> = Vec::new();
        let mut j: usize = 0;
        while j < self.nodes.len()
            invariant
                j <= self.nodes.len(),
                self.nodes.len() == self@.size(),
                r@ == self@.naming(v, j as nat),
            decreases self.nodes.len() - j,
        {
            if contains(self.nodes[j].targets(), v) {
                r.push(self.nodes[j].address());
            }
            j += 1;
        }
        r
    }

    /// For each slot, the blocks that name the block stored there.
    fn sources(&self) -> (r: Vec<Vec<Vertex<N>>>)
        ensures
            r.len() == self@.size(),
            forall|i: int|
                0 <= i < r.len() ==> (#[trigger] r@[i])@ == self@.predecessors(self@.addr(i)),
    {
        let mut r: Vec<Vec<Vertex<N>>> = Vec::new();
        let mut i: usize = 0;
        while i < self.nodes.len()
            invariant
                i <= self.nodes.len(),
                self.nodes.len() == self@.size(),
                r.len() == i,
                forall|k: int|
                    0 <= k < i ==> (#[trigger] r@[k])@ == self@.predecessors(self@.addr(k)),
            decreases self.nodes.len() - i,
        {
            r.push(self.predecessors(self.nodes[i].address()));
            i += 1;
        }
        r
    }

    /// For each slot, the number of blocks that name the block stored there.
    fn in_degrees(&self) -> (r: Vec<usize>)
        requires
            self.wf(),
        ensures
            r.len() == self@.size(),
            forall|i: int|
                0 <= i < r.len() ==> (#[trigger] r@[i]) == self@.predecessors(self@.addr(i)).len(),
    {
        let mut r: Vec<usize> = Vec::new();
        let mut i: usize = 0;
        while i < self.nodes.len()
            invariant
                i <= self.nodes.len(),
                self.nodes.len() == self@.size(),
                r.len() == i,
                forall|k: int|
                    0 <= k < i ==> (#[trigger] r@[k]) == self@.predecessors(self@.addr(k)).len(),
            decreases self.nodes.len() - i,
        {
            r.push(self.predecessors(self.nodes[i].address()).len());
            i += 1;
        }
        r
    }

    /// Records the predecessors of every block anew from the edges.
    pub fn update_sources(&mut self)
        requires
            old(self).wf(),
        ensures
            final(self).wf(),
            final(self)@ == old(self)@.with_sources_renewed(),
    {
        let sources = self.sources();
        let ghost g = self@;
        let mut i: usize = 0;
        while i < self.nodes.len()
            invariant
                i <= self.nodes.len(),
                g.wf(),
                g == old(self)@,
                self@.entry == g.entry,
                self@.size() == g.size(),
                self.nodes.len() == g.size(),
                sources.len() == g.size(),
                forall|k: int|
                    0 <= k < sources.len() ==> (#[trigger] sources@[k])@ == g.predecessors(g.addr(k)),
                forall|k: int|
                    0 <= k < i ==> #[trigger] self@.blocks[k] == g.with_sources_renewed().blocks[k],
                forall|k: int| i <= k < g.size() ==> #[trigger] self@.blocks[k] == g.blocks[k],
            decreases self.nodes.len() - i,
        {
            let mut block = self.nodes[i].duplicate();
            proof {
                assert(self@.blocks[i as int] == g.blocks[i as int]);
                assert(g.blocks[i as int].wf());
                g.predecessors_are_sources(g.addr(i as int));
                distinct_of_distinct(sources@[i as int]@);
            }
            block.set_sources(&sources[i]);
            let ghost before = self@;
            self.nodes.set(i, block);
            proof {
                assert(self@.blocks =~= before.blocks.update(i as int, block@));
            }
            i += 1;
        }
        proof {
            let r = g.with_sources_renewed();
            assert(self@.blocks =~= r.blocks);
            assert forall|k: int| 0 <= k < r.blocks.len() implies (#[trigger] r.blocks[k]).wf() by {
                g.predecessors_are_sources(g.addr(k));
                assert(g.blocks[k].wf());
            }
            assert forall|k: int, l: int| 0 <= k < l < r.blocks.len() implies #[trigger] r.addr(k)
                != #[trigger] r.addr(l) by {
                assert(g.addr(k) != g.addr(l));
            }
        }
    }

    /// Counts the indegree of every block anew from the edges.
    pub fn update_in_degrees(&mut self)
        requires
            old(self).wf(),
        ensures
            final(self).wf(),
            final(self)@ == old(self)@.with_indegrees_renewed(),
    {
        let indeg = self.in_degrees();
        let ghost g = self@;
        let mut i: usize = 0;
        while i < self.nodes.len()
            invariant
                i <= self.nodes.len(),
                g.wf(),
                g == old(self)@,
                self@.entry == g.entry,
                self@.size() == g.size(),
                self.nodes.len() == g.size(),
                indeg.len() == g.size(),
                forall|k: int|
                    0 <= k < indeg.len() ==> (#[trigger] indeg@[k]) == g.predecessors(
                        g.addr(k),
                    ).len(),
                forall|k: int|
                    0 <= k < i ==> #[trigger] self@.blocks[k] == g.with_indegrees_renewed().blocks[k],
                forall|k: int| i <= k < g.size() ==> #[trigger] self@.blocks[k] == g.blocks[k],
            decreases self.nodes.len() - i,
        {
            let mut block = self.nodes[i].duplicate();
            proof {
                assert(self@.blocks[i as int] == g.blocks[i as int]);
            }
            block.set_indegree(indeg[i]);
            let ghost before = self@;
            self.nodes.set(i, block);
            proof {
                assert(self@.blocks =~= before.blocks.update(i as int, block@));
            }
            i += 1;
        }
        proof {
            let r = g.with_indegrees_renewed();
            assert(self@.blocks =~= r.blocks);
            assert forall|k: int| 0 <= k < r.blocks.len() implies (#[trigger] r.blocks[k]).wf() by {
                g.predecessors_are_sources(g.addr(k));
                assert(g.blocks[k].wf());
            }
            assert forall|k: int, l: int| 0 <= k < l < r.blocks.len() implies #[trigger] r.addr(k)
                != #[trigger] r.addr(l) by {
                assert(g.addr(k) != g.addr(l));
            }
        }
    }

    /// Records predecessors and indegrees of every block anew from the
    /// edges, in one pass over the whole graph. It is meant for a graph that
    /// was just built, not for use between two steps of an algorithm.
    pub fn update_sources_and_indegrees(&mut self)
        requires
            old(self).wf(),
        ensures
            final(self).wf(),
            final(self)@ == old(self)@.relinked(),
    {
        let sources = self.sources();
        let ghost g = self@;
        let mut i: usize = 0;
        while i < self.nodes.len()
            invariant
                i <= self.nodes.len(),
                g.wf(),
                g == old(self)@,
                self@.entry == g.entry,
                self@.size() == g.size(),
                self.nodes.len() == g.size(),
                sources.len() == g.size(),
                forall|k: int|
                    0 <= k < sources.len() ==> (#[trigger] sources@[k])@ == g.predecessors(g.addr(k)),
                forall|k: int| 0 <= k < i ==> #[trigger] self@.blocks[k] == g.relinked().blocks[k],
                forall|k: int| i <= k < g.size() ==> #[trigger] self@.blocks[k] == g.blocks[k],
            decreases self.nodes.len() - i,
        {
            let mut block = self.nodes[i].duplicate();
            proof {
                assert(self@.blocks[i as int] == g.blocks[i as int]);
                assert(g.blocks[i as int].wf());
                g.predecessors_are_sources(g.addr(i as int));
                distinct_of_distinct(sources@[i as int]@);
            }
            block.set_sources(&sources[i]);
            block.set_indegree(block.sources().len());
            let ghost before = self@;
            self.nodes.set(i, block);
            proof {
                assert(self@.blocks =~= before.blocks.update(i as int, block@));
            }
            i += 1;
        }
        proof {
            assert(self@.blocks =~= g.relinked().blocks);
            g.relinked_is_linked();
        }
    }

    /// Takes the edge out of the graph, at both ends: the target out of the
    /// successors of the source, the source out of the predecessors of the
    /// target, whose indegree goes down by one.
    pub fn erase_edge(&mut self, edge: (Vertex<N>, Vertex<N>))
        requires
            old(self).wf(),
            old(self)@.has(edge.0),
            old(self)@.has(edge.1),
            old(self)@.at(edge.1).sources.contains(edge.0) ==> old(self)@.at(edge.1).indegree > 0,
        ensures
            final(self).wf(),
            final(self)@ == old(self)@.erase_edge(edge.0, edge.1),
    {
        let ghost g = self@;
        proof {
            g.erase_edge_properties(edge.0, edge.1);
            g.same_blocks_properties(g.without_target(edge.0, edge.1));
        }
        let iu = self.position(edge.0).unwrap();
        let mut from = self.nodes[iu].duplicate();
        proof {
            assert(g.blocks[iu as int].wf());
        }
        from.erase_target(edge.1);
        self.nodes.set(iu, from);
        proof {
            assert(self@.blocks =~= g.without_target(edge.0, edge.1).blocks);
        }
        let ghost g1 = self@;
        let iv = self.position(edge.1).unwrap();
        let mut to = self.nodes[iv].duplicate();
        proof {
            g.slot_is_unique(iv as int);
            assert(g.blocks[iv as int].wf());
            assert(g1.blocks[iv as int].sources == g.blocks[iv as int].sources);
        }
        to.erase_source(edge.0);
        self.nodes.set(iv, to);
        proof {
            assert(self@.blocks =~= g1.without_source(edge.1, edge.0).blocks);
        }
    }

    /// Takes the edges out of the graph, one after the other, each at both
    /// ends.
    pub fn erase_edges(&mut self, edges: &Vec<(Vertex<N>, Vertex<N>)>)
        requires
            old(self).wf(),
            old(self)@.linked(),
            old(self)@.holds_ends(edges@),
        ensures
            final(self).wf(),
            final(self)@ == old(self)@.erase_edges(edges@),
    {
        let ghost g = self@;
        let mut i: usize = 0;
        while i < edges.len()
            invariant
                i <= edges.len(),
                g.wf(),
                g.linked(),
                g.holds_ends(edges@),
                self.wf(),
                self@ == g.erase_edges(edges@.take(i as int)),
            decreases edges.len() - i,
        {
            proof {
                let front = edges@.take(i as int);
                assert forall|k: int| 0 <= k < front.len() implies g.has((#[trigger] front[k]).0)
                    && g.has(front[k].1) by {
                    assert(front[k] == edges@[k]);
                }
                g.erase_edges_properties(front);
                assert(g.has(edges@[i as int].0) && g.has(edges@[i as int].1));
                self@.sources_are_counted(edges@[i as int].1);
                assert(edges@.take(i + 1).drop_last() =~= front);
            }
            self.erase_edge(edges[i]);
            i += 1;
        }
        proof {
            assert(edges@.take(edges.len() as int) =~= edges@);
        }
    }

    /// The edges that close a cycle in a depth-first traversal from the entry:
    /// those found to enter a block that the traversal has reached and not
    /// yet left. Every cycle that can be reached from the entry runs along
    /// one of them.
    pub fn backedges(&self) -> (r: Vec<(Vertex<N>, Vertex<N>)>)
        requires
            self.wf(),
            self@.closed(),
            self@.has(self@.entry),
        ensures
            forall|k: int| 0 <= k < r.len() ==> self@.edge((#[trigger] r@[k]).0, r@[k].1),
            forall|p: Seq<Vertex<N>>|
                #[trigger] self@.is_cycle(p) && self@.reaches(self@.entry, p[0]) ==> crosses(p, r@),
    {
        let n = self.nodes.len();
        let arcs = self.arcs();
        let start = self.position(self.address).unwrap();
        let (back, done) = traversal(n, &arcs, start);
        proof {
            traversal_stays_in_reach(arcs@, start, back@, done@, start);
        }
        let mut r: Vec<(Vertex<N>, Vertex<N>)> = Vec::new();
        let mut i: usize = 0;
        while i < back.len()
            invariant
                i <= back.len(),
                n == self.nodes.len(),
                n == self@.size(),
                self.wf(),
                self@.mirrored_by(arcs@),
                forall|k: int| 0 <= k < back.len() ==> arcs@.contains(#[trigger] back@[k]),
                r.len() == i,
                forall|k: int|
                    0 <= k < i ==> (#[trigger] back@[k]).0 < n && back@[k].1 < n && r@[k] == (
                        self@.addr(back@[k].0 as int),
                        self@.addr(back@[k].1 as int),
                    ),
            decreases back.len() - i,
        {
            let (a, b) = back[i];
            proof {
                assert(arcs@.contains(back@[i as int]));
                let e = choose|e: int| 0 <= e < arcs.len() && arcs@[e] == back@[i as int];
                assert(arcs@[e].0 < n && arcs@[e].1 < n);
            }
            r.push((self.nodes[a].address(), self.nodes[b].address()));
            i += 1;
        }
        proof {
            self@.back_arcs_are_edges(arcs@, back@, r@);
            assert forall|p: Seq<Vertex<N>>| #[trigger] self@.is_cycle(p) && self@.reaches(
                self@.entry,
                p[0],
            ) implies crosses(p, r@) by {
                self@.back_arcs_cut_cycle(arcs@, start, back@, done@, r@, p);
            }
        }
        r
    }

    /// Adds the phantom source: a block without predecessors that names
    /// every vertex that one of the given edges enters. The vertices that
    /// the edges leave are not blocks of this graph, so nothing is taken out.
    pub fn add_source_vertex(&mut self, in_edges: &Vec<(Vertex<N>, Vertex<N>)>)
        requires
            old(self).wf(),
        ensures
            final(self).wf(),
            final(self)@ == old(self)@.with_source(in_edges@),
    {
        let mut targets: Vec<Vertex<N>> = Vec::new();
        let mut i: usize = 0;
        while i < in_edges.len()
            invariant
                i <= in_edges.len(),
                targets@ == heads(in_edges@).take(i as int),
            decreases in_edges.len() - i,
        {
            targets.push(in_edges[i].1);
            proof {
                assert(heads(in_edges@).take(i + 1) =~= heads(in_edges@).take(i as int).push(
                    in_edges@[i as int].1,
                ));
            }
            i += 1;
        }
        proof {
            assert(heads(in_edges@).take(in_edges.len() as int) =~= heads(in_edges@));
            crate::members::distinct_of_distinct(Seq::<Vertex<N>>::empty());
            assert(crate::members::distinct(Seq::<Vertex<N>>::empty()) =~= Seq::<Vertex<N>>::empty());
        }
        self.add_block_without_update(
            NoInstrBasicBlock::new(Vertex::Source, SOURCE_WEIGHT, Vec::new(), targets, 0),
        );
    }

    /// Adds the phantom sink and leads every one of the given edges to it:
    /// the block that the edge leaves names the sink in place of the vertex
    /// that the edge entered. The sink records the blocks that the edges
    /// leave, and counts the edges.
    pub fn add_sink_vertex(&mut self, out_edges: &Vec<(Vertex<N>, Vertex<N>)>)
        requires
            old(self).wf(),
            forall|k: int| 0 <= k < out_edges.len() ==> old(self)@.has((#[trigger] out_edges@[k]).0),
        ensures
            final(self).wf(),
            final(self)@ == old(self)@.with_sink(out_edges@),
    {
        let mut sources: Vec<Vertex<N>> = Vec::new();
        let mut i: usize = 0;
        while i < out_edges.len()
            invariant
                i <= out_edges.len(),
                sources@ == tails(out_edges@).take(i as int),
            decreases out_edges.len() - i,
        {
            sources.push(out_edges[i].0);
            proof {
                assert(tails(out_edges@).take(i + 1) =~= tails(out_edges@).take(i as int).push(
                    out_edges@[i as int].0,
                ));
            }
            i += 1;
        }
        proof {
            assert(tails(out_edges@).take(out_edges.len() as int) =~= tails(out_edges@));
            assert(crate::members::distinct(Seq::<Vertex<N>>::empty()) =~= Seq::<Vertex<N>>::empty());
            crate::members::distinct_keeps_members(tails(out_edges@));
            old(self)@.put_properties(sink_block(out_edges@));
        }
        self.add_block_without_update(
            NoInstrBasicBlock::new(Vertex::Sink, 0, sources, Vec::new(), out_edges.len()),
        );
        let ghost g = self@;
        let mut j: usize = 0;
        while j < out_edges.len()
            invariant
                j <= out_edges.len(),
                g.wf(),
                forall|k: int| 0 <= k < out_edges.len() ==> g.has((#[trigger] out_edges@[k]).0),
                self.wf(),
                self@ == g.redirect_all(out_edges@.take(j as int)),
            decreases out_edges.len() - j,
        {
            let (source, target) = out_edges[j];
            proof {
                let front = out_edges@.take(j as int);
                assert forall|k: int| 0 <= k < front.len() implies g.has((#[trigger] front[k]).0) by {
                    assert(front[k] == out_edges@[k]);
                }
                g.redirect_all_properties(front);
                assert(g.has(out_edges@[j as int].0));
                self@.redirect_properties(source, target);
                assert(out_edges@.take(j + 1).drop_last() =~= front);
            }
            let at = self.position(source).unwrap();
            let mut node = self.nodes[at].duplicate();
            proof {
                assert(self@.blocks[at as int].wf());
            }
            node.erase_target(target);
            node.add_target(Vertex::Sink);
            let ghost before = self@;
            self.nodes.set(at, node);
            proof {
                assert(self@.blocks =~= before.redirect(source, target).blocks);
            }
            j += 1;
        }
        proof {
            assert(out_edges@.take(out_edges.len() as int) =~= out_edges@);
        }
    }

    /// Gives every block the successors listed for its slot.
    pub(crate) fn set_targets(&mut self, targets: &Vec<Vec<Vertex<N>>>)
        requires
            old(self).wf(),
            targets.len() == old(self)@.size(),
            forall|i: int| 0 <= i < targets.len() ==> (#[trigger] targets@[i])@.no_duplicates(),
        ensures
            final(self)@.entry == old(self)@.entry,
            final(self)@.size() == old(self)@.size(),
            forall|i: int|
                0 <= i < targets.len() ==> #[trigger] final(self)@.blocks[i] == (BlockView {
                    targets: targets@[i]@,
                    ..old(self)@.blocks[i]
                }),
    {
        let ghost g = self@;
        let mut i: usize = 0;
        while i < self.nodes.len()
            invariant
                i <= self.nodes.len(),
                g.wf(),
                self.nodes.len() == g.size(),
                targets.len() == g.size(),
                self@.entry == g.entry,
                forall|k: int| 0 <= k < targets.len() ==> (#[trigger] targets@[k])@.no_duplicates(),
                forall|k: int|
                    0 <= k < i ==> #[trigger] self@.blocks[k] == (BlockView {
                        targets: targets@[k]@,
                        ..g.blocks[k]
                    }),
                forall|k: int| i <= k < g.size() ==> #[trigger] self@.blocks[k] == g.blocks[k],
            decreases self.nodes.len() - i,
        {
            let old_block = &self.nodes[i];
            proof {
                assert(self@.blocks[i as int] == g.blocks[i as int]);
                assert(g.blocks[i as int].wf());
                distinct_of_distinct(targets@[i as int]@);
                distinct_of_distinct(g.blocks[i as int].sources);
            }
            let block = NoInstrBasicBlock::new(
                old_block.address(),
                old_block.len(),
                copied(old_block.sources()),
                copied(&targets[i]),
                old_block.indegree(),
            );
            let ghost before = self@;
            self.nodes.set(i, block);
            proof {
                assert(self@.blocks =~= before.blocks.update(i as int, block@));
            }
            i += 1;
        }
    }
}

} // verus!
