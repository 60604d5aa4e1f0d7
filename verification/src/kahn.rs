//! The weighted variant of Kahn's algorithm.

use vstd::prelude::*;
use crate::block::{outranks_is_total, NoInstrBasicBlock};
use crate::graph::GraphView;
use crate::schedule::{outranks_is_transitive, placed_count, placed_count_bounds, placed_count_step};
use crate::vag::VirtualAddressGraph;
use crate::vertex::{VAGNodeId, Vertex};

verus! {

/// A block together with the number of its incoming edges that the running
/// algorithm has deleted so far.
#[derive(Debug)]
struct KahnBasicBlock<'a, N: VAGNodeId> {
    block: &'a NoInstrBasicBlock<N>,
    deleted: usize,
}

/// A block graph prepared for scheduling.
#[derive(Debug)]
pub struct KahnGraph<'a, N: VAGNodeId> {
    address: Vertex<N>,
    nodes: Vec<KahnBasicBlock<'a, N>>,
}

impl<'a, N: VAGNodeId> View for KahnGraph<'a, N> {
    type V = GraphView<N>;

    closed spec fn view(&self) -> GraphView<N> {
        GraphView {
            entry: self.address,
            blocks: self.nodes@.map_values(|k: KahnBasicBlock<'a, N>| k.block@),
        }
    }
}

/// Whether the counters say, for each block, how many of its predecessors are
/// placed.
pub open spec fn counts_match<N: VAGNodeId>(
    g: GraphView<N>,
    deleted: Seq<nat>,
    placed: Seq<Vertex<N>>,
) -> bool {
    &&& deleted.len() == g.size()
    &&& forall|s: int|
        0 <= s < g.size() ==> #[trigger] deleted[s] == placed_count(g.blocks[s].sources, placed)
}

/// Whether `waiting` holds exactly the slots of the blocks that are not
/// placed and have lost all their incoming edges.
pub open spec fn waiting_matches<N: VAGNodeId>(
    g: GraphView<N>,
    deleted: Seq<nat>,
    waiting: Seq<usize>,
    placed: Seq<Vertex<N>>,
) -> bool {
    &&& waiting.no_duplicates()
    &&& forall|k: int| 0 <= k < waiting.len() ==> (#[trigger] waiting[k]) < g.size()
    &&& forall|s: usize|
        s < g.size() ==> (#[trigger] waiting.contains(s) <==> !placed.contains(g.addr(s as int))
            && deleted[s as int] == g.blocks[s as int].indegree)
}

/// Whether each vertex of `order` was ready when it was placed, and no other
/// ready vertex outranked it.
pub open spec fn placed_in_turn<N: VAGNodeId>(g: GraphView<N>, order: Seq<Vertex<N>>) -> bool {
    &&& forall|i: int| 0 <= i < order.len() ==> g.ready(order.take(i), #[trigger] order[i])
    &&& forall|i: int, v: Vertex<N>|
        0 <= i < order.len() && #[trigger] g.ready(order.take(i), v) && v != order[i] ==> g.at(
            order[i],
        ).outranks(g.at(v))
}

/// In a sound graph a block is ready exactly when its counter has reached its
/// indegree and it is not placed.
proof fn ready_by_count<N: VAGNodeId>(
    g: GraphView<N>,
    deleted: Seq<nat>,
    placed: Seq<Vertex<N>>,
    s: int,
)
    requires
        g.sound(),
        counts_match(g, deleted, placed),
        0 <= s < g.size(),
    ensures
        g.ready(placed, g.addr(s)) <==> !placed.contains(g.addr(s)) && deleted[s]
            == g.blocks[s].indegree,
        deleted[s] <= g.blocks[s].indegree,
{
    let v = g.addr(s);
    let src = g.blocks[s].sources;
    g.slot_is_unique(s);
    placed_count_bounds(src, placed);
    if deleted[s] == g.blocks[s].indegree {
        assert forall|u: Vertex<N>| #[trigger] g.edge(u, v) implies placed.contains(u) by {
            assert(g.blocks[s].sources.contains(u));
            let k = choose|k: int| 0 <= k < src.len() && src[k] == u;
            assert(placed.contains(src[k]));
        }
    }
    if g.ready(placed, v) {
        assert forall|k: int| 0 <= k < src.len() implies placed.contains(#[trigger] src[k]) by {
            assert(g.blocks[s].sources.contains(src[k]));
            assert(g.edge(src[k], v));
        }
    }
}

impl<'a, N: VAGNodeId> KahnGraph<'a, N> {
    /// The counters of deleted edges, slot by slot.
    pub closed spec fn deleted(&self) -> Seq<nat> {
        self.nodes@.map_values(|k: KahnBasicBlock<'a, N>| k.deleted as nat)
    }

    /// Between two runs every counter is zero.
    pub open spec fn idle(&self) -> bool {
        forall|s: int| 0 <= s < self.deleted().len() ==> #[trigger] self.deleted()[s] == 0
    }

    /// Prepares a graph for scheduling: the same blocks, all counters zero.
    pub fn from_vag(vag: &'a VirtualAddressGraph<N>) -> (kahn: Self)
        ensures
            kahn@ == vag@,
            kahn.idle(),
    {
        let blocks = vag.nodes();
        let mut nodes: Vec<KahnBasicBlock<'a, N>> = Vec::new();
        let mut i: usize = 0;
        while i < blocks.len()
            invariant
                i <= blocks.len(),
                nodes.len() == i,
                forall|k: int| 0 <= k < i ==> (#[trigger] nodes@[k]).block@ == blocks@[k]@,
                forall|k: int| 0 <= k < i ==> (#[trigger] nodes@[k]).deleted == 0,
            decreases blocks.len() - i,
        {
            nodes.push(KahnBasicBlock { block: &blocks[i], deleted: 0 });
            i += 1;
        }
        let kahn = KahnGraph { address: vag.address(), nodes };
        proof {
            assert(kahn@.blocks =~= vag@.blocks);
        }
        kahn
    }

    /// The slot of the block stored under `target`.
    fn slot_of(&self, target: &Vertex<N>) -> (j: usize)
        requires
            self@.wf(),
            self@.has(*target),
        ensures
            j == self@.slot(*target),
            j < self@.size(),
            self@.addr(j as int) == *target,
    {
        let mut i: usize = 0;
        while i < self.nodes.len()
            invariant
                i <= self.nodes.len(),
                self@.wf(),
                self@.has(*target),
                forall|j: int| 0 <= j < i ==> #[trigger] self@.addr(j) != *target,
            decreases self.nodes.len() - i,
        {
            if self.nodes[i].block.address().same(target) {
                proof {
                    self@.slot_is_unique(i as int);
                }
                return i;
            }
            i += 1;
        }
        proof {
            let k = self@.slot(*target);
            assert(self@.addr(k) == *target);
            assert(false);
        }
        0
    }

    /// Deletes one incoming edge of the block at `target`. Returns its slot
    /// if that was its last one.
    fn reduce_indegree(&mut self, target: &Vertex<N>) -> (r: Option<usize>)
        requires
            old(self)@.wf(),
            old(self)@.has(*target),
            old(self).deleted()[old(self)@.slot(*target)] < usize::MAX,
        ensures
            final(self)@ == old(self)@,
            final(self).deleted() == old(self).deleted().update(
                old(self)@.slot(*target),
                old(self).deleted()[old(self)@.slot(*target)] + 1,
            ),
            match r {
                Some(j) => j == old(self)@.slot(*target) && final(self).deleted()[j as int]
                    == old(self)@.blocks[j as int].indegree,
                None => final(self).deleted()[old(self)@.slot(*target)] != old(self)@.at(
                    *target,
                ).indegree,
            },
    {
        let j = self.slot_of(target);
        let block = self.nodes[j].block;
        let deleted = self.nodes[j].deleted + 1;
        self.nodes.set(j, KahnBasicBlock { block, deleted });
        proof {
            assert(self@.blocks =~= old(self)@.blocks);
            assert(self.deleted() =~= old(self).deleted().update(
                j as int,
                old(self).deleted()[j as int] + 1,
            ));
        }
        if block.indegree() == deleted {
            Some(j)
        } else {
            None
        }
    }

    /// Sets every counter back to zero.
    fn no_deleted(&mut self)
        ensures
            final(self)@ == old(self)@,
            final(self).idle(),
    {
        let mut i: usize = 0;
        while i < self.nodes.len()
            invariant
                i <= self.nodes.len(),
                self.nodes.len() == old(self).nodes.len(),
                self@ == old(self)@,
                forall|k: int| 0 <= k < i ==> #[trigger] self.deleted()[k] == 0,
            decreases self.nodes.len() - i,
        {
            let block = self.nodes[i].block;
            let ghost before = self@;
            let ghost counters = self.deleted();
            self.nodes.set(i, KahnBasicBlock { block, deleted: 0 });
            proof {
                assert(self@.blocks =~= before.blocks);
                assert(self.deleted() =~= counters.update(i as int, 0));
            }
            i += 1;
        }
    }

    /// Where in `waiting` the slot stands whose block outranks all others
    /// that wait.
    fn pick(&self, waiting: &Vec<usize>) -> (best: usize)
        requires
            self@.wf(),
            waiting.len() > 0,
            waiting@.no_duplicates(),
            forall|k: int| 0 <= k < waiting.len() ==> (#[trigger] waiting@[k]) < self@.size(),
        ensures
            best < waiting.len(),
            forall|k: int|
                0 <= k < waiting.len() && k != best ==> self@.blocks[waiting@[best as int] as int].outranks(
                    self@.blocks[#[trigger] waiting@[k] as int],
                ),
    {
        let mut best: usize = 0;
        let mut k: usize = 1;
        while k < waiting.len()
            invariant
                self@.wf(),
                1 <= k <= waiting.len(),
                best < k,
                waiting@.no_duplicates(),
                forall|l: int| 0 <= l < waiting.len() ==> (#[trigger] waiting@[l]) < self@.size(),
                forall|l: int|
                    0 <= l < k && l != best ==> self@.blocks[waiting@[best as int] as int].outranks(
                        self@.blocks[#[trigger] waiting@[l] as int],
                    ),
            decreases waiting.len() - k,
        {
            let here = self.nodes[waiting[k]].block;
            let top = self.nodes[waiting[best]].block;
            proof {
                let a = self@.blocks[waiting@[k as int] as int];
                let b = self@.blocks[waiting@[best as int] as int];
                assert(waiting@[k as int] != waiting@[best as int]);
                assert(self@.addr(waiting@[k as int] as int) != self@.addr(
                    waiting@[best as int] as int,
                ));
                outranks_is_total(a, b);
                if a.outranks(b) {
                    assert forall|l: int| 0 <= l < k && l != best implies a.outranks(
                        self@.blocks[#[trigger] waiting@[l] as int],
                    ) by {
                        outranks_is_transitive(a, b, self@.blocks[waiting@[l] as int]);
                    }
                }
            }
            if here.outranks(top) {
                best = k;
            }
            k += 1;
        }
        best
    }

    /// The weighted topological order of the graph: among the blocks whose
    /// predecessors are all placed, the one with the most predecessors comes
    /// next; of those, the longest; of those, the one with the smallest
    /// address. On a graph with a cycle the order ends when no block is
    /// ready. The counters are zero again when the order is returned.
    pub fn kahn_algorithm(&mut self) -> (order: Vec<Vertex<N>>)
        requires
            old(self)@.sound(),
            old(self).idle(),
        ensures
            final(self)@ == old(self)@,
            final(self).idle(),
            old(self)@.is_schedule(order@),
    {
        let ghost g = self@;
        let n = self.nodes.len();
        let mut topsort: Vec<Vertex<N>> = Vec::new();
        let mut visit: Vec<usize> = Vec::new();
        proof {
            assert forall|s: int| 0 <= s < g.size() implies #[trigger] self.deleted()[s]
                == placed_count(g.blocks[s].sources, topsort@) by {
                Self::nothing_placed(g.blocks[s].sources);
            }
        }
        let mut i: usize = 0;
        while i < n
            invariant
                self@ == g,
                g.sound(),
                n == g.size(),
                n == self.nodes.len(),
                i <= n,
                topsort@.len() == 0,
                counts_match(g, self.deleted(), topsort@),
                self.idle(),
                visit@.no_duplicates(),
                forall|k: int| 0 <= k < visit.len() ==> (#[trigger] visit@[k]) < i,
                forall|s: usize|
                    s < i ==> (#[trigger] visit@.contains(s) <==> self.deleted()[s as int]
                        == g.blocks[s as int].indegree),
            decreases n - i,
        {
            proof {
                broadcast use vstd::seq_lib::lemma_seq_contains_after_push;

                assert(self.deleted()[i as int] == 0);
                if visit@.contains(i) {
                    let e = choose|e: int| 0 <= e < visit.len() && visit@[e] == i;
                    assert(visit@[e] < i);
                }
            }
            if self.nodes[i].block.indegree() == 0 {
                visit.push(i);
            }
            i += 1;
        }
        proof {
            assert forall|s: usize| s < g.size() implies (#[trigger] visit@.contains(s)
                <==> !topsort@.contains(g.addr(s as int)) && self.deleted()[s as int]
                == g.blocks[s as int].indegree) by {}
        }
        while visit.len() > 0
            invariant
                self@ == g,
                g.sound(),
                n == g.size(),
                n == self.nodes.len(),
                counts_match(g, self.deleted(), topsort@),
                waiting_matches(g, self.deleted(), visit@, topsort@),
                placed_in_turn(g, topsort@),
            decreases n - topsort.len(),
        {
            let at = self.pick(&visit);
            let ghost full = visit@;
            let slot = visit.remove(at);
            let node = self.nodes[slot].block;
            let u = node.address();
            let ghost placed = topsort@;
            proof {
                Self::placing_is_in_turn(g, self.deleted(), full, placed, at as int);
                g.schedule_prefix_is_distinct(placed);
                g.distinct_blocks_bound(placed);
            }
            topsort.push(u);
            let targets = node.targets();
            let mut k: usize = 0;
            while k < targets.len()
                invariant
                    self@ == g,
                    g.sound(),
                    n == g.size(),
                    n == self.nodes.len(),
                    slot < n,
                    u == g.addr(slot as int),
                    targets@ == g.blocks[slot as int].targets,
                    k <= targets.len(),
                    topsort@ == placed.push(u),
                    !placed.contains(u),
                    g.ready(placed, u),
                    placed_in_turn(g, placed),
                    self.deleted().len() == n,
                    forall|s: int|
                        0 <= s < n ==> #[trigger] self.deleted()[s] == placed_count(
                            g.blocks[s].sources,
                            if targets@.take(k as int).contains(g.addr(s)) {
                                topsort@
                            } else {
                                placed
                            },
                        ),
                    waiting_matches(g, self.deleted(), visit@, topsort@),
                decreases targets.len() - k,
            {
                let target = targets[k];
                let ghost counters = self.deleted();
                let ghost queue = visit@;
                proof {
                    Self::deleting_an_edge(g, counters, queue, placed, slot as int, k as int);
                }
                let ready = self.reduce_indegree(&target);
                if let Some(block) = ready {
                    visit.push(block);
                }
                proof {
                    broadcast use vstd::seq_lib::lemma_seq_contains_after_push;

                    let j = g.slot(target);
                    let seen = targets@.take(k as int);
                    let next = targets@.take(k + 1);
                    assert(next =~= seen.push(target));
                    assert forall|s: int| 0 <= s < n implies #[trigger] self.deleted()[s]
                        == placed_count(
                        g.blocks[s].sources,
                        if next.contains(g.addr(s)) {
                            topsort@
                        } else {
                            placed
                        },
                    ) by {
                        if s == j {
                            assert(next[k as int] == g.addr(s));
                        } else {
                            if next.contains(g.addr(s)) {
                                let l = choose|l: int| 0 <= l < next.len() && next[l] == g.addr(s);
                                assert(l < k);
                                assert(seen[l] == g.addr(s));
                            }
                            if seen.contains(g.addr(s)) {
                                let l = choose|l: int| 0 <= l < seen.len() && seen[l] == g.addr(s);
                                assert(next[l] == g.addr(s));
                            }
                        }
                    }
                    assert forall|s: usize| s < g.size() implies (#[trigger] visit@.contains(s)
                        <==> !topsort@.contains(g.addr(s as int)) && self.deleted()[s as int]
                        == g.blocks[s as int].indegree) by {
                        assert(queue.contains(s) <==> !topsort@.contains(g.addr(s as int))
                            && counters[s as int] == g.blocks[s as int].indegree);
                        if s == j {
                            assert(!queue.contains(s));
                            assert(!topsort@.contains(g.addr(s as int)));
                        } else {
                            assert(self.deleted()[s as int] == counters[s as int]);
                        }
                    }
                }
                k += 1;
            }
            proof {
                assert(targets@.take(targets.len() as int) =~= targets@);
                assert forall|s: int| 0 <= s < g.size() implies #[trigger] self.deleted()[s]
                    == placed_count(g.blocks[s].sources, topsort@) by {
                    if !targets@.contains(g.addr(s)) {
                        g.slot_is_unique(slot as int);
                        assert(!g.edge(u, g.addr(s)));
                        assert(!g.blocks[s].sources.contains(u));
                        placed_count_step(g.blocks[s].sources, placed, u);
                    }
                }
                g.slot_is_unique(slot as int);
                Self::turn_extends(g, placed, u);
            }
        }
        proof {
            assert forall|v: Vertex<N>| !#[trigger] g.ready(topsort@, v) by {
                if g.ready(topsort@, v) {
                    let s = g.slot(v);
                    ready_by_count(g, self.deleted(), topsort@, s);
                    assert(visit@.contains(s as usize));
                }
            }
        }
        self.no_deleted();
        topsort
    }

    /// While nothing is placed, no predecessor is.
    proof fn nothing_placed(s: Seq<Vertex<N>>)
        ensures
            placed_count(s, Seq::<Vertex<N>>::empty()) == 0,
        decreases s.len(),
    {
        if s.len() > 0 {
            Self::nothing_placed(s.drop_last());
        }
    }

    /// The block that `pick` chose is ready and outranks every other ready
    /// block; once it is taken out, the rest of the queue is what waits
    /// beside it.
    proof fn placing_is_in_turn(
        g: GraphView<N>,
        deleted: Seq<nat>,
        full: Seq<usize>,
        placed: Seq<Vertex<N>>,
        at: int,
    )
        requires
            g.sound(),
            g.size() <= usize::MAX,
            counts_match(g, deleted, placed),
            placed_in_turn(g, placed),
            0 <= at < full.len(),
            waiting_matches(g, deleted, full, placed),
            forall|k: int|
                0 <= k < full.len() && k != at ==> g.blocks[full[at] as int].outranks(
                    g.blocks[#[trigger] full[k] as int],
                ),
        ensures
            full[at] < g.size(),
            g.ready(placed, g.addr(full[at] as int)),
            !placed.contains(g.addr(full[at] as int)),
            forall|v: Vertex<N>|
                #[trigger] g.ready(placed, v) && v != g.addr(full[at] as int) ==> g.at(
                    g.addr(full[at] as int),
                ).outranks(g.at(v)),
            waiting_matches(g, deleted, full.remove(at), placed.push(g.addr(full[at] as int))),
    {
        broadcast use vstd::seq_lib::lemma_seq_contains_after_push;

        let slot = full[at];
        let waited = full.remove(at);
        let u = g.addr(slot as int);
        assert(full.contains(slot));
        ready_by_count(g, deleted, placed, slot as int);
        g.slot_is_unique(slot as int);
        assert forall|v: Vertex<N>| #[trigger] g.ready(placed, v) && v != u implies g.at(u).outranks(
            g.at(v),
        ) by {
            let s = g.slot(v);
            ready_by_count(g, deleted, placed, s);
            assert(full.contains(s as usize));
            let k = choose|k: int| 0 <= k < full.len() && full[k] == s as usize;
            assert(g.blocks[slot as int].outranks(g.blocks[full[k] as int]));
        }
        assert forall|s: usize| waited.contains(s) <==> full.contains(s) && s != slot by {
            if waited.contains(s) {
                let k = choose|k: int| 0 <= k < waited.len() && waited[k] == s;
                let kk = if k < at { k } else { k + 1 };
                assert(full[kk] == s);
            }
            if full.contains(s) && s != slot {
                let kk = choose|kk: int| 0 <= kk < full.len() && full[kk] == s;
                let k = if kk < at { kk } else { kk - 1 };
                assert(waited[k] == s);
            }
        }
        let more = placed.push(u);
        assert forall|s: usize| s < g.size() implies (#[trigger] waited.contains(s) <==> !more.contains(
            g.addr(s as int),
        ) && deleted[s as int] == g.blocks[s as int].indegree) by {
            g.slot_is_unique(s as int);
            assert(full.contains(s) <==> !placed.contains(g.addr(s as int)) && deleted[s as int]
                == g.blocks[s as int].indegree);
        }
    }

    /// Before an edge from the newly placed block is deleted, the block that
    /// it enters has not yet lost all its edges, is not placed and does not
    /// wait.
    proof fn deleting_an_edge(
        g: GraphView<N>,
        deleted: Seq<nat>,
        waiting: Seq<usize>,
        placed: Seq<Vertex<N>>,
        slot: int,
        k: int,
    )
        requires
            g.sound(),
            g.size() <= usize::MAX,
            0 <= slot < g.size(),
            0 <= k < g.blocks[slot].targets.len(),
            g.ready(placed, g.addr(slot)),
            placed_in_turn(g, placed),
            deleted.len() == g.size(),
            forall|s: int|
                0 <= s < g.size() ==> #[trigger] deleted[s] == placed_count(
                    g.blocks[s].sources,
                    if g.blocks[slot].targets.take(k).contains(g.addr(s)) {
                        placed.push(g.addr(slot))
                    } else {
                        placed
                    },
                ),
            waiting_matches(g, deleted, waiting, placed.push(g.addr(slot))),
        ensures
            g.has(g.blocks[slot].targets[k]),
            ({
                let j = g.slot(g.blocks[slot].targets[k]);
                &&& 0 <= j < g.size()
                &&& g.addr(j) == g.blocks[slot].targets[k]
                &&& deleted[j] == placed_count(g.blocks[j].sources, placed)
                &&& deleted[j] + 1 == placed_count(
                    g.blocks[j].sources,
                    placed.push(g.addr(slot)),
                )
                &&& deleted[j] + 1 <= g.blocks[j].indegree
                &&& g.blocks[j].indegree <= usize::MAX
                &&& !waiting.contains(j as usize)
                &&& !placed.push(g.addr(slot)).contains(g.addr(j))
            }),
    {
        let u = g.addr(slot);
        let targets = g.blocks[slot].targets;
        let t = targets[k];
        g.slot_is_unique(slot);
        assert(g.has(g.blocks[slot].targets[k]));
        let j = g.slot(t);
        g.slot_is_unique(j);
        assert(g.edge(u, t));
        assert(g.blocks[j].sources.contains(u));
        if targets.take(k).contains(t) {
            let l = choose|l: int| 0 <= l < k && targets.take(k)[l] == t;
            assert(targets[l] == targets[k]);
        }
        placed_count_step(g.blocks[j].sources, placed, u);
        placed_count_bounds(g.blocks[j].sources, placed.push(u));
        let more = placed.push(u);
        assert(g.blocks[j].wf());
        if more.contains(t) {
            let i = choose|i: int| 0 <= i < more.len() && more[i] == t;
            if i < placed.len() {
                assert(placed[i] == t);
                assert(g.ready(placed.take(i), placed[i]));
                assert(placed.take(i).contains(u));
                let e = choose|e: int| 0 <= e < placed.take(i).len() && placed.take(i)[e] == u;
                assert(placed[e] == u);
            } else {
                assert(t == u);
                assert(placed.contains(u));
            }
        }
    }

    /// A block that was ready and outranked the other ready blocks extends
    /// the order.
    proof fn turn_extends(g: GraphView<N>, placed: Seq<Vertex<N>>, u: Vertex<N>)
        requires
            g.wf(),
            placed_in_turn(g, placed),
            g.ready(placed, u),
            forall|v: Vertex<N>| #[trigger] g.ready(placed, v) && v != u ==> g.at(u).outranks(g.at(v)),
        ensures
            placed_in_turn(g, placed.push(u)),
    {
        let more = placed.push(u);
        assert forall|i: int| 0 <= i < more.len() implies g.ready(more.take(i), #[trigger] more[i]) by {
            if i < placed.len() {
                assert(more.take(i) =~= placed.take(i));
                assert(g.ready(placed.take(i), placed[i]));
            } else {
                assert(more.take(i) =~= placed);
            }
        }
        assert forall|i: int, v: Vertex<N>|
            0 <= i < more.len() && #[trigger] g.ready(more.take(i), v) && v != more[i] implies g.at(
            more[i],
        ).outranks(g.at(v)) by {
            if i < placed.len() {
                assert(more.take(i) =~= placed.take(i));
                assert(g.ready(placed.take(i), v));
            } else {
                assert(more.take(i) =~= placed);
            }
        }
    }
}

impl<N: VAGNodeId> GraphView<N> {
    /// Vertices that were placed in turn are distinct blocks.
    pub proof fn schedule_prefix_is_distinct(self, order: Seq<Vertex<N>>)
        requires
            placed_in_turn(self, order),
        ensures
            order.no_duplicates(),
            forall|i: int| 0 <= i < order.len() ==> self.has(#[trigger] order[i]),
    {
        assert forall|i: int, j: int| 0 <= i < order.len() && 0 <= j < order.len() && i
            != j implies order[i] != order[j] by {
            if i < j {
                assert(self.ready(order.take(j), order[j]));
                assert(order.take(j)[i] == order[i]);
            } else {
                assert(self.ready(order.take(i), order[i]));
                assert(order.take(i)[j] == order[j]);
            }
        }
        assert forall|i: int| 0 <= i < order.len() implies self.has(#[trigger] order[i]) by {
            assert(self.ready(order.take(i), order[i]));
        }
    }
}

} // verus!
