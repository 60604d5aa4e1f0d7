//! The mathematical model of a block graph, and what it means for one to be
//! sound.

use vstd::prelude::*;
use vstd::set_lib::{lemma_int_range, lemma_len_subset, lemma_subset_equality, set_int_range};
use crate::block::BlockView;
use crate::vertex::{VAGNodeId, Vertex};

verus! {

/// The mathematical content of a block graph: the entry vertex and the blocks,
/// in the order in which they are stored.
pub ghost struct GraphView<N: VAGNodeId> {
    /// Where the traversal of the graph starts.
    pub entry: Vertex<N>,
    /// The blocks, each stored under its own address.
    pub blocks: Seq<BlockView<N>>,
}

impl<N: VAGNodeId> GraphView<N> {
    /// Number of blocks.
    pub open spec fn size(self) -> nat {
        self.blocks.len()
    }

    /// The address of the block in slot `i`.
    pub open spec fn addr(self, i: int) -> Vertex<N> {
        self.blocks[i].address
    }

    /// Whether a block is stored under `v`.
    pub open spec fn has(self, v: Vertex<N>) -> bool {
        exists|i: int| 0 <= i < self.blocks.len() && #[trigger] self.addr(i) == v
    }

    /// The slot of the block stored under `v`.
    pub open spec fn slot(self, v: Vertex<N>) -> int {
        choose|i: int| 0 <= i < self.blocks.len() && #[trigger] self.addr(i) == v
    }

    /// The block stored under `v`.
    pub open spec fn at(self, v: Vertex<N>) -> BlockView<N> {
        self.blocks[self.slot(v)]
    }

    /// Whether the block at `u` names `v` as a successor.
    pub open spec fn edge(self, u: Vertex<N>, v: Vertex<N>) -> bool {
        self.has(u) && self.at(u).targets.contains(v)
    }

    /// No two blocks share an address.
    pub open spec fn keyed(self) -> bool {
        forall|i: int, j: int|
            0 <= i < j < self.blocks.len() ==> #[trigger] self.addr(i) != #[trigger] self.addr(j)
    }

    /// Every block is well formed and no two blocks share an address.
    pub open spec fn wf(self) -> bool {
        &&& forall|i: int| 0 <= i < self.blocks.len() ==> (#[trigger] self.blocks[i]).wf()
        &&& self.keyed()
    }

    /// Every successor that a block names is itself a block of the graph.
    pub open spec fn closed(self) -> bool {
        forall|i: int, k: int|
            0 <= i < self.blocks.len() && 0 <= k < self.blocks[i].targets.len() ==> self.has(
                #[trigger] self.blocks[i].targets[k],
            )
    }

    /// The two sides of every edge agree: the predecessors recorded at a block
    /// are exactly the blocks that name it, and its indegree counts them.
    pub open spec fn linked(self) -> bool {
        &&& forall|i: int|
            0 <= i < self.blocks.len() ==> (#[trigger] self.blocks[i]).indegree
                == self.blocks[i].sources.len()
        &&& forall|i: int, u: Vertex<N>|
            0 <= i < self.blocks.len() ==> (#[trigger] self.blocks[i].sources.contains(u)
                <==> self.edge(u, self.addr(i)))
    }

    /// No block is stored under a phantom vertex.
    pub open spec fn plain(self) -> bool {
        forall|i: int| 0 <= i < self.blocks.len() ==> (#[trigger] self.addr(i)) is Id
    }

    /// A graph on which the layout algorithms may run.
    pub open spec fn sound(self) -> bool {
        self.wf() && self.closed() && self.linked()
    }

    /// The graph with `b` stored under its address: in place of the block
    /// that was there, or as a new last block.
    pub open spec fn put(self, b: BlockView<N>) -> Self {
        if self.has(b.address) {
            GraphView { blocks: self.blocks.update(self.slot(b.address), b), ..self }
        } else {
            GraphView { blocks: self.blocks.push(b), ..self }
        }
    }

    /// The graph that holds `blocks[..n]`, stored one after the other.
    pub open spec fn filled(entry: Vertex<N>, blocks: Seq<BlockView<N>>, n: int) -> Self
        decreases n,
    {
        if n <= 0 {
            GraphView { entry, blocks: Seq::empty() }
        } else {
            Self::filled(entry, blocks, n - 1).put(blocks[n - 1])
        }
    }

    /// In a well-formed graph the slot of a stored address is the one slot
    /// that holds it.
    pub proof fn slot_is_unique(self, i: int)
        requires
            self.keyed(),
            0 <= i < self.blocks.len(),
        ensures
            self.has(self.addr(i)),
            self.slot(self.addr(i)) == i,
            self.at(self.addr(i)) == self.blocks[i],
    {
        let j = self.slot(self.addr(i));
        assert(0 <= j < self.blocks.len() && self.addr(j) == self.addr(i));
    }

    /// Storing a well-formed block keeps the graph well formed, and changes
    /// what is stored under its address only.
    pub proof fn put_properties(self, b: BlockView<N>)
        requires
            self.wf(),
            b.wf(),
        ensures
            self.put(b).wf(),
            self.put(b).has(b.address),
            self.put(b).at(b.address) == b,
            forall|v: Vertex<N>| self.put(b).has(v) <==> (self.has(v) || v == b.address),
            forall|v: Vertex<N>| v != b.address && self.has(v) ==> self.put(b).at(v) == self.at(v),
    {
        let g = self.put(b);
        if self.has(b.address) {
            let k = self.slot(b.address);
            assert(g.addr(k) == b.address);
            assert forall|i: int, j: int| 0 <= i < j < g.blocks.len() implies #[trigger] g.addr(i)
                != #[trigger] g.addr(j) by {
                assert(self.addr(i) != self.addr(j));
            }
            assert forall|v: Vertex<N>| g.has(v) <==> (self.has(v) || v == b.address) by {
                if g.has(v) {
                    let i = g.slot(v);
                    assert(self.addr(i) == v);
                }
                if self.has(v) {
                    let i = self.slot(v);
                    assert(g.addr(i) == v);
                }
            }
            g.slot_is_unique(k);
            assert forall|v: Vertex<N>| v != b.address && self.has(v) implies g.at(v) == self.at(
                v,
            ) by {
                let i = self.slot(v);
                assert(g.addr(i) == v);
                g.slot_is_unique(i);
            }
        } else {
            let k = self.blocks.len() as int;
            assert(g.addr(k) == b.address);
            assert forall|i: int, j: int| 0 <= i < j < g.blocks.len() implies #[trigger] g.addr(i)
                != #[trigger] g.addr(j) by {
                if j < k {
                    assert(self.addr(i) != self.addr(j));
                } else {
                    assert(self.addr(i) == g.addr(i));
                }
            }
            assert forall|v: Vertex<N>| g.has(v) <==> (self.has(v) || v == b.address) by {
                if g.has(v) {
                    let i = g.slot(v);
                    if i < k {
                        assert(self.addr(i) == v);
                    }
                }
                if self.has(v) {
                    let i = self.slot(v);
                    assert(g.addr(i) == v);
                }
            }
            g.slot_is_unique(k);
            assert forall|v: Vertex<N>| v != b.address && self.has(v) implies g.at(v) == self.at(
                v,
            ) by {
                let i = self.slot(v);
                assert(g.addr(i) == v);
                g.slot_is_unique(i);
            }
        }
    }

    /// A run of distinct blocks is no longer than the graph, and as long only
    /// if it holds every block.
    pub proof fn distinct_blocks_bound(self, placed: Seq<Vertex<N>>)
        requires
            self.wf(),
            placed.no_duplicates(),
            forall|i: int| 0 <= i < placed.len() ==> self.has(#[trigger] placed[i]),
        ensures
            placed.len() <= self.size(),
            placed.len() == self.size() ==> forall|v: Vertex<N>|
                self.has(v) ==> placed.contains(v),
    {
        let n = self.size() as int;
        let q = Seq::new(placed.len(), |i: int| self.slot(placed[i]));
        assert forall|i: int, j: int| 0 <= i < q.len() && 0 <= j < q.len() && i != j implies q[i]
            != q[j] by {
            assert(self.has(placed[i]) && self.has(placed[j]));
            assert(self.addr(q[i]) == placed[i] && self.addr(q[j]) == placed[j]);
        }
        let range = set_int_range(0, n);
        lemma_int_range(0, n);
        assert forall|x: int| q.to_set().contains(x) implies range.contains(x) by {
            let i = choose|i: int| 0 <= i < q.len() && q[i] == x;
            assert(self.has(placed[i]));
        }
        q.unique_seq_to_set();
        lemma_len_subset(q.to_set(), range);
        if placed.len() == self.size() {
            lemma_subset_equality(q.to_set(), range);
            assert forall|v: Vertex<N>| self.has(v) implies placed.contains(v) by {
                let x = self.slot(v);
                assert(range.contains(x));
                assert(q.to_set().contains(x));
                let i = choose|i: int| 0 <= i < q.len() && q[i] == x;
                assert(self.has(placed[i]));
                assert(self.addr(x) == v && self.addr(x) == placed[i]);
            }
        }
    }

    /// Blocks with pairwise distinct addresses are stored as they come.
    pub proof fn filled_of_keyed(entry: Vertex<N>, blocks: Seq<BlockView<N>>, n: int)
        requires
            0 <= n <= blocks.len(),
            forall|i: int, j: int|
                0 <= i < j < n ==> (#[trigger] blocks[i]).address != (#[trigger] blocks[j]).address,
        ensures
            Self::filled(entry, blocks, n) == (GraphView { entry, blocks: blocks.take(n) }),
        decreases n,
    {
        if n > 0 {
            Self::filled_of_keyed(entry, blocks, n - 1);
            let g = GraphView { entry, blocks: blocks.take(n - 1) };
            if g.has(blocks[n - 1].address) {
                let i = g.slot(blocks[n - 1].address);
                assert(g.addr(i) == blocks[n - 1].address);
                assert(blocks[i].address != blocks[n - 1].address);
            }
            assert(blocks.take(n - 1).push(blocks[n - 1]) =~= blocks.take(n));
        } else {
            assert(blocks.take(0) =~= Seq::<BlockView<N>>::empty());
        }
    }
}

} // verus!
