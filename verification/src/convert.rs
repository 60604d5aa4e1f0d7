//! Block graphs from control-flow graphs and from the flat form in which
//! graphs are kept in files.

use vstd::prelude::*;
use crate::block::{BlockView, NoInstrBasicBlock};
use crate::cfg::{block_views, in_order, BasicBlock, BasicBlockView, ControlFlowGraph};
use crate::graph::GraphView;
use crate::members::{distinct, distinct_keeps_members};
use crate::splice::wrapped;
use crate::vag::{views, VirtualAddressGraph};
use crate::vertex::{VAGNodeId, Vertex};

verus! {

/// What the layout keeps of a basic block: its address, the number of its
/// instructions and its successors, each once. Predecessors are not known
/// yet.
pub open spec fn stripped(bb: BasicBlockView) -> BlockView<u64> {
    BlockView {
        address: Vertex::Id(bb.address),
        len: bb.instructions.len(),
        sources: Seq::empty(),
        targets: distinct(wrapped(bb.targets)),
        indegree: 0,
    }
}

/// The block graph of a control-flow graph before predecessors are
/// recorded.
pub open spec fn stripped_graph(address: u64, blocks: Seq<BasicBlockView>) -> GraphView<u64> {
    GraphView {
        entry: Vertex::Id(address),
        blocks: Seq::new(blocks.len(), |i: int| stripped(blocks[i])),
    }
}

/// The ids as vertices.
fn wrap<N: VAGNodeId>(ids: &Vec<N>) -> (r: Vec<Vertex<N>>)
    ensures
        r@ == wrapped(ids@),
{
    let mut r: Vec<Vertex<N>> = Vec::new();
    let mut i: usize = 0;
    while i < ids.len()
        invariant
            i <= ids.len(),
            r.len() == i,
            forall|k: int| 0 <= k < i ==> #[trigger] r@[k] == Vertex::Id(ids@[k]),
        decreases ids.len() - i,
    {
        r.push(Vertex::Id(ids[i]));
        i += 1;
    }
    proof {
        assert(r@ =~= wrapped(ids@));
    }
    r
}

impl NoInstrBasicBlock<u64> {
    /// What the layout keeps of a basic block.
    pub fn from_bb(bb: &BasicBlock) -> (block: Self)
        ensures
            block.wf(),
            block@ == stripped(bb@),
    {
        proof {
            assert(distinct(Seq::<Vertex<u64>>::empty()) =~= Seq::<Vertex<u64>>::empty());
        }
        NoInstrBasicBlock::new(
            Vertex::Id(bb.address()),
            bb.instructions().len(),
            Vec::new(),
            wrap(bb.targets()),
            0,
        )
    }
}

impl VirtualAddressGraph<u64> {
    /// The block graph of a control-flow graph: a block for each basic
    /// block, entered where the control-flow graph is entered, with
    /// predecessors and indegrees recorded from the successors.
    pub fn from_cfg(cfg: &ControlFlowGraph) -> (vag: Self)
        requires
            cfg.wf(),
        ensures
            vag.wf(),
            vag@.linked(),
            vag@.plain(),
            vag@ == stripped_graph(cfg@.address, cfg@.blocks).relinked(),
    {
        let blocks = cfg.blocks();
        let ghost g = stripped_graph(cfg@.address, cfg@.blocks);
        let mut nodes: Vec<NoInstrBasicBlock<u64>> = Vec::new();
        let mut i: usize = 0;
        while i < blocks.len()
            invariant
                i <= blocks.len(),
                block_views(blocks@) == cfg@.blocks,
                g == stripped_graph(cfg@.address, cfg@.blocks),
                nodes.len() == i,
                forall|k: int| 0 <= k < i ==> (#[trigger] nodes@[k]).wf() && nodes@[k]@ == g.blocks[k],
            decreases blocks.len() - i,
        {
            proof {
                assert(blocks@[i as int]@ == cfg@.blocks[i as int]);
            }
            nodes.push(NoInstrBasicBlock::from_bb(&blocks[i]));
            i += 1;
        }
        proof {
            assert(views(nodes@) =~= g.blocks);
            assert forall|k: int, l: int| 0 <= k < l < g.blocks.len() implies (
            #[trigger] g.blocks[k]).address != (#[trigger] g.blocks[l]).address by {
                assert(cfg@.blocks[k].address < cfg@.blocks[l].address);
            }
            GraphView::filled_of_keyed(g.entry, g.blocks, nodes.len() as int);
            assert(g.blocks.take(nodes.len() as int) =~= g.blocks);
        }
        let mut vag = VirtualAddressGraph::new(Vertex::Id(cfg.address()), nodes);
        proof {
            g.relinked_is_linked();
            g.same_edges_properties(g.relinked());
            assert forall|k: int| 0 <= k < g.relinked().blocks.len() implies (
            #[trigger] g.relinked().addr(k)) is Id by {}
        }
        vag.update_sources_and_indegrees();
        vag
    }
}

/// A block in the flat form: with plain ids, and without predecessors.
#[derive(Debug, Clone)]
pub struct UnwrappedBasicBlock<N: VAGNodeId> {
    address: N,
    len: usize,
    targets: Vec<N>,
    indegree: usize,
}

/// The mathematical content of a block in the flat form.
pub ghost struct UnwrappedBlockView<N: VAGNodeId> {
    /// The id of the block.
    pub address: N,
    /// Number of instructions.
    pub len: nat,
    /// The ids of the successors.
    pub targets: Seq<N>,
    /// The recorded number of incoming edges.
    pub indegree: nat,
}

impl<N: VAGNodeId> UnwrappedBlockView<N> {
    /// The block with its ids as vertices and its successors each once.
    pub open spec fn to_nibb(self) -> BlockView<N> {
        BlockView {
            address: Vertex::Id(self.address),
            len: self.len,
            sources: Seq::empty(),
            targets: distinct(wrapped(self.targets)),
            indegree: self.indegree,
        }
    }
}

impl<N: VAGNodeId> View for UnwrappedBasicBlock<N> {
    type V = UnwrappedBlockView<N>;

    closed spec fn view(&self) -> UnwrappedBlockView<N> {
        UnwrappedBlockView {
            address: self.address,
            len: self.len as nat,
            targets: self.targets@,
            indegree: self.indegree as nat,
        }
    }
}

impl<N: VAGNodeId> UnwrappedBasicBlock<N> {
    /// A block in the flat form from its parts.
    pub fn new(address: N, len: usize, targets: Vec<N>, indegree: usize) -> (block: Self)
        ensures
            block@ == (UnwrappedBlockView {
                address,
                len: len as nat,
                targets: targets@,
                indegree: indegree as nat,
            }),
    {
        UnwrappedBasicBlock { address, len, targets, indegree }
    }

    /// The id of the block.
    pub fn address(&self) -> (r: N)
        ensures
            r == self@.address,
    {
        self.address
    }

    /// The number of instructions.
    pub fn len(&self) -> (r: usize)
        ensures
            r == self@.len,
    {
        self.len
    }

    /// The ids of the successors.
    pub fn targets(&self) -> (r: &Vec<N>)
        ensures
            r@ == self@.targets,
    {
        &self.targets
    }

    /// The recorded number of incoming edges.
    pub fn indegree(&self) -> (r: usize)
        ensures
            r == self@.indegree,
    {
        self.indegree
    }

    /// The block as the layout sees it.
    pub fn to_nibb(&self) -> (block: NoInstrBasicBlock<N>)
        ensures
            block.wf(),
            block@ == self@.to_nibb(),
    {
        proof {
            assert(distinct(Seq::<Vertex<N>>::empty()) =~= Seq::<Vertex<N>>::empty());
        }
        NoInstrBasicBlock::new(
            Vertex::Id(self.address),
            self.len,
            Vec::new(),
            wrap(&self.targets),
            self.indegree,
        )
    }
}

/// A graph in the flat form: the id of the entry, and the blocks.
#[derive(Debug, Clone)]
pub struct UnwrappedVAGraph<N: VAGNodeId> {
    address: N,
    nodes: Vec<UnwrappedBasicBlock<N>>,
}

/// The views of a run of blocks in the flat form, each as the layout sees
/// it.
pub open spec fn unwrapped_views<N: VAGNodeId>(nodes: Seq<UnwrappedBasicBlock<N>>) -> Seq<
    BlockView<N>,
> {
    Seq::new(nodes.len(), |i: int| nodes[i]@.to_nibb())
}

impl<N: VAGNodeId> UnwrappedVAGraph<N> {
    /// The blocks as the layout sees them.
    pub closed spec fn blocks(&self) -> Seq<BlockView<N>> {
        unwrapped_views(self.nodes@)
    }

    /// The entry as a vertex.
    pub closed spec fn entry(&self) -> Vertex<N> {
        Vertex::Id(self.address)
    }

    /// A graph in the flat form from its parts.
    pub fn new(address: N, nodes: Vec<UnwrappedBasicBlock<N>>) -> (graph: Self)
        ensures
            graph.entry() == Vertex::Id(address),
            graph.blocks() == unwrapped_views(nodes@),
    {
        UnwrappedVAGraph { address, nodes }
    }

    /// The blocks in the flat form.
    pub fn nodes(&self) -> (r: &Vec<UnwrappedBasicBlock<N>>)
        ensures
            unwrapped_views(r@) == self.blocks(),
    {
        &self.nodes
    }

    /// The graph as the layout sees it: the blocks stored one after the
    /// other under their ids. Of two blocks with the same id the later one
    /// stays.
    pub fn to_vag(&self) -> (vag: VirtualAddressGraph<N>)
        ensures
            vag.wf(),
            vag@ == GraphView::filled(self.entry(), self.blocks(), self.blocks().len() as int),
    {
        let mut wrappednodes: Vec<NoInstrBasicBlock<N>> = Vec::new();
        let mut i: usize = 0;
        while i < self.nodes.len()
            invariant
                i <= self.nodes.len(),
                wrappednodes.len() == i,
                forall|k: int|
                    0 <= k < i ==> (#[trigger] wrappednodes@[k]).wf() && wrappednodes@[k]@
                        == self.blocks()[k],
            decreases self.nodes.len() - i,
        {
            wrappednodes.push(self.nodes[i].to_nibb());
            i += 1;
        }
        proof {
            assert(views(wrappednodes@) =~= self.blocks());
        }
        VirtualAddressGraph::new(Vertex::Id(self.address), wrappednodes)
    }
}

} // verus!
