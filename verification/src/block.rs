//! One basic block as the layout sees it: its weight and its neighbours.

use vstd::prelude::*;
use crate::members::{copied, deduplicated, distinct, distinct_keeps_members, insert, remove, with,
    with_properties, without, without_properties};
use crate::vertex::{VAGNodeId, Vertex};

verus! {

/// The mathematical content of a block.
pub ghost struct BlockView<N: VAGNodeId> {
    /// The vertex under which the block is stored.
    pub address: Vertex<N>,
    /// Number of instructions: the weight of the block.
    pub len: nat,
    /// The direct predecessors, each once.
    pub sources: Seq<Vertex<N>>,
    /// The direct successors, each once.
    pub targets: Seq<Vertex<N>>,
    /// The recorded number of incoming edges.
    pub indegree: nat,
}

impl<N: VAGNodeId> BlockView<N> {
    /// Neither neighbour list names a vertex twice, and the two counts are
    /// machine numbers.
    pub open spec fn wf(self) -> bool {
        &&& self.sources.no_duplicates()
        &&& self.targets.no_duplicates()
        &&& self.len <= usize::MAX
        &&& self.indegree <= usize::MAX
    }

    /// Strict priority among blocks that wait to be placed: more recorded
    /// predecessors first, then the longer block, then the smaller address.
    pub open spec fn outranks(self, other: Self) -> bool {
        self.indegree > other.indegree || (self.indegree == other.indegree && (self.len
            > other.len || (self.len == other.len && self.address.precedes(other.address))))
    }
}

/// Of two blocks with different addresses exactly one outranks the other.
pub proof fn outranks_is_total<N: VAGNodeId>(a: BlockView<N>, b: BlockView<N>)
    ensures
        a.address == b.address || a.outranks(b) || b.outranks(a),
        !(a.outranks(b) && b.outranks(a)),
{
    Vertex::precedes_is_total(a.address, b.address);
}

/// A basic block without its instructions. Only the number of instructions
/// matters for the layout.
#[derive(Clone, Debug)]
pub struct NoInstrBasicBlock<N: VAGNodeId> {
    address: Vertex<N>,
    len: usize,
    sources: Vec<Vertex<N>>,
    targets: Vec<Vertex<N>>,
    indegree: usize,
}

impl<N: VAGNodeId> View for NoInstrBasicBlock<N> {
    type V = BlockView<N>;

    closed spec fn view(&self) -> BlockView<N> {
        BlockView {
            address: self.address,
            len: self.len as nat,
            sources: self.sources@,
            targets: self.targets@,
            indegree: self.indegree as nat,
        }
    }
}

impl<N: VAGNodeId> NoInstrBasicBlock<N> {
    /// Every block that the library hands out is well formed.
    pub open spec fn wf(&self) -> bool {
        self@.wf()
    }

    /// A block from its parts. The neighbour lists are read as sets: a vertex
    /// named twice counts once.
    pub fn new(
        address: Vertex<N>,
        len: usize,
        sources: Vec<Vertex<N>>,
        targets: Vec<Vertex<N>>,
        indegree: usize,
    ) -> (block: Self)
        ensures
            block.wf(),
            block@ == (BlockView {
                address,
                len: len as nat,
                sources: distinct(sources@),
                targets: distinct(targets@),
                indegree: indegree as nat,
            }),
    {
        proof {
            distinct_keeps_members(sources@);
            distinct_keeps_members(targets@);
        }
        NoInstrBasicBlock {
            address,
            len,
            sources: deduplicated(&sources),
            targets: deduplicated(&targets),
            indegree,
        }
    }

    /// The vertex of the block.
    pub fn address(&self) -> (r: Vertex<N>)
        ensures
            r == self@.address,
    {
        self.address
    }

    /// The number of instructions.
    pub fn len(&self) -> (r: usize)
        ensures
            r == self@.len,
    {
        self.len
    }

    /// The vertices to which control may pass next.
    pub fn targets(&self) -> (r: &Vec<Vertex<N>>)
        ensures
            r@ == self@.targets,
    {
        &self.targets
    }

    /// The vertices from which control may arrive.
    pub fn sources(&self) -> (r: &Vec<Vertex<N>>)
        ensures
            r@ == self@.sources,
    {
        &self.sources
    }

    /// The recorded number of incoming edges.
    pub fn indegree(&self) -> (r: usize)
        ensures
            r == self@.indegree,
    {
        self.indegree
    }

    /// A copy of the block.
    pub fn duplicate(&self) -> (r: Self)
        ensures
            r@ == self@,
            self.wf() ==> r.wf(),
    {
        let sources = copied(&self.sources);
        let targets = copied(&self.targets);
        NoInstrBasicBlock { address: self.address, len: self.len, sources, targets, indegree: self.indegree }
    }

    /// Whether this block is placed before the other when both wait.
    pub fn outranks(&self, other: &Self) -> (r: bool)
        ensures
            r == self@.outranks(other@),
    {
        if self.indegree != other.indegree {
            self.indegree > other.indegree
        } else if self.len != other.len {
            self.len > other.len
        } else {
            self.address.before(&other.address)
        }
    }

    /// Replaces the predecessors by the given set.
    pub fn set_sources(&mut self, sources: &Vec<Vertex<N>>)
        requires
            old(self).wf(),
        ensures
            final(self).wf(),
            final(self)@ == (BlockView { sources: distinct(sources@), ..old(self)@ }),
    {
        proof {
            distinct_keeps_members(sources@);
        }
        self.sources = deduplicated(sources);
    }

    /// Takes `source` out of the predecessors. If it was one, the recorded
    /// indegree goes down by one.
    pub fn erase_source(&mut self, source: Vertex<N>)
        requires
            old(self).wf(),
            old(self)@.sources.contains(source) ==> old(self)@.indegree > 0,
        ensures
            final(self).wf(),
            final(self)@ == (BlockView {
                sources: without(old(self)@.sources, source),
                indegree: if old(self)@.sources.contains(source) {
                    (old(self)@.indegree - 1) as nat
                } else {
                    old(self)@.indegree
                },
                ..old(self)@
            }),
    {
        proof {
            without_properties(self.sources@, source);
        }
        if remove(&mut self.sources, source) {
            self.decrease_indegree();
        }
    }

    /// Adds `target` to the successors. The indegree of the target is not
    /// touched: that is the graph's business.
    pub fn add_target(&mut self, target: Vertex<N>)
        requires
            old(self).wf(),
        ensures
            final(self).wf(),
            final(self)@ == (BlockView { targets: with(old(self)@.targets, target), ..old(self)@ }),
    {
        proof {
            with_properties(self.targets@, target);
        }
        insert(&mut self.targets, target);
    }

    /// Takes `target` out of the successors.
    pub fn erase_target(&mut self, target: Vertex<N>)
        requires
            old(self).wf(),
        ensures
            final(self).wf(),
            final(self)@ == (BlockView {
                targets: without(old(self)@.targets, target),
                ..old(self)@
            }),
    {
        proof {
            without_properties(self.targets@, target);
        }
        remove(&mut self.targets, target);
    }

    /// Records a new indegree.
    pub fn set_indegree(&mut self, indegree: usize)
        ensures
            final(self)@ == (BlockView { indegree: indegree as nat, ..old(self)@ }),
            old(self).wf() ==> final(self).wf(),
    {
        self.indegree = indegree;
    }

    /// Lowers the recorded indegree by one.
    pub fn decrease_indegree(&mut self)
        requires
            old(self)@.indegree > 0,
        ensures
            final(self)@ == (BlockView {
                indegree: (old(self)@.indegree - 1) as nat,
                ..old(self)@
            }),
            old(self).wf() ==> final(self).wf(),
    {
        self.set_indegree(self.indegree - 1);
    }
}

} // verus!
