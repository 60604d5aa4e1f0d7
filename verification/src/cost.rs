//! The cost of a layout: how far its edges jump.

use vstd::prelude::*;
use crate::graph::GraphView;
use crate::splice::wrapped;
use crate::vag::VirtualAddressGraph;
use crate::vertex::{VAGNodeId, Vertex};

verus! {

/// The sum of the weights at the places `lo..hi`.
pub open spec fn sum_between(weights: Seq<nat>, lo: int, hi: int) -> nat
    decreases hi - lo,
{
    if hi <= lo {
        0
    } else {
        sum_between(weights, lo, hi - 1) + weights[hi - 1]
    }
}

/// The cost of an edge from place `from` to place `to`. An edge that leads
/// forward costs the weight of what stands strictly between its ends. An
/// edge that leads back costs the weight of everything from its target to
/// its source, both included. A loop costs the weight of its block.
pub open spec fn edge_cost(weights: Seq<nat>, from: int, to: int) -> nat {
    if from < to {
        sum_between(weights, from + 1, to)
    } else if from > to {
        sum_between(weights, to, from + 1)
    } else {
        weights[from]
    }
}

impl<N: VAGNodeId> GraphView<N> {
    /// The weights of the blocks in the order of the layout.
    pub open spec fn weights(self, order: Seq<Vertex<N>>) -> Seq<nat> {
        Seq::new(order.len(), |i: int| self.at(order[i]).len)
    }

    /// The cost of the first `k` edges that leave the block in place `p`.
    pub open spec fn block_cost(self, order: Seq<Vertex<N>>, p: int, k: int) -> nat
        decreases k,
    {
        if k <= 0 {
            0
        } else {
            self.block_cost(order, p, k - 1) + edge_cost(
                self.weights(order),
                p,
                order.index_of(self.at(order[p]).targets[k - 1]),
            )
        }
    }

    /// The cost of all edges that leave the blocks in the first `n` places.
    pub open spec fn cost_upto(self, order: Seq<Vertex<N>>, n: int) -> nat
        decreases n,
    {
        if n <= 0 {
            0
        } else {
            self.cost_upto(order, n - 1) + self.block_cost(
                order,
                n - 1,
                self.at(order[n - 1]).targets.len() as int,
            )
        }
    }

    /// The cost of the layout: the sum of the costs of all edges.
    pub open spec fn cost(self, order: Seq<Vertex<N>>) -> nat {
        self.cost_upto(order, order.len() as int)
    }

    /// Whether the cost of `order` can be taken: it holds every block once,
    /// and every successor that a block names is a block.
    pub open spec fn priced_by(self, order: Seq<Vertex<N>>) -> bool {
        &&& self.wf()
        &&& self.closed()
        &&& order.no_duplicates()
        &&& forall|v: Vertex<N>| order.contains(v) <==> self.has(v)
    }

    /// The cost of the edges grows with the number of edges counted.
    pub proof fn block_cost_grows(self, order: Seq<Vertex<N>>, p: int, k: int, l: int)
        requires
            k <= l,
        ensures
            self.block_cost(order, p, k) <= self.block_cost(order, p, l),
        decreases l - k,
    {
        if k < l {
            self.block_cost_grows(order, p, k, l - 1);
            if l <= 0 {
            }
        }
    }

    /// The cost of the blocks grows with the number of blocks counted.
    pub proof fn cost_upto_grows(self, order: Seq<Vertex<N>>, n: int, m: int)
        requires
            n <= m,
        ensures
            self.cost_upto(order, n) <= self.cost_upto(order, m),
        decreases m - n,
    {
        if n < m {
            self.cost_upto_grows(order, n, m - 1);
        }
    }

    /// Every partial sum of the cost is bounded by the cost.
    pub proof fn partial_cost_bound(self, order: Seq<Vertex<N>>, p: int, k: int)
        requires
            0 <= p < order.len(),
            0 <= k <= self.at(order[p]).targets.len(),
        ensures
            self.cost_upto(order, p) + self.block_cost(order, p, k) <= self.cost(order),
    {
        self.block_cost_grows(order, p, k, self.at(order[p]).targets.len() as int);
        self.cost_upto_grows(order, p + 1, order.len() as int);
    }
}

/// The sums grow with the stretch that is summed.
pub proof fn sum_between_grows(weights: Seq<nat>, lo: int, mid: int, hi: int)
    requires
        lo <= mid <= hi,
    ensures
        sum_between(weights, lo, mid) <= sum_between(weights, lo, hi),
    decreases hi - mid,
{
    if mid < hi {
        sum_between_grows(weights, lo, mid, hi - 1);
    }
}

impl<N: VAGNodeId> VirtualAddressGraph<N> {
    /// The weights of the blocks in the order of the layout.
    fn weights(&self, order: &Vec<N>) -> (lens: Vec<usize>)
        requires
            self.wf(),
            forall|i: int| 0 <= i < order.len() ==> self@.has(Vertex::Id(#[trigger] order@[i])),
        ensures
            lens.len() == order.len(),
            forall|i: int|
                0 <= i < order.len() ==> (#[trigger] lens@[i]) as nat == self@.weights(
                    wrapped(order@),
                )[i],
    {
        let mut lens: Vec<usize> = Vec::new();
        let mut i: usize = 0;
        while i < order.len()
            invariant
                i <= order.len(),
                self.wf(),
                forall|k: int| 0 <= k < order.len() ==> self@.has(Vertex::Id(#[trigger] order@[k])),
                lens.len() == i,
                forall|k: int|
                    0 <= k < i ==> (#[trigger] lens@[k]) as nat == self@.weights(
                        wrapped(order@),
                    )[k],
            decreases order.len() - i,
        {
            lens.push(self.node_at_target(Vertex::Id(order[i])).len());
            i += 1;
        }
        lens
    }

    /// The sum of the weights at the places `lo..hi`, if it is a machine
    /// number.
    fn span(lens: &Vec<usize>, lo: usize, hi: usize, Ghost(weights): Ghost<Seq<nat>>) -> (sum:
        Option<usize>)
        requires
            lo <= hi <= lens.len(),
            weights.len() == lens.len(),
            forall|i: int| 0 <= i < lens.len() ==> (#[trigger] lens@[i]) as nat == weights[i],
        ensures
            match sum {
                Some(sum) => sum == sum_between(weights, lo as int, hi as int),
                None => sum_between(weights, lo as int, hi as int) > usize::MAX,
            },
    {
        let mut sum: usize = 0;
        let mut j: usize = lo;
        while j < hi
            invariant
                lo <= j <= hi,
                hi <= lens.len(),
                weights.len() == lens.len(),
                forall|i: int| 0 <= i < lens.len() ==> (#[trigger] lens@[i]) as nat == weights[i],
                sum == sum_between(weights, lo as int, j as int),
            decreases hi - j,
        {
            proof {
                sum_between_grows(weights, lo as int, j + 1, hi as int);
            }
            if lens[j] > usize::MAX - sum {
                return None;
            }
            sum = sum + lens[j];
            j += 1;
        }
        Some(sum)
    }

    /// Where the id stands in the order.
    fn place(order: &Vec<N>, target: Vertex<N>) -> (r: usize)
        requires
            wrapped(order@).no_duplicates(),
            wrapped(order@).contains(target),
        ensures
            r < order.len(),
            r == wrapped(order@).index_of(target),
    {
        let ghost w = wrapped(order@);
        let mut i: usize = 0;
        while i < order.len()
            invariant
                i <= order.len(),
                w == wrapped(order@),
                w.no_duplicates(),
                w.contains(target),
                forall|k: int| 0 <= k < i ==> #[trigger] w[k] != target,
            decreases order.len() - i,
        {
            if Vertex::Id(order[i]).same(&target) {
                proof {
                    assert(w[i as int] == target);
                    let j = w.index_of(target);
                    assert(w[j] == target);
                }
                return i;
            }
            i += 1;
        }
        proof {
            let j = choose|j: int| 0 <= j < w.len() && w[j] == target;
            assert(false);
        }
        0
    }

    /// Whether `order` holds the id of every block once, and nothing else.
    pub fn is_permutation(&self, order: &Vec<N>) -> (r: bool)
        requires
            self.wf(),
        ensures
            r == (wrapped(order@).no_duplicates() && forall|v: Vertex<N>|
                wrapped(order@).contains(v) <==> self@.has(v)),
    {
        let ghost g = self@;
        let ghost w = wrapped(order@);
        if order.len() != self.size() {
            proof {
                if w.no_duplicates() && (forall|v: Vertex<N>| w.contains(v) <==> g.has(v)) {
                    g.full_order_length(w);
                }
            }
            return false;
        }
        let mut i: usize = 0;
        while i < order.len()
            invariant
                i <= order.len(),
                g == self@,
                w == wrapped(order@),
                forall|k: int| 0 <= k < i ==> g.has(#[trigger] w[k]),
                forall|k: int, l: int| 0 <= k < l < i ==> #[trigger] w[k] != #[trigger] w[l],
            decreases order.len() - i,
        {
            let v = Vertex::Id(order[i]);
            proof {
                assert(w[i as int] == v);
            }
            if !self.contains(v) {
                proof {
                    assert(w.contains(w[i as int]));
                }
                return false;
            }
            let mut k: usize = 0;
            while k < i
                invariant
                    k <= i,
                    i < order.len(),
                    w == wrapped(order@),
                    v == w[i as int],
                    forall|l: int| 0 <= l < k ==> #[trigger] w[l] != v,
                decreases i - k,
            {
                if Vertex::Id(order[k]).same(&v) {
                    proof {
                        assert(w[k as int] == w[i as int]);
                    }
                    return false;
                }
                k += 1;
            }
            i += 1;
        }
        proof {
            assert(w.no_duplicates());
            g.distinct_blocks_bound(w);
            assert forall|v: Vertex<N>| w.contains(v) <==> g.has(v) by {
                if w.contains(v) {
                    let k = choose|k: int| 0 <= k < w.len() && w[k] == v;
                    assert(g.has(w[k]));
                }
            }
        }
        true
    }

    /// The cost of the layout `order`, if it is a machine number.
    pub fn try_cost_of_order(&self, order: &Vec<N>) -> (cost: Option<usize>)
        requires
            self@.priced_by(wrapped(order@)),
        ensures
            match cost {
                Some(cost) => cost == self@.cost(wrapped(order@)),
                None => self@.cost(wrapped(order@)) > usize::MAX,
            },
    {
        let ghost g = self@;
        let ghost w = wrapped(order@);
        proof {
            assert forall|i: int| 0 <= i < order.len() implies g.has(
                Vertex::Id(#[trigger] order@[i]),
            ) by {
                assert(w[i] == Vertex::Id(order@[i]));
                assert(w.contains(w[i]));
            }
        }
        let lens = self.weights(order);
        let ghost weights = g.weights(w);
        let mut cost: usize = 0;
        let mut pos01: usize = 0;
        while pos01 < order.len()
            invariant
                pos01 <= order.len(),
                g == self@,
                w == wrapped(order@),
                weights == g.weights(w),
                g.priced_by(w),
                lens.len() == order.len(),
                forall|i: int| 0 <= i < order.len() ==> (#[trigger] lens@[i]) as nat == weights[i],
                cost == g.cost_upto(w, pos01 as int),
            decreases order.len() - pos01,
        {
            proof {
                assert(w[pos01 as int] == Vertex::Id(order@[pos01 as int]));
                assert(w.contains(w[pos01 as int]));
            }
            let block = self.node_at_target(Vertex::Id(order[pos01]));
            let targets = block.targets();
            let ghost base = cost;
            let mut k: usize = 0;
            while k < targets.len()
                invariant
                    k <= targets.len(),
                    pos01 < order.len(),
                    g == self@,
                    w == wrapped(order@),
                    weights == g.weights(w),
                    g.priced_by(w),
                    lens.len() == order.len(),
                    forall|i: int|
                        0 <= i < order.len() ==> (#[trigger] lens@[i]) as nat == weights[i],
                    targets@ == g.at(w[pos01 as int]).targets,
                    block@ == g.at(w[pos01 as int]),
                    g.has(w[pos01 as int]),
                    base == g.cost_upto(w, pos01 as int),
                    cost == base + g.block_cost(w, pos01 as int, k as int),
                decreases targets.len() - k,
            {
                let target = targets[k];
                proof {
                    assert(g.at(w[pos01 as int]).targets.contains(target));
                    g.edge_ends(w[pos01 as int], target);
                    g.partial_cost_bound(w, pos01 as int, k + 1);
                }
                let pos02 = Self::place(order, target);
                proof {
                    let to = w.index_of(g.at(w[pos01 as int]).targets[k as int]);
                    assert(to == pos02);
                    assert(g.block_cost(w, pos01 as int, k + 1) == g.block_cost(
                        w,
                        pos01 as int,
                        k as int,
                    ) + edge_cost(weights, pos01 as int, to));
                    assert(block@.len == weights[pos01 as int]);
                }
                let jump = if pos01 < pos02 {
                    Self::span(&lens, pos01 + 1, pos02, Ghost(weights))
                } else if pos01 > pos02 {
                    Self::span(&lens, pos02, pos01 + 1, Ghost(weights))
                } else {
                    Some(block.len())
                };
                let edge_weight = match jump {
                    Some(edge_weight) => edge_weight,
                    None => {
                        return None;
                    },
                };
                if edge_weight > usize::MAX - cost {
                    return None;
                }
                cost = cost + edge_weight;
                k += 1;
            }
            pos01 += 1;
        }
        Some(cost)
    }

    /// The cost of the layout `order`: the sum, over all edges, of the weight
    /// that the edge jumps over. An edge that leads forward jumps over what
    /// stands strictly between its ends; an edge that leads back jumps over
    /// everything from its target to its source, both included; a loop
    /// jumps over its own block.
    pub fn cost_of_order(&self, order: &Vec<N>) -> (cost: usize)
        requires
            self@.priced_by(wrapped(order@)),
            self@.cost(wrapped(order@)) <= usize::MAX,
        ensures
            cost == self@.cost(wrapped(order@)),
    {
        match self.try_cost_of_order(order) {
            Some(cost) => cost,
            None => {
                proof {
                    assert(false);
                }
                0
            },
        }
    }
}

} // verus!
