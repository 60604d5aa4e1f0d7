//! Sorting the blocks of a control-flow graph, and judging an order of them.

use vstd::prelude::*;
use crate::block::NoInstrBasicBlock;
use crate::graph::GraphView;
use crate::splice::wrapped;
use crate::vag::{views, VirtualAddressGraph};
use crate::vertex::{VAGNodeId, Vertex};

verus! {

/// Why a graph cannot be sorted.
#[derive(Debug, PartialEq, Eq, Clone, Copy)]
pub enum SortError {
    /// The graph has no block.
    EmptyGraph,
    /// Some block cannot be reached from the entry.
    UnreachableNodes,
    /// No block is stored under the entry.
    InvalidInitialAddress,
}

/// Why an order cannot be judged.
#[derive(Debug, PartialEq, Eq, Clone, Copy)]
pub enum CostError {
    /// The order holds fewer blocks than the graph.
    LessNodesThanOriginal,
    /// The order holds more blocks than the graph.
    MoreNodesThanOriginal,
}

/// An order of the blocks of a graph, held against the order of their
/// addresses.
#[derive(Debug, Clone)]
pub struct CfgOrder<N: VAGNodeId> {
    entry: Vertex<N>,
    order: Vec<N>,
    original_order: Vec<N>,
    cost: usize,
    original_cost: usize,
}

/// The mathematical content of a judged order.
pub ghost struct CfgOrderView<N: VAGNodeId> {
    /// The entry of the graph.
    pub entry: Vertex<N>,
    /// The order that is judged.
    pub order: Seq<N>,
    /// The blocks by ascending address.
    pub original_order: Seq<N>,
    /// The cost of the order that is judged.
    pub cost: nat,
    /// The cost of the order by address.
    pub original_cost: nat,
}

impl<N: VAGNodeId> View for CfgOrder<N> {
    type V = CfgOrderView<N>;

    closed spec fn view(&self) -> CfgOrderView<N> {
        CfgOrderView {
            entry: self.entry,
            order: self.order@,
            original_order: self.original_order@,
            cost: self.cost as nat,
            original_cost: self.original_cost as nat,
        }
    }
}

impl<N: VAGNodeId> CfgOrder<N> {
    /// Whether the judged order costs no more than the order by address.
    pub fn is_better(&self) -> (r: bool)
        ensures
            r == (self@.cost <= self@.original_cost),
    {
        self.cost <= self.original_cost
    }

    /// The entry of the graph.
    pub fn entry(&self) -> (r: Vertex<N>)
        ensures
            r == self@.entry,
    {
        self.entry
    }

    /// The order that was judged.
    pub fn order(&self) -> (r: &Vec<N>)
        ensures
            r@ == self@.order,
    {
        &self.order
    }

    /// The blocks by ascending address.
    pub fn original_order(&self) -> (r: &Vec<N>)
        ensures
            r@ == self@.original_order,
    {
        &self.original_order
    }

    /// The cost of the order that was judged.
    pub fn cost(&self) -> (r: usize)
        ensures
            r == self@.cost,
    {
        self.cost
    }

    /// The cost of the order by address.
    pub fn original_cost(&self) -> (r: usize)
        ensures
            r == self@.original_cost,
    {
        self.original_cost
    }
}

impl<N: VAGNodeId> GraphView<N> {
    /// The graph with another entry.
    pub open spec fn rooted_at(self, entry: Vertex<N>) -> Self {
        GraphView { entry, ..self }
    }

    /// The graph on which `entry` and this graph are laid out: entered at
    /// `entry`, without the edges that leave it, and with its records in
    /// line with the edges that stay.
    pub open spec fn prepared(self, entry: Vertex<N>) -> Self {
        self.rooted_at(entry).validated()
    }

    /// Whether `ids` are the ids of all blocks, by ascending rank.
    pub open spec fn ascending(self, ids: Seq<N>) -> bool {
        &&& forall|v: Vertex<N>| wrapped(ids).contains(v) <==> self.has(v)
        &&& forall|i: int, j: int|
            0 <= i < j < ids.len() ==> (#[trigger] ids[i]).rank() < (#[trigger] ids[j]).rank()
    }

    /// The blocks have one order by ascending rank only.
    pub proof fn ascending_is_unique(self, a: Seq<N>, b: Seq<N>)
        requires
            self.ascending(a),
            self.ascending(b),
        ensures
            a == b,
        decreases a.len(),
    {
        Self::ascending_is_distinct(a);
        Self::ascending_is_distinct(b);
        assert forall|v: Vertex<N>| wrapped(a).contains(v) <==> wrapped(b).contains(v) by {
            assert(wrapped(a).contains(v) <==> self.has(v));
            assert(wrapped(b).contains(v) <==> self.has(v));
        }
        assert forall|i: int| 0 <= i < a.len() implies wrapped(b).contains(#[trigger] wrapped(a)[i]) by {
            assert(wrapped(a).contains(wrapped(a)[i]));
        }
        assert forall|i: int| 0 <= i < b.len() implies wrapped(a).contains(#[trigger] wrapped(b)[i]) by {
            assert(wrapped(b).contains(wrapped(b)[i]));
        }
        crate::schedule::no_longer_than_superset(wrapped(a), wrapped(b));
        crate::schedule::no_longer_than_superset(wrapped(b), wrapped(a));
        assert(a.len() == b.len());
        Self::same_ranks(a, b, a.len() as int);
        assert(a =~= b);
    }

    /// Ids by ascending rank are distinct.
    proof fn ascending_is_distinct(a: Seq<N>)
        requires
            forall|i: int, j: int|
                0 <= i < j < a.len() ==> (#[trigger] a[i]).rank() < (#[trigger] a[j]).rank(),
        ensures
            wrapped(a).no_duplicates(),
    {
        assert forall|i: int, j: int|
            0 <= i < wrapped(a).len() && 0 <= j < wrapped(a).len() && i != j implies wrapped(a)[i]
            != wrapped(a)[j] by {
            if i < j {
                assert(a[i].rank() < a[j].rank());
            } else {
                assert(a[j].rank() < a[i].rank());
            }
        }
    }

    /// Two runs of the same ids by ascending rank agree on their first `n`
    /// places.
    proof fn same_ranks(a: Seq<N>, b: Seq<N>, n: int)
        requires
            a.len() == b.len(),
            0 <= n <= a.len(),
            forall|v: Vertex<N>| wrapped(a).contains(v) <==> wrapped(b).contains(v),
            forall|i: int, j: int|
                0 <= i < j < a.len() ==> (#[trigger] a[i]).rank() < (#[trigger] a[j]).rank(),
            forall|i: int, j: int|
                0 <= i < j < b.len() ==> (#[trigger] b[i]).rank() < (#[trigger] b[j]).rank(),
        ensures
            forall|k: int| 0 <= k < n ==> a[k] == b[k],
        decreases n,
    {
        if n > 0 {
            Self::same_ranks(a, b, n - 1);
            let k = n - 1;
            // where a[k] stands in b, and b[k] in a
            assert(wrapped(a).contains(wrapped(a)[k]));
            let j = choose|j: int| 0 <= j < b.len() && wrapped(b)[j] == wrapped(a)[k];
            assert(b[j] == a[k]);
            assert(wrapped(b).contains(wrapped(b)[k]));
            let i = choose|i: int| 0 <= i < a.len() && wrapped(a)[i] == wrapped(b)[k];
            assert(a[i] == b[k]);
            if j < k {
                assert(a[j] == b[j]);
                assert(a[j].rank() < a[k].rank());
            }
            if i < k {
                assert(b[i] == a[i]);
                assert(b[i].rank() < b[k].rank());
            }
            if j > k {
                assert(b[k].rank() < b[j].rank());
                if i > k {
                    assert(a[k].rank() < a[i].rank());
                }
            }
        }
    }

    /// Whether the two graphs store the same addresses with the same weights
    /// in the same slots.
    pub open spec fn same_slots(self, other: Self) -> bool {
        &&& self.size() == other.size()
        &&& forall|i: int|
            0 <= i < self.size() ==> (#[trigger] self.blocks[i]).address == other.blocks[i].address
                && self.blocks[i].len == other.blocks[i].len
    }

    /// Graphs with the same addresses and weights in the same slots weigh
    /// the same.
    pub proof fn same_slots_weigh_same(self, other: Self)
        requires
            self.same_slots(other),
            self.keyed(),
        ensures
            self.total_weight() == other.total_weight(),
    {
        let all = self.addresses(self.size() as int);
        assert(all =~= other.addresses(other.size() as int));
        assert forall|i: int| 0 <= i < all.len() implies self.has(#[trigger] all[i]) by {
            assert(self.addr(i) == all[i]);
        }
        self.same_weight_of(other, all);
    }

    /// A run of blocks weighs the same in both graphs.
    proof fn same_weight_of(self, other: Self, vs: Seq<Vertex<N>>)
        requires
            self.same_slots(other),
            self.keyed(),
            forall|i: int| 0 <= i < vs.len() ==> self.has(#[trigger] vs[i]),
        ensures
            self.weight_of(vs) == other.weight_of(vs),
        decreases vs.len(),
    {
        if vs.len() > 0 {
            assert forall|i: int| 0 <= i < vs.drop_last().len() implies self.has(
                #[trigger] vs.drop_last()[i],
            ) by {
                assert(vs.drop_last()[i] == vs[i]);
            }
            self.same_weight_of(other, vs.drop_last());
            let v = vs.last();
            assert(self.has(vs[vs.len() - 1]));
            let s = self.slot(v);
            assert(self.addr(s) == v);
            assert(other.addr(s) == v);
            assert forall|i: int, j: int| 0 <= i < j < other.blocks.len() implies #[trigger] other.addr(
                i,
            ) != #[trigger] other.addr(j) by {
                assert(self.addr(i) != self.addr(j));
            }
            other.slot_is_unique(s);
            assert(self.blocks[s].len == other.blocks[s].len);
        }
    }

    /// With another entry the graph has the same blocks and edges.
    pub proof fn rooted_at_properties(self, entry: Vertex<N>)
        requires
            self.wf(),
        ensures
            self.rooted_at(entry).wf(),
            self.same_slots(self.rooted_at(entry)),
            self.plain() ==> self.rooted_at(entry).plain(),
            forall|v: Vertex<N>| self.has(v) <==> self.rooted_at(entry).has(v),
    {
        let r = self.rooted_at(entry);
        assert forall|i: int| 0 <= i < r.blocks.len() implies (#[trigger] r.blocks[i]).wf() by {
            assert(self.blocks[i].wf());
        }
        assert forall|i: int, j: int| 0 <= i < j < r.blocks.len() implies #[trigger] r.addr(i)
            != #[trigger] r.addr(j) by {
            assert(self.addr(i) != self.addr(j));
        }
        assert forall|v: Vertex<N>| self.has(v) <==> r.has(v) by {
            if self.has(v) {
                let s = self.slot(v);
                assert(r.addr(s) == v);
            }
            if r.has(v) {
                let s = r.slot(v);
                assert(self.addr(s) == v);
            }
        }
        if self.plain() {
            assert forall|i: int| 0 <= i < r.blocks.len() implies (#[trigger] r.addr(i)) is Id by {
                assert(self.addr(i) is Id);
            }
        }
    }

    /// The graph as it is laid out has the blocks of the graph, and weighs
    /// the same.
    pub proof fn prepared_properties(self, entry: Vertex<N>)
        requires
            self.wf(),
            self.size() <= usize::MAX,
        ensures
            self.prepared(entry).sound(),
            self.prepared(entry).entry == entry,
            self.prepared(entry).size() == self.size(),
            self.prepared(entry).total_weight() == self.total_weight(),
            self.plain() ==> self.prepared(entry).plain(),
            forall|v: Vertex<N>| self.has(v) <==> self.prepared(entry).has(v),
            forall|u: Vertex<N>, v: Vertex<N>|
                self.prepared(entry).edge(u, v) <==> self.edge(u, v) && self.has(v),
    {
        let r = self.rooted_at(entry);
        self.rooted_at_properties(entry);
        r.validated_properties();
        self.same_slots_weigh_same(r);
        r.same_slots_weigh_same(r.validated());
        assert forall|u: Vertex<N>, v: Vertex<N>|
            self.prepared(entry).edge(u, v) <==> self.edge(u, v) && self.has(v) by {
            assert(self.prepared(entry).edge(u, v) <==> r.edge(u, v) && r.has(v));
            if self.has(u) {
                let s = self.slot(u);
                assert(r.addr(s) == u);
                r.slot_is_unique(s);
                assert(r.at(u) == self.at(u));
            }
            assert(r.has(u) <==> self.has(u));
            assert(r.has(v) <==> self.has(v));
        }
    }
}

/// The graph on which the blocks are sorted: the blocks of `g`, entered at
/// `entry`, without the edges that lead to no block of `g`, and with
/// predecessors and indegrees recorded from the edges that stay.
pub fn to_vag<N: VAGNodeId>(g: &VirtualAddressGraph<N>, entry: Vertex<N>) -> (r: Result<
    VirtualAddressGraph<N>,
    SortError,
>)
    requires
        g.wf(),
    ensures
        g@.size() == 0 ==> r == Err::<VirtualAddressGraph<N>, SortError>(SortError::EmptyGraph),
        g@.size() > 0 && !g@.has(entry) ==> r == Err::<VirtualAddressGraph<N>, SortError>(
            SortError::InvalidInitialAddress,
        ),
        g@.size() > 0 && g@.has(entry) ==> r is Ok && r->Ok_0.wf() && r->Ok_0@ == g@.prepared(entry),
{
    if g.size() == 0 {
        return Err(SortError::EmptyGraph);
    }
    if !g.contains(entry) {
        return Err(SortError::InvalidInitialAddress);
    }
    let blocks = g.nodes();
    let mut nodes: Vec<NoInstrBasicBlock<N>> = Vec::new();
    let mut i: usize = 0;
    while i < blocks.len()
        invariant
            i <= blocks.len(),
            g.wf(),
            views(blocks@) == g@.blocks,
            nodes.len() == i,
            forall|k: int| 0 <= k < i ==> (#[trigger] nodes@[k])@ == g@.blocks[k],
        decreases blocks.len() - i,
    {
        proof {
            assert(blocks@[i as int]@ == g@.blocks[i as int]);
        }
        nodes.push(blocks[i].duplicate());
        i += 1;
    }
    proof {
        assert(views(nodes@) =~= g@.blocks);
        assert forall|k: int| 0 <= k < nodes.len() implies (#[trigger] nodes@[k]).wf() by {
            assert(g@.blocks[k].wf());
        }
        assert forall|k: int, l: int| 0 <= k < l < nodes.len() implies (#[trigger] g@.blocks[k]).address
            != (#[trigger] g@.blocks[l]).address by {
            assert(g@.addr(k) != g@.addr(l));
        }
        GraphView::filled_of_keyed(entry, g@.blocks, nodes.len() as int);
        assert(g@.blocks.take(nodes.len() as int) =~= g@.blocks);
    }
    let mut vag = VirtualAddressGraph::new(entry, nodes);
    vag.erase_outgoing_edges();
    vag.update_sources_and_indegrees();
    Ok(vag)
}

/// An order of the blocks of the graph `g`, entered at `entry`, in which the
/// jumps are short: the layout of the graph. Edges that lead to no block of
/// `g` do not count.
pub fn cfg_sort<N: VAGNodeId>(g: &VirtualAddressGraph<N>, entry: Vertex<N>) -> (r: Result<
    Vec<N>,
    SortError,
>)
    requires
        g.wf(),
        g@.plain(),
        g@.total_weight() <= usize::MAX,
        g@.size() + 2 <= usize::MAX,
    ensures
        g@.size() == 0 ==> r == Err::<Vec<N>, SortError>(SortError::EmptyGraph),
        g@.size() > 0 && !g@.has(entry) ==> r == Err::<Vec<N>, SortError>(
            SortError::InvalidInitialAddress,
        ),
        g@.size() > 0 && g@.has(entry) && (exists|v: Vertex<N>|
            g@.has(v) && !g@.prepared(entry).reaches(entry, v)) ==> r == Err::<Vec<N>, SortError>(
            SortError::UnreachableNodes,
        ),
        g@.size() > 0 && g@.has(entry) && (forall|v: Vertex<N>|
            g@.has(v) ==> g@.prepared(entry).reaches(entry, v)) ==> r is Ok && ({
            let order = r->Ok_0@;
            &&& order.no_duplicates()
            &&& order.len() == g@.size()
            &&& g@.prepared(entry).is_layout(wrapped(order))
            &&& !g@.prepared(entry).cyclic() ==> g@.prepared(entry).is_schedule(wrapped(order))
            &&& g@.prepared(entry).cyclic() ==> g@.prepared(entry).is_spliced(wrapped(order))
        }),
{
    let vag = match to_vag(g, entry) {
        Ok(vag) => vag,
        Err(e) => {
            return Err(e);
        },
    };
    proof {
        g@.prepared_properties(entry);
    }
    let unreachable = vag.unreachable_from_start();
    if unreachable.len() > 0 {
        proof {
            let v = unreachable@[0];
            assert(unreachable@.contains(v));
            assert(g@.has(v) && !g@.prepared(entry).reaches(entry, v));
        }
        return Err(SortError::UnreachableNodes);
    }
    proof {
        assert forall|v: Vertex<N>| g@.has(v) implies g@.prepared(entry).reaches(entry, v) by {
            if !vag@.reaches(entry, v) {
                assert(unreachable@.contains(v));
            }
        }
    }
    Ok(vag.weighted_order())
}

impl<N: VAGNodeId> VirtualAddressGraph<N> {
    /// The ids of all blocks, by ascending rank.
    pub fn ascending_ids(&self) -> (ids: Vec<N>)
        requires
            self.wf(),
            self@.plain(),
        ensures
            self@.ascending(ids@),
            wrapped(ids@).no_duplicates(),
    {
        let ghost g = self@;
        let blocks = self.nodes();
        let mut ids: Vec<N> = Vec::new();
        let mut i: usize = 0;
        while i < blocks.len()
            invariant
                i <= blocks.len(),
                g == self@,
                g.wf(),
                g.plain(),
                views(blocks@) == g.blocks,
                forall|v: Vertex<N>|
                    wrapped(ids@).contains(v) <==> exists|t: int| 0 <= t < i && #[trigger] g.addr(t) == v,
                forall|k: int, l: int|
                    0 <= k < l < ids.len() ==> (#[trigger] ids@[k]).rank() < (#[trigger] ids@[l]).rank(),
            decreases blocks.len() - i,
        {
            proof {
                assert(blocks@[i as int]@ == g.blocks[i as int]);
                assert(g.addr(i as int) is Id);
            }
            let id = match blocks[i].address().id() {
                Ok(id) => id,
                Err(_) => {
                    proof {
                        assert(false);
                    }
                    i += 1;
                    continue;
                },
            };
            let mut at: usize = 0;
            while at < ids.len() && ids[at].before(&id)
                invariant
                    at <= ids.len(),
                    forall|k: int| 0 <= k < at ==> (#[trigger] ids@[k]).rank() < id.rank(),
                decreases ids.len() - at,
            {
                at += 1;
            }
            let ghost before = ids@;
            proof {
                if at < ids.len() && ids@[at as int].rank() == id.rank() {
                    N::rank_is_injective(ids@[at as int], id);
                    assert(wrapped(before)[at as int] == Vertex::Id(id));
                    assert(wrapped(before).contains(Vertex::Id(id)));
                    let t = choose|t: int| 0 <= t < i && #[trigger] g.addr(t) == Vertex::Id(id);
                    assert(g.addr(t) != g.addr(i as int));
                }
            }
            ids.insert(at, id);
            proof {
                let after = ids@;
                assert forall|k: int, l: int| 0 <= k < l < after.len() implies (
                #[trigger] after[k]).rank() < (#[trigger] after[l]).rank() by {
                    let kk = if k < at { k } else { k - 1 };
                    let ll = if l < at { l } else { l - 1 };
                    if k != at && l != at {
                        assert(after[k] == before[kk] && after[l] == before[ll]);
                    } else if k == at {
                        assert(after[l] == before[ll]);
                        assert(before[at as int].rank() <= before[ll].rank()) by {
                            if at < ll {
                                assert(before[at as int].rank() < before[ll].rank());
                            }
                        }
                    } else {
                        assert(after[k] == before[kk]);
                    }
                }
                assert forall|v: Vertex<N>|
                    wrapped(after).contains(v) <==> exists|t: int|
                        0 <= t < i + 1 && #[trigger] g.addr(t) == v by {
                    if wrapped(after).contains(v) {
                        let k = choose|k: int| 0 <= k < after.len() && wrapped(after)[k] == v;
                        if k == at {
                            assert(g.addr(i as int) == v);
                        } else {
                            let kk = if k < at { k } else { k - 1 };
                            assert(wrapped(before)[kk] == v);
                            assert(wrapped(before).contains(v));
                            let t = choose|t: int| 0 <= t < i && #[trigger] g.addr(t) == v;
                            assert(0 <= t < i + 1 && g.addr(t) == v);
                        }
                    }
                    if exists|t: int| 0 <= t < i + 1 && #[trigger] g.addr(t) == v {
                        let t = choose|t: int| 0 <= t < i + 1 && #[trigger] g.addr(t) == v;
                        if t == i {
                            assert(wrapped(after)[at as int] == v);
                        } else {
                            assert(wrapped(before).contains(v));
                            let kk = choose|kk: int|
                                0 <= kk < before.len() && wrapped(before)[kk] == v;
                            let k = if kk < at { kk } else { kk + 1 };
                            assert(wrapped(after)[k] == v);
                        }
                    }
                }
            }
            i += 1;
        }
        proof {
            assert forall|v: Vertex<N>| wrapped(ids@).contains(v) <==> g.has(v) by {
                if g.has(v) {
                    let t = g.slot(v);
                    assert(g.addr(t) == v);
                }
            }
            assert forall|k: int, l: int|
                0 <= k < wrapped(ids@).len() && 0 <= l < wrapped(ids@).len() && k != l implies wrapped(
                ids@,
            )[k] != wrapped(ids@)[l] by {
                if k < l {
                    assert(ids@[k].rank() < ids@[l].rank());
                } else {
                    assert(ids@[l].rank() < ids@[k].rank());
                }
            }
        }
        ids
    }
}

/// The given order of the blocks of `g`, entered at `entry`, held against
/// the order of their addresses: both orders, and the cost of each.
pub fn cfg_cost<N: VAGNodeId>(g: &VirtualAddressGraph<N>, entry: Vertex<N>, order: &Vec<N>) -> (r:
    Result<CfgOrder<N>, CostError>)
    requires
        g.wf(),
        g@.plain(),
        g@.has(entry),
        order.len() == g@.size() ==> wrapped(order@).no_duplicates() && (forall|v: Vertex<N>|
            wrapped(order@).contains(v) <==> g@.has(v)) && g@.prepared(entry).cost(wrapped(order@))
            <= usize::MAX,
        forall|ids: Seq<N>|
            #[trigger] g@.prepared(entry).ascending(ids) ==> g@.prepared(entry).cost(wrapped(ids))
                <= usize::MAX,
    ensures
        order.len() < g@.size() ==> r == Err::<CfgOrder<N>, CostError>(
            CostError::LessNodesThanOriginal,
        ),
        order.len() > g@.size() ==> r == Err::<CfgOrder<N>, CostError>(
            CostError::MoreNodesThanOriginal,
        ),
        order.len() == g@.size() ==> r is Ok && ({
            let judged = r->Ok_0@;
            &&& judged.entry == entry
            &&& judged.order == order@
            &&& g@.prepared(entry).ascending(judged.original_order)
            &&& judged.cost == g@.prepared(entry).cost(wrapped(order@))
            &&& judged.original_cost == g@.prepared(entry).cost(wrapped(judged.original_order))
        }),
{
    let size = g.size();
    proof {
        let s = g@.slot(entry);
        assert(0 <= s < g@.size() && g@.addr(s) == entry);
    }
    let vag = match to_vag(g, entry) {
        Ok(vag) => vag,
        Err(_) => {
            proof {
                assert(false);
            }
            return Err(CostError::LessNodesThanOriginal);
        },
    };
    proof {
        g@.prepared_properties(entry);
    }
    let original_order = vag.ascending_ids();
    if original_order.len() < order.len() {
        proof {
            vag@.full_order_length(wrapped(original_order@));
        }
        Err(CostError::MoreNodesThanOriginal)
    } else if original_order.len() > order.len() {
        proof {
            vag@.full_order_length(wrapped(original_order@));
        }
        Err(CostError::LessNodesThanOriginal)
    } else {
        proof {
            vag@.full_order_length(wrapped(original_order@));
        }
        let original_cost = vag.cost_of_order(&original_order);
        proof {
            assert(order.len() == g@.size());
            assert forall|v: Vertex<N>| wrapped(order@).contains(v) <==> vag@.has(v) by {
                assert(wrapped(order@).contains(v) <==> g@.has(v));
            }
        }
        let sorted_cost = vag.cost_of_order(order);
        let mut copy: Vec<N> = Vec::new();
        let mut i: usize = 0;
        while i < order.len()
            invariant
                i <= order.len(),
                copy@ == order@.take(i as int),
            decreases order.len() - i,
        {
            copy.push(order[i]);
            proof {
                assert(order@.take(i + 1) =~= order@.take(i as int).push(order@[i as int]));
            }
            i += 1;
        }
        proof {
            assert(order@.take(order.len() as int) =~= order@);
        }
        Ok(CfgOrder { entry, order: copy, original_order, cost: sorted_cost, original_cost })
    }
}

} // verus!
