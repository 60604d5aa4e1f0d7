//! The layout of a block graph: its blocks in the order in which they should
//! stand.

use vstd::prelude::*;
use crate::condense::{is_condensation, joined, leads_to, names_tell_apart};
use crate::graph::GraphView;
use crate::kahn::KahnGraph;
use crate::scc::{component_views, covered, is_decomposition, Component, ComponentView};
use crate::splice::{apart, expanded, expansions, joined_up, joined_up_in_turn, joined_up_members,
    real_ids, recorded, splice, spliced, wrapped};
use crate::vag::VirtualAddressGraph;
use crate::vertex::{VAGNodeId, Vertex};

verus! {

/// The vertices of `s` that are real ids, in their order.
pub open spec fn real_part<N: VAGNodeId>(s: Seq<Vertex<N>>) -> Seq<Vertex<N>>
    decreases s.len(),
{
    if s.len() == 0 {
        Seq::empty()
    } else if s.last() is Id {
        real_part(s.drop_last()).push(s.last())
    } else {
        real_part(s.drop_last())
    }
}

/// The real part of a run holds its real ids, and repeats nothing that the
/// run does not repeat.
pub proof fn real_part_properties<N: VAGNodeId>(s: Seq<Vertex<N>>)
    ensures
        forall|x: Vertex<N>| real_part(s).contains(x) <==> s.contains(x) && x is Id,
        s.no_duplicates() ==> real_part(s).no_duplicates(),
    decreases s.len(),
{
    broadcast use vstd::seq_lib::lemma_seq_contains_after_push;

    if s.len() > 0 {
        let front = s.drop_last();
        real_part_properties(front);
        assert(s =~= front.push(s.last()));
        assert forall|x: Vertex<N>| s.contains(x) <==> front.contains(x) || x == s.last() by {}
        if s.no_duplicates() {
            assert(front.no_duplicates());
            if front.contains(s.last()) {
                let i = choose|i: int| 0 <= i < front.len() && front[i] == s.last();
                assert(s[i] == s[s.len() - 1]);
            }
        }
    }
}

/// Whether `order` lists exactly the members of the component, each once.
pub open spec fn orders_members<N: VAGNodeId>(
    order: Seq<Vertex<N>>,
    comp: ComponentView<N>,
) -> bool {
    order.no_duplicates() && forall|v: Vertex<N>| order.contains(v) <==> comp.members.contains(v)
}

/// Whether `order` is the weighted topological order of the component closed
/// off and freed of cycles, without the two phantom vertices: of some graph
/// without cycles on the members and the phantom vertices whose edges between
/// members are edges of the whole graph.
pub open spec fn scheduled_inside<N: VAGNodeId>(
    comp: ComponentView<N>,
    order: Seq<Vertex<N>>,
) -> bool {
    exists|copy: GraphView<N>, full: Seq<Vertex<N>>|
        comp.framed_by(copy) && !copy.cyclic() && #[trigger] copy.is_schedule(full) && order
            == real_part(full)
}

/// Whether the entry records, under the name of a component among the first
/// `upto` that has more than one member, an order of the members of that
/// component.
pub open spec fn records_one<N: VAGNodeId>(
    comps: Seq<ComponentView<N>>,
    upto: int,
    entry: (Vertex<N>, Seq<Vertex<N>>),
) -> bool {
    exists|c: int|
        0 <= c < upto && c < comps.len() && (#[trigger] comps[c]).compid == entry.0
            && comps[c].members.len() != 1 && orders_members(entry.1, comps[c])
            && scheduled_inside(comps[c], entry.1)
}

/// Whether something is recorded under `id`.
pub open spec fn recorded_under<N: VAGNodeId>(
    inner: Seq<(Vertex<N>, Seq<Vertex<N>>)>,
    id: Vertex<N>,
) -> bool {
    exists|k: int| 0 <= k < inner.len() && (#[trigger] inner[k]).0 == id
}

/// Whether `inner` records an order of its members for each component among
/// the first `upto` that has more than one member, and nothing else.
pub open spec fn records_inner<N: VAGNodeId>(
    comps: Seq<ComponentView<N>>,
    upto: int,
    inner: Seq<(Vertex<N>, Seq<Vertex<N>>)>,
) -> bool {
    &&& forall|k: int| 0 <= k < inner.len() ==> records_one(comps, upto, #[trigger] inner[k])
    &&& forall|c: int|
        0 <= c < upto && c < comps.len() && (#[trigger] comps[c]).members.len() != 1
            ==> recorded_under(inner, comps[c].compid)
    &&& forall|k: int, l: int|
        0 <= k < l < inner.len() ==> (#[trigger] inner[k]).0 != (#[trigger] inner[l]).0
}

impl<N: VAGNodeId> GraphView<N> {
    /// Whether `order` is a layout of the graph: it holds every block once,
    /// and an edge that leads from one strongly connected component to
    /// another leads forward in it.
    pub open spec fn is_layout(self, order: Seq<Vertex<N>>) -> bool {
        &&& order.no_duplicates()
        &&& forall|v: Vertex<N>| order.contains(v) <==> self.has(v)
        &&& forall|p: int, q: int|
            0 <= p < order.len() && 0 <= q < order.len() && #[trigger] self.edge(order[p], order[q])
                && !self.reaches(order[q], order[p]) ==> p < q
    }
}

/// Whether `order` is the weighted topological order `top` of the
/// condensation `h` of `g`, with each strongly connected component that has
/// more than one member replaced by the order of its members that `inner`
/// records under its name.
pub open spec fn splices<N: VAGNodeId>(
    g: GraphView<N>,
    comps: Seq<ComponentView<N>>,
    h: GraphView<N>,
    top: Seq<Vertex<N>>,
    inner: Seq<(Vertex<N>, Seq<Vertex<N>>)>,
    order: Seq<Vertex<N>>,
) -> bool {
    &&& is_decomposition(g, comps)
    &&& is_condensation(g, comps, h)
    &&& h.is_schedule(top)
    &&& records_inner(comps, comps.len() as int, inner)
    &&& order == spliced(top, inner)
}

impl<N: VAGNodeId> GraphView<N> {
    /// Whether `order` lists the strongly connected components of the graph
    /// in the weighted topological order of its condensation, each by an
    /// order of its members.
    pub open spec fn is_spliced(self, order: Seq<Vertex<N>>) -> bool {
        exists|
            comps: Seq<ComponentView<N>>,
            h: GraphView<N>,
            top: Seq<Vertex<N>>,
            inner: Seq<(Vertex<N>, Seq<Vertex<N>>)>,
        |
            splices(self, comps, h, top, inner, order)
    }

    /// An order that lists the components in the weighted topological order
    /// of the condensation, each by an order of its members, is a layout: it
    /// holds every block once, and an edge between two components leads
    /// forward in it.
    pub proof fn spliced_order_is_layout(self, order: Seq<Vertex<N>>)
        requires
            self.sound(),
            self.plain(),
            self.is_spliced(order),
        ensures
            self.is_layout(order),
            order.len() == self.size(),
    {
        let (comps, h, top, inner) = choose|
            comps: Seq<ComponentView<N>>,
            h: GraphView<N>,
            top: Seq<Vertex<N>>,
            inner: Seq<(Vertex<N>, Seq<Vertex<N>>)>,
        |
            splices(self, comps, h, top, inner, order);
        crate::condense::condensation_is_acyclic(self, comps, h);
        spliced_is_layout(self, comps, h, top, inner);
    }
}

/// Where all strongly connected components of a graph without loops are
/// single blocks, the order in which the blocks should stand is the weighted
/// topological order of the graph itself: what `weighted_order` returns is
/// what `kahn_algorithm` returns.
pub proof fn single_blocks_are_scheduled_directly<N: VAGNodeId>(
    g: GraphView<N>,
    comps: Seq<ComponentView<N>>,
    order: Seq<Vertex<N>>,
    direct: Seq<Vertex<N>>,
)
    requires
        g.sound(),
        is_decomposition(g, comps),
        forall|c: int| 0 <= c < comps.len() ==> (#[trigger] comps[c]).members.len() == 1,
        forall|v: Vertex<N>| !g.edge(v, v),
        !g.cyclic() ==> g.is_schedule(order),
        g.is_schedule(direct),
    ensures
        order == direct,
{
    crate::condense::single_blocks_leave_no_cycle(g, comps);
    g.schedule_is_unique(order, direct);
}

/// What stands for a component in the layout is an order of its members.
proof fn expansion_orders_members<N: VAGNodeId>(
    g: GraphView<N>,
    comps: Seq<ComponentView<N>>,
    inner: Seq<(Vertex<N>, Seq<Vertex<N>>)>,
    c: int,
)
    requires
        is_decomposition(g, comps),
        records_inner(comps, comps.len() as int, inner),
        0 <= c < comps.len(),
    ensures
        orders_members(expanded(inner, comps[c].compid), comps[c]),
{
    let id = comps[c].compid;
    assert(comps[c].wf());
    if recorded_under(inner, id) {
        let k = choose|k: int| 0 <= k < inner.len() && (#[trigger] inner[k]).0 == id;
        assert(records_one(comps, comps.len() as int, inner[k]));
        let d = choose|d: int|
            0 <= d < comps.len() && (#[trigger] comps[d]).compid == inner[k].0
                && comps[d].members.len() != 1 && orders_members(inner[k].1, comps[d])
                && scheduled_inside(comps[d], inner[k].1);
        names_tell_apart(g, comps, c, d);
    } else {
        assert(comps[c].members.len() == 1);
        let ms = comps[c].members;
        let i = choose|i: int| 0 <= i < ms.len() && ms[i] == id;
        assert(ms =~= seq![id]);
    }
}

/// The order of the condensation, with each component replaced by an order
/// of its members, is a layout of the graph.
proof fn spliced_is_layout<N: VAGNodeId>(
    g: GraphView<N>,
    comps: Seq<ComponentView<N>>,
    h: GraphView<N>,
    top: Seq<Vertex<N>>,
    inner: Seq<(Vertex<N>, Seq<Vertex<N>>)>,
)
    requires
        g.sound(),
        g.plain(),
        is_decomposition(g, comps),
        is_condensation(g, comps, h),
        !h.cyclic(),
        h.is_schedule(top),
        records_inner(comps, comps.len() as int, inner),
    ensures
        g.is_layout(spliced(top, inner)),
        spliced(top, inner).len() == g.size(),
        forall|p: int| 0 <= p < spliced(top, inner).len() ==> (#[trigger] spliced(top, inner)[p]) is Id,
{
    h.schedule_of_dag_is_topological(top);
    let parts = expansions(top, inner);
    let n = top.len() as int;
    let r = spliced(top, inner);
    // each run is an order of the members of the component that it stands for
    assert forall|i: int| 0 <= i < n implies 0 <= h.slot(#[trigger] top[i]) < comps.len()
        && comps[h.slot(top[i])].compid == top[i] && orders_members(
        parts[i],
        comps[h.slot(top[i])],
    ) by {
        assert(top.contains(top[i]));
        let c = h.slot(top[i]);
        assert(h.addr(c) == top[i]);
        expansion_orders_members(g, comps, inner, c);
    }
    assert(apart(parts)) by {
        assert forall|i: int, j: int, x: Vertex<N>|
            0 <= i < parts.len() && 0 <= j < parts.len() && i != j implies !(
        #[trigger] parts[i].contains(x) && #[trigger] parts[j].contains(x)) by {
            let c = h.slot(top[i]);
            let d = h.slot(top[j]);
            assert(top[i] != top[j]);
            if parts[i].contains(x) && parts[j].contains(x) {
                assert(comps[c].members.contains(x) && comps[d].members.contains(x));
            }
        }
        assert forall|i: int| 0 <= i < parts.len() implies (#[trigger] parts[i]).no_duplicates() by {
            assert(orders_members(parts[i], comps[h.slot(top[i])]));
        }
    }
    joined_up_members(parts, n);
    joined_up_in_turn(parts, n);
    assert forall|v: Vertex<N>| r.contains(v) <==> g.has(v) by {
        if r.contains(v) {
            let i = choose|i: int| 0 <= i < n && (#[trigger] parts[i]).contains(v);
            let c = h.slot(top[i]);
            assert(comps[c].wf() && comps[c].whole == g);
            assert(comps[c].members.contains(v));
            comps[c].members_are_blocks(v);
        }
        if g.has(v) {
            assert(covered(comps, v));
            let c = choose|c: int| 0 <= c < comps.len() && (#[trigger] comps[c]).members.contains(v);
            assert(h.addr(c) == comps[c].compid);
            assert(h.has(comps[c].compid));
            assert(top.contains(comps[c].compid));
            let i = choose|i: int| 0 <= i < top.len() && top[i] == comps[c].compid;
            h.slot_is_unique(c);
            assert(h.slot(top[i]) == c);
            assert(parts[i].contains(v));
        }
    }
    assert forall|p: int| 0 <= p < r.len() implies (#[trigger] r[p]) is Id by {
        assert(r.contains(r[p]));
        let s = g.slot(r[p]);
        assert(g.addr(s) == r[p]);
    }
    assert forall|p: int, q: int|
        0 <= p < r.len() && 0 <= q < r.len() && #[trigger] g.edge(r[p], r[q]) && !g.reaches(
            r[q],
            r[p],
        ) implies p < q by {
        let u = r[p];
        let v = r[q];
        assert(r.contains(u) && r.contains(v));
        let i = choose|i: int| 0 <= i < n && (#[trigger] parts[i]).contains(u);
        let j = choose|j: int| 0 <= j < n && (#[trigger] parts[j]).contains(v);
        let c = h.slot(top[i]);
        let d = h.slot(top[j]);
        assert(comps[c].wf() && comps[c].whole == g && comps[d].wf() && comps[d].whole == g);
        assert(comps[c].members.contains(u) && comps[d].members.contains(v));
        if c == d {
            g.reaches_is_transitive(v, comps[c].compid, u);
        } else {
            assert(joined(g, comps[c], comps[d]));
            assert(leads_to(g, comps, c, comps[d].compid));
            assert(h.blocks[c].targets.contains(comps[d].compid));
            assert(h.addr(c) == top[i]);
            h.slot_is_unique(c);
            assert(h.edge(top[i], top[j]));
            assert(i < j);
        }
    }
    g.full_order_length(r);
}

impl<N: VAGNodeId> VirtualAddressGraph<N> {
    /// The order in which the blocks should stand. It holds every block
    /// once. On a graph without cycles it is the weighted topological order.
    /// On a graph with cycles the strongly connected components stand in the
    /// weighted topological order of the condensation, and the members of
    /// each in the weighted topological order of the component without the
    /// edges that close its cycles.
    pub fn weighted_order(&self) -> (order: Vec<N>)
        requires
            self@.sound(),
            self@.plain(),
            self@.total_weight() <= usize::MAX,
            self@.size() + 2 <= usize::MAX,
        ensures
            order@.no_duplicates(),
            order@.len() == self@.size(),
            self@.is_layout(wrapped(order@)),
            !self@.cyclic() ==> self@.is_schedule(wrapped(order@)),
            self@.cyclic() ==> self@.is_spliced(wrapped(order@)),
    {
        let ghost g = self@;
        let topsort = if !self.is_cyclic() {
            let mut kahngraph = KahnGraph::from_vag(self);
            let topsort = kahngraph.kahn_algorithm();
            proof {
                g.schedule_of_dag_is_topological(topsort@);
                assert forall|p: int, q: int|
                    0 <= p < topsort.len() && 0 <= q < topsort.len() && #[trigger] g.edge(
                        topsort@[p],
                        topsort@[q],
                    ) && !g.reaches(topsort@[q], topsort@[p]) implies p < q by {}
            }
            topsort
        } else {
            let components = Component::from_vag(self);
            let condensed = self.condense(&components);
            let mut kahngraph = KahnGraph::from_vag(&condensed);
            let topsort_condensed = kahngraph.kahn_algorithm();
            let ordered_components = Self::inner_orders(&components, Ghost(g));
            proof {
                spliced_is_layout(
                    g,
                    component_views(components@),
                    condensed@,
                    topsort_condensed@,
                    recorded(ordered_components@),
                );
                assert(splices(
                    g,
                    component_views(components@),
                    condensed@,
                    topsort_condensed@,
                    recorded(ordered_components@),
                    spliced(topsort_condensed@, recorded(ordered_components@)),
                ));
                assert forall|k: int, l: int| 0 <= k < l < ordered_components.len() implies (
                #[trigger] ordered_components@[k]).0 != (#[trigger] ordered_components@[l]).0 by {
                    let rec = recorded(ordered_components@);
                    assert(rec[k].0 != rec[l].0);
                }
            }
            splice(&topsort_condensed, &ordered_components)
        };
        proof {
            assert forall|p: int| 0 <= p < topsort.len() implies (#[trigger] topsort@[p]) is Id by {
                assert(topsort@.contains(topsort@[p]));
                let s = g.slot(topsort@[p]);
                assert(g.addr(s) == topsort@[p]);
            }
            g.full_order_length(topsort@);
        }
        let order = real_ids(&topsort);
        proof {
            assert forall|i: int, j: int| 0 <= i < order.len() && 0 <= j < order.len() && i
                != j implies order@[i] != order@[j] by {
                assert(wrapped(order@)[i] != wrapped(order@)[j]);
            }
            assert(wrapped(order@).len() == order@.len());
        }
        order
    }

    /// For each component with more than one member, under its name, the
    /// weighted topological order of its members once the edges that close
    /// its cycles are taken out.
    fn inner_orders(components: &Vec<Component<'_, N>>, Ghost(g): Ghost<GraphView<N>>) -> (r: Vec<
        (Vertex<N>, Vec<Vertex<N>>),
    >)
        requires
            is_decomposition(g, component_views(components@)),
            g.size() + 2 <= usize::MAX,
        ensures
            records_inner(
                component_views(components@),
                components.len() as int,
                recorded(r@),
            ),
    {
        let ghost cs = component_views(components@);
        let mut r: Vec<(Vertex<N>, Vec<Vertex<N>>)> = Vec::new();
        let mut c: usize = 0;
        while c < components.len()
            invariant
                c <= components.len(),
                cs == component_views(components@),
                is_decomposition(g, cs),
                g.size() + 2 <= usize::MAX,
                records_inner(cs, c as int, recorded(r@)),
            decreases components.len() - c,
        {
            let comp = &components[c];
            proof {
                assert(cs[c as int] == components@[c as int]@);
                assert(cs[c as int].wf() && cs[c as int].whole == g);
            }
            let ghost before = recorded(r@);
            if !comp.trivial() {
                let ord_comp = Self::inner_order(comp);
                r.push((comp.compid(), ord_comp));
                proof {
                    let after = recorded(r@);
                    let entry = (cs[c as int].compid, ord_comp@);
                    assert(after =~= before.push(entry));
                    assert(records_one(cs, c + 1, entry));
                    assert forall|k: int| 0 <= k < after.len() implies records_one(
                        cs,
                        c + 1,
                        #[trigger] after[k],
                    ) by {
                        if k < before.len() {
                            widen_record(cs, c as int, before[k]);
                        }
                    }
                    assert forall|d: int|
                        0 <= d < c + 1 && d < cs.len() && (#[trigger] cs[d]).members.len()
                            != 1 implies recorded_under(after, cs[d].compid) by {
                        if d < c {
                            assert(recorded_under(before, cs[d].compid));
                            let k = choose|k: int|
                                0 <= k < before.len() && (#[trigger] before[k]).0 == cs[d].compid;
                            assert(after[k].0 == cs[d].compid);
                        } else {
                            assert(after[before.len() as int].0 == cs[d].compid);
                        }
                    }
                    assert forall|k: int, l: int| 0 <= k < l < after.len() implies (
                    #[trigger] after[k]).0 != (#[trigger] after[l]).0 by {
                        if l == before.len() {
                            assert(records_one(cs, c as int, before[k]));
                            let d = choose|d: int|
                                0 <= d < c && d < cs.len() && (#[trigger] cs[d]).compid
                                    == before[k].0 && cs[d].members.len() != 1 && orders_members(
                                    before[k].1,
                                    cs[d],
                                ) && scheduled_inside(cs[d], before[k].1);
                            if before[k].0 == entry.0 {
                                names_tell_apart(g, cs, d, c as int);
                            }
                        } else {
                            assert(before[k].0 != before[l].0);
                        }
                    }
                }
            } else {
                proof {
                    assert forall|k: int| 0 <= k < before.len() implies records_one(
                        cs,
                        c + 1,
                        #[trigger] before[k],
                    ) by {
                        widen_record(cs, c as int, before[k]);
                    }
                }
            }
            c += 1;
        }
        r
    }

    /// The weighted topological order of the members of a component, once
    /// the edges that close its cycles are taken out.
    fn inner_order(comp: &Component<'_, N>) -> (r: Vec<Vertex<N>>)
        requires
            comp.wf(),
            comp@.whole.size() + 2 <= usize::MAX,
        ensures
            orders_members(r@, comp@),
            scheduled_inside(comp@, r@),
    {
        proof {
            assert forall|i: int| 0 <= i < comp@.members.len() implies comp@.whole.has(
                #[trigger] comp@.members[i],
            ) by {
                assert(comp@.members.contains(comp@.members[i]));
                comp@.members_are_blocks(comp@.members[i]);
            }
            comp@.whole.distinct_blocks_bound(comp@.members);
        }
        let comp_vag = comp.to_acyclic_vag();
        let mut kahngraph = KahnGraph::from_vag(&comp_vag);
        let ord_comp = kahngraph.kahn_algorithm();
        proof {
            comp_vag@.schedule_of_dag_is_topological(ord_comp@);
            real_part_properties(ord_comp@);
            assert forall|v: Vertex<N>| real_part(ord_comp@).contains(v)
                <==> comp@.members.contains(v) by {
                assert(real_part(ord_comp@).contains(v) <==> ord_comp@.contains(v) && v is Id);
                assert(ord_comp@.contains(v) <==> comp_vag@.has(v));
                assert(comp_vag@.has(v) <==> comp@.members.contains(v) || v == Vertex::<N>::Source
                    || v == Vertex::<N>::Sink);
                if comp@.members.contains(v) {
                    comp@.members_are_blocks(v);
                }
            }
        }
        Self::strip_phantoms(&ord_comp)
    }

    /// The run without the phantom vertices.
    fn strip_phantoms(order: &Vec<Vertex<N>>) -> (r: Vec<Vertex<N>>)
        ensures
            r@ == real_part(order@),
    {
        let mut r: Vec<Vertex<N>> = Vec::new();
        let mut i: usize = 0;
        while i < order.len()
            invariant
                i <= order.len(),
                r@ == real_part(order@.take(i as int)),
            decreases order.len() - i,
        {
            let x = order[i];
            proof {
                assert(order@.take(i + 1).drop_last() =~= order@.take(i as int));
            }
            match x {
                Vertex::Id(_) => {
                    r.push(x);
                },
                _ => {},
            }
            i += 1;
        }
        proof {
            assert(order@.take(order.len() as int) =~= order@);
        }
        r
    }
}

/// What is recorded for one of the first `upto` components is recorded for
/// one of the first `upto + 1`.
proof fn widen_record<N: VAGNodeId>(
    comps: Seq<ComponentView<N>>,
    upto: int,
    entry: (Vertex<N>, Seq<Vertex<N>>),
)
    requires
        records_one(comps, upto, entry),
    ensures
        records_one(comps, upto + 1, entry),
{
    let c = choose|c: int|
        0 <= c < upto && c < comps.len() && (#[trigger] comps[c]).compid == entry.0
            && comps[c].members.len() != 1 && orders_members(entry.1, comps[c])
            && scheduled_inside(comps[c], entry.1);
    assert(0 <= c < upto + 1 && comps[c].compid == entry.0);
}

} // verus!
