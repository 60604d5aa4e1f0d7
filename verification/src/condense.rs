//! The condensation of a block graph: one block for each strongly connected
//! component.

use vstd::prelude::*;
use crate::block::NoInstrBasicBlock;
use crate::graph::GraphView;
use crate::members::{insert, with_properties};
use crate::scc::{component_views, covered, is_decomposition, Component, ComponentView};
use crate::vag::{views, VirtualAddressGraph};
use crate::vertex::{VAGNodeId, Vertex};

verus! {

/// Whether an edge of `g` leads from a member of `a` to a member of `b`.
pub open spec fn joined<N: VAGNodeId>(
    g: GraphView<N>,
    a: ComponentView<N>,
    b: ComponentView<N>,
) -> bool {
    exists|u: Vertex<N>, v: Vertex<N>|
        a.members.contains(u) && b.members.contains(v) && #[trigger] g.edge(u, v)
}

/// Whether `x` names a component other than the one in place `c`, to which
/// an edge leads from that one.
pub open spec fn leads_to<N: VAGNodeId>(
    g: GraphView<N>,
    comps: Seq<ComponentView<N>>,
    c: int,
    x: Vertex<N>,
) -> bool {
    exists|d: int|
        0 <= d < comps.len() && d != c && (#[trigger] comps[d]).compid == x && joined(
            g,
            comps[c],
            comps[d],
        )
}

/// Whether `targets` holds the name of the component of `t`.
pub open spec fn names_part_of<N: VAGNodeId>(
    comps: Seq<ComponentView<N>>,
    targets: Seq<Vertex<N>>,
    t: Vertex<N>,
) -> bool {
    exists|d: int|
        0 <= d < comps.len() && (#[trigger] comps[d]).members.contains(t) && targets.contains(
            comps[d].compid,
        )
}

/// Whether `b` stands for the component in place `c`: under its name, with
/// the weight of all its members, and naming the components to which an edge
/// leads from it.
pub open spec fn stands_for<N: VAGNodeId>(
    g: GraphView<N>,
    comps: Seq<ComponentView<N>>,
    c: int,
    b: crate::block::BlockView<N>,
) -> bool {
    &&& b.wf()
    &&& b.address == comps[c].compid
    &&& b.len == g.weight_of(comps[c].members)
    &&& forall|x: Vertex<N>| #[trigger] b.targets.contains(x) <==> leads_to(g, comps, c, x)
}

/// Whether `h` is the condensation of `g`: a sound graph with one block for
/// each component, under the component's name and with the weight of all its
/// members, and an edge from one to another exactly where an edge of `g`
/// leads from a member of the one to a member of the other.
pub open spec fn is_condensation<N: VAGNodeId>(
    g: GraphView<N>,
    comps: Seq<ComponentView<N>>,
    h: GraphView<N>,
) -> bool {
    &&& h.sound()
    &&& h.entry == g.entry
    &&& h.size() == comps.len()
    &&& forall|c: int|
        0 <= c < comps.len() ==> #[trigger] h.addr(c) == comps[c].compid && h.blocks[c].len
            == g.weight_of(comps[c].members)
    &&& forall|c: int, x: Vertex<N>|
        0 <= c < comps.len() ==> (#[trigger] h.blocks[c].targets.contains(x) <==> leads_to(
            g,
            comps,
            c,
            x,
        ))
}

/// Two components with the same name are the same component.
pub proof fn names_tell_apart<N: VAGNodeId>(
    g: GraphView<N>,
    comps: Seq<ComponentView<N>>,
    c: int,
    d: int,
)
    requires
        is_decomposition(g, comps),
        0 <= c < comps.len(),
        0 <= d < comps.len(),
        comps[c].compid == comps[d].compid,
    ensures
        c == d,
{
    assert(comps[c].wf() && comps[d].wf());
    assert(comps[c].members.contains(comps[c].compid));
    assert(comps[d].members.contains(comps[c].compid));
}

/// The condensation of a graph has no cycle.
pub proof fn condensation_is_acyclic<N: VAGNodeId>(
    g: GraphView<N>,
    comps: Seq<ComponentView<N>>,
    h: GraphView<N>,
)
    requires
        is_decomposition(g, comps),
        is_condensation(g, comps, h),
    ensures
        !h.cyclic(),
{
    let rank = |x: Vertex<N>| h.slot(x);
    assert forall|x: Vertex<N>, y: Vertex<N>| #[trigger] h.edge(x, y) implies rank(y) < rank(x) by {
        h.edge_ends(x, y);
        let c = h.slot(x);
        let e = h.slot(y);
        assert(h.blocks[c].targets.contains(y));
        assert(leads_to(g, comps, c, y));
        let d = choose|d: int|
            0 <= d < comps.len() && d != c && (#[trigger] comps[d]).compid == y && joined(
                g,
                comps[c],
                comps[d],
            );
        assert(h.addr(d) == y);
        h.slot_is_unique(d);
        let (u, v) = choose|u: Vertex<N>, v: Vertex<N>|
            comps[c].members.contains(u) && comps[d].members.contains(v) && #[trigger] g.edge(u, v);
        assert(d < c);
    }
    h.ranked_is_acyclic(rank);
}

/// A graph without loops all of whose components are single blocks has no
/// cycle.
pub proof fn single_blocks_leave_no_cycle<N: VAGNodeId>(
    g: GraphView<N>,
    comps: Seq<ComponentView<N>>,
)
    requires
        g.sound(),
        is_decomposition(g, comps),
        forall|c: int| 0 <= c < comps.len() ==> (#[trigger] comps[c]).members.len() == 1,
        forall|v: Vertex<N>| !g.edge(v, v),
    ensures
        !g.cyclic(),
{
    if g.cyclic() {
        let p = choose|p: Seq<Vertex<N>>| g.is_cycle(p);
        let a = p[0];
        if p.len() == 1 {
            assert(g.edge(p.last(), p.first()));
        } else {
            let b = p[1];
            assert(g.edge(p[0int], p[0int + 1]));
            g.edge_reaches(a, b);
            g.walk_parts(p, 1);
            g.edge_reaches(p.last(), a);
            g.reaches_is_transitive(b, p.last(), a);
            assert(covered(comps, a));
            let c = choose|c: int| 0 <= c < comps.len() && (#[trigger] comps[c]).members.contains(a);
            let k = comps[c];
            assert(k.wf() && k.whole == g);
            g.reaches_is_transitive(k.compid, a, b);
            g.reaches_is_transitive(b, a, k.compid);
            assert(k.members.contains(b));
            let i = choose|i: int| 0 <= i < k.members.len() && k.members[i] == a;
            let j = choose|j: int| 0 <= j < k.members.len() && k.members[j] == b;
            assert(a == b);
        }
    }
}

/// Condensing a graph without loops all of whose components are single
/// blocks changes nothing: the condensation has the blocks of the graph, with
/// their weights, and its edges.
pub proof fn single_blocks_condense_to_themselves<N: VAGNodeId>(
    g: GraphView<N>,
    comps: Seq<ComponentView<N>>,
    h: GraphView<N>,
)
    requires
        g.sound(),
        is_decomposition(g, comps),
        is_condensation(g, comps, h),
        forall|c: int| 0 <= c < comps.len() ==> (#[trigger] comps[c]).members.len() == 1,
        forall|v: Vertex<N>| !g.edge(v, v),
    ensures
        h.size() == g.size(),
        forall|v: Vertex<N>| h.has(v) <==> g.has(v),
        forall|v: Vertex<N>| g.has(v) ==> h.at(v).len == g.at(v).len,
        forall|u: Vertex<N>, v: Vertex<N>| h.edge(u, v) <==> g.edge(u, v),
{
    assert forall|c: int| 0 <= c < comps.len() implies (#[trigger] comps[c]).members =~= seq![
        comps[c].compid,
    ] by {
        let k = comps[c];
        assert(k.wf());
        let i = choose|i: int| 0 <= i < k.members.len() && k.members[i] == k.compid;
    }
    assert forall|v: Vertex<N>| h.has(v) <==> g.has(v) by {
        if h.has(v) {
            let c = h.slot(v);
            assert(h.addr(c) == comps[c].compid);
            assert(comps[c].wf() && comps[c].whole == g);
            assert(comps[c].members.contains(v));
            comps[c].members_are_blocks(v);
        }
        if g.has(v) {
            assert(covered(comps, v));
            let c = choose|c: int| 0 <= c < comps.len() && (#[trigger] comps[c]).members.contains(v);
            let i = choose|i: int| 0 <= i < comps[c].members.len() && comps[c].members[i] == v;
            assert(h.addr(c) == v);
        }
    }
    assert forall|v: Vertex<N>| g.has(v) implies h.at(v).len == g.at(v).len by {
        let c = h.slot(v);
        assert(h.addr(c) == comps[c].compid);
        let ms = comps[c].members;
        assert(ms.drop_last() =~= Seq::<Vertex<N>>::empty());
        assert(g.weight_of(ms) == g.weight_of(ms.drop_last()) + g.at(ms.last()).len);
        assert(g.weight_of(ms.drop_last()) == 0);
    }
    assert forall|u: Vertex<N>, v: Vertex<N>| h.edge(u, v) <==> g.edge(u, v) by {
        if h.edge(u, v) {
            let c = h.slot(u);
            assert(h.addr(c) == comps[c].compid);
            assert(h.blocks[c].targets.contains(v));
            assert(leads_to(g, comps, c, v));
            let d = choose|d: int|
                0 <= d < comps.len() && d != c && (#[trigger] comps[d]).compid == v && joined(
                    g,
                    comps[c],
                    comps[d],
                );
            let (a, b) = choose|a: Vertex<N>, b: Vertex<N>|
                comps[c].members.contains(a) && comps[d].members.contains(b) && #[trigger] g.edge(
                    a,
                    b,
                );
            let i = choose|i: int| 0 <= i < comps[c].members.len() && comps[c].members[i] == a;
            let j = choose|j: int| 0 <= j < comps[d].members.len() && comps[d].members[j] == b;
            assert(a == u && b == v);
        }
        if g.edge(u, v) {
            g.edge_ends(u, v);
            let c = h.slot(u);
            let d = h.slot(v);
            assert(h.addr(c) == comps[c].compid && h.addr(d) == comps[d].compid);
            assert(comps[c].members[0] == u && comps[d].members[0] == v);
            assert(comps[c].members.contains(u) && comps[d].members.contains(v));
            assert(c != d);
            assert(joined(g, comps[c], comps[d]));
            assert(leads_to(g, comps, c, v));
            assert(h.blocks[c].targets.contains(v));
        }
    }
    let names = Seq::new(comps.len(), |c: int| comps[c].compid);
    assert forall|i: int, j: int| 0 <= i < names.len() && 0 <= j < names.len() && i
        != j implies names[i] != names[j] by {
        if names[i] == names[j] {
            names_tell_apart(g, comps, i, j);
        }
    }
    assert forall|v: Vertex<N>| g.has(v) <==> names.contains(v) by {
        if g.has(v) {
            let c = h.slot(v);
            assert(h.addr(c) == comps[c].compid);
            assert(names[c] == v);
        }
        if names.contains(v) {
            let c = choose|c: int| 0 <= c < names.len() && names[c] == v;
            assert(h.addr(c) == v);
        }
    }
    g.full_order_length(names);
}

impl<N: VAGNodeId> VirtualAddressGraph<N> {
    /// The condensation of the graph: each component becomes one block, named
    /// by its smallest member, with the weight of all its members; its
    /// successors are the components to which an edge leads from it.
    pub fn condense(&self, comps: &Vec<Component<'_, N>>) -> (condensed: Self)
        requires
            self@.sound(),
            self@.total_weight() <= usize::MAX,
            is_decomposition(self@, component_views(comps@)),
        ensures
            condensed.wf(),
            is_condensation(self@, component_views(comps@), condensed@),
            !condensed@.cyclic(),
    {
        let ghost g = self@;
        let ghost cs = component_views(comps@);
        let mut nodes: Vec<NoInstrBasicBlock<N>> = Vec::new();
        let mut c: usize = 0;
        while c < comps.len()
            invariant
                c <= comps.len(),
                g == self@,
                g.sound(),
                g.total_weight() <= usize::MAX,
                cs == component_views(comps@),
                is_decomposition(g, cs),
                nodes.len() == c,
                forall|d: int| 0 <= d < c ==> stands_for(g, cs, d, (#[trigger] nodes@[d])@),
            decreases comps.len() - c,
        {
            nodes.push(self.condensed_block(comps, c));
            c += 1;
        }
        let ghost bs = views(nodes@);
        proof {
            assert forall|d: int, e: int| 0 <= d < e < bs.len() implies (#[trigger] bs[d]).address != (
            #[trigger] bs[e]).address by {
                assert(stands_for(g, cs, d, nodes@[d]@) && stands_for(g, cs, e, nodes@[e]@));
                if bs[d].address == bs[e].address {
                    names_tell_apart(g, cs, d, e);
                }
            }
            GraphView::filled_of_keyed(g.entry, bs, bs.len() as int);
            assert(bs.take(bs.len() as int) =~= bs);
            assert forall|d: int| 0 <= d < nodes.len() implies (#[trigger] nodes@[d]).wf() by {
                assert(stands_for(g, cs, d, nodes@[d]@));
            }
        }
        let mut vag = VirtualAddressGraph::new(self.address(), nodes);
        proof {
            let h0 = vag@;
            assert(h0.blocks == bs);
            assert forall|d: int| 0 <= d < bs.len() implies #[trigger] h0.addr(d) == cs[d].compid by {
                assert(stands_for(g, cs, d, nodes@[d]@));
            }
            assert forall|d: int, k: int|
                0 <= d < h0.blocks.len() && 0 <= k < h0.blocks[d].targets.len() implies h0.has(
                #[trigger] h0.blocks[d].targets[k],
            ) by {
                let x = h0.blocks[d].targets[k];
                assert(stands_for(g, cs, d, nodes@[d]@));
                assert(h0.blocks[d].targets.contains(x));
                assert(leads_to(g, cs, d, x));
                let e = choose|e: int|
                    0 <= e < cs.len() && e != d && (#[trigger] cs[e]).compid == x && joined(
                        g,
                        cs[d],
                        cs[e],
                    );
                assert(h0.addr(e) == x);
            }
            h0.relinked_is_linked();
            let h = h0.relinked();
            assert forall|d: int| 0 <= d < cs.len() implies #[trigger] h.addr(d) == cs[d].compid
                && h.blocks[d].len == g.weight_of(cs[d].members) by {
                assert(stands_for(g, cs, d, nodes@[d]@));
                assert(h0.blocks[d].address == h.blocks[d].address);
            }
            assert forall|d: int, x: Vertex<N>| 0 <= d < cs.len() implies (
            #[trigger] h.blocks[d].targets.contains(x) <==> leads_to(g, cs, d, x)) by {
                assert(stands_for(g, cs, d, nodes@[d]@));
                assert(h0.blocks[d].targets == h.blocks[d].targets);
            }
        }
        vag.update_sources_and_indegrees();
        proof {
            condensation_is_acyclic(g, cs, vag@);
        }
        vag
    }

    /// Where in `comps` the component of `v` stands.
    fn component_of(comps: &Vec<Component<'_, N>>, v: Vertex<N>) -> (d: usize)
        requires
            covered(component_views(comps@), v),
        ensures
            d < comps.len(),
            component_views(comps@)[d as int].members.contains(v),
    {
        let ghost cs = component_views(comps@);
        let mut d: usize = 0;
        while d < comps.len()
            invariant
                d <= comps.len(),
                cs == component_views(comps@),
                covered(cs, v),
                forall|e: int| 0 <= e < d ==> !(#[trigger] cs[e]).members.contains(v),
            decreases comps.len() - d,
        {
            proof {
                assert(cs[d as int] == comps@[d as int]@);
            }
            if comps[d].contains(v) {
                return d;
            }
            d += 1;
        }
        proof {
            let e = choose|e: int| 0 <= e < cs.len() && (#[trigger] cs[e]).members.contains(v);
            assert(false);
        }
        0
    }

    /// The block that stands for the component in place `c`.
    fn condensed_block(&self, comps: &Vec<Component<'_, N>>, c: usize) -> (block: NoInstrBasicBlock<N>)
        requires
            self@.sound(),
            self@.total_weight() <= usize::MAX,
            is_decomposition(self@, component_views(comps@)),
            c < comps.len(),
        ensures
            stands_for(self@, component_views(comps@), c as int, block@),
    {
        let ghost g = self@;
        let ghost cs = component_views(comps@);
        let comp = &comps[c];
        proof {
            assert(cs[c as int] == comps@[c as int]@);
            assert(cs[c as int].wf() && cs[c as int].whole == g);
        }
        let members = comp.nodes();
        let ghost ms = cs[c as int].members;
        let mut length: usize = 0;
        let mut targets: Vec<Vertex<N>> = Vec::new();
        let mut i: usize = 0;
        while i < members.len()
            invariant
                i <= members.len(),
                g == self@,
                g.sound(),
                g.total_weight() <= usize::MAX,
                cs == component_views(comps@),
                is_decomposition(g, cs),
                c < comps.len(),
                comp@ == cs[c as int],
                cs[c as int].wf(),
                ms == cs[c as int].members,
                members@ == ms,
                length == g.weight_of(ms.take(i as int)),
                targets@.no_duplicates(),
                forall|j: int| 0 <= j < targets.len() ==> leads_to(g, cs, c as int, #[trigger] targets@[j]),
                forall|j: int, k: int|
                    0 <= j < i && 0 <= k < g.at(ms[j]).targets.len() && !ms.contains(
                        #[trigger] g.at(ms[j]).targets[k],
                    ) ==> names_part_of(cs, targets@, g.at(ms[j]).targets[k]),
            decreases members.len() - i,
        {
            let member = members[i];
            proof {
                assert(ms.contains(ms[i as int]));
                cs[c as int].members_are_blocks(member);
                g.weight_of_take(ms, i as int);
                assert forall|k: int| 0 <= k < ms.take(i + 1).len() implies g.has(
                    #[trigger] ms.take(i + 1)[k],
                ) by {
                    assert(ms.contains(ms[k]));
                    cs[c as int].members_are_blocks(ms[k]);
                }
                g.weight_of_blocks(ms.take(i + 1));
            }
            let block = self.node_at_target(member);
            length = length + block.len();
            let successors = block.targets();
            let mut k: usize = 0;
            while k < successors.len()
                invariant
                    k <= successors.len(),
                    i < members.len(),
                    g == self@,
                    g.sound(),
                    cs == component_views(comps@),
                    is_decomposition(g, cs),
                    c < comps.len(),
                    comp@ == cs[c as int],
                    cs[c as int].wf(),
                    ms == cs[c as int].members,
                    member == ms[i as int],
                    ms.contains(member),
                    g.has(member),
                    successors@ == g.at(member).targets,
                    targets@.no_duplicates(),
                    forall|j: int|
                        0 <= j < targets.len() ==> leads_to(g, cs, c as int, #[trigger] targets@[j]),
                    forall|j: int, l: int|
                        0 <= j < i && 0 <= l < g.at(ms[j]).targets.len() && !ms.contains(
                            #[trigger] g.at(ms[j]).targets[l],
                        ) ==> names_part_of(cs, targets@, g.at(ms[j]).targets[l]),
                    forall|l: int|
                        0 <= l < k && !ms.contains(#[trigger] g.at(member).targets[l])
                            ==> names_part_of(cs, targets@, g.at(member).targets[l]),
                decreases successors.len() - k,
            {
                let target = successors[k];
                if !comp.contains(target) {
                    proof {
                        assert(g.at(member).targets.contains(target));
                        assert(g.edge(member, target));
                        g.edge_ends(member, target);
                        assert(covered(cs, target));
                    }
                    let d = Self::component_of(comps, target);
                    let name = comps[d].compid();
                    let ghost before = targets@;
                    proof {
                        assert(cs[d as int] == comps@[d as int]@);
                        with_properties(before, name);
                        assert(d != c);
                        assert(joined(g, cs[c as int], cs[d as int]));
                        assert(leads_to(g, cs, c as int, name));
                    }
                    insert(&mut targets, name);
                    proof {
                        assert forall|j: int| 0 <= j < targets.len() implies leads_to(
                            g,
                            cs,
                            c as int,
                            #[trigger] targets@[j],
                        ) by {
                            if j < before.len() {
                                assert(targets@[j] == before[j]);
                            }
                        }
                        assert forall|t: Vertex<N>| names_part_of(cs, before, t) implies names_part_of(
                            cs,
                            targets@,
                            t,
                        ) by {
                            let e = choose|e: int|
                                0 <= e < cs.len() && (#[trigger] cs[e]).members.contains(t)
                                    && before.contains(cs[e].compid);
                            assert(targets@.contains(cs[e].compid));
                        }
                        assert(targets@.contains(cs[d as int].compid));
                        assert(names_part_of(cs, targets@, target));
                    }
                }
                k += 1;
            }
            i += 1;
        }
        let block = NoInstrBasicBlock::new(comp.compid(), length, Vec::new(), targets, 0);
        proof {
            assert(ms.take(ms.len() as int) =~= ms);
            crate::members::distinct_of_distinct(targets@);
            assert(crate::members::distinct(Seq::<Vertex<N>>::empty()) =~= Seq::<Vertex<N>>::empty());
            assert forall|x: Vertex<N>| #[trigger] block@.targets.contains(x) <==> leads_to(
                g,
                cs,
                c as int,
                x,
            ) by {
                if block@.targets.contains(x) {
                    let j = choose|j: int| 0 <= j < targets.len() && targets@[j] == x;
                    assert(leads_to(g, cs, c as int, targets@[j]));
                }
                if leads_to(g, cs, c as int, x) {
                    let d = choose|d: int|
                        0 <= d < cs.len() && d != c && (#[trigger] cs[d]).compid == x && joined(
                            g,
                            cs[c as int],
                            cs[d],
                        );
                    let (u, v) = choose|u: Vertex<N>, v: Vertex<N>|
                        cs[c as int].members.contains(u) && cs[d].members.contains(v)
                            && #[trigger] g.edge(u, v);
                    let j = choose|j: int| 0 <= j < ms.len() && ms[j] == u;
                    let l = choose|l: int|
                        0 <= l < g.at(u).targets.len() && g.at(u).targets[l] == v;
                    assert(!(cs[c as int].members.contains(v) && cs[d].members.contains(v)));
                    assert(names_part_of(cs, targets@, g.at(ms[j]).targets[l]));
                    let e = choose|e: int|
                        0 <= e < cs.len() && (#[trigger] cs[e]).members.contains(v)
                            && targets@.contains(cs[e].compid);
                    assert(!(cs[e].members.contains(v) && cs[d].members.contains(v)) || e == d);
                }
            }
        }
        block
    }
}

} // verus!
