//! The strongly connected components of a block graph.

use vstd::prelude::*;
use crate::digraph::{crosses, next_on, is_component_list, listed, parts_are_apart, parts_are_connected,
    parts_are_ordered, parts_cover, parts_fit, tarjan_components};
use crate::graph::GraphView;
use crate::members::contains;
use crate::phantoms::{heads, sink_block, source_block, tails};
use crate::block::NoInstrBasicBlock;
use crate::vag::VirtualAddressGraph;
use crate::vertex::{VAGNodeId, Vertex};

verus! {

/// The mathematical content of a component: the graph that it is part of,
/// its members and the member that names it.
pub ghost struct ComponentView<N: VAGNodeId> {
    /// The graph of which this is a component.
    pub whole: GraphView<N>,
    /// The members, each once.
    pub members: Seq<Vertex<N>>,
    /// The smallest member.
    pub compid: Vertex<N>,
}

impl<N: VAGNodeId> ComponentView<N> {
    /// The members are exactly the blocks that reach the naming member and
    /// are reached from it, and that member is the smallest of them.
    pub open spec fn wf(self) -> bool {
        &&& self.whole.sound()
        &&& self.whole.plain()
        &&& self.members.no_duplicates()
        &&& self.members.contains(self.compid)
        &&& forall|i: int|
            0 <= i < self.members.len() ==> #[trigger] self.members[i] == self.compid
                || self.compid.precedes(self.members[i])
        &&& forall|v: Vertex<N>|
            #[trigger] self.members.contains(v) <==> self.whole.reaches(self.compid, v)
                && self.whole.reaches(v, self.compid)
    }

    /// Whether `edges` holds exactly the edges that enter the component from
    /// outside.
    pub open spec fn incoming(self, edges: Seq<(Vertex<N>, Vertex<N>)>) -> bool {
        forall|u: Vertex<N>, t: Vertex<N>| #[trigger]
            edges.contains((u, t)) <==> self.whole.edge(u, t) && !self.members.contains(u)
                && self.members.contains(t)
    }

    /// Whether `edges` holds exactly the edges that leave the component.
    pub open spec fn outgoing(self, edges: Seq<(Vertex<N>, Vertex<N>)>) -> bool {
        forall|u: Vertex<N>, x: Vertex<N>| #[trigger]
            edges.contains((u, x)) <==> self.whole.edge(u, x) && self.members.contains(u)
                && !self.members.contains(x)
    }

    /// Every member is a block of the graph.
    pub proof fn members_are_blocks(self, v: Vertex<N>)
        requires
            self.wf(),
            self.members.contains(v),
        ensures
            self.whole.has(v),
            v is Id,
    {
        let p = choose|p: Seq<Vertex<N>>|
            self.whole.is_walk(p) && p.first() == self.compid && p.last() == v;
        self.whole.walk_stays_inside(p, p.len() - 1);
        let i = self.whole.slot(v);
        assert(self.whole.addr(i) == v);
    }

    /// Every vertex on a walk between two members is a member.
    pub proof fn walk_stays_in_component(self, p: Seq<Vertex<N>>, i: int)
        requires
            self.wf(),
            self.whole.is_walk(p),
            self.members.contains(p.first()),
            self.members.contains(p.last()),
            0 <= i < p.len(),
        ensures
            self.members.contains(p[i]),
    {
        let g = self.whole;
        g.walk_parts(p, i);
        g.reaches_is_transitive(self.compid, p.first(), p[i]);
        g.reaches_is_transitive(p[i], p.last(), self.compid);
    }
}

impl<N: VAGNodeId> ComponentView<N> {
    /// The blocks of the members, cut out of the graph as they are: with all
    /// their successors and predecessors, inside the component or not.
    pub open spec fn cut(self) -> GraphView<N> {
        GraphView {
            entry: self.compid,
            blocks: Seq::new(self.members.len(), |i: int| self.whole.at(self.members[i])),
        }
    }

    /// The component closed off: cut out, with the phantom source in place of
    /// all that lies before it and the phantom sink in place of all that
    /// lies behind it, and the records brought into line with the edges.
    pub open spec fn closed_off(
        self,
        ins: Seq<(Vertex<N>, Vertex<N>)>,
        outs: Seq<(Vertex<N>, Vertex<N>)>,
    ) -> GraphView<N> {
        self.cut().with_source(ins).with_sink(outs).relinked()
    }

    /// Whether `g` is a graph on the members and the two phantom vertices
    /// that has no edge into the source and none out of the sink, and in
    /// which every member is reached from the naming member.
    pub open spec fn framed_by(self, g: GraphView<N>) -> bool {
        &&& g.sound()
        &&& g.entry == self.compid
        &&& forall|v: Vertex<N>|
            g.has(v) <==> self.members.contains(v) || v == Vertex::<N>::Source || v
                == Vertex::<N>::Sink
        &&& forall|a: Vertex<N>, b: Vertex<N>|
            self.members.contains(a) && self.members.contains(b) ==> (#[trigger] g.edge(a, b)
                ==> self.whole.edge(a, b))
        &&& forall|x: Vertex<N>| !#[trigger] g.edge(x, Vertex::Source)
        &&& forall|x: Vertex<N>| !#[trigger] g.edge(Vertex::Sink, x)
    }

    /// What is cut out holds the members, each with its block.
    pub proof fn cut_properties(self)
        requires
            self.wf(),
        ensures
            self.cut().wf(),
            forall|v: Vertex<N>| self.cut().has(v) <==> self.members.contains(v),
            forall|v: Vertex<N>| self.members.contains(v) ==> self.cut().at(v) == self.whole.at(v),
            forall|i: int|
                0 <= i < self.members.len() ==> (#[trigger] self.cut().blocks[i]).address
                    == self.members[i],
    {
        let g0 = self.cut();
        let w = self.whole;
        assert forall|i: int| 0 <= i < self.members.len() implies (#[trigger] g0.blocks[i]).address
            == self.members[i] && g0.blocks[i].wf() by {
            assert(self.members.contains(self.members[i]));
            self.members_are_blocks(self.members[i]);
            let s = w.slot(self.members[i]);
            assert(w.addr(s) == self.members[i]);
            assert(w.blocks[s].wf());
        }
        assert forall|i: int, j: int| 0 <= i < j < g0.blocks.len() implies #[trigger] g0.addr(i)
            != #[trigger] g0.addr(j) by {
            assert(g0.blocks[i].address == self.members[i]);
            assert(g0.blocks[j].address == self.members[j]);
        }
        assert forall|v: Vertex<N>| g0.has(v) <==> self.members.contains(v) by {
            if g0.has(v) {
                let i = g0.slot(v);
                assert(g0.blocks[i].address == self.members[i]);
            }
            if self.members.contains(v) {
                let i = choose|i: int| 0 <= i < self.members.len() && self.members[i] == v;
                assert(g0.blocks[i].address == self.members[i]);
                assert(g0.addr(i) == v);
            }
        }
        assert forall|v: Vertex<N>| self.members.contains(v) implies g0.at(v) == w.at(v) by {
            let i = choose|i: int| 0 <= i < self.members.len() && self.members[i] == v;
            assert(g0.blocks[i].address == self.members[i]);
            assert(g0.addr(i) == v);
            g0.slot_is_unique(i);
        }
    }

    /// The component closed off is a sound graph on the members and the two
    /// phantom vertices. Between two members it has the edges of the whole
    /// graph.
    pub proof fn closed_off_properties(
        self,
        ins: Seq<(Vertex<N>, Vertex<N>)>,
        outs: Seq<(Vertex<N>, Vertex<N>)>,
    )
        requires
            self.wf(),
            self.incoming(ins),
            self.outgoing(outs),
            outs.len() <= usize::MAX,
            self.members.len() + 2 <= usize::MAX,
        ensures
            self.cut().with_source(ins).with_sink(outs).size() == self.members.len() + 2,
            self.cut().with_source(ins).wf(),
            forall|k: int|
                0 <= k < outs.len() ==> self.cut().with_source(ins).has((#[trigger] outs[k]).0),
            self.cut().with_source(ins).with_sink(outs).wf(),
            self.framed_by(self.closed_off(ins, outs)),
            forall|a: Vertex<N>, b: Vertex<N>|
                self.members.contains(a) && self.members.contains(b) && self.whole.edge(a, b)
                    ==> self.closed_off(ins, outs).edge(a, b),
    {
        let w = self.whole;
        let g0 = self.cut();
        self.cut_properties();
        let src = source_block(ins);
        let snk = sink_block(outs);
        crate::members::distinct_keeps_members(heads(ins));
        crate::members::distinct_keeps_members(tails(outs));
        assert(crate::members::distinct(Seq::<Vertex<N>>::empty()) =~= Seq::<Vertex<N>>::empty());
        assert forall|v: Vertex<N>| self.members.contains(v) implies v is Id && w.has(v) by {
            self.members_are_blocks(v);
        }
        assert(src.wf());
        assert(snk.wf());
        g0.put_properties(src);
        let g1 = g0.with_source(ins);
        g1.put_properties(snk);
        let g1s = g1.put(snk);
        assert forall|k: int| 0 <= k < outs.len() implies g1.has((#[trigger] outs[k]).0)
            && g1s.has(outs[k].0) by {
            assert(outs.contains((outs[k].0, outs[k].1)));
        }
        g1s.redirect_all_properties(outs);
        let g2 = g1.with_sink(outs);
        g1s.same_blocks_properties(g2);
        assert forall|v: Vertex<N>|
            g2.has(v) <==> self.members.contains(v) || v == Vertex::<N>::Source || v
                == Vertex::<N>::Sink by {}
        assert forall|v: Vertex<N>| tails(outs).contains(v) implies self.members.contains(v) by {
            let k = choose|k: int| 0 <= k < tails(outs).len() && tails(outs)[k] == v;
            assert(outs.contains((outs[k].0, outs[k].1)));
        }
        assert forall|t: Vertex<N>| heads(ins).contains(t) implies self.members.contains(t) by {
            let k = choose|k: int| 0 <= k < heads(ins).len() && heads(ins)[k] == t;
            assert(ins.contains((ins[k].0, ins[k].1)));
        }
        // the successors of each block of the closed graph
        assert forall|v: Vertex<N>, t: Vertex<N>| g2.has(v) implies (#[trigger] g2.edge(v, t) <==> (
        g1s.at(v).targets.contains(t) && !outs.contains((v, t))) || (t == Vertex::<N>::Sink
            && tails(outs).contains(v))) by {
            let i = g1s.slot(v);
            assert(g1s.addr(i) == v);
            assert(g2.slot(v) == i);
            assert(g2.blocks[i].targets.contains(t) <==> (g1s.blocks[i].targets.contains(t)
                && !outs.contains((g1s.addr(i), t))) || (t == Vertex::<N>::Sink && tails(
                outs,
            ).contains(g1s.addr(i))));
        }
        assert forall|a: Vertex<N>, t: Vertex<N>| self.members.contains(a) implies (
        #[trigger] g2.edge(a, t) <==> (w.edge(a, t) && self.members.contains(t)) || (t
            == Vertex::<N>::Sink && tails(outs).contains(a))) by {
            assert(g1s.at(a) == w.at(a));
            if w.edge(a, t) && !self.members.contains(t) {
                assert(outs.contains((a, t)));
            }
            if self.members.contains(t) {
                assert(!outs.contains((a, t)));
            }
        }
        assert forall|t: Vertex<N>| #[trigger] g2.edge(Vertex::Source, t) implies self.members.contains(
            t,
        ) by {
            assert(g1.at(Vertex::Source) == src);
            assert(g1s.at(Vertex::Source) == src);
            assert(g2.has(Vertex::Source));
            assert(!tails(outs).contains(Vertex::Source)) by {
                if tails(outs).contains(Vertex::<N>::Source) {
                    assert(self.members.contains(Vertex::<N>::Source));
                }
            }
            assert(src.targets.contains(t));
            assert(heads(ins).contains(t));
        }
        assert forall|t: Vertex<N>| !#[trigger] g2.edge(Vertex::Sink, t) by {
            assert(g1s.at(Vertex::Sink) == snk);
            assert(g2.has(Vertex::Sink));
            if tails(outs).contains(Vertex::<N>::Sink) {
                assert(self.members.contains(Vertex::<N>::Sink));
            }
        }
        assert(g2.closed()) by {
            assert forall|i: int, k: int|
                0 <= i < g2.blocks.len() && 0 <= k < g2.blocks[i].targets.len() implies g2.has(
                #[trigger] g2.blocks[i].targets[k],
            ) by {
                let v = g2.addr(i);
                let t = g2.blocks[i].targets[k];
                g2.slot_is_unique(i);
                assert(g2.blocks[i].targets.contains(t));
                assert(g2.edge(v, t));
            }
        }
        g2.relinked_is_linked();
        let g3 = self.closed_off(ins, outs);
        g2.same_edges_properties(g3);
        assert forall|x: Vertex<N>| !#[trigger] g3.edge(x, Vertex::Source) by {
            if g2.edge(x, Vertex::Source) {
                if self.members.contains(x) {
                    w.edge_ends(x, Vertex::Source);
                    let s = w.slot(Vertex::Source);
                    assert(w.addr(s) is Id);
                }
            }
        }
    }

}

impl<N: VAGNodeId> ComponentView<N> {
    /// Once the edges that close its cycles are taken out, the component
    /// closed off has no cycle.
    pub proof fn cut_cycles(self, g: GraphView<N>, backs: Seq<(Vertex<N>, Vertex<N>)>)
        requires
            self.wf(),
            self.framed_by(g),
            forall|a: Vertex<N>, b: Vertex<N>|
                self.members.contains(a) && self.members.contains(b) && self.whole.edge(a, b)
                    ==> g.edge(a, b),
            forall|k: int| 0 <= k < backs.len() ==> g.edge((#[trigger] backs[k]).0, backs[k].1),
            forall|p: Seq<Vertex<N>>|
                #[trigger] g.is_cycle(p) && g.reaches(g.entry, p[0]) ==> crosses(p, backs),
        ensures
            g.holds_ends(backs),
            self.framed_by(g.erase_edges(backs)),
            !g.erase_edges(backs).cyclic(),
    {
        assert forall|k: int| 0 <= k < backs.len() implies g.has((#[trigger] backs[k]).0) && g.has(
            backs[k].1,
        ) by {
            g.edge_ends(backs[k].0, backs[k].1);
        }
        g.erase_edges_properties(backs);
        let h = g.erase_edges(backs);
        assert(self.framed_by(h)) by {
            assert(h.entry == g.entry);
            assert forall|v: Vertex<N>|
                h.has(v) <==> self.members.contains(v) || v == Vertex::<N>::Source || v
                    == Vertex::<N>::Sink by {
                assert(h.has(v) <==> g.has(v));
            }
            assert forall|a: Vertex<N>, b: Vertex<N>|
                self.members.contains(a) && self.members.contains(b) && #[trigger] h.edge(
                    a,
                    b,
                ) implies self.whole.edge(a, b) by {
                assert(g.edge(a, b));
            }
            assert forall|x: Vertex<N>| !#[trigger] h.edge(x, Vertex::Source) by {
                assert(!g.edge(x, Vertex::Source));
            }
            assert forall|x: Vertex<N>| !#[trigger] h.edge(Vertex::Sink, x) by {
                assert(!g.edge(Vertex::Sink, x));
            }
        }
        if h.cyclic() {
            let p = choose|p: Seq<Vertex<N>>| h.is_cycle(p);
            assert(g.is_cycle(p)) by {
                assert forall|i: int| 0 <= i < p.len() - 1 implies g.edge(#[trigger] p[i], p[i + 1]) by {
                    assert(h.edge(p[i], p[i + 1]));
                }
            }
            let first = p[0];
            assert(h.edge(p.last(), first));
            assert(g.edge(p.last(), first));
            if p.len() > 1 {
                assert(h.edge(p[0int], p[0int + 1]));
                assert(g.edge(first, p[1]));
            } else {
                assert(g.edge(first, first));
            }
            assert(self.members.contains(first));
            self.member_is_reached(g, first);
            assert(crosses(p, backs));
            let i = choose|i: int|
                0 <= i < p.len() && backs.contains((#[trigger] p[i], next_on(p, i)));
            if i + 1 < p.len() {
                assert(h.edge(p[i], p[i + 1]));
            } else {
                assert(h.edge(p.last(), p.first()));
            }
        }
    }

    /// In the component closed off, every member is reached from the naming
    /// member.
    pub proof fn member_is_reached(self, g: GraphView<N>, m: Vertex<N>)
        requires
            self.wf(),
            self.framed_by(g),
            forall|a: Vertex<N>, b: Vertex<N>|
                self.members.contains(a) && self.members.contains(b) && self.whole.edge(a, b)
                    ==> g.edge(a, b),
            self.members.contains(m),
        ensures
            g.reaches(g.entry, m),
    {
        let w = choose|w: Seq<Vertex<N>>|
            self.whole.is_walk(w) && w.first() == self.compid && w.last() == m;
        assert forall|i: int| 0 <= i < w.len() - 1 implies g.edge(#[trigger] w[i], w[i + 1]) by {
            self.walk_stays_in_component(w, i);
            self.walk_stays_in_component(w, i + 1);
            assert(self.whole.edge(w[i], w[i + 1]));
        }
        assert(g.is_walk(w));
    }
}

/// Whether some component holds `v`.
pub open spec fn covered<N: VAGNodeId>(comps: Seq<ComponentView<N>>, v: Vertex<N>) -> bool {
    exists|c: int| 0 <= c < comps.len() && (#[trigger] comps[c]).members.contains(v)
}

/// Whether `comps` are the strongly connected components of `g`, each once,
/// a component that an edge leaves standing after the one that it enters.
pub open spec fn is_decomposition<N: VAGNodeId>(
    g: GraphView<N>,
    comps: Seq<ComponentView<N>>,
) -> bool {
    &&& forall|c: int| 0 <= c < comps.len() ==> (#[trigger] comps[c]).wf() && comps[c].whole == g
    &&& forall|v: Vertex<N>| g.has(v) ==> #[trigger] covered(comps, v)
    &&& forall|c: int, d: int, v: Vertex<N>|
        0 <= c < comps.len() && 0 <= d < comps.len() && c != d ==> !(
        #[trigger] comps[c].members.contains(v) && #[trigger] comps[d].members.contains(v))
    &&& forall|c: int, d: int, u: Vertex<N>, v: Vertex<N>|
        0 <= c < comps.len() && 0 <= d < comps.len() && c != d
            && #[trigger] comps[c].members.contains(u) && #[trigger] comps[d].members.contains(v)
            && g.edge(u, v) ==> d < c
}

/// A strongly connected component of a block graph.
#[derive(Debug)]
pub struct Component<'a, N: VAGNodeId> {
    graph: &'a VirtualAddressGraph<N>,
    component: Vec<Vertex<N>>,
    compid: Vertex<N>,
}

impl<'a, N: VAGNodeId> View for Component<'a, N> {
    type V = ComponentView<N>;

    closed spec fn view(&self) -> ComponentView<N> {
        ComponentView { whole: self.graph@, members: self.component@, compid: self.compid }
    }
}

/// The views of a run of components.
pub open spec fn component_views<'a, N: VAGNodeId>(comps: Seq<Component<'a, N>>) -> Seq<
    ComponentView<N>,
> {
    comps.map_values(|c: Component<'a, N>| c@)
}

/// The addresses in the given slots.
pub open spec fn addresses<N: VAGNodeId>(g: GraphView<N>, part: Seq<usize>) -> Seq<Vertex<N>> {
    Seq::new(part.len(), |k: int| g.addr(part[k] as int))
}

/// Two slots of one part hold blocks that reach each other.
proof fn part_is_connected<N: VAGNodeId>(
    g: GraphView<N>,
    arcs: Seq<(usize, usize)>,
    parts: Seq<Vec<usize>>,
    c: int,
    k: int,
    l: int,
)
    requires
        g.sound(),
        g.mirrored_by(arcs),
        parts_fit(g.size() as usize, parts),
        parts_are_connected(arcs, parts),
        0 <= c < parts.len(),
        0 <= k < parts[c].len(),
        0 <= l < parts[c].len(),
    ensures
        g.reaches(g.addr(parts[c]@[k] as int), g.addr(parts[c]@[l] as int)),
{
    reveal(parts_are_connected);
    let a = parts[c]@[k];
    let b = parts[c]@[l];
    assert(a < g.size() && b < g.size());
    assert(crate::digraph::reaches(arcs, a, b));
    g.reaches_in_slots(arcs, a, b);
}

/// A block that reaches a block of a part, and is reached from it, is in that
/// part.
proof fn part_is_whole<N: VAGNodeId>(
    g: GraphView<N>,
    arcs: Seq<(usize, usize)>,
    parts: Seq<Vec<usize>>,
    c: int,
    k: int,
    v: Vertex<N>,
) -> (l: int)
    requires
        g.sound(),
        g.mirrored_by(arcs),
        parts_fit(g.size() as usize, parts),
        parts_cover(g.size() as usize, parts),
        parts_are_connected(arcs, parts),
        0 <= c < parts.len(),
        0 <= k < parts[c].len(),
        g.has(v),
        g.reaches(g.addr(parts[c]@[k] as int), v),
        g.reaches(v, g.addr(parts[c]@[k] as int)),
    ensures
        0 <= l < parts[c].len(),
        g.addr(parts[c]@[l] as int) == v,
{
    reveal(parts_are_connected);
    let root = parts[c]@[k];
    assert(root < g.size());
    let s = g.slot(v) as usize;
    assert(g.addr(s as int) == v);
    assert(listed(parts, s));
    let (d, l) = choose|d: int, l: int|
        0 <= d < parts.len() && 0 <= l < parts[d].len() && #[trigger] parts[d]@[l] == s;
    g.reaches_in_slots(arcs, root, s);
    g.reaches_in_slots(arcs, s, root);
    assert(crate::digraph::reaches(arcs, parts[c]@[k], parts[d]@[l]));
    assert(c == d);
    l
}

/// The blocks in the slots of a part are pairwise distinct.
proof fn part_is_distinct<N: VAGNodeId>(g: GraphView<N>, parts: Seq<Vec<usize>>, c: int)
    requires
        g.keyed(),
        g.size() <= usize::MAX,
        parts_fit(g.size() as usize, parts),
        parts_are_apart(parts),
        0 <= c < parts.len(),
    ensures
        addresses(g, parts[c]@).no_duplicates(),
{
    reveal(parts_are_apart);
    let members = addresses(g, parts[c]@);
    assert forall|i: int, j: int| 0 <= i < members.len() && 0 <= j < members.len() && i
        != j implies members[i] != members[j] by {
        assert(parts[c]@[i] != parts[c]@[j]);
        assert(parts[c]@[i] < g.size() && parts[c]@[j] < g.size());
        g.slot_is_unique(parts[c]@[i] as int);
        g.slot_is_unique(parts[c]@[j] as int);
    }
}

/// A part of the list of components of the slots is a component of the
/// graph.
proof fn part_is_component<N: VAGNodeId>(
    g: GraphView<N>,
    arcs: Seq<(usize, usize)>,
    parts: Seq<Vec<usize>>,
    c: int,
    least: int,
)
    requires
        g.sound(),
        g.plain(),
        g.mirrored_by(arcs),
        parts_fit(g.size() as usize, parts),
        parts_cover(g.size() as usize, parts),
        parts_are_apart(parts),
        parts_are_connected(arcs, parts),
        0 <= c < parts.len(),
        0 <= least < parts[c].len(),
        forall|k: int|
            0 <= k < parts[c].len() ==> k == least || g.addr(parts[c]@[least] as int).precedes(
                g.addr(#[trigger] parts[c]@[k] as int),
            ) || g.addr(parts[c]@[k] as int) == g.addr(parts[c]@[least] as int),
    ensures
        (ComponentView {
            whole: g,
            members: addresses(g, parts[c]@),
            compid: g.addr(parts[c]@[least] as int),
        }).wf(),
{
    let members = addresses(g, parts[c]@);
    let compid = g.addr(parts[c]@[least] as int);
    part_is_distinct(g, parts, c);
    assert(members[least] == compid);
    assert forall|v: Vertex<N>| #[trigger] members.contains(v) <==> g.reaches(compid, v)
        && g.reaches(v, compid) by {
        if members.contains(v) {
            let k = choose|k: int| 0 <= k < members.len() && members[k] == v;
            part_is_connected(g, arcs, parts, c, least, k);
            part_is_connected(g, arcs, parts, c, k, least);
        }
        if g.reaches(compid, v) && g.reaches(v, compid) {
            let p = choose|p: Seq<Vertex<N>>| g.is_walk(p) && p.first() == compid && p.last() == v;
            g.walk_stays_inside(p, p.len() - 1);
            let l = part_is_whole(g, arcs, parts, c, least, v);
            assert(members[l] == v);
        }
    }
    assert forall|i: int| 0 <= i < members.len() implies #[trigger] members[i] == compid
        || compid.precedes(members[i]) by {
        assert(g.addr(parts[c]@[i] as int) == members[i]);
    }
}

/// Every block is in one of the parts.
proof fn parts_cover_blocks<N: VAGNodeId>(
    g: GraphView<N>,
    parts: Seq<Vec<usize>>,
    comps: Seq<ComponentView<N>>,
)
    requires
        g.size() <= usize::MAX,
        parts_fit(g.size() as usize, parts),
        parts_cover(g.size() as usize, parts),
        comps.len() == parts.len(),
        forall|d: int| 0 <= d < comps.len() ==> (#[trigger] comps[d]).members == addresses(g, parts[d]@),
    ensures
        forall|v: Vertex<N>| g.has(v) ==> #[trigger] covered(comps, v),
{
    assert forall|v: Vertex<N>| g.has(v) implies #[trigger] covered(comps, v) by {
        let s = g.slot(v) as usize;
        assert(g.addr(s as int) == v);
        assert(listed(parts, s));
        let (d, l) = choose|d: int, l: int|
            0 <= d < parts.len() && 0 <= l < parts[d].len() && #[trigger] parts[d]@[l] == s;
        assert(comps[d].members[l] == v);
        assert(comps[d].members.contains(v));
    }
}

/// The slot through which a part holds a block.
proof fn member_slot<N: VAGNodeId>(
    g: GraphView<N>,
    parts: Seq<Vec<usize>>,
    comps: Seq<ComponentView<N>>,
    c: int,
    v: Vertex<N>,
) -> (k: int)
    requires
        g.keyed(),
        g.size() <= usize::MAX,
        parts_fit(g.size() as usize, parts),
        comps.len() == parts.len(),
        0 <= c < comps.len(),
        comps[c].members == addresses(g, parts[c]@),
        comps[c].members.contains(v),
    ensures
        0 <= k < parts[c].len(),
        parts[c]@[k] < g.size(),
        g.addr(parts[c]@[k] as int) == v,
        g.slot(v) == parts[c]@[k],
{
    let k = choose|k: int| 0 <= k < comps[c].members.len() && comps[c].members[k] == v;
    assert(parts[c]@[k] < g.size());
    g.slot_is_unique(parts[c]@[k] as int);
    k
}

/// No block is in two parts, and an edge between two parts enters the
/// earlier one.
proof fn parts_split_blocks<N: VAGNodeId>(
    g: GraphView<N>,
    arcs: Seq<(usize, usize)>,
    parts: Seq<Vec<usize>>,
    comps: Seq<ComponentView<N>>,
)
    requires
        g.keyed(),
        g.mirrored_by(arcs),
        parts_fit(g.size() as usize, parts),
        parts_are_apart(parts),
        parts_are_ordered(arcs, parts),
        comps.len() == parts.len(),
        forall|d: int| 0 <= d < comps.len() ==> (#[trigger] comps[d]).members == addresses(g, parts[d]@),
    ensures
        forall|c: int, d: int, v: Vertex<N>|
            0 <= c < comps.len() && 0 <= d < comps.len() && c != d ==> !(
            #[trigger] comps[c].members.contains(v) && #[trigger] comps[d].members.contains(v)),
        forall|c: int, d: int, u: Vertex<N>, v: Vertex<N>|
            0 <= c < comps.len() && 0 <= d < comps.len() && c != d
                && #[trigger] comps[c].members.contains(u) && #[trigger] comps[d].members.contains(
                v,
            ) && g.edge(u, v) ==> d < c,
{
    reveal(parts_are_apart);
    reveal(parts_are_ordered);
    assert forall|c: int, d: int, v: Vertex<N>|
        0 <= c < comps.len() && 0 <= d < comps.len() && c != d implies !(
    #[trigger] comps[c].members.contains(v) && #[trigger] comps[d].members.contains(v)) by {
        if comps[c].members.contains(v) && comps[d].members.contains(v) {
            let k = member_slot(g, parts, comps, c, v);
            let l = member_slot(g, parts, comps, d, v);
            assert(parts[c]@[k] == parts[d]@[l]);
        }
    }
    assert forall|c: int, d: int, u: Vertex<N>, v: Vertex<N>|
        0 <= c < comps.len() && 0 <= d < comps.len() && c != d
            && #[trigger] comps[c].members.contains(u) && #[trigger] comps[d].members.contains(v)
            && g.edge(u, v) implies d < c by {
        let k = member_slot(g, parts, comps, c, u);
        let l = member_slot(g, parts, comps, d, v);
        assert(arcs.contains((parts[c]@[k], parts[d]@[l])));
    }
}

impl<'a, N: VAGNodeId> Component<'a, N> {
    /// Every component that the library hands out is well formed.
    pub open spec fn wf(&self) -> bool {
        self@.wf()
    }

    /// The strongly connected components of the graph, in reverse
    /// topological order: a component that an edge leaves comes after the
    /// one that the edge enters.
    pub fn from_vag(vag: &'a VirtualAddressGraph<N>) -> (components: Vec<Self>)
        requires
            vag@.sound(),
            vag@.plain(),
        ensures
            is_decomposition(vag@, component_views(components@)),
    {
        let ghost g = vag@;
        let arcs = vag.arcs();
        let scc = tarjan_components(vag.size(), &arcs);
        let mut components: Vec<Self> = Vec::new();
        let mut c: usize = 0;
        while c < scc.len()
            invariant
                c <= scc.len(),
                g == vag@,
                g.sound(),
                g.plain(),
                g.mirrored_by(arcs@),
                is_component_list(g.size() as usize, arcs@, scc@),
                components.len() == c,
                forall|d: int|
                    0 <= d < c ==> (#[trigger] components@[d])@.wf() && components@[d]@.whole == g
                        && components@[d]@.members == addresses(g, scc@[d]@),
            decreases scc.len() - c,
        {
            proof {
                assert(scc@[c as int].len() > 0);
                assert forall|l: int| 0 <= l < scc@[c as int].len() implies (
                #[trigger] scc@[c as int]@[l]) < g.size() by {}
            }
            let (strongly, compid, least) = Self::gather(vag, &scc[c]);
            proof {
                part_is_component(g, arcs@, scc@, c as int, least@);
            }
            components.push(Self { graph: vag, component: strongly, compid });
            c += 1;
        }
        proof {
            let comps = component_views(components@);
            assert forall|d: int| 0 <= d < comps.len() implies (#[trigger] comps[d]).wf()
                && comps[d].whole == g && comps[d].members == addresses(g, scc@[d]@) by {
                assert(comps[d] == components@[d]@);
            }
            parts_cover_blocks(g, scc@, comps);
            parts_split_blocks(g, arcs@, scc@, comps);
        }
        components
    }

    /// The blocks in the given slots, and the smallest of their addresses.
    fn gather(vag: &'a VirtualAddressGraph<N>, part: &Vec<usize>) -> (r: (
        Vec<Vertex<N>>,
        Vertex<N>,
        Ghost<int>,
    ))
        requires
            vag@.wf(),
            part.len() > 0,
            forall|l: int| 0 <= l < part.len() ==> (#[trigger] part@[l]) < vag@.size(),
        ensures
            r.0@ == addresses(vag@, part@),
            0 <= r.2@ < part.len(),
            r.1 == vag@.addr(part@[r.2@] as int),
            forall|l: int|
                0 <= l < part.len() ==> l == r.2@ || r.1.precedes(
                    vag@.addr(#[trigger] part@[l] as int),
                ) || vag@.addr(part@[l] as int) == r.1,
    {
        let ghost g = vag@;
        let blocks = vag.nodes();
        let mut strongly: Vec<Vertex<N>> = Vec::new();
        let mut least: usize = 0;
        let mut k: usize = 0;
        while k < part.len()
            invariant
                k <= part.len(),
                part.len() > 0,
                g.wf(),
                crate::vag::views(blocks@) == g.blocks,
                forall|l: int| 0 <= l < part.len() ==> (#[trigger] part@[l]) < g.size(),
                strongly@ == addresses(g, part@.take(k as int)),
                least < part.len(),
                least <= k,
                forall|l: int|
                    0 <= l < k ==> l == least || g.addr(part@[least as int] as int).precedes(
                        g.addr(#[trigger] part@[l] as int),
                    ) || g.addr(part@[l] as int) == g.addr(part@[least as int] as int),
            decreases part.len() - k,
        {
            let node = blocks[part[k]].address();
            let smallest = blocks[part[least]].address();
            proof {
                assert(blocks@[part@[k as int] as int]@ == g.blocks[part@[k as int] as int]);
                assert(blocks@[part@[least as int] as int]@ == g.blocks[part@[least as int] as int]);
                Vertex::precedes_is_total(node, smallest);
                if node.precedes(smallest) {
                    assert forall|l: int| 0 <= l < k + 1 implies l == k || node.precedes(
                        g.addr(#[trigger] part@[l] as int),
                    ) || g.addr(part@[l] as int) == node by {
                        if l != k && l != least && g.addr(part@[l] as int) != smallest {
                            Vertex::precedes_is_transitive(node, smallest, g.addr(part@[l] as int));
                        }
                    }
                }
                assert(addresses(g, part@.take(k + 1)) =~= addresses(g, part@.take(k as int)).push(
                    node,
                ));
            }
            if node.before(&smallest) {
                least = k;
            }
            strongly.push(node);
            k += 1;
        }
        let compid = blocks[part[least]].address();
        proof {
            assert(blocks@[part@[least as int] as int]@ == g.blocks[part@[least as int] as int]);
            assert(part@.take(part.len() as int) =~= part@);
        }
        (strongly, compid, Ghost(least as int))
    }

    /// The smallest member, which names the component.
    pub fn compid(&self) -> (r: Vertex<N>)
        ensures
            r == self@.compid,
    {
        self.compid
    }

    /// The members of the component.
    pub fn nodes(&self) -> (r: &Vec<Vertex<N>>)
        ensures
            r@ == self@.members,
    {
        &self.component
    }

    /// The graph of which this is a component.
    pub fn whole(&self) -> (r: &'a VirtualAddressGraph<N>)
        ensures
            r@ == self@.whole,
    {
        self.graph
    }

    /// Whether `node` is a member.
    pub fn contains(&self, node: Vertex<N>) -> (r: bool)
        ensures
            r == self@.members.contains(node),
    {
        contains(&self.component, node)
    }

    /// The edges that enter the component from outside.
    pub fn incoming_edges(&self) -> (incoming: Vec<(Vertex<N>, Vertex<N>)>)
        requires
            self.wf(),
        ensures
            self@.incoming(incoming@),
    {
        broadcast use vstd::seq_lib::lemma_seq_contains_after_push;

        let ghost w = self@.whole;
        let blocks = self.graph.nodes();
        let mut incoming: Vec<(Vertex<N>, Vertex<N>)> = Vec::new();
        let mut i: usize = 0;
        while i < blocks.len()
            invariant
                i <= blocks.len(),
                w == self@.whole,
                w.wf(),
                crate::vag::views(blocks@) == w.blocks,
                forall|u: Vertex<N>, t: Vertex<N>| #[trigger]
                    incoming@.contains((u, t)) ==> w.edge(u, t) && !self@.members.contains(u)
                        && self@.members.contains(t),
                forall|j: int, k: int|
                    0 <= j < i && 0 <= k < w.blocks[j].targets.len() && !self@.members.contains(
                        w.addr(j),
                    ) && self@.members.contains(#[trigger] w.blocks[j].targets[k])
                        ==> incoming@.contains((w.addr(j), w.blocks[j].targets[k])),
            decreases blocks.len() - i,
        {
            let source = blocks[i].address();
            proof {
                assert(blocks@[i as int]@ == w.blocks[i as int]);
                w.slot_is_unique(i as int);
            }
            if !self.contains(source) {
                let targets = blocks[i].targets();
                let mut k: usize = 0;
                while k < targets.len()
                    invariant
                        k <= targets.len(),
                        i < blocks.len(),
                        w == self@.whole,
                        w.wf(),
                        crate::vag::views(blocks@) == w.blocks,
                        targets@ == w.blocks[i as int].targets,
                        source == w.addr(i as int),
                        w.at(source) == w.blocks[i as int],
                        w.has(source),
                        !self@.members.contains(source),
                        forall|u: Vertex<N>, t: Vertex<N>| #[trigger]
                            incoming@.contains((u, t)) ==> w.edge(u, t) && !self@.members.contains(
                                u,
                            ) && self@.members.contains(t),
                        forall|j: int, l: int|
                            0 <= j < i && 0 <= l < w.blocks[j].targets.len()
                                && !self@.members.contains(w.addr(j)) && self@.members.contains(
                                #[trigger] w.blocks[j].targets[l],
                            ) ==> incoming@.contains((w.addr(j), w.blocks[j].targets[l])),
                        forall|l: int|
                            0 <= l < k && self@.members.contains(
                                #[trigger] w.blocks[i as int].targets[l],
                            ) ==> incoming@.contains((source, w.blocks[i as int].targets[l])),
                    decreases targets.len() - k,
                {
                    let target = targets[k];
                    if self.contains(target) {
                        let ghost before = incoming@;
                        incoming.push((source, target));
                        proof {
                            broadcast use vstd::seq_lib::lemma_seq_contains_after_push;

                            assert(w.blocks[i as int].targets.contains(target));
                            assert(incoming@ == before.push((source, target)));
                        }
                    }
                    k += 1;
                }
            }
            i += 1;
        }
        proof {
            assert forall|u: Vertex<N>, t: Vertex<N>| #[trigger]
                incoming@.contains((u, t)) <==> w.edge(u, t) && !self@.members.contains(u)
                    && self@.members.contains(t) by {
                if w.edge(u, t) && !self@.members.contains(u) && self@.members.contains(t) {
                    let j = w.slot(u);
                    assert(w.addr(j) == u);
                    let k = choose|k: int|
                        0 <= k < w.blocks[j].targets.len() && w.blocks[j].targets[k] == t;
                    assert(incoming@.contains((w.addr(j), w.blocks[j].targets[k])));
                }
            }
        }
        incoming
    }

    /// The edges that leave the component.
    pub fn outgoing_edges(&self) -> (outgoing: Vec<(Vertex<N>, Vertex<N>)>)
        requires
            self.wf(),
        ensures
            self@.outgoing(outgoing@),
    {
        broadcast use vstd::seq_lib::lemma_seq_contains_after_push;

        let ghost w = self@.whole;
        let ghost members = self@.members;
        let mut outgoing: Vec<(Vertex<N>, Vertex<N>)> = Vec::new();
        let mut i: usize = 0;
        while i < self.component.len()
            invariant
                i <= self.component.len(),
                self.wf(),
                w == self@.whole,
                members == self@.members,
                members == self.component@,
                forall|u: Vertex<N>, x: Vertex<N>| #[trigger]
                    outgoing@.contains((u, x)) ==> w.edge(u, x) && members.contains(u)
                        && !members.contains(x),
                forall|j: int, k: int|
                    0 <= j < i && 0 <= k < w.at(members[j]).targets.len() && !members.contains(
                        #[trigger] w.at(members[j]).targets[k],
                    ) ==> outgoing@.contains((members[j], w.at(members[j]).targets[k])),
            decreases self.component.len() - i,
        {
            let node = self.component[i];
            proof {
                assert(members.contains(members[i as int]));
                self@.members_are_blocks(node);
            }
            let targets = self.targets(node);
            let mut k: usize = 0;
            while k < targets.len()
                invariant
                    k <= targets.len(),
                    i < self.component.len(),
                    self.wf(),
                    w == self@.whole,
                    members == self@.members,
                    members == self.component@,
                    node == members[i as int],
                    members.contains(node),
                    w.has(node),
                    targets@ == w.at(node).targets,
                    forall|u: Vertex<N>, x: Vertex<N>| #[trigger]
                        outgoing@.contains((u, x)) ==> w.edge(u, x) && members.contains(u)
                            && !members.contains(x),
                    forall|j: int, l: int|
                        0 <= j < i && 0 <= l < w.at(members[j]).targets.len() && !members.contains(
                            #[trigger] w.at(members[j]).targets[l],
                        ) ==> outgoing@.contains((members[j], w.at(members[j]).targets[l])),
                    forall|l: int|
                        0 <= l < k && !members.contains(#[trigger] w.at(node).targets[l])
                            ==> outgoing@.contains((node, w.at(node).targets[l])),
                decreases targets.len() - k,
            {
                let target = targets[k];
                if !self.contains(target) {
                    let ghost before = outgoing@;
                    outgoing.push((node, target));
                    proof {
                        broadcast use vstd::seq_lib::lemma_seq_contains_after_push;

                        assert(w.at(node).targets.contains(target));
                        assert(outgoing@ == before.push((node, target)));
                    }
                }
                k += 1;
            }
            i += 1;
        }
        proof {
            assert forall|u: Vertex<N>, x: Vertex<N>| #[trigger]
                outgoing@.contains((u, x)) <==> w.edge(u, x) && members.contains(u)
                    && !members.contains(x) by {
                if w.edge(u, x) && members.contains(u) && !members.contains(x) {
                    let j = choose|j: int| 0 <= j < members.len() && members[j] == u;
                    let k = choose|k: int|
                        0 <= k < w.at(u).targets.len() && w.at(u).targets[k] == x;
                    assert(outgoing@.contains((members[j], w.at(members[j]).targets[k])));
                }
            }
        }
        outgoing
    }

    /// The successors of a member.
    fn targets(&self, node: Vertex<N>) -> (r: &Vec<Vertex<N>>)
        requires
            self.wf(),
            self@.whole.has(node),
        ensures
            r@ == self@.whole.at(node).targets,
    {
        self.graph.node_at_target(node).targets()
    }

    /// The component as a graph of its own, without cycles: the blocks of
    /// the members, the phantom source in place of everything from which an
    /// edge enters the component, the phantom sink in place of everything to
    /// which an edge leaves it, and no edge that closes a cycle in the
    /// depth-first traversal from the naming member.
    pub fn to_acyclic_vag(&self) -> (vag: VirtualAddressGraph<N>)
        requires
            self.wf(),
            self@.members.len() + 2 <= usize::MAX,
        ensures
            vag.wf(),
            self@.framed_by(vag@),
            !vag@.cyclic(),
    {
        let ghost c = self@;
        let mut nodes: Vec<NoInstrBasicBlock<N>> = Vec::new();
        let mut i: usize = 0;
        proof {
            c.cut_properties();
        }
        while i < self.component.len()
            invariant
                i <= self.component.len(),
                self.wf(),
                c == self@,
                c.members == self.component@,
                c.cut().wf(),
                nodes.len() == i,
                forall|k: int| 0 <= k < i ==> (#[trigger] nodes@[k])@ == c.cut().blocks[k],
            decreases self.component.len() - i,
        {
            let node = self.component[i];
            proof {
                assert(c.members.contains(c.members[i as int]));
                c.members_are_blocks(node);
            }
            nodes.push(self.graph.node_at_target(node).duplicate());
            i += 1;
        }
        proof {
            assert(crate::vag::views(nodes@) =~= c.cut().blocks);
            assert forall|k: int| 0 <= k < nodes.len() implies (#[trigger] nodes@[k]).wf() by {
                assert(c.cut().blocks[k].wf());
            }
            assert forall|k: int, l: int| 0 <= k < l < nodes.len() implies (
            #[trigger] c.cut().blocks[k]).address != (#[trigger] c.cut().blocks[l]).address by {
                assert(c.cut().addr(k) != c.cut().addr(l));
            }
            GraphView::filled_of_keyed(c.compid, c.cut().blocks, nodes.len() as int);
            assert(c.cut().blocks.take(nodes.len() as int) =~= c.cut().blocks);
        }
        let mut vag = VirtualAddressGraph::new(self.compid, nodes);
        let ins = self.incoming_edges();
        let outs = self.outgoing_edges();
        proof {
            assert(outs@.len() == outs.len());
            c.closed_off_properties(ins@, outs@);
        }
        vag.add_source_vertex(&ins);
        vag.add_sink_vertex(&outs);
        vag.update_sources_and_indegrees();
        let backs = vag.backedges();
        proof {
            c.cut_cycles(vag@, backs@);
        }
        vag.erase_edges(&backs);
        vag
    }

    /// Whether the component is a single block.
    pub fn trivial(&self) -> (r: bool)
        ensures
            r == (self@.members.len() == 1),
    {
        self.component.len() == 1
    }
}

} // verus!
