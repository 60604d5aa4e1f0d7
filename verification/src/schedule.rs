//! What the weighted topological order of a block graph is.

use vstd::prelude::*;
use crate::block::{outranks_is_total, BlockView};
use crate::graph::GraphView;
use crate::vertex::{VAGNodeId, Vertex};

verus! {

/// How many vertices of `s` occur among the placed ones.
pub open spec fn placed_count<N: VAGNodeId>(s: Seq<Vertex<N>>, placed: Seq<Vertex<N>>) -> nat
    decreases s.len(),
{
    if s.len() == 0 {
        0
    } else {
        placed_count(s.drop_last(), placed) + if placed.contains(s.last()) {
            1nat
        } else {
            0nat
        }
    }
}

/// The count reaches the length exactly when every vertex is placed.
pub proof fn placed_count_bounds<N: VAGNodeId>(s: Seq<Vertex<N>>, placed: Seq<Vertex<N>>)
    ensures
        placed_count(s, placed) <= s.len(),
        placed_count(s, placed) == s.len() <==> forall|k: int|
            0 <= k < s.len() ==> placed.contains(#[trigger] s[k]),
    decreases s.len(),
{
    if s.len() > 0 {
        let front = s.drop_last();
        placed_count_bounds(front, placed);
        if placed_count(s, placed) == s.len() {
            assert forall|k: int| 0 <= k < s.len() implies placed.contains(#[trigger] s[k]) by {
                if k < s.len() - 1 {
                    assert(front[k] == s[k]);
                }
            }
        }
        if forall|k: int| 0 <= k < s.len() ==> placed.contains(#[trigger] s[k]) {
            assert forall|k: int| 0 <= k < front.len() implies placed.contains(
                #[trigger] front[k],
            ) by {
                assert(front[k] == s[k]);
            }
            assert(placed.contains(s[s.len() - 1]));
        }
    }
}

/// Placing one more vertex raises the count by one if the vertex is in `s`,
/// and leaves it otherwise.
pub proof fn placed_count_step<N: VAGNodeId>(
    s: Seq<Vertex<N>>,
    placed: Seq<Vertex<N>>,
    u: Vertex<N>,
)
    requires
        s.no_duplicates(),
        !placed.contains(u),
    ensures
        placed_count(s, placed.push(u)) == placed_count(s, placed) + if s.contains(u) {
            1nat
        } else {
            0nat
        },
    decreases s.len(),
{
    let more = placed.push(u);
    assert(more[placed.len() as int] == u);
    if s.len() > 0 {
        let front = s.drop_last();
        placed_count_step(front, placed, u);
        let x = s.last();
        assert(more.contains(x) <==> placed.contains(x) || x == u) by {
            if placed.contains(x) {
                let i = choose|i: int| 0 <= i < placed.len() && placed[i] == x;
                assert(more[i] == x);
            }
        }
        if x == u {
            if front.contains(u) {
                let i = choose|i: int| 0 <= i < front.len() && front[i] == u;
                assert(s[i] == s[s.len() - 1]);
            }
            assert(s[s.len() - 1] == u);
        } else {
            if s.contains(u) {
                let i = choose|i: int| 0 <= i < s.len() && s[i] == u;
                assert(front[i] == u);
            }
            if front.contains(u) {
                let i = choose|i: int| 0 <= i < front.len() && front[i] == u;
                assert(s[i] == u);
            }
        }
    }
}

/// The priority is transitive.
pub proof fn outranks_is_transitive<N: VAGNodeId>(a: BlockView<N>, b: BlockView<N>, c: BlockView<N>)
    requires
        a.outranks(b),
        b.outranks(c),
    ensures
        a.outranks(c),
{
}

impl<N: VAGNodeId> GraphView<N> {
    /// Whether `v` may be placed next: it is a block that is not placed yet,
    /// and every block that names it is placed.
    pub open spec fn ready(self, placed: Seq<Vertex<N>>, v: Vertex<N>) -> bool {
        &&& self.has(v)
        &&& !placed.contains(v)
        &&& forall|u: Vertex<N>| #[trigger] self.edge(u, v) ==> placed.contains(u)
    }

    /// Whether `order` is the weighted topological order of the graph: each
    /// vertex was ready when it was placed, no other ready vertex outranked
    /// it, and no vertex is ready once the order ends.
    pub open spec fn is_schedule(self, order: Seq<Vertex<N>>) -> bool {
        &&& forall|i: int| 0 <= i < order.len() ==> self.ready(order.take(i), #[trigger] order[i])
        &&& forall|i: int, v: Vertex<N>|
            0 <= i < order.len() && #[trigger] self.ready(order.take(i), v) && v != order[i]
                ==> self.at(order[i]).outranks(self.at(v))
        &&& forall|v: Vertex<N>| !#[trigger] self.ready(order, v)
    }

    /// A graph has one weighted topological order only.
    pub proof fn schedule_is_unique(self, a: Seq<Vertex<N>>, b: Seq<Vertex<N>>)
        requires
            self.wf(),
            self.is_schedule(a),
            self.is_schedule(b),
        ensures
            a == b,
    {
        self.schedules_agree(a, b, if a.len() <= b.len() { a.len() as int } else { b.len() as int });
        let m = if a.len() <= b.len() { a.len() as int } else { b.len() as int };
        assert(a.take(m) == b.take(m));
        if a.len() < b.len() {
            assert(a.take(m) =~= a);
            assert(self.ready(b.take(m), b[m]));
        } else if b.len() < a.len() {
            assert(b.take(m) =~= b);
            assert(self.ready(a.take(m), a[m]));
        } else {
            assert(a.take(m) =~= a);
            assert(b.take(m) =~= b);
        }
    }

    /// Two weighted topological orders of a graph agree on every prefix.
    proof fn schedules_agree(self, a: Seq<Vertex<N>>, b: Seq<Vertex<N>>, m: int)
        requires
            self.wf(),
            self.is_schedule(a),
            self.is_schedule(b),
            0 <= m <= a.len(),
            m <= b.len(),
        ensures
            a.take(m) == b.take(m),
        decreases m,
    {
        if m == 0 {
            assert(a.take(0) =~= b.take(0));
        } else {
            self.schedules_agree(a, b, m - 1);
            let i = m - 1;
            assert(self.ready(a.take(i), a[i]));
            assert(self.ready(b.take(i), b[i]));
            if a[i] != b[i] {
                assert(self.ready(a.take(i), b[i]));
                assert(self.ready(b.take(i), a[i]));
                assert(self.at(a[i]).outranks(self.at(b[i])));
                assert(self.at(b[i]).outranks(self.at(a[i])));
                outranks_is_total(self.at(a[i]), self.at(b[i]));
            }
            assert(a.take(m) =~= a.take(i).push(a[i]));
            assert(b.take(m) =~= b.take(i).push(b[i]));
        }
    }

    /// In a weighted topological order nothing is placed twice, everything
    /// placed is a block, and every edge into a placed vertex comes from a
    /// vertex placed before it.
    pub proof fn schedule_respects_edges(self, order: Seq<Vertex<N>>)
        requires
            self.is_schedule(order),
        ensures
            order.no_duplicates(),
            forall|i: int| 0 <= i < order.len() ==> self.has(#[trigger] order[i]),
            forall|u: Vertex<N>, j: int|
                0 <= j < order.len() && #[trigger] self.edge(u, order[j]) ==> exists|i: int|
                    0 <= i < j && order[i] == u,
    {
        assert forall|i: int, j: int| 0 <= i < order.len() && 0 <= j < order.len() && i != j implies order[i]
            != order[j] by {
            if i < j {
                assert(self.ready(order.take(j), order[j]));
                assert(order.take(j)[i] == order[i]);
            } else {
                assert(self.ready(order.take(i), order[i]));
                assert(order.take(i)[j] == order[j]);
            }
        }
        assert forall|i: int| 0 <= i < order.len() implies self.has(#[trigger] order[i]) by {
            assert(self.ready(order.take(i), order[i]));
        }
        assert forall|u: Vertex<N>, j: int|
            0 <= j < order.len() && #[trigger] self.edge(u, order[j]) implies exists|i: int|
            0 <= i < j && order[i] == u by {
            assert(self.ready(order.take(j), order[j]));
            assert(order.take(j).contains(u));
            let i = choose|i: int| 0 <= i < order.take(j).len() && order.take(j)[i] == u;
            assert(order[i] == u);
        }
    }

    /// A block that keeps `x` from being ready: it names `x` and is not placed.
    pub open spec fn blocker(self, order: Seq<Vertex<N>>, x: Vertex<N>) -> Vertex<N> {
        choose|u: Vertex<N>| self.edge(u, x) && !order.contains(u)
    }

    /// From `v` backwards along `k` edges, each time to a block that is not
    /// placed.
    pub open spec fn blockers(self, order: Seq<Vertex<N>>, v: Vertex<N>, k: nat) -> Seq<Vertex<N>>
        decreases k,
    {
        if k == 0 {
            seq![v]
        } else {
            let front = self.blockers(order, v, (k - 1) as nat);
            front.push(self.blocker(order, front.last()))
        }
    }

    /// Where a weighted topological order has ended, every block that is not
    /// placed is kept back by another one that is not placed.
    proof fn blockers_are_unplaced(self, order: Seq<Vertex<N>>, v: Vertex<N>, k: nat)
        requires
            self.sound(),
            self.is_schedule(order),
            self.has(v),
            !order.contains(v),
        ensures
            self.blockers(order, v, k).len() == k + 1,
            forall|m: int|
                0 <= m <= k ==> self.has(#[trigger] self.blockers(order, v, k)[m])
                    && !order.contains(self.blockers(order, v, k)[m]),
            forall|m: int|
                0 <= m < k ==> self.edge(
                    self.blockers(order, v, k)[m + 1],
                    #[trigger] self.blockers(order, v, k)[m],
                ),
        decreases k,
    {
        if k > 0 {
            self.blockers_are_unplaced(order, v, (k - 1) as nat);
            let front = self.blockers(order, v, (k - 1) as nat);
            let x = front.last();
            assert(self.has(front[k - 1]) && !order.contains(front[k - 1]));
            assert(!self.ready(order, x));
            let u = self.blocker(order, x);
            assert(self.edge(u, x) && !order.contains(u));
            let all = self.blockers(order, v, k);
            assert(all == front.push(u));
            assert forall|m: int| 0 <= m <= k implies self.has(#[trigger] all[m])
                && !order.contains(all[m]) by {
                if m < k {
                    assert(all[m] == front[m]);
                }
            }
            assert forall|m: int| 0 <= m < k implies self.edge(all[m + 1], #[trigger] all[m]) by {
                if m < k - 1 {
                    assert(all[m] == front[m] && all[m + 1] == front[m + 1]);
                }
            }
        }
    }

    /// Where a weighted topological order leaves a block out, the graph has
    /// a cycle.
    pub proof fn unplaced_block_shows_cycle(self, order: Seq<Vertex<N>>, v: Vertex<N>)
        requires
            self.sound(),
            self.is_schedule(order),
            self.has(v),
            !order.contains(v),
        ensures
            self.cyclic(),
    {
        let n = self.size();
        self.blockers_are_unplaced(order, v, n);
        let w = self.blockers(order, v, n);
        if w.no_duplicates() {
            assert forall|i: int| 0 <= i < w.len() implies self.has(#[trigger] w[i]) by {}
            self.distinct_blocks_bound(w);
        }
        let (i, j) = choose|i: int, j: int|
            0 <= i < w.len() && 0 <= j < w.len() && i != j && w[i] == w[j];
        let (lo, hi) = if i < j {
            (i, j)
        } else {
            (j, i)
        };
        assert(0 <= lo < hi <= n && w[lo] == w[hi]);
        let p = Seq::new((hi - lo) as nat, |m: int| w[hi - m]);
        assert forall|m: int| 0 <= m < p.len() - 1 implies self.edge(#[trigger] p[m], p[m + 1]) by {
            let k = hi - m - 1;
            assert(self.edge(w[k + 1], w[k]));
        }
        assert(self.has(w[hi]));
        assert(self.edge(w[lo + 1], w[lo]));
        assert(p.last() == w[lo + 1]);
        assert(p.first() == w[hi]);
        assert(self.is_cycle(p));
    }

    /// The weighted topological order of a graph without cycles places every
    /// block, each once, and the source of every edge before its target.
    pub proof fn schedule_of_dag_is_topological(self, order: Seq<Vertex<N>>)
        requires
            self.sound(),
            !self.cyclic(),
            self.is_schedule(order),
        ensures
            order.no_duplicates(),
            order.len() == self.size(),
            forall|v: Vertex<N>| self.has(v) <==> order.contains(v),
            forall|i: int, j: int|
                0 <= i < order.len() && 0 <= j < order.len() && #[trigger] self.edge(order[i], order[j])
                    ==> i < j,
    {
        self.schedule_respects_edges(order);
        assert forall|v: Vertex<N>| self.has(v) implies order.contains(v) by {
            if !order.contains(v) {
                self.unplaced_block_shows_cycle(order, v);
            }
        }
        assert forall|v: Vertex<N>| order.contains(v) implies self.has(v) by {
            let i = choose|i: int| 0 <= i < order.len() && order[i] == v;
            assert(self.has(order[i]));
        }
        self.full_order_length(order);
        assert forall|i: int, j: int|
            0 <= i < order.len() && 0 <= j < order.len() && #[trigger] self.edge(
                order[i],
                order[j],
            ) implies i < j by {
            let k = choose|k: int| 0 <= k < j && order[k] == order[i];
            assert(k == i);
        }
    }

    /// A run of distinct blocks that holds every block is as long as the
    /// graph.
    pub proof fn full_order_length(self, order: Seq<Vertex<N>>)
        requires
            self.wf(),
            order.no_duplicates(),
            forall|v: Vertex<N>| self.has(v) <==> order.contains(v),
        ensures
            order.len() == self.size(),
    {
        assert forall|i: int| 0 <= i < order.len() implies self.has(#[trigger] order[i]) by {
            assert(order.contains(order[i]));
        }
        self.distinct_blocks_bound(order);
        let addrs = Seq::new(self.size(), |i: int| self.addr(i));
        assert forall|i: int, j: int| 0 <= i < addrs.len() && 0 <= j < addrs.len() && i
            != j implies addrs[i] != addrs[j] by {
            if i < j {
                assert(self.addr(i) != self.addr(j));
            } else {
                assert(self.addr(j) != self.addr(i));
            }
        }
        assert forall|i: int| 0 <= i < addrs.len() implies order.contains(#[trigger] addrs[i]) by {
            assert(self.has(self.addr(i)));
        }
        no_longer_than_superset(addrs, order);
    }
}

/// A run of distinct vertices is no longer than a run that holds them all.
pub proof fn no_longer_than_superset<N: VAGNodeId>(a: Seq<Vertex<N>>, b: Seq<Vertex<N>>)
    requires
        a.no_duplicates(),
        forall|i: int| 0 <= i < a.len() ==> b.contains(#[trigger] a[i]),
    ensures
        a.len() <= b.len(),
{
    a.unique_seq_to_set();
    b.lemma_cardinality_of_set();
    assert forall|x: Vertex<N>| a.to_set().contains(x) implies b.to_set().contains(x) by {
        let i = choose|i: int| 0 <= i < a.len() && a[i] == x;
        assert(b.contains(a[i]));
    }
    vstd::seq_lib::seq_to_set_is_finite(b);
    vstd::set_lib::lemma_len_subset(a.to_set(), b.to_set());
}

} // verus!
