//! Putting the orders of the components into the order of the condensation.

use vstd::prelude::*;
use crate::vertex::{VAGNodeId, Vertex};

verus! {

/// The first `n` runs, one after the other.
pub open spec fn joined_up<N: VAGNodeId>(parts: Seq<Seq<Vertex<N>>>, n: int) -> Seq<Vertex<N>>
    decreases n,
{
    if n <= 0 {
        Seq::empty()
    } else {
        joined_up(parts, n - 1) + parts[n - 1]
    }
}

/// The order recorded under `id`, or `id` alone where none is recorded.
pub open spec fn expanded<N: VAGNodeId>(
    inner: Seq<(Vertex<N>, Seq<Vertex<N>>)>,
    id: Vertex<N>,
) -> Seq<Vertex<N>> {
    if exists|k: int| 0 <= k < inner.len() && (#[trigger] inner[k]).0 == id {
        let k = choose|k: int| 0 <= k < inner.len() && (#[trigger] inner[k]).0 == id;
        inner[k].1
    } else {
        seq![id]
    }
}

/// For each vertex of `order`, what it is expanded to.
pub open spec fn expansions<N: VAGNodeId>(
    order: Seq<Vertex<N>>,
    inner: Seq<(Vertex<N>, Seq<Vertex<N>>)>,
) -> Seq<Seq<Vertex<N>>> {
    Seq::new(order.len(), |i: int| expanded(inner, order[i]))
}

/// The order `order` with each vertex replaced by the order recorded under
/// it, where one is.
pub open spec fn spliced<N: VAGNodeId>(
    order: Seq<Vertex<N>>,
    inner: Seq<(Vertex<N>, Seq<Vertex<N>>)>,
) -> Seq<Vertex<N>> {
    joined_up(expansions(order, inner), order.len() as int)
}

/// The views of the recorded orders.
pub open spec fn recorded<N: VAGNodeId>(inner: Seq<(Vertex<N>, Vec<Vertex<N>>)>) -> Seq<
    (Vertex<N>, Seq<Vertex<N>>),
> {
    Seq::new(inner.len(), |k: int| (inner[k].0, inner[k].1@))
}

/// The real ids as vertices.
pub open spec fn wrapped<N: VAGNodeId>(ids: Seq<N>) -> Seq<Vertex<N>> {
    Seq::new(ids.len(), |i: int| Vertex::Id(ids[i]))
}

/// What is in the joined runs is in one of them.
pub proof fn joined_up_members<N: VAGNodeId>(parts: Seq<Seq<Vertex<N>>>, n: int)
    requires
        0 <= n <= parts.len(),
    ensures
        forall|x: Vertex<N>|
            joined_up(parts, n).contains(x) <==> exists|i: int|
                0 <= i < n && (#[trigger] parts[i]).contains(x),
    decreases n,
{
    if n > 0 {
        joined_up_members(parts, n - 1);
        let front = joined_up(parts, n - 1);
        let last = parts[n - 1];
        assert forall|x: Vertex<N>|
            (front + last).contains(x) <==> exists|i: int|
                0 <= i < n && (#[trigger] parts[i]).contains(x) by {
            if (front + last).contains(x) {
                let p = choose|p: int| 0 <= p < (front + last).len() && (front + last)[p] == x;
                if p < front.len() {
                    assert(front[p] == x);
                    assert(front.contains(x));
                    let i = choose|i: int| 0 <= i < n - 1 && (#[trigger] parts[i]).contains(x);
                    assert(0 <= i < n && parts[i].contains(x));
                } else {
                    assert(last[p - front.len()] == x);
                    assert(parts[n - 1].contains(x));
                }
            }
            if exists|i: int| 0 <= i < n && (#[trigger] parts[i]).contains(x) {
                let i = choose|i: int| 0 <= i < n && (#[trigger] parts[i]).contains(x);
                if i < n - 1 {
                    assert(front.contains(x));
                    let p = choose|p: int| 0 <= p < front.len() && front[p] == x;
                    assert((front + last)[p] == x);
                } else {
                    let k = choose|k: int| 0 <= k < last.len() && last[k] == x;
                    assert((front + last)[front.len() + k] == x);
                }
            }
        }
    }
}

/// Whether no run names a vertex twice and no two runs share a vertex.
pub open spec fn apart<N: VAGNodeId>(parts: Seq<Seq<Vertex<N>>>) -> bool {
    &&& forall|i: int| 0 <= i < parts.len() ==> (#[trigger] parts[i]).no_duplicates()
    &&& forall|i: int, j: int, x: Vertex<N>|
        0 <= i < parts.len() && 0 <= j < parts.len() && i != j ==> !(#[trigger] parts[i].contains(x)
            && #[trigger] parts[j].contains(x))
}

/// Runs that are apart join up without repetition, and what is in an
/// earlier run comes before what is in a later one.
pub proof fn joined_up_in_turn<N: VAGNodeId>(parts: Seq<Seq<Vertex<N>>>, n: int)
    requires
        0 <= n <= parts.len(),
        apart(parts),
    ensures
        joined_up(parts, n).no_duplicates(),
        forall|i: int, j: int, p: int, q: int|
            0 <= i < j < n && 0 <= p < joined_up(parts, n).len() && 0 <= q < joined_up(
                parts,
                n,
            ).len() && (#[trigger] parts[i]).contains(#[trigger] joined_up(parts, n)[p]) && (
            #[trigger] parts[j]).contains(#[trigger] joined_up(parts, n)[q]) ==> p < q,
    decreases n,
{
    if n > 0 {
        joined_up_in_turn(parts, n - 1);
        joined_up_members(parts, n - 1);
        let front = joined_up(parts, n - 1);
        let last = parts[n - 1];
        let all = front + last;
        assert(last.no_duplicates());
        assert forall|p: int, q: int| 0 <= p < all.len() && 0 <= q < all.len() && p != q implies all[p]
            != all[q] by {
            if p < front.len() && q >= front.len() {
                assert(front.contains(front[p]));
                let i = choose|i: int| 0 <= i < n - 1 && (#[trigger] parts[i]).contains(front[p]);
                assert(last.contains(last[q - front.len()]));
                assert(!(parts[i].contains(all[p]) && parts[n - 1].contains(all[p])));
            } else if q < front.len() && p >= front.len() {
                assert(front.contains(front[q]));
                let i = choose|i: int| 0 <= i < n - 1 && (#[trigger] parts[i]).contains(front[q]);
                assert(last.contains(last[p - front.len()]));
                assert(!(parts[i].contains(all[q]) && parts[n - 1].contains(all[q])));
            } else if p < front.len() {
                assert(front[p] != front[q]);
            } else {
                assert(last[p - front.len()] != last[q - front.len()]);
            }
        }
        assert forall|i: int, j: int, p: int, q: int|
            0 <= i < j < n && 0 <= p < all.len() && 0 <= q < all.len() && (
            #[trigger] parts[i]).contains(#[trigger] all[p]) && (#[trigger] parts[j]).contains(
                #[trigger] all[q],
            ) implies p < q by {
            if p >= front.len() {
                assert(last.contains(last[p - front.len()]));
                assert(!(parts[i].contains(all[p]) && parts[n - 1].contains(all[p])));
            }
            if q < front.len() {
                assert(front.contains(front[q]));
                if j == n - 1 {
                    let e = choose|e: int| 0 <= e < n - 1 && (#[trigger] parts[e]).contains(front[q]);
                    assert(!(parts[e].contains(all[q]) && parts[j].contains(all[q])));
                } else {
                    assert(front[p] == all[p] && front[q] == all[q]);
                }
            }
        }
    }
}

/// The order `order` with each vertex replaced by the order that `inner`
/// records under it; a vertex under which nothing is recorded stays.
pub fn splice<N: VAGNodeId>(
    order: &Vec<Vertex<N>>,
    inner: &Vec<(Vertex<N>, Vec<Vertex<N>>)>,
) -> (r: Vec<Vertex<N>>)
    requires
        forall|k: int, l: int|
            0 <= k < l < inner.len() ==> (#[trigger] inner@[k]).0 != (#[trigger] inner@[l]).0,
    ensures
        r@ == spliced(order@, recorded(inner@)),
{
    let ghost rec = recorded(inner@);
    let ghost parts = expansions(order@, rec);
    let mut r: Vec<Vertex<N>> = Vec::new();
    let mut i: usize = 0;
    while i < order.len()
        invariant
            i <= order.len(),
            rec == recorded(inner@),
            parts == expansions(order@, rec),
            forall|k: int, l: int|
                0 <= k < l < inner.len() ==> (#[trigger] inner@[k]).0 != (#[trigger] inner@[l]).0,
            r@ == joined_up(parts, i as int),
        decreases order.len() - i,
    {
        let id = order[i];
        let mut at: usize = 0;
        let mut found = false;
        while at < inner.len() && !found
            invariant
                at <= inner.len(),
                rec == recorded(inner@),
                forall|k: int| 0 <= k < at - (if found { 1int } else { 0int }) ==> (#[trigger] rec[k]).0 != id,
                found ==> at > 0 && inner@[at - 1].0 == id,
            decreases inner.len() - at + (if found { 0int } else { 1int }),
        {
            if inner[at].0.same(&id) {
                found = true;
            }
            at += 1;
        }
        let ghost before = r@;
        if found {
            let component = &inner[at - 1].1;
            proof {
                let k0 = at - 1;
                assert(rec[k0].0 == id);
                let k = choose|k: int| 0 <= k < rec.len() && (#[trigger] rec[k]).0 == id;
                if k != k0 {
                    if k < k0 {
                        assert(inner@[k].0 != inner@[k0].0);
                    } else {
                        assert(inner@[k0].0 != inner@[k].0);
                    }
                }
                assert(expanded(rec, id) == component@);
            }
            let mut j: usize = 0;
            while j < component.len()
                invariant
                    j <= component.len(),
                    r@ == before + component@.take(j as int),
                decreases component.len() - j,
            {
                r.push(component[j]);
                proof {
                    assert(component@.take(j + 1) =~= component@.take(j as int).push(component@[j as int]));
                    assert(r@ =~= before + component@.take(j + 1));
                }
                j += 1;
            }
            proof {
                assert(component@.take(component.len() as int) =~= component@);
            }
        } else {
            proof {
                assert(expanded(rec, id) == seq![id]);
            }
            r.push(id);
            proof {
                assert(r@ =~= before + seq![id]);
            }
        }
        proof {
            assert(parts[i as int] == expanded(rec, id));
            assert(joined_up(parts, i + 1) == joined_up(parts, i as int) + parts[i as int]);
        }
        i += 1;
    }
    r
}

/// The real ids of the vertices.
pub fn real_ids<N: VAGNodeId>(vertices: &Vec<Vertex<N>>) -> (r: Vec<N>)
    requires
        forall|i: int| 0 <= i < vertices.len() ==> (#[trigger] vertices@[i]) is Id,
    ensures
        wrapped(r@) == vertices@,
{
    let mut r: Vec<N> = Vec::new();
    let mut i: usize = 0;
    while i < vertices.len()
        invariant
            i <= vertices.len(),
            forall|k: int| 0 <= k < vertices.len() ==> (#[trigger] vertices@[k]) is Id,
            r.len() == i,
            forall|k: int| 0 <= k < i ==> Vertex::Id(#[trigger] r@[k]) == vertices@[k],
        decreases vertices.len() - i,
    {
        let ghost before = r@;
        if let Ok(node) = vertices[i].id() {
            r.push(node);
            proof {
                assert(vertices@[i as int] == Vertex::Id(node));
                assert forall|k: int| 0 <= k < i + 1 implies Vertex::Id(#[trigger] r@[k])
                    == vertices@[k] by {
                    if k < i {
                        assert(r@[k] == before[k]);
                    }
                }
            }
        } else {
            proof {
                assert(vertices@[i as int] is Id);
                assert(false);
            }
        }
        i += 1;
    }
    proof {
        assert(wrapped(r@) =~= vertices@);
    }
    r
}

} // verus!
