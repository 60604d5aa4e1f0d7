//! Small sets of vertices, kept as vectors in which nothing occurs twice.

use vstd::prelude::*;
use crate::vertex::{VAGNodeId, Vertex};

verus! {

/// The sequence with every repeated occurrence dropped: each vertex stays
/// where it first occurs.
pub open spec fn distinct<N: VAGNodeId>(s: Seq<Vertex<N>>) -> Seq<Vertex<N>>
    decreases s.len(),
{
    if s.len() == 0 {
        Seq::empty()
    } else {
        let front = distinct(s.drop_last());
        if front.contains(s.last()) {
            front
        } else {
            front.push(s.last())
        }
    }
}

/// The sequence without the vertex `x`, for a sequence that holds it at most
/// once.
pub open spec fn without<N: VAGNodeId>(s: Seq<Vertex<N>>, x: Vertex<N>) -> Seq<Vertex<N>> {
    if s.contains(x) {
        s.remove(s.index_of(x))
    } else {
        s
    }
}

/// The sequence with `x` added at the end unless it is there already.
pub open spec fn with<N: VAGNodeId>(s: Seq<Vertex<N>>, x: Vertex<N>) -> Seq<Vertex<N>> {
    if s.contains(x) {
        s
    } else {
        s.push(x)
    }
}

/// `distinct` keeps exactly the vertices of the sequence, each once.
pub proof fn distinct_keeps_members<N: VAGNodeId>(s: Seq<Vertex<N>>)
    ensures
        distinct(s).no_duplicates(),
        distinct(s).len() <= s.len(),
        forall|x: Vertex<N>| distinct(s).contains(x) <==> s.contains(x),
    decreases s.len(),
{
    if s.len() > 0 {
        let front = s.drop_last();
        distinct_keeps_members(front);
        let d = distinct(front);
        assert forall|x: Vertex<N>| distinct(s).contains(x) <==> s.contains(x) by {
            if s.contains(x) {
                let i = choose|i: int| 0 <= i < s.len() && s[i] == x;
                assert(0 <= i < s.len() && s[i] == x);
                if i < s.len() - 1 {
                    assert(front[i] == x);
                    assert(front.contains(x));
                    assert(d.contains(x));
                }
                if !d.contains(s.last()) {
                    assert(d.push(s.last())[d.len() as int] == s.last());
                    if d.contains(x) {
                        let j = choose|j: int| 0 <= j < d.len() && d[j] == x;
                        assert(d.push(s.last())[j] == x);
                    }
                }
            }
            if distinct(s).contains(x) {
                let j = choose|j: int| 0 <= j < distinct(s).len() && distinct(s)[j] == x;
                if j < d.len() {
                    assert(d[j] == x);
                    assert(front.contains(x));
                    let i = choose|i: int| 0 <= i < front.len() && front[i] == x;
                    assert(s[i] == x);
                } else {
                    assert(s[s.len() - 1] == x);
                }
            }
        }
    }
}

/// A sequence in which nothing repeats is left as it is.
pub proof fn distinct_of_distinct<N: VAGNodeId>(s: Seq<Vertex<N>>)
    requires
        s.no_duplicates(),
    ensures
        distinct(s) == s,
    decreases s.len(),
{
    if s.len() > 0 {
        let front = s.drop_last();
        distinct_of_distinct(front);
        if front.contains(s.last()) {
            let i = choose|i: int| 0 <= i < front.len() && front[i] == s.last();
            assert(s[i] == s[s.len() - 1]);
        }
        assert(front.push(s.last()) =~= s);
    }
}

/// What removing a vertex does to a sequence without repetitions.
pub proof fn without_properties<N: VAGNodeId>(s: Seq<Vertex<N>>, x: Vertex<N>)
    requires
        s.no_duplicates(),
    ensures
        without(s, x).no_duplicates(),
        forall|y: Vertex<N>| without(s, x).contains(y) <==> (s.contains(y) && y != x),
        without(s, x).len() == if s.contains(x) { s.len() - 1 } else { s.len() as int },
{
    if s.contains(x) {
        let k = s.index_of(x);
        let r = s.remove(k);
        assert forall|y: Vertex<N>| r.contains(y) <==> (s.contains(y) && y != x) by {
            if r.contains(y) {
                let j = choose|j: int| 0 <= j < r.len() && r[j] == y;
                if j < k {
                    assert(s[j] == y);
                } else {
                    assert(s[j + 1] == y);
                }
            }
            if s.contains(y) && y != x {
                let i = choose|i: int| 0 <= i < s.len() && s[i] == y;
                if i < k {
                    assert(r[i] == y);
                } else {
                    assert(r[i - 1] == y);
                }
            }
        }
    }
}

/// What adding a vertex does to a sequence without repetitions.
pub proof fn with_properties<N: VAGNodeId>(s: Seq<Vertex<N>>, x: Vertex<N>)
    requires
        s.no_duplicates(),
    ensures
        with(s, x).no_duplicates(),
        forall|y: Vertex<N>| with(s, x).contains(y) <==> (s.contains(y) || y == x),
{
    if !s.contains(x) {
        let r = s.push(x);
        assert(r[s.len() as int] == x);
        assert forall|y: Vertex<N>| r.contains(y) <==> (s.contains(y) || y == x) by {
            if s.contains(y) {
                let i = choose|i: int| 0 <= i < s.len() && s[i] == y;
                assert(r[i] == y);
            }
        }
    }
}

/// Where `x` stands in `v`, if it occurs there.
pub fn position<N: VAGNodeId>(v: &Vec<Vertex<N>>, x: Vertex<N>) -> (r: Option<usize>)
    ensures
        match r {
            Some(i) => i < v.len() && v@[i as int] == x && forall|j: int|
                0 <= j < i ==> v@[j] != x,
            None => !v@.contains(x),
        },
{
    let mut i: usize = 0;
    while i < v.len()
        invariant
            i <= v.len(),
            forall|j: int| 0 <= j < i ==> v@[j] != x,
        decreases v.len() - i,
    {
        if v[i].same(&x) {
            return Some(i);
        }
        i += 1;
    }
    None
}

/// Whether `x` occurs in `v`.
pub fn contains<N: VAGNodeId>(v: &Vec<Vertex<N>>, x: Vertex<N>) -> (r: bool)
    ensures
        r == v@.contains(x),
{
    position(v, x).is_some()
}

/// Adds `x` to the set `v`; says whether it was new.
pub fn insert<N: VAGNodeId>(v: &mut Vec<Vertex<N>>, x: Vertex<N>) -> (r: bool)
    ensures
        r == !old(v)@.contains(x),
        final(v)@ == with(old(v)@, x),
{
    if contains(v, x) {
        false
    } else {
        v.push(x);
        true
    }
}

/// Takes `x` out of the set `v`; says whether it was there.
pub fn remove<N: VAGNodeId>(v: &mut Vec<Vertex<N>>, x: Vertex<N>) -> (r: bool)
    requires
        old(v)@.no_duplicates(),
    ensures
        r == old(v)@.contains(x),
        final(v)@ == without(old(v)@, x),
{
    match position(v, x) {
        Some(i) => {
            v.remove(i);
            true
        },
        None => false,
    }
}

/// A copy of the vector.
pub fn copied<N: VAGNodeId>(v: &Vec<Vertex<N>>) -> (r: Vec<Vertex<N>>)
    ensures
        r@ == v@,
{
    let mut r: Vec<Vertex<N>> = Vec::new();
    let mut i: usize = 0;
    while i < v.len()
        invariant
            i <= v.len(),
            r@ == v@.take(i as int),
        decreases v.len() - i,
    {
        r.push(v[i]);
        proof {
            assert(v@.take(i + 1) =~= v@.take(i as int).push(v@[i as int]));
        }
        i += 1;
    }
    proof {
        assert(v@.take(v.len() as int) =~= v@);
    }
    r
}

/// A copy of the vector with repeated vertices dropped.
pub fn deduplicated<N: VAGNodeId>(v: &Vec<Vertex<N>>) -> (r: Vec<Vertex<N>>)
    ensures
        r@ == distinct(v@),
{
    let mut out: Vec<Vertex<N>> = Vec::new();
    let mut i: usize = 0;
    while i < v.len()
        invariant
            i <= v.len(),
            out@ == distinct(v@.take(i as int)),
        decreases v.len() - i,
    {
        let x = v[i];
        proof {
            assert(v@.take(i + 1).drop_last() =~= v@.take(i as int));
        }
        insert(&mut out, x);
        i += 1;
    }
    proof {
        assert(v@.take(v.len() as int) =~= v@);
    }
    out
}

} // verus!
