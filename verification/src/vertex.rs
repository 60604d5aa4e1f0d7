//! Vertices of a block graph: real block ids and the two phantom endpoints.

use vstd::prelude::*;

verus! {

/// What a block id has to offer: it is copied freely, tested for equality and
/// ordered. The order is that of `rank`, an injective image in the integers.
pub trait VAGNodeId: Copy + Sized {
    /// The integer that stands for this id in the order of ids.
    spec fn rank(self) -> int;

    /// Distinct ids have distinct ranks.
    proof fn rank_is_injective(a: Self, b: Self)
        requires
            a.rank() == b.rank(),
        ensures
            a == b,
    ;

    /// Whether the two ids are the same id.
    fn same(&self, other: &Self) -> (r: bool)
        ensures
            r == (*self == *other),
    ;

    /// Whether this id comes strictly before the other.
    fn before(&self, other: &Self) -> (r: bool)
        ensures
            r == (self.rank() < other.rank()),
    ;
}

impl VAGNodeId for u64 {
    open spec fn rank(self) -> int {
        self as int
    }

    proof fn rank_is_injective(a: Self, b: Self) {
    }

    fn same(&self, other: &Self) -> (r: bool) {
        *self == *other
    }

    fn before(&self, other: &Self) -> (r: bool) {
        *self < *other
    }
}

impl VAGNodeId for u32 {
    open spec fn rank(self) -> int {
        self as int
    }

    proof fn rank_is_injective(a: Self, b: Self) {
    }

    fn same(&self, other: &Self) -> (r: bool) {
        *self == *other
    }

    fn before(&self, other: &Self) -> (r: bool) {
        *self < *other
    }
}

impl VAGNodeId for usize {
    open spec fn rank(self) -> int {
        self as int
    }

    proof fn rank_is_injective(a: Self, b: Self) {
    }

    fn same(&self, other: &Self) -> (r: bool) {
        *self == *other
    }

    fn before(&self, other: &Self) -> (r: bool) {
        *self < *other
    }
}

/// A vertex of a block graph. `Source` and `Sink` are phantom endpoints that
/// only live inside the acyclic copy of a component; `Id` is a real block.
#[derive(Copy, Clone, Debug, PartialEq, Eq, Hash, PartialOrd, Ord)]
pub enum Vertex<N: VAGNodeId> {
    Source,
    Id(N),
    Sink,
}

impl<N: VAGNodeId> Vertex<N> {
    /// Position of the variant: `Source` first, real ids next, `Sink` last.
    pub open spec fn tag(self) -> int {
        match self {
            Vertex::Source => 0,
            Vertex::Id(_) => 1,
            Vertex::Sink => 2,
        }
    }

    /// The strict order of vertices: by variant, and real ids by their rank.
    pub open spec fn precedes(self, other: Self) -> bool {
        self.tag() < other.tag() || (self matches Vertex::Id(a) && other matches Vertex::Id(b)
            && a.rank() < b.rank())
    }

    /// Two distinct vertices are ordered one way or the other, never both.
    pub proof fn precedes_is_total(a: Self, b: Self)
        ensures
            a == b || a.precedes(b) || b.precedes(a),
            !(a.precedes(b) && b.precedes(a)),
            !a.precedes(a),
    {
        if let Vertex::Id(x) = a {
            if let Vertex::Id(y) = b {
                if x.rank() == y.rank() {
                    N::rank_is_injective(x, y);
                }
            }
        }
    }

    /// The order of vertices is transitive.
    pub proof fn precedes_is_transitive(a: Self, b: Self, c: Self)
        requires
            a.precedes(b),
            b.precedes(c),
        ensures
            a.precedes(c),
    {
    }

    /// The real id of the vertex; a phantom vertex has none.
    pub fn id(&self) -> (r: Result<N, &'static str>)
        ensures
            match *self {
                Vertex::Id(n) => r == Ok::<N, &'static str>(n),
                Vertex::Source => r is Err && r->Err_0@ == "phantom source node"@,
                Vertex::Sink => r is Err && r->Err_0@ == "phantom sink node"@,
            },
    {
        match self {
            Vertex::Source => Err("phantom source node"),
            Vertex::Sink => Err("phantom sink node"),
            Vertex::Id(node) => Ok(*node),
        }
    }

    /// Whether the two vertices are the same vertex.
    pub fn same(&self, other: &Self) -> (r: bool)
        ensures
            r == (*self == *other),
    {
        match (self, other) {
            (Vertex::Source, Vertex::Source) => true,
            (Vertex::Sink, Vertex::Sink) => true,
            (Vertex::Id(a), Vertex::Id(b)) => a.same(b),
            _ => false,
        }
    }

    /// Whether this vertex comes strictly before the other.
    pub fn before(&self, other: &Self) -> (r: bool)
        ensures
            r == self.precedes(*other),
    {
        match (self, other) {
            (Vertex::Source, Vertex::Source) => false,
            (Vertex::Source, _) => true,
            (Vertex::Id(_), Vertex::Source) => false,
            (Vertex::Id(a), Vertex::Id(b)) => a.before(b),
            (Vertex::Id(_), Vertex::Sink) => true,
            (Vertex::Sink, _) => false,
        }
    }
}

} // verus!
