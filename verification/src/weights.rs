//! The weight of groups of blocks.

use vstd::prelude::*;
use crate::graph::GraphView;
use crate::vag::{views, VirtualAddressGraph};
use crate::vertex::{VAGNodeId, Vertex};

verus! {

impl<N: VAGNodeId> GraphView<N> {
    /// The sum of the weights of the blocks stored under `vs`.
    pub open spec fn weight_of(self, vs: Seq<Vertex<N>>) -> nat
        decreases vs.len(),
    {
        if vs.len() == 0 {
            0
        } else {
            self.weight_of(vs.drop_last()) + self.at(vs.last()).len
        }
    }

    /// The addresses of the first `n` blocks.
    pub open spec fn addresses(self, n: int) -> Seq<Vertex<N>> {
        Seq::new(n as nat, |i: int| self.addr(i))
    }

    /// The sum of the weights of all blocks.
    pub open spec fn total_weight(self) -> nat {
        self.weight_of(self.addresses(self.size() as int))
    }

    /// The weight of a run is the weight of its front and of the rest.
    pub proof fn weight_of_take(self, vs: Seq<Vertex<N>>, n: int)
        requires
            0 <= n < vs.len(),
        ensures
            self.weight_of(vs.take(n + 1)) == self.weight_of(vs.take(n)) + self.at(vs[n]).len,
    {
        assert(vs.take(n + 1).drop_last() =~= vs.take(n));
    }

    /// Without one of its vertices a run weighs less by the weight of that
    /// vertex.
    pub proof fn weight_of_remove(self, vs: Seq<Vertex<N>>, i: int)
        requires
            0 <= i < vs.len(),
        ensures
            self.weight_of(vs) == self.weight_of(vs.remove(i)) + self.at(vs[i]).len,
        decreases vs.len(),
    {
        if i == vs.len() - 1 {
            assert(vs.remove(i) =~= vs.drop_last());
        } else {
            self.weight_of_remove(vs.drop_last(), i);
            assert(vs.remove(i).drop_last() =~= vs.drop_last().remove(i));
            assert(vs.remove(i).last() == vs.last());
        }
    }

    /// A run of distinct vertices weighs no more than a run that holds them
    /// all.
    pub proof fn weight_of_part(self, part: Seq<Vertex<N>>, all: Seq<Vertex<N>>)
        requires
            part.no_duplicates(),
            forall|i: int| 0 <= i < part.len() ==> all.contains(#[trigger] part[i]),
        ensures
            self.weight_of(part) <= self.weight_of(all),
        decreases all.len(),
    {
        if part.len() == 0 {
        } else if all.len() == 0 {
            assert(all.contains(part[0]));
        } else {
            let x = all.last();
            let rest = all.drop_last();
            if part.contains(x) {
                let i = choose|i: int| 0 <= i < part.len() && part[i] == x;
                let fewer = part.remove(i);
                self.weight_of_remove(part, i);
                assert forall|k: int| 0 <= k < fewer.len() implies rest.contains(
                    #[trigger] fewer[k],
                ) by {
                    let kk = if k < i { k } else { k + 1 };
                    assert(fewer[k] == part[kk]);
                    assert(part[kk] != part[i]);
                    assert(all.contains(part[kk]));
                    let j = choose|j: int| 0 <= j < all.len() && all[j] == part[kk];
                    assert(rest[j] == part[kk]);
                }
                assert(fewer.no_duplicates()) by {
                    assert forall|k: int, l: int|
                        0 <= k < fewer.len() && 0 <= l < fewer.len() && k != l implies fewer[k]
                        != fewer[l] by {
                        let kk = if k < i { k } else { k + 1 };
                        let ll = if l < i { l } else { l + 1 };
                        assert(fewer[k] == part[kk] && fewer[l] == part[ll]);
                    }
                }
                self.weight_of_part(fewer, rest);
            } else {
                assert forall|k: int| 0 <= k < part.len() implies rest.contains(
                    #[trigger] part[k],
                ) by {
                    assert(all.contains(part[k]));
                    let j = choose|j: int| 0 <= j < all.len() && all[j] == part[k];
                    assert(rest[j] == part[k]);
                }
                self.weight_of_part(part, rest);
            }
        }
    }

    /// A run of distinct blocks weighs no more than the whole graph.
    pub proof fn weight_of_blocks(self, part: Seq<Vertex<N>>)
        requires
            part.no_duplicates(),
            forall|i: int| 0 <= i < part.len() ==> self.has(#[trigger] part[i]),
        ensures
            self.weight_of(part) <= self.total_weight(),
    {
        let all = self.addresses(self.size() as int);
        assert forall|i: int| 0 <= i < part.len() implies all.contains(#[trigger] part[i]) by {
            let s = self.slot(part[i]);
            assert(self.addr(s) == part[i]);
            assert(all[s] == part[i]);
        }
        self.weight_of_part(part, all);
    }
}

impl<N: VAGNodeId> VirtualAddressGraph<N> {
    /// Whether every block is stored under a real id.
    pub fn is_plain(&self) -> (r: bool)
        ensures
            r == self@.plain(),
    {
        let blocks = self.nodes();
        let mut i: usize = 0;
        while i < blocks.len()
            invariant
                i <= blocks.len(),
                views(blocks@) == self@.blocks,
                forall|k: int| 0 <= k < i ==> (#[trigger] self@.addr(k)) is Id,
            decreases blocks.len() - i,
        {
            proof {
                assert(blocks@[i as int]@ == self@.blocks[i as int]);
            }
            match blocks[i].address() {
                Vertex::Id(_) => {},
                _ => {
                    proof {
                        assert(!(self@.addr(i as int) is Id));
                    }
                    return false;
                },
            }
            i += 1;
        }
        true
    }

    /// The sum of the weights of all blocks, if it is a machine number.
    pub fn total_weight(&self) -> (r: Option<usize>)
        requires
            self.wf(),
        ensures
            match r {
                Some(w) => w == self@.total_weight(),
                None => self@.total_weight() > usize::MAX,
            },
    {
        let ghost g = self@;
        let blocks = self.nodes();
        let mut sum: usize = 0;
        let mut i: usize = 0;
        while i < blocks.len()
            invariant
                i <= blocks.len(),
                g == self@,
                g.wf(),
                views(blocks@) == g.blocks,
                sum == g.weight_of(g.addresses(i as int)),
            decreases blocks.len() - i,
        {
            let len = blocks[i].len();
            proof {
                assert(blocks@[i as int]@ == g.blocks[i as int]);
                g.slot_is_unique(i as int);
                assert(g.addresses(i + 1).drop_last() =~= g.addresses(i as int));
                assert(g.addresses(i + 1).last() == g.addr(i as int));
            }
            if len > usize::MAX - sum {
                proof {
                    let part = g.addresses(i + 1);
                    let all = g.addresses(g.size() as int);
                    assert forall|k: int, l: int| 0 <= k < part.len() && 0 <= l < part.len() && k
                        != l implies part[k] != part[l] by {
                        if k < l {
                            assert(g.addr(k) != g.addr(l));
                        } else {
                            assert(g.addr(l) != g.addr(k));
                        }
                    }
                    assert forall|k: int| 0 <= k < part.len() implies all.contains(
                        #[trigger] part[k],
                    ) by {
                        assert(all[k] == part[k]);
                    }
                    g.weight_of_part(part, all);
                }
                return None;
            }
            sum = sum + len;
            i += 1;
        }
        Some(sum)
    }
}

} // verus!
