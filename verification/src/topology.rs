//! The topology of the landscape: a chain, in which water can flow from a
//! point to the point on its left and to the point on its right.

use vstd::prelude::*;
use crate::flow::chain_neighbors;

verus! {

/// Walks over the neighbours of one point of a chain, the left one first.
pub struct Iter1D {
    idx: usize,
    max: usize,
    iter: u8,
}

impl Iter1D {
    /// The walk is over the neighbours of a point that lies in the chain.
    pub closed spec fn wf(&self) -> bool {
        self.idx < self.max
    }

    /// The neighbours that the walk has not handed out yet, in the order in
    /// which it will.
    pub closed spec fn remaining(&self) -> Seq<int> {
        if self.iter == 0 {
            chain_neighbors(self.max as nat, self.idx as int)
        } else if self.iter == 1 && 0 < self.idx && self.idx + 1 < self.max {
            seq![self.idx + 1]
        } else {
            Seq::empty()
        }
    }

    /// A walk over the neighbours of point `idx` in a chain of `max` points.
    pub fn new(idx: usize, max: usize) -> (it: Iter1D)
        requires
            idx < max,
        ensures
            it.wf(),
            it.remaining() == chain_neighbors(max as nat, idx as int),
    {
        Iter1D { idx, max, iter: 0 }
    }

    /// Hands out the next neighbour, or `None` when there is none left.
    pub fn next(&mut self) -> (r: Option<usize>)
        requires
            old(self).wf(),
        ensures
            final(self).wf(),
            old(self).remaining().len() == 0 ==> r is None && final(self).remaining().len() == 0,
            old(self).remaining().len() > 0 ==> r == Some(old(self).remaining()[0] as usize)
                && r->Some_0 == old(self).remaining()[0]
                && final(self).remaining() == old(self).remaining().drop_first(),
    {
        match self.iter {
            0 => {
                self.iter = 1;
                if self.idx > 0 {
                    proof {
                        let before = chain_neighbors(self.max as nat, self.idx as int);
                        assert(before.drop_first() =~= self.remaining());
                    }
                    Some(self.idx - 1)
                } else {
                    if self.max > 1 {
                        proof {
                            let before = chain_neighbors(self.max as nat, self.idx as int);
                            assert(before.drop_first() =~= self.remaining());
                        }
                        Some(1)
                    } else {
                        None
                    }
                }
            },
            1 => {
                self.iter = 2;
                if self.idx == 0 {
                    None
                } else {
                    if self.idx < self.max - 1 {
                        proof {
                            assert(seq![self.idx + 1].drop_first() =~= self.remaining());
                        }
                        Some(self.idx + 1)
                    } else {
                        None
                    }
                }
            },
            _ => None,
        }
    }
}

} // verus!
