//! The mathematical model of the landscape and of one redistribution pass.
//!
//! A terrain is a row of points, each with a ground height and an amount of
//! water above it. In one pass every point that holds more water than the
//! tolerance offers it, in equal shares, to those of its two neighbours that
//! lie lower by more than the tolerance; no share is more than half the
//! difference in level. All shares are worked out on the levels before the
//! pass and then moved at once.

use vstd::prelude::*;
use crate::decimal::min_real;

verus! {

/// Ground heights and water amounts of a row of points, as real numbers.
pub struct Terrain {
    pub ground: Seq<real>,
    pub water: Seq<real>,
}

/// One movement of water between two points.
pub struct Move {
    pub from: int,
    pub to: int,
    pub amount: real,
}

/// The points that water may flow to from point `i` in a row of `n` points:
/// the left neighbour before the right one, as far as they exist.
pub open spec fn chain_neighbors(n: nat, i: int) -> Seq<int> {
    if 0 < i && i + 1 < n {
        seq![i - 1, i + 1]
    } else if 0 < i && i < n {
        seq![i - 1]
    } else if 0 <= i && i + 1 < n {
        seq![i + 1]
    } else {
        Seq::empty()
    }
}

impl Terrain {
    /// The number of points.
    pub open spec fn len(self) -> nat {
        self.ground.len()
    }

    /// Every point has a ground height and a water amount, and neither is
    /// negative.
    pub open spec fn wf(self) -> bool {
        &&& self.water.len() == self.ground.len()
        &&& forall|i: int| 0 <= i < self.ground.len() ==> self.ground[i] >= 0real
        &&& forall|i: int| 0 <= i < self.water.len() ==> self.water[i] >= 0real
    }

    /// The level of point `i`: ground plus water.
    pub open spec fn level(self, i: int) -> real {
        self.ground[i] + self.water[i]
    }

    /// The levels of all points.
    pub open spec fn levels(self) -> Seq<real> {
        Seq::new(self.len(), |i: int| self.level(i))
    }

    /// Point `i` holds enough water to give some away.
    pub open spec fn is_source(self, prec: real, i: int) -> bool {
        0 <= i < self.len() && self.water[i] > prec
    }

    /// Water flows from point `i` to its neighbour `j` in this pass.
    pub open spec fn flows(self, prec: real, i: int, j: int) -> bool {
        &&& self.is_source(prec, i)
        &&& 0 <= j < self.len()
        &&& (j == i - 1 || j == i + 1)
        &&& self.level(i) > self.level(j) + prec
    }

    /// The number of neighbours that point `i` gives water to.
    pub open spec fn fan_out(self, prec: real, i: int) -> int {
        (if self.flows(prec, i, i - 1) { 1int } else { 0int })
            + (if self.flows(prec, i, i + 1) { 1int } else { 0int })
    }

    /// The neighbours that point `i` gives water to, the left one first.
    pub open spec fn targets(self, prec: real, i: int) -> Seq<int> {
        let left = if self.flows(prec, i, i - 1) {
            Seq::<int>::empty().push(i - 1)
        } else {
            Seq::<int>::empty()
        };
        if self.flows(prec, i, i + 1) {
            left.push(i + 1)
        } else {
            left
        }
    }

    /// What point `i` offers to each neighbour it gives water to: its water,
    /// divided by their number.
    pub open spec fn share(self, prec: real, i: int) -> real {
        self.water[i] / self.fan_out(prec, i) as real
    }

    /// The amount that moves from `i` to `j` in this pass; zero where no
    /// water flows that way.
    pub open spec fn transfer(self, prec: real, i: int, j: int) -> real {
        if self.flows(prec, i, j) {
            min_real(self.share(prec, i), (self.level(i) - self.level(j)) / 2real)
        } else {
            0real
        }
    }

    /// What point `i` gives away in this pass.
    pub open spec fn outflow(self, prec: real, i: int) -> real {
        self.transfer(prec, i, i - 1) + self.transfer(prec, i, i + 1)
    }

    /// What point `i` receives in this pass.
    pub open spec fn inflow(self, prec: real, i: int) -> real {
        self.transfer(prec, i - 1, i) + self.transfer(prec, i + 1, i)
    }

    /// The water on point `i` after the pass.
    pub open spec fn water_after(self, prec: real, i: int) -> real {
        self.water[i] - self.outflow(prec, i) + self.inflow(prec, i)
    }

    /// The terrain after one pass.
    pub open spec fn pass(self, prec: real) -> Terrain {
        Terrain {
            ground: self.ground,
            water: Seq::new(self.water.len(), |i: int| self.water_after(prec, i)),
        }
    }

    /// No water flows anywhere: a pass would move nothing.
    pub open spec fn stable(self, prec: real) -> bool {
        forall|i: int, j: int| !#[trigger] self.flows(prec, i, j)
    }

    /// The terrain after `k` passes.
    pub open spec fn settle(self, prec: real, k: nat) -> Terrain
        decreases k,
    {
        if k == 0 {
            self
        } else {
            self.settle(prec, (k - 1) as nat).pass(prec)
        }
    }

    /// What a stabilization that may make `allowance` passes does to the
    /// terrain: it makes passes until one leaves the terrain stable, and
    /// not more than it may. `made` is the number of passes, `after` the
    /// terrain they leave, and `ok` says whether that terrain is stable.
    pub open spec fn settles_to(
        self,
        prec: real,
        allowance: nat,
        made: nat,
        after: Terrain,
        ok: bool,
    ) -> bool {
        &&& after == self.settle(prec, made)
        &&& forall|j: nat| j < made ==> !(#[trigger] self.settle(prec, j)).stable(prec)
        &&& ok <==> after.stable(prec)
        &&& made <= allowance
        &&& !ok ==> made == allowance
    }

    /// The terrain after rain: `amounts[i]` more water on point `i`.
    pub open spec fn rained(self, amounts: Seq<real>) -> Terrain {
        Terrain {
            ground: self.ground,
            water: Seq::new(self.water.len(), |i: int| self.water[i] + amounts[i]),
        }
    }

    /// The movements that a pass records when it visits point `p`: to the
    /// left neighbour first, then to the right one.
    pub open spec fn moves_from(self, prec: real, p: int) -> Seq<Move> {
        let left = if self.flows(prec, p, p - 1) {
            seq![(Move { from: p, to: p - 1, amount: self.transfer(prec, p, p - 1) })]
        } else {
            Seq::<Move>::empty()
        };
        let right = if self.flows(prec, p, p + 1) {
            seq![(Move { from: p, to: p + 1, amount: self.transfer(prec, p, p + 1) })]
        } else {
            Seq::<Move>::empty()
        };
        left + right
    }

    /// Of the candidates, in their order, those that lie lower than
    /// point `p` by more than the tolerance.
    pub open spec fn lower_among(self, prec: real, p: int, candidates: Seq<int>) -> Seq<int>
        decreases candidates.len(),
    {
        if candidates.len() == 0 {
            Seq::<int>::empty()
        } else {
            let rest = self.lower_among(prec, p, candidates.drop_last());
            if self.level(p) > self.level(candidates.last()) + prec {
                rest.push(candidates.last())
            } else {
                rest
            }
        }
    }

    /// The movements from point `p` to each of the given targets, in their
    /// order.
    pub open spec fn moves_to(self, prec: real, p: int, targets: Seq<int>) -> Seq<Move>
        decreases targets.len(),
    {
        if targets.len() == 0 {
            Seq::<Move>::empty()
        } else {
            let last = targets.last();
            self.moves_to(prec, p, targets.drop_last()).push(
                Move { from: p, to: last, amount: self.transfer(prec, p, last) },
            )
        }
    }

    /// The movements that a pass records when it visits the points in the
    /// given order.
    pub open spec fn recorded(self, prec: real, order: Seq<int>) -> Seq<Move>
        decreases order.len(),
    {
        if order.len() == 0 {
            Seq::<Move>::empty()
        } else {
            self.recorded(prec, order.drop_last()) + self.moves_from(prec, order.last())
        }
    }
}

/// Even rain on `n` points: the same amount on each.
pub open spec fn even_rain(n: nat, amount: real) -> Seq<real> {
    Seq::new(n, |i: int| amount)
}

/// The sum of the first `m` members of `s`.
pub open spec fn sum_upto(s: Seq<real>, m: int) -> real
    decreases m,
{
    if m <= 0 {
        0real
    } else {
        sum_upto(s, m - 1) + s[m - 1]
    }
}

/// The sum of all members of `s`.
pub open spec fn total(s: Seq<real>) -> real {
    sum_upto(s, s.len() as int)
}

/// The sum of the squares of the first `m` members of `s`.
pub open spec fn squares_upto(s: Seq<real>, m: int) -> real
    decreases m,
{
    if m <= 0 {
        0real
    } else {
        squares_upto(s, m - 1) + s[m - 1] * s[m - 1]
    }
}

/// The potential of a row of levels: the sum of their squares.
pub open spec fn potential(s: Seq<real>) -> real {
    squares_upto(s, s.len() as int)
}

/// A movement between two different points of a row of `n`.
pub open spec fn move_fits(m: Move, n: nat) -> bool {
    0 <= m.from < n && 0 <= m.to < n && m.from != m.to
}

/// The water after one movement.
pub open spec fn moved(water: Seq<real>, m: Move) -> Seq<real> {
    let drained = water.update(m.from, water[m.from] - m.amount);
    drained.update(m.to, drained[m.to] + m.amount)
}

/// The water after a list of movements, made one after the other.
pub open spec fn applied(water: Seq<real>, moves: Seq<Move>) -> Seq<real>
    decreases moves.len(),
{
    if moves.len() == 0 {
        water
    } else {
        moved(applied(water, moves.drop_last()), moves.last())
    }
}

/// A row of indices, as integers.
pub open spec fn as_ints(v: Seq<usize>) -> Seq<int> {
    Seq::new(v.len(), |k: int| v[k] as int)
}

/// An evaluation order for a row of `n` points: each index once.
pub open spec fn is_order(order: Seq<int>, n: nat) -> bool {
    &&& order.len() == n
    &&& forall|k: int| 0 <= k < order.len() ==> 0 <= #[trigger] order[k] < n
    &&& forall|k: int, l: int| 0 <= k < l < order.len() ==> order[k] != order[l]
}

} // verus!
