//! The landscape and its stabilization engine.
//!
//! A landscape holds its points in the order in which they were given, an
//! order in which a pass visits them, and the tolerance below which neither
//! an amount of water nor a difference in level counts. After rain the
//! engine runs passes until one of them moves nothing.

use vstd::prelude::*;
use bigdecimal::BigDecimal;
use crate::decimal::{
    decimal_value, decimal_scale, admissible, operable, INPUT_SCALE, dec_sub, dec_half, dec_lt,
    dec_min, dec_clone, dec_hundredths, dec_zero,
};
use crate::flow::{
    Terrain, Move, applied, moved, is_order, chain_neighbors, as_ints, total, even_rain,
};
use crate::laws::{
    lemma_pass_keeps_wf, lemma_rain_adds, lemma_settle_conserves, lemma_settle_keeps_wf,
    lemma_share, lemma_total_non_negative, lemma_settling_is_determined, lemma_transfer_bounds,
};
use crate::monitor::{Violation, check_progress};
use crate::order::{
    lemma_moves_to_push, lemma_targets_of_source, lemma_recorded_gives_pass,
    lemma_nothing_recorded_iff_stable,
};
use crate::point::Point;
use crate::potential::{
    terrain_potential, ground_potential, lemma_pass_lowers_potential,
    lemma_potential_above_ground, pass_bound, lemma_success_is_owed,
};
use crate::ranking::{EvaluationOrder, values, ranked, input_order, height_descending_order};
use crate::row::{
    default_tolerance, gives, takes, takes_all, is_taken, terrain_of, all_sound, none_negative,
    dry_points, lower_neighbours, pour_on, levels_into, potential_of, ground_potential_of,
    equal_share,
};
use crate::topology::Iter1D;

verus! {

/// The most passes that a landscape can make in its life. Each pass may add
/// one digit behind the decimal point of a water amount; the limit keeps
/// those digits within what the decimals can count.
pub const PASS_LIMIT: u64 = 0x0400_0000_0000_0000;

/// Why the engine stopped before the landscape was stable.
#[derive(Debug, Clone, Copy, PartialEq, Eq)]
pub enum StabilizeError {
    /// The landscape was not stable after the passes it was allowed.
    PassLimit,
    /// The convergence monitor found the potential where it must not be.
    Monitor(Violation),
}

/// One movement of water that a pass has worked out and not yet made.
struct WaterUpdate {
    from_idx: usize,
    to_idx: usize,
    water: BigDecimal,
}

impl WaterUpdate {
    /// The movement as the model sees it.
    spec fn as_move(&self) -> Move {
        Move {
            from: self.from_idx as int,
            to: self.to_idx as int,
            amount: decimal_value(self.water),
        }
    }

    /// The movement is between two different points of a row of `n`, its
    /// amount is not negative, and the scale of the amount is at most
    /// `places`.
    spec fn fits(&self, n: nat, places: int) -> bool {
        &&& self.from_idx < n
        &&& self.to_idx < n
        &&& self.from_idx != self.to_idx
        &&& decimal_value(self.water) >= 0real
        &&& -INPUT_SCALE <= decimal_scale(self.water) <= places
    }
}

/// The movements as the model sees them.
spec fn moves_of(updates: Seq<WaterUpdate>) -> Seq<Move> {
    Seq::new(updates.len(), |k: int| updates[k].as_move())
}

/// Every movement fits a row of `n` points and `places` digits behind the
/// decimal point.
spec fn all_fit(updates: Seq<WaterUpdate>, n: nat, places: int) -> bool {
    forall|k: int| 0 <= k < updates.len() ==> (#[trigger] updates[k]).fits(n, places)
}

/// Represents the entire world that rain falls on and water flows in.
pub struct Landscape {
    points: Vec<Point>,
    points_idx: Vec<usize>,
    results: Vec<BigDecimal>,
    precision: BigDecimal,
    max_passes: u64,
    passes: u64,
    monitor: bool,
}

impl Landscape {
    /// Ground and water of all points, in the order in which they were
    /// given.
    pub closed spec fn terrain(&self) -> Terrain {
        terrain_of(self.points@)
    }

    /// The tolerance: the least amount of water, and the least difference
    /// in level, that makes water flow.
    pub closed spec fn tolerance(&self) -> real {
        decimal_value(self.precision)
    }

    /// The order in which a pass visits the points.
    pub closed spec fn order(&self) -> Seq<int> {
        as_ints(self.points_idx@)
    }

    /// The passes made so far, over all rain.
    pub closed spec fn passes_made(&self) -> nat {
        self.passes as nat
    }

    /// The most passes that one stabilization may make.
    pub closed spec fn pass_cap(&self) -> nat {
        self.max_passes as nat
    }

    /// Whether the convergence monitor is switched on.
    pub closed spec fn monitored(&self) -> bool {
        self.monitor
    }

    /// The result buffer: one decimal for each point. A step that hands
    /// back levels writes them here; nothing else changes it.
    pub closed spec fn buffer(&self) -> Seq<BigDecimal> {
        self.results@
    }

    /// The passes that the next stabilization may make: its own cap, or
    /// what is left of `PASS_LIMIT` if that is less.
    pub open spec fn allowance(&self) -> nat {
        if self.pass_cap() <= PASS_LIMIT - self.passes_made() {
            self.pass_cap()
        } else {
            (PASS_LIMIT - self.passes_made()) as nat
        }
    }

    /// The scales of all decimals are ones that the arithmetic can work on.
    spec fn sound(&self, places: int) -> bool {
        &&& self.results.len() == self.points.len()
        &&& is_order(self.order(), self.points.len() as nat)
        &&& admissible(self.precision)
        &&& decimal_value(self.precision) >= 0real
        &&& self.passes <= PASS_LIMIT
        &&& all_sound(self.points@, places)
    }

    /// The invariant of the landscape: the evaluation order holds each
    /// point once, the tolerance and all amounts of water are zero or more,
    /// and every decimal has a scale that the arithmetic can work on.
    pub closed spec fn wf(&self) -> bool {
        &&& self.sound(INPUT_SCALE + self.passes)
        &&& none_negative(self.points@)
    }

    /// What the invariant says of the model.
    pub proof fn lemma_wf(&self)
        requires
            self.wf(),
        ensures
            self.terrain().wf(),
            self.tolerance() >= 0real,
            is_order(self.order(), self.terrain().len()),
            self.passes_made() <= PASS_LIMIT,
            self.buffer().len() == self.terrain().len(),
    {
    }

    /// What one step of rain makes of the landscape. The `amounts` fall on
    /// the points; then the engine makes passes until the water is stable,
    /// or until the passes allowed are used up. `after` is the landscape
    /// that the step leaves, and `ok` says whether its water is stable.
    ///
    /// The step changes nothing but the water and the count of passes. It
    /// adds to the water what fell, and no more. With a tolerance above
    /// zero it is certain to end with the water stable if it may make
    /// `pass_bound` passes.
    pub open spec fn steps_to(&self, amounts: Seq<real>, after: Landscape, ok: bool) -> bool {
        &&& after.wf()
        &&& after.terrain().wf()
        &&& after.tolerance() == self.tolerance()
        &&& after.order() == self.order()
        &&& after.pass_cap() == self.pass_cap()
        &&& after.monitored() == self.monitored()
        &&& after.passes_made() >= self.passes_made()
        &&& after.terrain().ground == self.terrain().ground
        &&& self.terrain().rained(amounts).settles_to(
            self.tolerance(),
            self.allowance(),
            (after.passes_made() - self.passes_made()) as nat,
            after.terrain(),
            ok,
        )
        &&& total(after.terrain().water) == total(self.terrain().water) + total(amounts)
        &&& (forall|i: int| 0 <= i < amounts.len() ==> #[trigger] amounts[i] >= 0real) ==> total(
            after.terrain().water,
        ) >= total(self.terrain().water)
        &&& self.tolerance() > 0real && self.allowance() >= pass_bound(
            self.terrain().rained(amounts),
            self.tolerance(),
        ) ==> ok
    }

    /// Order-equivalence: two landscapes that hold the same ground and the
    /// same water, with the same tolerance and the same passes allowed, are
    /// left with the same water by the same rain, whatever the order in
    /// which each of them visits its points.
    pub proof fn lemma_order_does_not_matter(
        &self,
        other: Landscape,
        amounts: Seq<real>,
        after: Landscape,
        ok: bool,
        other_after: Landscape,
        other_ok: bool,
    )
        requires
            self.terrain() == other.terrain(),
            self.tolerance() == other.tolerance(),
            self.allowance() == other.allowance(),
            self.steps_to(amounts, after, ok),
            other.steps_to(amounts, other_after, other_ok),
        ensures
            after.terrain() == other_after.terrain(),
            ok == other_ok,
            after.passes_made() - self.passes_made() == other_after.passes_made()
                - other.passes_made(),
    {
        lemma_settling_is_determined(
            self.terrain().rained(amounts),
            self.tolerance(),
            self.allowance(),
            (after.passes_made() - self.passes_made()) as nat,
            after.terrain(),
            ok,
            (other_after.passes_made() - other.passes_made()) as nat,
            other_after.terrain(),
            other_ok,
        );
    }

    /// What a step hands back: the levels of all points, in the order in
    /// which the points were given, if they were asked for; else an empty
    /// row. Each level is a decimal that the arithmetic can work on.
    pub open spec fn reports(&self, levels: Seq<BigDecimal>, return_result: bool) -> bool {
        if return_result {
            &&& levels.len() == self.terrain().len()
            &&& forall|i: int|
                0 <= i < levels.len() ==> decimal_value(#[trigger] levels[i])
                    == self.terrain().level(i) && operable(levels[i])
        } else {
            levels.len() == 0
        }
    }

    /// A dry landscape with the ground at the given heights, the default
    /// tolerance of one hundredth, and an evaluation order from the highest
    /// ground to the lowest.
    pub fn create(ph: Vec<BigDecimal>) -> (l: Landscape)
        requires
            takes_all(ph@),
        ensures
            l.wf(),
            l.terrain().ground == values(ph@),
            l.terrain().water == Seq::new(ph@.len(), |i: int| 0real),
            l.tolerance() == default_tolerance(),
            ranked(l.order(), values(ph@)),
            l.passes_made() == 0,
            l.pass_cap() == PASS_LIMIT,
            !l.monitored(),
    {
        Self::create_with_order(ph, dec_hundredths(1), EvaluationOrder::HeightDescending)
    }

    /// A dry landscape with the given tolerance. With a tolerance of zero
    /// the water may never come to rest: the passes then end at the limit.
    pub fn create_with_precision(ph: Vec<BigDecimal>, precision: BigDecimal) -> (l: Landscape)
        requires
            takes_all(ph@),
            takes(precision),
        ensures
            l.wf(),
            l.terrain().ground == values(ph@),
            l.terrain().water == Seq::new(ph@.len(), |i: int| 0real),
            l.tolerance() == decimal_value(precision),
            ranked(l.order(), values(ph@)),
            l.passes_made() == 0,
            l.pass_cap() == PASS_LIMIT,
            !l.monitored(),
    {
        Self::create_with_order(ph, precision, EvaluationOrder::HeightDescending)
    }

    /// A dry landscape with the given tolerance and the given evaluation
    /// order.
    pub fn create_with_order(
        ph: Vec<BigDecimal>,
        precision: BigDecimal,
        order: EvaluationOrder,
    ) -> (l: Landscape)
        requires
            takes_all(ph@),
            takes(precision),
        ensures
            l.wf(),
            l.terrain().ground == values(ph@),
            l.terrain().water == Seq::new(ph@.len(), |i: int| 0real),
            l.tolerance() == decimal_value(precision),
            order == EvaluationOrder::Input ==> l.order() == Seq::new(ph@.len(), |k: int| k),
            order == EvaluationOrder::HeightDescending ==> ranked(l.order(), values(ph@)),
            l.passes_made() == 0,
            l.pass_cap() == PASS_LIMIT,
            !l.monitored(),
    {
        let n = ph.len();
        let points = dry_points(&ph);
        let points_idx = match order {
            EvaluationOrder::Input => input_order(n),
            EvaluationOrder::HeightDescending => height_descending_order(&ph),
        };
        let l = Landscape {
            points,
            points_idx,
            results: ph,
            precision,
            max_passes: PASS_LIMIT,
            passes: 0,
            monitor: false,
        };
        proof {
            assert(l.terrain().ground =~= values(ph@));
            assert(l.terrain().water =~= Seq::new(ph@.len(), |i: int| 0real));
            if order == EvaluationOrder::Input {
                assert(l.order() =~= Seq::new(ph@.len(), |k: int| k));
            }
        }
        l
    }

    /// A dry landscape, if every height and the tolerance can be taken;
    /// `None` if one of them is negative or has a scale beyond the limit.
    pub fn try_create(ph: Vec<BigDecimal>, precision: BigDecimal, order: EvaluationOrder) -> (r:
        Option<Landscape>)
        ensures
            r is Some <==> takes_all(ph@) && takes(precision),
            r is Some ==> {
                let l = r->Some_0;
                &&& l.wf()
                &&& l.terrain().ground == values(ph@)
                &&& l.terrain().water == Seq::new(ph@.len(), |i: int| 0real)
                &&& l.tolerance() == decimal_value(precision)
                &&& order == EvaluationOrder::Input ==> l.order() == Seq::new(
                    ph@.len(),
                    |k: int| k,
                )
                &&& order == EvaluationOrder::HeightDescending ==> ranked(l.order(), values(ph@))
                &&& l.passes_made() == 0
                &&& l.pass_cap() == PASS_LIMIT
                &&& !l.monitored()
            },
    {
        if !is_taken(&precision) {
            return None;
        }
        let n = ph.len();
        let mut i: usize = 0;
        while i < n
            invariant
                i <= n,
                n == ph@.len(),
                forall|k: int| 0 <= k < i ==> takes(#[trigger] ph@[k]),
            decreases n - i,
        {
            if !is_taken(&ph[i]) {
                return None;
            }
            i += 1;
        }
        Some(Self::create_with_order(ph, precision, order))
    }

    /// Sets the most passes that one stabilization may make.
    pub fn set_max_passes(&mut self, max_passes: u64)
        requires
            old(self).wf(),
        ensures
            final(self).wf(),
            final(self).pass_cap() == max_passes,
            final(self).monitored() == old(self).monitored(),
            final(self).terrain() == old(self).terrain(),
            final(self).tolerance() == old(self).tolerance(),
            final(self).order() == old(self).order(),
            final(self).passes_made() == old(self).passes_made(),
            final(self).buffer() == old(self).buffer(),
    {
        self.max_passes = max_passes;
    }

    /// Switches the convergence monitor on or off. The monitor watches the
    /// potential after every pass; it changes nothing of what the passes do.
    pub fn set_monitor(&mut self, on: bool)
        requires
            old(self).wf(),
        ensures
            final(self).wf(),
            final(self).monitored() == on,
            final(self).pass_cap() == old(self).pass_cap(),
            final(self).terrain() == old(self).terrain(),
            final(self).tolerance() == old(self).tolerance(),
            final(self).order() == old(self).order(),
            final(self).passes_made() == old(self).passes_made(),
            final(self).buffer() == old(self).buffer(),
    {
        self.monitor = on;
    }

    /// The potential of the landscape: the sum of the squares of the levels
    /// of its points.
    pub fn calc_state(&self) -> (state: BigDecimal)
        requires
            self.wf(),
        ensures
            decimal_value(state) == terrain_potential(self.terrain()),
            -2 * INPUT_SCALE <= decimal_scale(state) <= 4 * INPUT_SCALE,
            operable(state),
    {
        potential_of(&self.points)
    }

    /// The potential of the bare ground: the sum of the squares of the
    /// ground heights. The potential of the landscape never lies below it.
    pub fn calc_state_lbound(&self) -> (lbound: BigDecimal)
        requires
            self.wf(),
        ensures
            decimal_value(lbound) == ground_potential(self.terrain()),
            -2 * INPUT_SCALE <= decimal_scale(lbound) <= 2 * INPUT_SCALE,
            operable(lbound),
    {
        ground_potential_of(&self.points)
    }

    /// The tolerance of the simulation: where levels differ by no more,
    /// water does not flow.
    pub fn precision(&self) -> (p: BigDecimal)
        ensures
            decimal_value(p) == self.tolerance(),
            self.wf() ==> takes(p),
    {
        dec_clone(&self.precision)
    }

    /// The passes made so far, over all rain.
    pub fn passes(&self) -> (n: u64)
        ensures
            n == self.passes_made(),
    {
        self.passes
    }

    /// The number of points.
    pub fn len(&self) -> (n: usize)
        ensures
            n == self.terrain().len(),
    {
        self.points.len()
    }

    /// The amount of water on point `idx`.
    pub fn water_at(&self, idx: usize) -> (w: BigDecimal)
        requires
            idx < self.terrain().len(),
        ensures
            decimal_value(w) == self.terrain().water[idx as int],
            self.wf() ==> operable(w) && decimal_value(w) >= 0real,
    {
        proof {
            if self.wf() {
                assert(self.points[idx as int].sound());
            }
        }
        self.points[idx].water()
    }

    /// The neighbours of point `idx`: the points that its water can flow
    /// to.
    pub fn neighbors(&self, idx: usize) -> (it: Iter1D)
        requires
            idx < self.terrain().len(),
        ensures
            it.wf(),
            it.remaining() == chain_neighbors(self.terrain().len(), idx as int),
    {
        Iter1D::new(idx, self.points.len())
    }

    /// Visits point `pi`: works out what it gives to its neighbours, and
    /// adds those movements to `updates`.
    fn collect_from(&self, pi: usize, updates: &mut Vec<WaterUpdate>)
        requires
            self.wf(),
            pi < self.points.len(),
            all_fit(old(updates)@, self.points.len() as nat, INPUT_SCALE + self.passes + 1),
        ensures
            all_fit(final(updates)@, self.points.len() as nat, INPUT_SCALE + self.passes + 1),
            moves_of(final(updates)@) == moves_of(old(updates)@) + self.terrain().moves_from(
                self.tolerance(),
                pi as int,
            ),
    {
        let ghost t = self.terrain();
        let ghost prec = self.tolerance();
        let ghost base = moves_of(updates@);
        let ghost n = self.points.len() as nat;
        let ghost places = INPUT_SCALE + self.passes + 1;
        assert(self.points[pi as int].sound());
        let pw = self.points[pi].water();
        if !dec_lt(&self.precision, &pw) {
            proof {
                assert(!t.is_source(prec, pi as int));
                assert(t.moves_from(prec, pi as int) =~= Seq::<Move>::empty());
                assert(base + t.moves_from(prec, pi as int) =~= base);
            }
            return ;
        }
        assert(t.is_source(prec, pi as int));
        let ph = self.points[pi].get_height();
        let targets = lower_neighbours(&self.points, &self.precision, pi, &ph);
        let ghost aims = as_ints(targets@);
        proof {
            lemma_targets_of_source(t, prec, pi as int);
            assert(aims == t.targets(prec, pi as int));
            assert(aims.len() == targets.len());
        }
        if targets.len() == 0 {
            proof {
                assert(t.moves_from(prec, pi as int) =~= Seq::<Move>::empty());
                assert(base + t.moves_from(prec, pi as int) =~= base);
            }
            return ;
        }
        let equal_fraction = equal_share(&pw, targets.len());
        proof {
            lemma_share(t, prec, pi as int);
        }
        let mut k: usize = 0;
        proof {
            assert(aims.take(0) =~= Seq::<int>::empty());
            assert(base + t.moves_to(prec, pi as int, aims.take(0)) =~= base);
        }
        while k < targets.len()
            invariant
                self.wf(),
                pi < self.points.len(),
                k <= targets.len(),
                t == self.terrain(),
                prec == self.tolerance(),
                n == self.points.len(),
                places == INPUT_SCALE + self.passes + 1,
                aims == as_ints(targets@),
                aims == t.targets(prec, pi as int),
                aims.len() == t.fan_out(prec, pi as int),
                forall|j: int| 0 <= j < aims.len() ==> t.flows(prec, pi as int, #[trigger] aims[j]),
                t.is_source(prec, pi as int),
                decimal_value(ph) == t.level(pi as int),
                -INPUT_SCALE <= decimal_scale(ph) <= INPUT_SCALE + self.passes,
                decimal_value(equal_fraction) == t.share(prec, pi as int),
                -INPUT_SCALE <= decimal_scale(equal_fraction) <= places,
                all_fit(updates@, n, places),
                moves_of(updates@) == base + t.moves_to(prec, pi as int, aims.take(k as int)),
            decreases targets.len() - k,
        {
            let ni = targets[k];
            assert(ni as int == aims[k as int]);
            assert(t.flows(prec, pi as int, aims[k as int]));
            assert(self.points[ni as int].sound());
            let nh = self.points[ni].get_height();
            let diff = dec_sub(&ph, &nh);
            let ghost before = updates@;
            if dec_lt(&self.precision, &diff) {
                let half_gap = dec_half(&diff);
                let flow_amt = dec_min(&equal_fraction, &half_gap);
                updates.push(WaterUpdate { from_idx: pi, to_idx: ni, water: flow_amt });
            }
            proof {
                let made = Move {
                    from: pi as int,
                    to: ni as int,
                    amount: t.transfer(prec, pi as int, ni as int),
                };
                lemma_moves_to_push(t, prec, pi as int, aims.take(k as int), ni as int);
                assert(aims.take(k + 1) =~= aims.take(k as int).push(ni as int));
                assert(updates@ == before.push(updates@[before.len() as int]));
                assert(updates@[before.len() as int].as_move() == made);
                lemma_transfer_bounds(t, prec, pi as int, ni as int);
                assert(moves_of(updates@) =~= moves_of(before).push(made));
                assert(moves_of(updates@) =~= base + t.moves_to(
                    prec,
                    pi as int,
                    aims.take(k + 1),
                ));
                assert forall|j: int| 0 <= j < updates@.len() implies (#[trigger] updates@[j]).fits(
                    n,
                    places,
                ) by {
                    if j < before.len() {
                        assert(updates@[j] == before[j]);
                    }
                }
            }
            k += 1;
        }
        proof {
            assert(aims.take(k as int) =~= aims);
        }
    }

    /// Visits every point in the evaluation order and works out, on the
    /// levels as they are, the movements of one pass.
    fn scan(&self) -> (updates: Vec<WaterUpdate>)
        requires
            self.wf(),
        ensures
            all_fit(updates@, self.points.len() as nat, INPUT_SCALE + self.passes + 1),
            moves_of(updates@) == self.terrain().recorded(self.tolerance(), self.order()),
    {
        let mut updates: Vec<WaterUpdate> = Vec::new();
        let ghost t = self.terrain();
        let ghost prec = self.tolerance();
        let ghost order = self.order();
        let mut k: usize = 0;
        proof {
            assert(order.take(0) =~= Seq::<int>::empty());
            assert(moves_of(updates@) =~= t.recorded(prec, order.take(0)));
        }
        while k < self.points_idx.len()
            invariant
                self.wf(),
                k <= self.points_idx.len(),
                t == self.terrain(),
                prec == self.tolerance(),
                order == self.order(),
                all_fit(updates@, self.points.len() as nat, INPUT_SCALE + self.passes + 1),
                moves_of(updates@) == t.recorded(prec, order.take(k as int)),
            decreases self.points_idx.len() - k,
        {
            let pi = self.points_idx[k];
            assert(pi as int == order[k as int]);
            self.collect_from(pi, &mut updates);
            proof {
                assert(order.take(k + 1).drop_last() =~= order.take(k as int));
                assert(order.take(k + 1).last() == pi as int);
            }
            k += 1;
        }
        proof {
            assert(order.take(k as int) =~= order);
        }
        updates
    }

    /// Makes the movements of a pass, one after the other.
    fn apply(&mut self, updates: &Vec<WaterUpdate>)
        requires
            old(self).sound(INPUT_SCALE + old(self).passes),
            old(self).passes < PASS_LIMIT,
            all_fit(
                updates@,
                old(self).points.len() as nat,
                INPUT_SCALE + old(self).passes + 1,
            ),
        ensures
            final(self).sound(INPUT_SCALE + old(self).passes + 1),
            final(self).results == old(self).results,
            final(self).points_idx == old(self).points_idx,
            final(self).precision == old(self).precision,
            final(self).max_passes == old(self).max_passes,
            final(self).monitor == old(self).monitor,
            final(self).passes == old(self).passes,
            final(self).terrain().ground == old(self).terrain().ground,
            final(self).terrain().water == applied(old(self).terrain().water, moves_of(updates@)),
    {
        let ghost start = self.terrain().water;
        let ghost moves = moves_of(updates@);
        let ghost n = self.points.len() as nat;
        let ghost places = INPUT_SCALE + self.passes + 1;
        let mut k: usize = 0;
        proof {
            assert(moves.take(0) =~= Seq::<Move>::empty());
        }
        while k < updates.len()
            invariant
                k <= updates.len(),
                self.sound(places),
                self.points.len() == n,
                self.results == old(self).results,
                self.points_idx == old(self).points_idx,
                self.precision == old(self).precision,
                self.max_passes == old(self).max_passes,
                self.monitor == old(self).monitor,
                self.passes == old(self).passes,
                self.passes < PASS_LIMIT,
                places == INPUT_SCALE + self.passes + 1,
                moves == moves_of(updates@),
                all_fit(updates@, n, places),
                self.terrain().ground == old(self).terrain().ground,
                self.terrain().water == applied(start, moves.take(k as int)),
            decreases updates.len() - k,
        {
            let ghost before = self.terrain();
            let ghost points_before = self.points@;
            assert(updates@[k as int].fits(n, places));
            let from = updates[k].from_idx;
            let to = updates[k].to_idx;
            assert(self.points[from as int].sound());
            self.points[from].drain(&updates[k].water);
            assert(self.points[to as int] == points_before[to as int]);
            assert(points_before[to as int].sound());
            let amount = dec_clone(&updates[k].water);
            self.points[to].rain(amount);
            proof {
                let m = moves[k as int];
                assert(m == updates@[k as int].as_move());
                assert forall|i: int| 0 <= i < self.points.len() implies (
                #[trigger] self.points[i]).sound() && self.points[i].water_scale() <= places by {
                    if i != from && i != to {
                        assert(self.points[i] == points_before[i]);
                    }
                    assert(points_before[i].sound());
                }
                assert(self.terrain().ground =~= before.ground) by {
                    assert forall|i: int| 0 <= i < n implies self.points[i].ground_value()
                        == points_before[i].ground_value() by {
                        if i != from && i != to {
                            assert(self.points[i] == points_before[i]);
                        }
                    }
                }
                assert(self.terrain().water =~= moved(before.water, m)) by {
                    assert forall|i: int| 0 <= i < n implies self.points[i].water_value() == moved(
                        before.water,
                        m,
                    )[i] by {
                        if i != from && i != to {
                            assert(self.points[i] == points_before[i]);
                        }
                    }
                }
                assert(moves.take(k + 1).drop_last() =~= moves.take(k as int));
                assert(moves.take(k + 1).last() == m);
                assert(self.order() == old(self).order());
            }
            k += 1;
        }
        proof {
            assert(moves.take(k as int) =~= moves);
        }
    }

    /// Redistributes the water until a pass moves nothing, or until the
    /// passes allowed are used up.
    ///
    /// The engine makes the fewest passes that leave the landscape stable,
    /// and reports `PassLimit` exactly if `allowance()` passes do not. With a
    /// tolerance above zero, `pass_bound` passes are enough. The monitor,
    /// where it is switched on, never finds a fault.
    pub fn stabilize_water(&mut self) -> (r: Result<(), StabilizeError>)
        requires
            old(self).wf(),
        ensures
            final(self).wf(),
            final(self).tolerance() == old(self).tolerance(),
            final(self).order() == old(self).order(),
            final(self).pass_cap() == old(self).pass_cap(),
            final(self).monitored() == old(self).monitored(),
            final(self).buffer() == old(self).buffer(),
            final(self).passes_made() >= old(self).passes_made(),
            final(self).terrain().wf(),
            final(self).terrain().ground == old(self).terrain().ground,
            old(self).terrain().settles_to(
                old(self).tolerance(),
                old(self).allowance(),
                (final(self).passes_made() - old(self).passes_made()) as nat,
                final(self).terrain(),
                r is Ok,
            ),
            r is Err ==> r == Err::<(), StabilizeError>(StabilizeError::PassLimit),
            old(self).terrain().stable(old(self).tolerance()) ==> r is Ok && final(self).terrain()
                == old(self).terrain() && final(self).passes_made() == old(self).passes_made(),
            old(self).tolerance() > 0real && old(self).allowance() >= pass_bound(
                old(self).terrain(),
                old(self).tolerance(),
            ) ==> r is Ok,
    {
        let ghost start = self.terrain();
        let ghost prec = self.tolerance();
        let ghost first = self.passes as nat;
        let ghost allowed = self.allowance();
        let monitored = self.monitor;
        let lbound = if monitored {
            self.calc_state_lbound()
        } else {
            dec_zero()
        };
        let mut state = if monitored {
            self.calc_state()
        } else {
            dec_zero()
        };
        let mut done: u64 = 0;
        loop
            invariant
                self.wf(),
                start == old(self).terrain(),
                start.wf(),
                prec == old(self).tolerance(),
                prec >= 0real,
                first == old(self).passes_made(),
                allowed == old(self).allowance(),
                self.tolerance() == prec,
                self.order() == old(self).order(),
                self.max_passes == old(self).max_passes,
                self.monitor == old(self).monitor,
                self.results == old(self).results,
                monitored == self.monitor,
                self.passes == first + done,
                done <= allowed,
                self.terrain() == start.settle(prec, done as nat),
                forall|j: nat| j < done ==> !(#[trigger] start.settle(prec, j)).stable(prec),
                monitored ==> decimal_value(state) == terrain_potential(self.terrain()),
                monitored ==> decimal_value(lbound) == ground_potential(self.terrain()),
                -2 * INPUT_SCALE <= decimal_scale(state) <= 4 * INPUT_SCALE,
                -2 * INPUT_SCALE <= decimal_scale(lbound) <= 2 * INPUT_SCALE,
            decreases self.max_passes - done,
        {
            let updates = self.scan();
            proof {
                lemma_nothing_recorded_iff_stable(self.terrain(), prec, self.order());
                assert(moves_of(updates@).len() == updates@.len());
                lemma_settle_keeps_wf(start, prec, done as nat);
            }
            if updates.len() == 0 {
                proof {
                    if start.stable(prec) && done > 0 {
                        assert(!start.settle(prec, 0).stable(prec));
                    }
                    if prec > 0real && allowed >= pass_bound(start, prec) {
                        lemma_success_is_owed(
                            start,
                            prec,
                            allowed,
                            done as nat,
                            self.terrain(),
                            true,
                        );
                    }
                }
                return Ok(());
            }
            if done >= self.max_passes || self.passes >= PASS_LIMIT {
                proof {
                    if start.stable(prec) && done > 0 {
                        assert(!start.settle(prec, 0).stable(prec));
                    }
                    if prec > 0real && allowed >= pass_bound(start, prec) {
                        lemma_success_is_owed(
                            start,
                            prec,
                            allowed,
                            done as nat,
                            self.terrain(),
                            false,
                        );
                    }
                }
                return Err(StabilizeError::PassLimit);
            }
            let ghost before = self.terrain();
            self.apply(&updates);
            self.passes = self.passes + 1;
            proof {
                lemma_recorded_gives_pass(before, prec, self.order());
                lemma_pass_keeps_wf(before, prec);
                assert(self.terrain() == before.pass(prec));
                assert forall|i: int| 0 <= i < self.points.len() implies (
                #[trigger] self.points[i]).water_value() >= 0real by {
                    assert(self.terrain().water[i] >= 0real);
                }
                assert(start.settle(prec, (done + 1) as nat) == before.pass(prec));
            }
            done = done + 1;
            if monitored {
                let new_state = self.calc_state();
                proof {
                    lemma_pass_lowers_potential(before, prec);
                    lemma_potential_above_ground(before);
                    lemma_potential_above_ground(self.terrain());
                }
                match check_progress(&state, &new_state, &lbound) {
                    Err(fault) => {
                        return Err(StabilizeError::Monitor(fault));
                    },
                    Ok(()) => {
                        state = new_state;
                    },
                }
            }
        }
    }

    /// Puts on every point the amount of rain that `rain_distr` gives for
    /// its index.
    fn pour<F: Fn(usize) -> BigDecimal>(&mut self, rain_distr: F) -> (amounts: Ghost<Seq<real>>)
        requires
            old(self).wf(),
            forall|i: usize| i < old(self).terrain().len() ==> call_requires(rain_distr, (i,)),
            forall|i: usize, a: BigDecimal| call_ensures(rain_distr, (i,), a) ==> takes(a),
        ensures
            final(self).wf(),
            final(self).tolerance() == old(self).tolerance(),
            final(self).order() == old(self).order(),
            final(self).pass_cap() == old(self).pass_cap(),
            final(self).monitored() == old(self).monitored(),
            final(self).buffer() == old(self).buffer(),
            final(self).passes_made() == old(self).passes_made(),
            amounts@.len() == old(self).terrain().len(),
            forall|i: int| 0 <= i < amounts@.len() ==> #[trigger] gives(rain_distr, i, amounts@[i]),
            forall|i: int| 0 <= i < amounts@.len() ==> #[trigger] amounts@[i] >= 0real,
            final(self).terrain() == old(self).terrain().rained(amounts@),
    {
        pour_on(&mut self.points, rain_distr, Ghost(INPUT_SCALE + self.passes))
    }

    /// Copies the level of every point into the result buffer.
    fn snapshot(&mut self)
        requires
            old(self).wf(),
        ensures
            final(self).wf(),
            final(self).terrain() == old(self).terrain(),
            final(self).tolerance() == old(self).tolerance(),
            final(self).order() == old(self).order(),
            final(self).pass_cap() == old(self).pass_cap(),
            final(self).monitored() == old(self).monitored(),
            final(self).passes_made() == old(self).passes_made(),
            final(self).results@.len() == final(self).terrain().len(),
            forall|i: int|
                0 <= i < final(self).results@.len() ==> decimal_value(
                    #[trigger] final(self).results@[i],
                ) == final(self).terrain().level(i) && operable(final(self).results@[i]),
    {
        levels_into(&self.points, &mut self.results);
    }

    /// Redistributes the water after rain until it is stable and, if asked
    /// to, hands back the levels of all points. `origin` is the landscape
    /// as it was when the rain began, and `amounts` what has fallen since.
    fn come_to_rest(
        &mut self,
        return_result: bool,
        Ghost(origin): Ghost<Landscape>,
        Ghost(amounts): Ghost<Seq<real>>,
    ) -> (r: Result<&[BigDecimal], StabilizeError>)
        requires
            old(self).wf(),
            origin.wf(),
            amounts.len() == origin.terrain().len(),
            forall|i: int| 0 <= i < amounts.len() ==> #[trigger] amounts[i] >= 0real,
            old(self).terrain() == origin.terrain().rained(amounts),
            old(self).tolerance() == origin.tolerance(),
            old(self).order() == origin.order(),
            old(self).pass_cap() == origin.pass_cap(),
            old(self).monitored() == origin.monitored(),
            old(self).passes_made() == origin.passes_made(),
        ensures
            origin.steps_to(amounts, *final(self), r is Ok),
            r is Err ==> r->Err_0 == StabilizeError::PassLimit,
            r is Ok ==> final(self).reports(r->Ok_0@, return_result),
            r is Ok && return_result ==> final(self).buffer() == r->Ok_0@,
            !(r is Ok && return_result) ==> final(self).buffer() == old(self).buffer(),
    {
        let ghost wet = self.terrain();
        let ghost prec = self.tolerance();
        let ghost first = self.passes_made();
        let settled = self.stabilize_water();
        proof {
            origin.lemma_wf();
            old(self).lemma_wf();
            lemma_rain_adds(origin.terrain(), amounts);
            lemma_total_non_negative(amounts, amounts.len() as int);
            lemma_settle_conserves(wet, prec, (self.passes_made() - first) as nat);
        }
        match settled {
            Err(e) => Err(e),
            Ok(()) => {
                if return_result {
                    self.snapshot();
                    Ok(self.results.as_slice())
                } else {
                    Ok(&[])
                }
            },
        }
    }

    /// Simulates one step of falling rain: puts on every point the amount
    /// that `rain_distr` gives for its index, and redistributes the water
    /// until it is stable. With `return_result` the levels of all points
    /// come back, in the order in which the points were given; without it,
    /// an empty row.
    ///
    /// The step fails exactly if the water is not stable after the passes
    /// that `allowance()` admits; the landscape then holds the water as those
    /// passes left it.
    pub fn rain<F: Fn(usize) -> BigDecimal>(&mut self, rain_distr: F, return_result: bool) -> (r:
        Result<&[BigDecimal], StabilizeError>)
        requires
            old(self).wf(),
            forall|i: usize| i < old(self).terrain().len() ==> call_requires(rain_distr, (i,)),
            forall|i: usize, a: BigDecimal| call_ensures(rain_distr, (i,), a) ==> takes(a),
        ensures
            exists|amounts: Seq<real>|
                #![trigger amounts.len()]
                {
                    &&& amounts.len() == old(self).terrain().len()
                    &&& forall|i: int|
                        #![trigger amounts[i]]
                        0 <= i < amounts.len() ==> amounts[i] >= 0real
                            && exists|a: BigDecimal|
                            #![trigger call_ensures(rain_distr, (i as usize,), a)]
                            call_ensures(rain_distr, (i as usize,), a) && decimal_value(a)
                                == amounts[i]
                    &&& old(self).steps_to(amounts, *final(self), r is Ok)
                },
            r is Err ==> r->Err_0 == StabilizeError::PassLimit,
            r is Ok ==> final(self).reports(r->Ok_0@, return_result),
            r is Ok && return_result ==> final(self).buffer() == r->Ok_0@,
            !(r is Ok && return_result) ==> final(self).buffer() == old(self).buffer(),
    {
        proof {
            self.lemma_wf();
        }
        let ghost origin = *self;
        let amounts = self.pour(rain_distr);
        proof {
            assert forall|i: int| 0 <= i < amounts@.len() implies gives(
                rain_distr,
                i,
                #[trigger] amounts@[i],
            ) by {
                assert(gives(rain_distr, i, amounts@[i]));
            }
        }
        self.come_to_rest(return_result, Ghost(origin), amounts)
    }

    /// Simulates one step of rain that falls evenly: `cnt` on every point.
    pub fn rain_uniform(&mut self, cnt: BigDecimal, return_result: bool) -> (r: Result<
        &[BigDecimal],
        StabilizeError,
    >)
        requires
            old(self).wf(),
            takes(cnt),
        ensures
            old(self).steps_to(
                even_rain(old(self).terrain().len(), decimal_value(cnt)),
                *final(self),
                r is Ok,
            ),
            total(final(self).terrain().water) == total(old(self).terrain().water)
                + old(self).terrain().len() as real * decimal_value(cnt),
            r is Err ==> r->Err_0 == StabilizeError::PassLimit,
            r is Ok ==> final(self).reports(r->Ok_0@, return_result),
            r is Ok && return_result ==> final(self).buffer() == r->Ok_0@,
            !(r is Ok && return_result) ==> final(self).buffer() == old(self).buffer(),
    {
        proof {
            self.lemma_wf();
        }
        let ghost origin = *self;
        let ghost start = self.terrain();
        let ghost amount = decimal_value(cnt);
        let ghost places = decimal_scale(cnt);
        let ghost even = even_rain(start.len(), amount);
        let each = &cnt;
        let drop = |_i: usize| -> (a: BigDecimal)
            ensures
                decimal_value(a) == amount,
                decimal_scale(a) == places,
            { dec_clone(each) };
        let amounts = self.pour(drop);
        proof {
            assert forall|i: int| 0 <= i < amounts@.len() implies amounts@[i] == even[i] by {
                assert(gives(drop, i, amounts@[i]));
            }
            assert(amounts@ =~= even);
            crate::laws::lemma_total_uniform(start.len(), amount);
        }
        self.come_to_rest(return_result, Ghost(origin), Ghost(even))
    }

    /// One step of even rain, if `cnt` can be taken as rain; `None`, with the
    /// landscape as it was, if `cnt` is negative or has a scale beyond the
    /// limit.
    pub fn try_rain_uniform(&mut self, cnt: BigDecimal, return_result: bool) -> (r: Option<
        Result<&[BigDecimal], StabilizeError>,
    >)
        requires
            old(self).wf(),
        ensures
            r is Some <==> takes(cnt),
            r is None ==> *final(self) == *old(self),
            r is Some ==> {
                let step = r->Some_0;
                &&& old(self).steps_to(
                    even_rain(old(self).terrain().len(), decimal_value(cnt)),
                    *final(self),
                    step is Ok,
                )
                &&& total(final(self).terrain().water) == total(old(self).terrain().water)
                    + old(self).terrain().len() as real * decimal_value(cnt)
                &&& step is Err ==> step->Err_0 == StabilizeError::PassLimit
                &&& step is Ok ==> final(self).reports(step->Ok_0@, return_result)
                &&& step is Ok && return_result ==> final(self).buffer() == step->Ok_0@
                &&& !(step is Ok && return_result) ==> final(self).buffer() == old(self).buffer()
            },
    {
        if is_taken(&cnt) {
            Some(self.rain_uniform(cnt, return_result))
        } else {
            None
        }
    }
}

} // verus!
