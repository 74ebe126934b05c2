//! A row of points: what every engine does with it, whatever the way it
//! moves the water.

use vstd::prelude::*;
use bigdecimal::BigDecimal;
use crate::decimal::{
    decimal_value, decimal_scale, admissible, operable, INPUT_SCALE, dec_add, dec_lt, dec_clone,
    dec_zero, dec_square, dec_half, is_admissible, is_non_negative,
};
use crate::flow::{Terrain, chain_neighbors, as_ints, squares_upto};
use crate::order::lemma_lower_among_push;
use crate::point::Point;
use crate::potential::{terrain_potential, ground_potential};
use crate::topology::Iter1D;

verus! {

/// The tolerance of a landscape that was given none: one hundredth.
pub open spec fn default_tolerance() -> real {
    1real / 100real
}

/// `d` can be a ground height, a tolerance or an amount of rain: it is zero
/// or more, and its scale is one that the library takes.
pub open spec fn takes(d: BigDecimal) -> bool {
    admissible(d) && decimal_value(d) >= 0real
}

/// Every height of the row can be a ground height.
pub open spec fn takes_all(ph: Seq<BigDecimal>) -> bool {
    forall|i: int| 0 <= i < ph.len() ==> takes(#[trigger] ph[i])
}

/// `rain_distr` may give the amount `x` for point `i`.
pub open spec fn gives<F: Fn(usize) -> BigDecimal>(rain_distr: F, i: int, x: real) -> bool {
    exists|a: BigDecimal|
        #[trigger] call_ensures(rain_distr, (i as usize,), a) && decimal_value(a) == x
}

/// Ground and water of a row of points.
pub open spec fn terrain_of(points: Seq<Point>) -> Terrain {
    Terrain {
        ground: Seq::new(points.len(), |i: int| points[i].ground_value()),
        water: Seq::new(points.len(), |i: int| points[i].water_value()),
    }
}

/// Every point of the row is sound, and the scale of its water is at most
/// `places`.
pub open spec fn all_sound(points: Seq<Point>, places: int) -> bool {
    forall|i: int|
        0 <= i < points.len() ==> (#[trigger] points[i]).sound() && points[i].water_scale()
            <= places
}

/// No point of the row holds a negative amount of water.
pub open spec fn none_negative(points: Seq<Point>) -> bool {
    forall|i: int| 0 <= i < points.len() ==> (#[trigger] points[i]).water_value() >= 0real
}

/// Whether `d` can be a ground height, a tolerance or an amount of rain.
pub fn is_taken(d: &BigDecimal) -> (r: bool)
    ensures
        r == takes(*d),
{
    is_admissible(d) && is_non_negative(d)
}

/// What a point offers to each of `count` neighbours: its water, divided
/// by their number. A point of a chain has two neighbours at most, and
/// halving a decimal is exact, where dividing it would round.
pub(crate) fn equal_share(water: &BigDecimal, count: usize) -> (r: BigDecimal)
    requires
        count == 1 || count == 2,
        -INPUT_SCALE <= decimal_scale(*water) <= 2 * INPUT_SCALE,
    ensures
        decimal_value(r) == if count == 2 {
            decimal_value(*water) / 2real
        } else {
            decimal_value(*water)
        },
        decimal_scale(*water) <= decimal_scale(r) <= decimal_scale(*water) + 1,
{
    if count == 1 {
        dec_clone(water)
    } else {
        dec_half(water)
    }
}

/// A row of dry points with the ground at the given heights.
pub(crate) fn dry_points(ph: &Vec<BigDecimal>) -> (points: Vec<Point>)
    requires
        takes_all(ph@),
    ensures
        points@.len() == ph@.len(),
        all_sound(points@, 0),
        none_negative(points@),
        terrain_of(points@).ground == Seq::new(ph@.len(), |i: int| decimal_value(ph@[i])),
        terrain_of(points@).water == Seq::new(ph@.len(), |i: int| 0real),
{
    let n = ph.len();
    let mut points: Vec<Point> = Vec::new();
    let mut i: usize = 0;
    while i < n
        invariant
            i <= n,
            n == ph@.len(),
            points@.len() == i,
            takes_all(ph@),
            forall|k: int|
                0 <= k < i ==> (#[trigger] points@[k]).wf() && points@[k].water_scale() == 0
                    && points@[k].water_value() == 0real && points@[k].ground_value()
                    == decimal_value(ph@[k]),
        decreases n - i,
    {
        let h = dec_clone(&ph[i]);
        points.push(Point::with_height(h));
        i += 1;
    }
    proof {
        assert(terrain_of(points@).ground =~= Seq::new(ph@.len(), |i: int| decimal_value(ph@[i])));
        assert(terrain_of(points@).water =~= Seq::new(ph@.len(), |i: int| 0real));
    }
    points
}

/// The neighbours of point `pi` that lie lower than its level `ph` by more
/// than the tolerance.
pub(crate) fn lower_neighbours(
    points: &Vec<Point>,
    precision: &BigDecimal,
    pi: usize,
    ph: &BigDecimal,
) -> (targets: Vec<usize>)
    requires
        all_sound(points@, 2 * INPUT_SCALE),
        admissible(*precision),
        pi < points@.len(),
        decimal_value(*ph) == terrain_of(points@).level(pi as int),
        -INPUT_SCALE <= decimal_scale(*ph) <= 2 * INPUT_SCALE,
    ensures
        as_ints(targets@) == terrain_of(points@).lower_among(
            decimal_value(*precision),
            pi as int,
            chain_neighbors(points@.len(), pi as int),
        ),
{
    let mut targets: Vec<usize> = Vec::new();
    let mut it = Iter1D::new(pi, points.len());
    let ghost t = terrain_of(points@);
    let ghost prec = decimal_value(*precision);
    let ghost near = chain_neighbors(t.len(), pi as int);
    let ghost mut seen: int = 0;
    proof {
        assert(near.skip(0) =~= near);
        assert(near.take(0) =~= Seq::<int>::empty());
        assert(as_ints(targets@) =~= t.lower_among(prec, pi as int, near.take(0)));
    }
    loop
        invariant_except_break
            0 <= seen <= near.len(),
            it.remaining() == near.skip(seen),
        invariant
            it.wf(),
            all_sound(points@, 2 * INPUT_SCALE),
            admissible(*precision),
            pi < points@.len(),
            t == terrain_of(points@),
            prec == decimal_value(*precision),
            near == chain_neighbors(t.len(), pi as int),
            decimal_value(*ph) == t.level(pi as int),
            -INPUT_SCALE <= decimal_scale(*ph) <= 2 * INPUT_SCALE,
            as_ints(targets@) == t.lower_among(prec, pi as int, near.take(seen)),
        ensures
            seen == near.len(),
        decreases it.remaining().len(),
    {
        match it.next() {
            Some(ni) => {
                assert(ni == near[seen]);
                assert(0 <= near[seen] < t.len());
                assert(points@[ni as int].sound());
                let nh = points[ni].get_height();
                let bar = dec_add(&nh, precision);
                let lower = dec_lt(&bar, ph);
                let ghost before = as_ints(targets@);
                if lower {
                    targets.push(ni);
                }
                proof {
                    lemma_lower_among_push(t, prec, pi as int, near.take(seen), ni as int);
                    assert(near.take(seen + 1) =~= near.take(seen).push(ni as int));
                    assert(near.skip(seen).drop_first() =~= near.skip(seen + 1));
                    if lower {
                        assert(as_ints(targets@) =~= before.push(ni as int));
                    }
                    seen = seen + 1;
                }
            },
            None => {
                break ;
            },
        }
    }
    proof {
        assert(near.take(seen) =~= near);
    }
    targets
}

/// Puts on every point the amount of rain that `rain_distr` gives for its
/// index.
pub(crate) fn pour_on<F: Fn(usize) -> BigDecimal>(
    points: &mut Vec<Point>,
    rain_distr: F,
    Ghost(places): Ghost<int>,
) -> (amounts: Ghost<Seq<real>>)
    requires
        INPUT_SCALE <= places <= 2 * INPUT_SCALE,
        all_sound(old(points)@, places),
        none_negative(old(points)@),
        forall|i: usize| i < old(points)@.len() ==> call_requires(rain_distr, (i,)),
        forall|i: usize, a: BigDecimal| call_ensures(rain_distr, (i,), a) ==> takes(a),
    ensures
        all_sound(final(points)@, places),
        none_negative(final(points)@),
        final(points)@.len() == old(points)@.len(),
        amounts@.len() == old(points)@.len(),
        forall|i: int| 0 <= i < amounts@.len() ==> #[trigger] gives(rain_distr, i, amounts@[i]),
        forall|i: int| 0 <= i < amounts@.len() ==> #[trigger] amounts@[i] >= 0real,
        terrain_of(final(points)@) == terrain_of(old(points)@).rained(amounts@),
{
    let ghost start = terrain_of(points@);
    let ghost mut amounts: Seq<real> = Seq::empty();
    let n = points.len();
    let mut idx: usize = 0;
    while idx < n
        invariant
            idx <= n,
            n == points@.len(),
            n == start.len(),
            start == terrain_of(old(points)@),
            none_negative(old(points)@),
            INPUT_SCALE <= places <= 2 * INPUT_SCALE,
            all_sound(points@, places),
            forall|i: usize| i < n ==> call_requires(rain_distr, (i,)),
            forall|i: usize, a: BigDecimal| call_ensures(rain_distr, (i,), a) ==> takes(a),
            amounts.len() == idx,
            forall|i: int| 0 <= i < idx ==> #[trigger] gives(rain_distr, i, amounts[i]),
            forall|i: int| 0 <= i < idx ==> #[trigger] amounts[i] >= 0real,
            terrain_of(points@).ground == start.ground,
            forall|i: int|
                0 <= i < idx ==> (#[trigger] points@[i]).water_value() == start.water[i]
                    + amounts[i],
            forall|i: int| idx <= i < n ==> (#[trigger] points@[i]).water_value() == start.water[i],
        decreases n - idx,
    {
        let ghost points_before = points@;
        let ghost ground_before = terrain_of(points@).ground;
        let amount = rain_distr(idx);
        proof {
            assert(call_ensures(rain_distr, (idx,), amount));
            assert((idx as int) as usize == idx);
            assert(gives(rain_distr, idx as int, decimal_value(amount)));
            let ghost so_far = amounts;
            amounts = amounts.push(decimal_value(amount));
            assert forall|i: int| 0 <= i < idx + 1 implies #[trigger] gives(
                rain_distr,
                i,
                amounts[i],
            ) by {
                if i < idx {
                    assert(amounts[i] == so_far[i]);
                    assert(gives(rain_distr, i, so_far[i]));
                }
            }
            assert(points@[idx as int].sound());
        }
        points[idx].rain(amount);
        proof {
            assert forall|i: int| 0 <= i < points@.len() implies (#[trigger] points@[i]).sound()
                && points@[i].water_scale() <= places by {
                if i != idx {
                    assert(points@[i] == points_before[i]);
                }
                assert(points_before[i].sound());
            }
            assert(terrain_of(points@).ground =~= ground_before) by {
                assert forall|i: int| 0 <= i < n implies points@[i].ground_value()
                    == points_before[i].ground_value() by {
                    if i != idx {
                        assert(points@[i] == points_before[i]);
                    }
                }
            }
            assert forall|i: int| 0 <= i < idx + 1 implies (#[trigger] points@[i]).water_value()
                == start.water[i] + amounts[i] by {
                if i != idx {
                    assert(points@[i] == points_before[i]);
                }
            }
            assert forall|i: int| idx + 1 <= i < n implies (#[trigger] points@[i]).water_value()
                == start.water[i] by {
                assert(points@[i] == points_before[i]);
            }
        }
        idx += 1;
    }
    proof {
        assert(terrain_of(points@).water =~= start.rained(amounts).water);
        assert forall|i: int| 0 <= i < points@.len() implies (#[trigger] points@[i]).water_value()
            >= 0real by {
            assert(old(points)@[i].water_value() >= 0real);
            assert(start.water[i] >= 0real);
            assert(amounts[i] >= 0real);
        }
    }
    Ghost(amounts)
}

/// Copies the level of every point into the result buffer.
pub(crate) fn levels_into(points: &Vec<Point>, results: &mut Vec<BigDecimal>)
    requires
        all_sound(points@, 2 * INPUT_SCALE),
        old(results)@.len() == points@.len(),
    ensures
        final(results)@.len() == points@.len(),
        forall|i: int|
            0 <= i < final(results)@.len() ==> decimal_value(#[trigger] final(results)@[i])
                == terrain_of(points@).level(i) && operable(final(results)@[i]),
{
    let n = points.len();
    let mut i: usize = 0;
    while i < n
        invariant
            i <= n,
            n == points@.len(),
            results@.len() == n,
            all_sound(points@, 2 * INPUT_SCALE),
            forall|k: int|
                0 <= k < i ==> decimal_value(#[trigger] results@[k]) == terrain_of(points@).level(
                    k,
                ) && operable(results@[k]),
        decreases n - i,
    {
        assert(points@[i as int].sound());
        let h = points[i].get_height();
        results[i] = h;
        i += 1;
    }
}

/// The potential of a row of points: the sum of the squares of their
/// levels.
pub(crate) fn potential_of(points: &Vec<Point>) -> (state: BigDecimal)
    requires
        all_sound(points@, 2 * INPUT_SCALE),
    ensures
        decimal_value(state) == terrain_potential(terrain_of(points@)),
        -2 * INPUT_SCALE <= decimal_scale(state) <= 4 * INPUT_SCALE,
{
    let mut state = dec_zero();
    let n = points.len();
    let mut i: usize = 0;
    while i < n
        invariant
            i <= n,
            n == points@.len(),
            all_sound(points@, 2 * INPUT_SCALE),
            decimal_value(state) == squares_upto(terrain_of(points@).levels(), i as int),
            -2 * INPUT_SCALE <= decimal_scale(state) <= 4 * INPUT_SCALE,
        decreases n - i,
    {
        assert(points@[i as int].sound());
        let h = points[i].get_height();
        let sq = dec_square(&h);
        state = dec_add(&state, &sq);
        proof {
            assert(terrain_of(points@).levels()[i as int] == decimal_value(h));
        }
        i += 1;
    }
    state
}

/// The potential of the bare ground of a row of points: the sum of the
/// squares of their ground heights.
pub(crate) fn ground_potential_of(points: &Vec<Point>) -> (lbound: BigDecimal)
    requires
        all_sound(points@, 2 * INPUT_SCALE),
    ensures
        decimal_value(lbound) == ground_potential(terrain_of(points@)),
        -2 * INPUT_SCALE <= decimal_scale(lbound) <= 2 * INPUT_SCALE,
{
    let mut lbound = dec_zero();
    let n = points.len();
    let mut i: usize = 0;
    while i < n
        invariant
            i <= n,
            n == points@.len(),
            all_sound(points@, 2 * INPUT_SCALE),
            decimal_value(lbound) == squares_upto(terrain_of(points@).ground, i as int),
            -2 * INPUT_SCALE <= decimal_scale(lbound) <= 2 * INPUT_SCALE,
        decreases n - i,
    {
        assert(points@[i as int].sound());
        let g = points[i].ground();
        let sq = dec_square(&g);
        lbound = dec_add(&lbound, &sq);
        i += 1;
    }
    lbound
}

} // verus!
