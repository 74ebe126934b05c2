//! The potential of a terrain: the sum of the squares of its levels.
//!
//! Every pass that moves water lowers the potential, and by more than a
//! quarter of the square of the tolerance. The potential never falls below
//! that of the bare ground. So, with a tolerance above zero, the passes come
//! to an end.

use vstd::prelude::*;
use crate::flow::{Terrain, squares_upto, potential};
use crate::laws::{lemma_transfer_bounds, lemma_pass_keeps_wf, lemma_settle_keeps_wf};

verus! {

/// The water that crosses from point `e` to point `e + 1` in a pass, counted
/// below zero where it crosses the other way.
pub open spec fn crossing(t: Terrain, prec: real, e: int) -> real {
    t.transfer(prec, e, e + 1) - t.transfer(prec, e + 1, e)
}

/// The least by which a pass that moves water lowers the potential: a
/// quarter of the square of the tolerance.
pub open spec fn least_drop(prec: real) -> real {
    prec * prec / 4real
}

/// What the first `m` points contribute to the fall of the potential,
/// beyond what is needed to make up for the rise at the receiving points.
pub open spec fn slack_upto(t: Terrain, prec: real, m: int) -> real
    decreases m,
{
    if m <= 0 {
        0real
    } else {
        slack_upto(t, prec, m - 1) + (crossing(t, prec, m - 2) + crossing(t, prec, m - 1)) * (
        crossing(t, prec, m - 2) + crossing(t, prec, m - 1))
    }
}

/// The potential of the terrain.
pub open spec fn terrain_potential(t: Terrain) -> real {
    potential(t.levels())
}

/// The potential of the bare ground of the terrain.
pub open spec fn ground_potential(t: Terrain) -> real {
    potential(t.ground)
}

/// Water crosses a border in one direction only; it runs downhill, it is
/// no more than half the difference in level, and where it runs at all it
/// is more than half the tolerance.
proof fn lemma_crossing(t: Terrain, prec: real, e: int)
    requires
        t.wf(),
        prec >= 0real,
    ensures
        crossing(t, prec, e) * (t.level(e) - t.level(e + 1)) >= 2real * (crossing(t, prec, e)
            * crossing(t, prec, e)),
        crossing(t, prec, e) == 0real || crossing(t, prec, e) * crossing(t, prec, e)
            > least_drop(prec),
        !(0 <= e && e + 1 < t.len()) ==> crossing(t, prec, e) == 0real,
        crossing(t, prec, e) == 0real <==> !t.flows(prec, e, e + 1) && !t.flows(prec, e + 1, e),
{
    lemma_transfer_bounds(t, prec, e, e + 1);
    lemma_transfer_bounds(t, prec, e + 1, e);
    let g = crossing(t, prec, e);
    let d = t.level(e) - t.level(e + 1);
    if t.flows(prec, e, e + 1) {
        assert(!t.flows(prec, e + 1, e));
        assert(g * d >= 2real * (g * g)) by (nonlinear_arith)
            requires
                g > 0real,
                2real * g <= d,
        ;
        assert(g * g > prec * prec / 4real) by (nonlinear_arith)
            requires
                g > prec / 2real,
                prec >= 0real,
        ;
    } else if t.flows(prec, e + 1, e) {
        assert(g * d >= 2real * (g * g)) by (nonlinear_arith)
            requires
                g < 0real,
                2real * (-g) <= -d,
        ;
        assert(g * g > prec * prec / 4real) by (nonlinear_arith)
            requires
                -g > prec / 2real,
                prec >= 0real,
        ;
    } else {
        assert(g == 0real);
        assert(g * d >= 2real * (g * g)) by (nonlinear_arith)
            requires
                g == 0real,
        ;
    }
}

/// The slack is never negative, and it is more than the least drop as soon
/// as water crosses one of the borders counted.
proof fn lemma_slack(t: Terrain, prec: real, m: int)
    requires
        t.wf(),
        prec >= 0real,
        0 <= m,
    ensures
        slack_upto(t, prec, m) >= 0real,
        (exists|e: int| 0 <= e < m && crossing(t, prec, e) != 0real) ==> slack_upto(t, prec, m)
            > least_drop(prec),
    decreases m,
{
    if m > 0 {
        lemma_slack(t, prec, m - 1);
        let a = crossing(t, prec, m - 2);
        let b = crossing(t, prec, m - 1);
        assert((a + b) * (a + b) >= 0real) by (nonlinear_arith);
        if exists|e: int| 0 <= e < m && crossing(t, prec, e) != 0real {
            let e = choose|e: int| 0 <= e < m && crossing(t, prec, e) != 0real;
            if exists|f: int| 0 <= f < m - 1 && crossing(t, prec, f) != 0real {
            } else {
                assert(e == m - 1);
                lemma_crossing(t, prec, m - 2);
                lemma_crossing(t, prec, m - 1);
                if m - 2 >= 0 {
                    assert(crossing(t, prec, m - 2) == 0real);
                }
                assert(a == 0real);
                assert((a + b) * (a + b) == b * b) by (nonlinear_arith)
                    requires
                        a == 0real,
                ;
            }
        }
    }
}

/// How far the potential of the first `m` points has fallen in a pass.
proof fn lemma_drop_prefix(t: Terrain, prec: real, m: int)
    requires
        t.wf(),
        prec >= 0real,
        0 <= m <= t.len(),
    ensures
        squares_upto(t.pass(prec).levels(), m) - squares_upto(t.levels(), m) + 2real * (t.level(m)
            * crossing(t, prec, m - 1)) + 2real * (crossing(t, prec, m - 1) * crossing(
            t,
            prec,
            m - 1,
        )) + slack_upto(t, prec, m) <= 0real,
    decreases m,
{
    if m == 0 {
        lemma_crossing(t, prec, -1);
        let g = crossing(t, prec, -1);
        let h = t.level(0);
        assert(2real * (h * g) + 2real * (g * g) == 0real) by (nonlinear_arith)
            requires
                g == 0real,
        ;
    } else {
        lemma_drop_prefix(t, prec, m - 1);
        lemma_crossing(t, prec, m - 1);
        lemma_pass_keeps_wf(t, prec);
        let after = t.pass(prec);
        let ga = crossing(t, prec, m - 2);
        let gb = crossing(t, prec, m - 1);
        let ha = t.level(m - 1);
        let hb = t.level(m);
        let before_sum = squares_upto(after.levels(), m - 1) - squares_upto(t.levels(), m - 1);
        let now_sum = squares_upto(after.levels(), m) - squares_upto(t.levels(), m);
        let slack_before = slack_upto(t, prec, m - 1);
        let slack_now = slack_upto(t, prec, m);
        let new_level = after.levels()[m - 1];
        assert(t.levels()[m - 1] == ha);
        assert(new_level == after.level(m - 1));
        assert(after.water[m - 1] == t.water_after(prec, m - 1));
        assert(new_level == ha + ga - gb);
        assert(now_sum == before_sum + new_level * new_level - ha * ha);
        assert(slack_now == slack_before + (ga + gb) * (ga + gb));
        assert(now_sum + 2real * (hb * gb) + 2real * (gb * gb) + slack_now <= 0real)
            by (nonlinear_arith)
            requires
                before_sum + 2real * (ha * ga) + 2real * (ga * ga) + slack_before <= 0real,
                now_sum == before_sum + new_level * new_level - ha * ha,
                new_level == ha + ga - gb,
                slack_now == slack_before + (ga + gb) * (ga + gb),
                gb * (ha - hb) >= 2real * (gb * gb),
        ;
    }
}

/// Monotonic potential: a pass that moves water lowers the potential, by
/// more than the least drop; a pass that moves none leaves it as it is.
pub proof fn lemma_pass_lowers_potential(t: Terrain, prec: real)
    requires
        t.wf(),
        prec >= 0real,
    ensures
        !t.stable(prec) ==> terrain_potential(t.pass(prec)) < terrain_potential(t) - least_drop(
            prec,
        ),
        !t.stable(prec) ==> terrain_potential(t.pass(prec)) < terrain_potential(t),
        terrain_potential(t.pass(prec)) <= terrain_potential(t),
{
    let n = t.len() as int;
    lemma_drop_prefix(t, prec, n);
    lemma_slack(t, prec, n);
    lemma_crossing(t, prec, n - 1);
    let g = crossing(t, prec, n - 1);
    let h = t.level(n);
    assert(2real * (h * g) + 2real * (g * g) == 0real) by (nonlinear_arith)
        requires
            g == 0real,
    ;
    assert(least_drop(prec) >= 0real) by (nonlinear_arith)
        requires
            prec >= 0real,
    ;
    lemma_pass_keeps_wf(t, prec);
    if !t.stable(prec) {
        let (i, j) = choose|i: int, j: int| t.flows(prec, i, j);
        let e = if j == i + 1 {
            i
        } else {
            j
        };
        lemma_crossing(t, prec, e);
        assert(0 <= e < n && crossing(t, prec, e) != 0real);
    }
}

/// The potential never lies below that of the bare ground.
pub proof fn lemma_potential_above_ground(t: Terrain)
    requires
        t.wf(),
    ensures
        ground_potential(t) <= terrain_potential(t),
{
    lemma_at_ground_prefix(t, t.len() as int);
}

/// A number of passes within which a terrain comes to rest, if the
/// tolerance is above zero: one more than the potential above the ground
/// holds least drops.
pub open spec fn pass_bound(t: Terrain, prec: real) -> nat {
    (((terrain_potential(t) - ground_potential(t)) / least_drop(prec)).floor() + 1) as nat
}

/// After `k` passes that each found the terrain unstable, the potential has
/// fallen by `k` least drops or more.
pub proof fn lemma_unstable_run(t: Terrain, prec: real, k: nat)
    requires
        t.wf(),
        prec >= 0real,
        forall|j: nat| j < k ==> !(#[trigger] t.settle(prec, j)).stable(prec),
    ensures
        terrain_potential(t.settle(prec, k)) <= terrain_potential(t) - k as real * least_drop(prec),
    decreases k,
{
    if k == 0 {
        assert(0 as real * least_drop(prec) == 0real) by (nonlinear_arith);
    } else {
        let j = (k - 1) as nat;
        lemma_unstable_run(t, prec, j);
        lemma_settle_keeps_wf(t, prec, j);
        assert(!t.settle(prec, j).stable(prec));
        lemma_pass_lowers_potential(t.settle(prec, j), prec);
        let q = least_drop(prec);
        assert(k as real == j as real + 1real);
        assert(k as real * q == j as real * q + q) by (nonlinear_arith)
            requires
                k as real == j as real + 1real,
        ;
    }
}

/// Fixed-point termination: with a tolerance above zero, a terrain is
/// stable after `pass_bound` passes at the latest.
pub proof fn lemma_settles_within_bound(t: Terrain, prec: real)
    requires
        t.wf(),
        prec > 0real,
    ensures
        exists|k: nat| k < pass_bound(t, prec) && (#[trigger] t.settle(prec, k)).stable(prec),
{
    let q = least_drop(prec);
    let above = terrain_potential(t) - ground_potential(t);
    let bound = pass_bound(t, prec);
    assert(q > 0real) by (nonlinear_arith)
        requires
            prec > 0real,
            q == prec * prec / 4real,
    ;
    lemma_potential_above_ground(t);
    let ratio = above / q;
    assert(ratio * q == above) by (nonlinear_arith)
        requires
            q > 0real,
            ratio == above / q,
    ;
    assert(ratio >= 0real) by (nonlinear_arith)
        requires
            q > 0real,
            above >= 0real,
            ratio * q == above,
    ;
    assert(ratio.floor() >= 0);
    assert(bound as real > ratio);
    if forall|j: nat| j < bound ==> !(#[trigger] t.settle(prec, j)).stable(prec) {
        lemma_unstable_run(t, prec, bound);
        lemma_settle_keeps_wf(t, prec, bound);
        lemma_potential_above_ground(t.settle(prec, bound));
        assert(ground_potential(t.settle(prec, bound)) == ground_potential(t));
        assert(bound as real * q > above) by (nonlinear_arith)
            requires
                bound as real > ratio,
                q > 0real,
                ratio * q == above,
        ;
        assert(false);
    }
}

/// With a tolerance above zero, a stabilization that may make `pass_bound`
/// passes or more ends with the terrain stable.
pub proof fn lemma_success_is_owed(
    t: Terrain,
    prec: real,
    allowance: nat,
    made: nat,
    after: Terrain,
    ok: bool,
)
    requires
        t.wf(),
        prec > 0real,
        allowance >= pass_bound(t, prec),
        t.settles_to(prec, allowance, made, after, ok),
    ensures
        ok,
        made < pass_bound(t, prec),
{
    lemma_settles_within_bound(t, prec);
    let k = choose|k: nat| k < pass_bound(t, prec) && (#[trigger] t.settle(prec, k)).stable(prec);
    if !ok {
        assert(made == allowance);
        assert(k < made);
    }
    if made >= pass_bound(t, prec) {
        assert(k < made);
    }
}

/// The potential of the first `m` points is no less than that of their
/// ground, and equal to it exactly if none of them holds water.
proof fn lemma_at_ground_prefix(t: Terrain, m: int)
    requires
        t.wf(),
        0 <= m <= t.len(),
    ensures
        squares_upto(t.ground, m) <= squares_upto(t.levels(), m),
        squares_upto(t.ground, m) == squares_upto(t.levels(), m) <==> forall|i: int|
            0 <= i < m ==> t.water[i] == 0real,
    decreases m,
{
    if m > 0 {
        lemma_at_ground_prefix(t, m - 1);
        let g = t.ground[m - 1];
        let w = t.water[m - 1];
        assert(t.levels()[m - 1] == g + w);
        assert(g * g <= (g + w) * (g + w)) by (nonlinear_arith)
            requires
                g >= 0real,
                w >= 0real,
        ;
        if w > 0real {
            assert(g * g < (g + w) * (g + w)) by (nonlinear_arith)
                requires
                    g >= 0real,
                    w > 0real,
            ;
        } else {
            assert(w == 0real);
            assert((g + w) * (g + w) == g * g) by (nonlinear_arith)
                requires
                    w == 0real,
            ;
        }
        if forall|i: int| 0 <= i < m ==> t.water[i] == 0real {
            assert(forall|i: int| 0 <= i < m - 1 ==> t.water[i] == 0real);
        }
    }
}

/// The potential is that of the bare ground exactly where the landscape
/// is dry.
pub proof fn lemma_potential_at_ground(t: Terrain)
    requires
        t.wf(),
    ensures
        terrain_potential(t) == ground_potential(t) <==> forall|i: int|
            0 <= i < t.len() ==> t.water[i] == 0real,
{
    lemma_at_ground_prefix(t, t.len() as int);
}

} // verus!
