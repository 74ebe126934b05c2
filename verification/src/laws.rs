//! What holds of every pass: water is neither made nor lost, no point is
//! drained below zero, and a stable terrain stays as it is.

use vstd::prelude::*;
use crate::flow::{Terrain, sum_upto, total, even_rain};

verus! {

/// The share of a point that gives water to one neighbour is all its
/// water; that of a point that gives water to two is half of it.
pub proof fn lemma_share(t: Terrain, prec: real, i: int)
    ensures
        t.fan_out(prec, i) == 1 ==> t.share(prec, i) == t.water[i],
        t.fan_out(prec, i) == 2 ==> t.share(prec, i) == t.water[i] / 2real,
        0 <= t.fan_out(prec, i) <= 2,
{
    let count = t.fan_out(prec, i) as real;
    if t.fan_out(prec, i) == 1 {
        assert(count == 1real);
        assert(t.water[i] / count == t.water[i]);
    } else if t.fan_out(prec, i) == 2 {
        assert(count == 2real);
        assert(t.water[i] / count == t.water[i] / 2real);
    }
}

/// A transfer is never negative, and only a transfer along a flow is more
/// than zero.
pub proof fn lemma_transfer_bounds(t: Terrain, prec: real, i: int, j: int)
    requires
        t.wf(),
        prec >= 0real,
    ensures
        t.transfer(prec, i, j) >= 0real,
        t.flows(prec, i, j) ==> t.transfer(prec, i, j) > prec / 2real,
        !t.flows(prec, i, j) ==> t.transfer(prec, i, j) == 0real,
        t.flows(prec, i, j) ==> 2real * t.transfer(prec, i, j) <= t.level(i) - t.level(j),
{
    lemma_share(t, prec, i);
}

/// A point never gives away more water than it holds.
pub proof fn lemma_outflow_bounded(t: Terrain, prec: real, i: int)
    requires
        t.wf(),
        prec >= 0real,
        0 <= i < t.len(),
    ensures
        0real <= t.outflow(prec, i) <= t.water[i],
        t.inflow(prec, i) >= 0real,
{
    lemma_share(t, prec, i);
    lemma_transfer_bounds(t, prec, i - 1, i);
    lemma_transfer_bounds(t, prec, i + 1, i);
}

/// Non-negativity: a pass leaves a well-formed terrain well-formed. It keeps
/// the ground and the number of points, and no water amount falls below
/// zero.
pub proof fn lemma_pass_keeps_wf(t: Terrain, prec: real)
    requires
        t.wf(),
        prec >= 0real,
    ensures
        t.pass(prec).wf(),
        t.pass(prec).ground == t.ground,
        t.pass(prec).len() == t.len(),
{
    let after = t.pass(prec);
    assert forall|i: int| 0 <= i < after.water.len() implies after.water[i] >= 0real by {
        lemma_outflow_bounded(t, prec, i);
    }
}

/// Non-negativity over any number of passes.
pub proof fn lemma_settle_keeps_wf(t: Terrain, prec: real, k: nat)
    requires
        t.wf(),
        prec >= 0real,
    ensures
        t.settle(prec, k).wf(),
        t.settle(prec, k).ground == t.ground,
        t.settle(prec, k).len() == t.len(),
    decreases k,
{
    if k > 0 {
        lemma_settle_keeps_wf(t, prec, (k - 1) as nat);
        lemma_pass_keeps_wf(t.settle(prec, (k - 1) as nat), prec);
    }
}

/// The water on the first `m` points after a pass is what was there before,
/// less what crossed the border to point `m` and plus what came back over
/// it.
proof fn lemma_pass_prefix(t: Terrain, prec: real, m: int)
    requires
        t.wf(),
        prec >= 0real,
        0 <= m <= t.len(),
    ensures
        sum_upto(t.pass(prec).water, m) == sum_upto(t.water, m) - t.transfer(prec, m - 1, m)
            + t.transfer(prec, m, m - 1),
    decreases m,
{
    if m > 0 {
        lemma_pass_prefix(t, prec, m - 1);
        assert(t.pass(prec).water[m - 1] == t.water_after(prec, m - 1));
    }
}

/// Conservation: a pass changes no total. What leaves one point arrives at
/// another.
pub proof fn lemma_pass_conserves(t: Terrain, prec: real)
    requires
        t.wf(),
        prec >= 0real,
    ensures
        total(t.pass(prec).water) == total(t.water),
{
    lemma_pass_prefix(t, prec, t.len() as int);
}

/// Conservation over any number of passes.
pub proof fn lemma_settle_conserves(t: Terrain, prec: real, k: nat)
    requires
        t.wf(),
        prec >= 0real,
    ensures
        total(t.settle(prec, k).water) == total(t.water),
    decreases k,
{
    if k > 0 {
        lemma_settle_conserves(t, prec, (k - 1) as nat);
        lemma_settle_keeps_wf(t, prec, (k - 1) as nat);
        lemma_pass_conserves(t.settle(prec, (k - 1) as nat), prec);
    }
}

/// Idempotence of stability: a pass over a stable terrain moves nothing.
pub proof fn lemma_stable_pass_is_identity(t: Terrain, prec: real)
    requires
        t.wf(),
        t.stable(prec),
    ensures
        t.pass(prec) == t,
{
    assert forall|i: int| 0 <= i < t.water.len() implies t.pass(prec).water[i] == t.water[i] by {
        assert(!t.flows(prec, i, i - 1));
        assert(!t.flows(prec, i, i + 1));
        assert(!t.flows(prec, i - 1, i));
        assert(!t.flows(prec, i + 1, i));
    }
    assert(t.pass(prec).water =~= t.water);
}

/// A stable terrain stays as it is, however many passes follow.
pub proof fn lemma_stable_settle_is_identity(t: Terrain, prec: real, k: nat)
    requires
        t.wf(),
        t.stable(prec),
    ensures
        t.settle(prec, k) == t,
    decreases k,
{
    if k > 0 {
        lemma_stable_settle_is_identity(t, prec, (k - 1) as nat);
        lemma_stable_pass_is_identity(t, prec);
    }
}

/// A stabilization of a stable terrain makes no pass and succeeds.
pub proof fn lemma_stable_settles_at_once(
    t: Terrain,
    prec: real,
    allowance: nat,
    made: nat,
    after: Terrain,
    ok: bool,
)
    requires
        t.stable(prec),
        t.settles_to(prec, allowance, made, after, ok),
    ensures
        made == 0,
        after == t,
        ok,
{
    if made > 0 {
        assert(!t.settle(prec, 0).stable(prec));
    }
}

/// A stabilization has one outcome: the number of passes, the terrain that
/// they leave and whether it is stable are settled by the terrain, the
/// tolerance and the passes allowed.
pub proof fn lemma_settling_is_determined(
    t: Terrain,
    prec: real,
    allowance: nat,
    made: nat,
    after: Terrain,
    ok: bool,
    other_made: nat,
    other_after: Terrain,
    other_ok: bool,
)
    requires
        t.settles_to(prec, allowance, made, after, ok),
        t.settles_to(prec, allowance, other_made, other_after, other_ok),
    ensures
        made == other_made,
        after == other_after,
        ok == other_ok,
{
    if made < other_made {
        assert(!t.settle(prec, made).stable(prec));
    }
    if other_made < made {
        assert(!t.settle(prec, other_made).stable(prec));
    }
}

/// Rain that is nowhere negative leaves a well-formed terrain well-formed.
pub proof fn lemma_rain_keeps_wf(t: Terrain, amounts: Seq<real>)
    requires
        t.wf(),
        forall|i: int| 0 <= i < t.len() ==> amounts[i] >= 0real,
    ensures
        t.rained(amounts).wf(),
        t.rained(amounts).ground == t.ground,
        t.rained(amounts).len() == t.len(),
{
}

/// Rain adds to the water on the first `m` points what fell on them.
proof fn lemma_rain_prefix(t: Terrain, amounts: Seq<real>, m: int)
    requires
        t.wf(),
        0 <= m <= t.len(),
    ensures
        sum_upto(t.rained(amounts).water, m) == sum_upto(t.water, m) + sum_upto(amounts, m),
    decreases m,
{
    if m > 0 {
        lemma_rain_prefix(t, amounts, m - 1);
    }
}

/// Rain adds what falls: the total of the water grows by the total of the
/// amounts.
pub proof fn lemma_rain_adds(t: Terrain, amounts: Seq<real>)
    requires
        t.wf(),
        amounts.len() == t.len(),
    ensures
        total(t.rained(amounts).water) == total(t.water) + total(amounts),
{
    lemma_rain_prefix(t, amounts, t.len() as int);
}

/// A sum of amounts of which none is negative is not negative.
pub proof fn lemma_total_non_negative(amounts: Seq<real>, m: int)
    requires
        0 <= m <= amounts.len(),
        forall|i: int| 0 <= i < amounts.len() ==> #[trigger] amounts[i] >= 0real,
    ensures
        sum_upto(amounts, m) >= 0real,
    decreases m,
{
    if m > 0 {
        lemma_total_non_negative(amounts, m - 1);
    }
}

/// The total of `n` equal amounts.
pub proof fn lemma_total_uniform(n: nat, amount: real)
    ensures
        total(even_rain(n, amount)) == n as real * amount,
    decreases n,
{
    lemma_uniform_prefix(n, amount, n as int);
}

/// The sum of the first `m` of `n` equal amounts.
proof fn lemma_uniform_prefix(n: nat, amount: real, m: int)
    requires
        0 <= m <= n,
    ensures
        sum_upto(even_rain(n, amount), m) == m as real * amount,
    decreases m,
{
    if m > 0 {
        lemma_uniform_prefix(n, amount, m - 1);
        assert(even_rain(n, amount)[m - 1] == amount);
        assert(m as real == (m - 1) as real + 1real);
        assert(m as real * amount == (m - 1) as real * amount + amount) by (nonlinear_arith)
            requires
                m as real == (m - 1) as real + 1real,
        ;
    } else {
        assert(0 as real * amount == 0real) by (nonlinear_arith);
    }
}

/// The terrain after a number of steps of even rain, `amount` on every point
/// in each step. `passes` holds, for each step, the number of passes that
/// followed its rain.
pub open spec fn after_steps(t: Terrain, prec: real, amount: real, passes: Seq<nat>) -> Terrain
    decreases passes.len(),
{
    if passes.len() == 0 {
        t
    } else {
        after_steps(t, prec, amount, passes.drop_last()).rained(even_rain(t.len(), amount)).settle(
            prec,
            passes.last(),
        )
    }
}

/// Conservation over steps of rain: after `k` steps of even rain the
/// terrain holds what it held before and `k` times the amount for each of
/// its points, however many passes each step took.
pub proof fn lemma_steps_conserve(t: Terrain, prec: real, amount: real, passes: Seq<nat>)
    requires
        t.wf(),
        prec >= 0real,
        amount >= 0real,
    ensures
        after_steps(t, prec, amount, passes).wf(),
        after_steps(t, prec, amount, passes).ground == t.ground,
        total(after_steps(t, prec, amount, passes).water) == total(t.water) + passes.len() as real
            * (t.len() as real * amount),
    decreases passes.len(),
{
    let each = t.len() as real * amount;
    if passes.len() == 0 {
        assert(0 as real * each == 0real) by (nonlinear_arith);
    } else {
        let earlier = passes.drop_last();
        lemma_steps_conserve(t, prec, amount, earlier);
        let before = after_steps(t, prec, amount, earlier);
        let even = even_rain(t.len(), amount);
        lemma_rain_keeps_wf(before, even);
        lemma_rain_adds(before, even);
        lemma_total_uniform(t.len(), amount);
        lemma_settle_keeps_wf(before.rained(even), prec, passes.last());
        lemma_settle_conserves(before.rained(even), prec, passes.last());
        let k = passes.len() as real;
        let j = earlier.len() as real;
        assert(k == j + 1real);
        assert(k * each == j * each + each) by (nonlinear_arith)
            requires
                k == j + 1real,
        ;
    }
}

/// No level leaves the range of the levels before the pass: water runs
/// downhill, and no transfer is more than half the difference in level.
pub proof fn lemma_pass_keeps_levels_within(t: Terrain, prec: real, low: real, high: real)
    requires
        t.wf(),
        prec >= 0real,
        forall|i: int| 0 <= i < t.len() ==> low <= #[trigger] t.level(i) <= high,
    ensures
        forall|i: int| 0 <= i < t.len() ==> low <= #[trigger] t.pass(prec).level(i) <= high,
{
    assert forall|i: int| 0 <= i < t.len() implies low <= #[trigger] t.pass(prec).level(i)
        <= high by {
        lemma_share(t, prec, i);
        lemma_transfer_bounds(t, prec, i, i - 1);
        lemma_transfer_bounds(t, prec, i, i + 1);
        lemma_transfer_bounds(t, prec, i - 1, i);
        lemma_transfer_bounds(t, prec, i + 1, i);
        assert(low <= t.level(i) <= high);
        if 0 <= i - 1 {
            assert(low <= t.level(i - 1) <= high);
        }
        if i + 1 < t.len() {
            assert(low <= t.level(i + 1) <= high);
        }
        assert(t.pass(prec).water[i] == t.water_after(prec, i));
    }
}

/// No level leaves the range of the starting levels, however many passes
/// are made.
pub proof fn lemma_settle_keeps_levels_within(
    t: Terrain,
    prec: real,
    k: nat,
    low: real,
    high: real,
)
    requires
        t.wf(),
        prec >= 0real,
        forall|i: int| 0 <= i < t.len() ==> low <= #[trigger] t.level(i) <= high,
    ensures
        forall|i: int| 0 <= i < t.len() ==> low <= #[trigger] t.settle(prec, k).level(i) <= high,
    decreases k,
{
    if k > 0 {
        let before = t.settle(prec, (k - 1) as nat);
        lemma_settle_keeps_levels_within(t, prec, (k - 1) as nat, low, high);
        lemma_settle_keeps_wf(t, prec, (k - 1) as nat);
        lemma_pass_keeps_levels_within(before, prec, low, high);
    }
}

/// The row turned round: the last point first.
pub open spec fn turned(t: Terrain) -> Terrain {
    Terrain {
        ground: Seq::new(t.ground.len(), |i: int| t.ground[t.ground.len() - 1 - i]),
        water: Seq::new(t.water.len(), |i: int| t.water[t.water.len() - 1 - i]),
    }
}

/// A pass does not tell left from right: the pass over the row turned
/// round is the pass over the row, turned round.
pub proof fn lemma_pass_of_turned(t: Terrain, prec: real)
    requires
        t.wf(),
        prec >= 0real,
    ensures
        turned(t).pass(prec) == turned(t.pass(prec)),
{
    let n = t.len() as int;
    let r = turned(t);
    assert forall|i: int, j: int| r.flows(prec, i, j) == t.flows(prec, n - 1 - i, n - 1 - j) by {
        if 0 <= i < n && 0 <= j < n {
            assert(r.level(i) == t.level(n - 1 - i));
            assert(r.level(j) == t.level(n - 1 - j));
        }
    }
    assert forall|i: int| 0 <= i < n implies turned(t).pass(prec).water[i] == turned(
        t.pass(prec),
    ).water[i] by {
        let m = n - 1 - i;
        assert(r.flows(prec, i, i - 1) == t.flows(prec, m, m + 1));
        assert(r.flows(prec, i, i + 1) == t.flows(prec, m, m - 1));
        assert(r.flows(prec, i - 1, i) == t.flows(prec, m + 1, m));
        assert(r.flows(prec, i + 1, i) == t.flows(prec, m - 1, m));
        assert(r.flows(prec, i - 1, i - 2) == t.flows(prec, m + 1, m + 2));
        assert(r.flows(prec, i + 1, i + 2) == t.flows(prec, m - 1, m - 2));
        assert(r.fan_out(prec, i) == t.fan_out(prec, m));
        assert(r.fan_out(prec, i - 1) == t.fan_out(prec, m + 1));
        assert(r.fan_out(prec, i + 1) == t.fan_out(prec, m - 1));
        assert(r.water[i] == t.water[m]);
        assert(r.level(i) == t.level(m));
        if 0 <= i - 1 {
            assert(r.water[i - 1] == t.water[m + 1]);
            assert(r.level(i - 1) == t.level(m + 1));
        }
        if i + 1 < n {
            assert(r.water[i + 1] == t.water[m - 1]);
            assert(r.level(i + 1) == t.level(m - 1));
        }
        assert(r.transfer(prec, i, i - 1) == t.transfer(prec, m, m + 1));
        assert(r.transfer(prec, i, i + 1) == t.transfer(prec, m, m - 1));
        assert(r.transfer(prec, i - 1, i) == t.transfer(prec, m + 1, m));
        assert(r.transfer(prec, i + 1, i) == t.transfer(prec, m - 1, m));
        assert(t.pass(prec).water[m] == t.water_after(prec, m));
    }
    assert(turned(t).pass(prec).water =~= turned(t.pass(prec)).water);
    assert(turned(t).pass(prec).ground =~= turned(t.pass(prec)).ground);
}

/// Reversing the row reverses the result: any number of passes over the row
/// turned round leaves the water that they leave on the row, turned round.
pub proof fn lemma_settle_of_turned(t: Terrain, prec: real, k: nat)
    requires
        t.wf(),
        prec >= 0real,
    ensures
        turned(t).settle(prec, k) == turned(t.settle(prec, k)),
    decreases k,
{
    if k > 0 {
        lemma_settle_of_turned(t, prec, (k - 1) as nat);
        lemma_settle_keeps_wf(t, prec, (k - 1) as nat);
        lemma_pass_of_turned(t.settle(prec, (k - 1) as nat), prec);
    }
}

} // verus!
