//! The order in which a pass visits the points does not matter: the
//! movements that it records add up to the same water, whatever order they
//! were recorded in.

use vstd::prelude::*;
use vstd::set_lib::{lemma_int_range, lemma_subset_equality, set_int_range};
use crate::flow::{Terrain, Move, applied, moved, move_fits, is_order, chain_neighbors};

verus! {

/// What one movement adds to the water on point `i`.
pub open spec fn gain(m: Move, i: int) -> real {
    (if m.to == i { m.amount } else { 0real }) - (if m.from == i { m.amount } else { 0real })
}

/// What a list of movements adds to the water on point `i`.
pub open spec fn net(moves: Seq<Move>, i: int) -> real
    decreases moves.len(),
{
    if moves.len() == 0 {
        0real
    } else {
        net(moves.drop_last(), i) + gain(moves.last(), i)
    }
}

/// What the visit of point `p` adds to the water on point `i`.
pub open spec fn visit_gain(t: Terrain, prec: real, p: int, i: int) -> real {
    if i == p {
        -t.outflow(prec, p)
    } else if i == p - 1 || i == p + 1 {
        t.transfer(prec, p, i)
    } else {
        0real
    }
}

/// Every movement in the list is between two different points of a row
/// of `n`.
pub open spec fn moves_fit(moves: Seq<Move>, n: nat) -> bool {
    forall|k: int| 0 <= k < moves.len() ==> move_fits(#[trigger] moves[k], n)
}

/// Movements made one after the other add up, point by point.
pub proof fn lemma_applied_is_net(water: Seq<real>, moves: Seq<Move>)
    requires
        moves_fit(moves, water.len()),
    ensures
        applied(water, moves).len() == water.len(),
        forall|i: int|
            0 <= i < water.len() ==> #[trigger] applied(water, moves)[i] == water[i] + net(
                moves,
                i,
            ),
    decreases moves.len(),
{
    if moves.len() > 0 {
        let rest = moves.drop_last();
        let last = moves.last();
        assert(moves_fit(rest, water.len())) by {
            assert forall|k: int| 0 <= k < rest.len() implies move_fits(
                #[trigger] rest[k],
                water.len(),
            ) by {
                assert(rest[k] == moves[k]);
            }
        }
        lemma_applied_is_net(water, rest);
        assert(move_fits(moves[moves.len() - 1], water.len()));
        let before = applied(water, rest);
        assert(applied(water, moves) == moved(before, last));
        assert forall|i: int| 0 <= i < water.len() implies #[trigger] applied(water, moves)[i]
            == water[i] + net(moves, i) by {
            assert(before[i] == water[i] + net(rest, i));
        }
    }
}

/// The net effect of two lists, one after the other, is the sum of their
/// net effects.
pub proof fn lemma_net_concat(a: Seq<Move>, b: Seq<Move>, i: int)
    ensures
        net(a + b, i) == net(a, i) + net(b, i),
    decreases b.len(),
{
    if b.len() == 0 {
        assert(a + b =~= a);
    } else {
        assert((a + b).drop_last() =~= a + b.drop_last());
        assert((a + b).last() == b.last());
        lemma_net_concat(a, b.drop_last(), i);
    }
}

/// The movements recorded at one point take its outflow from it and bring
/// each neighbour what flows to it.
pub proof fn lemma_net_of_visit(t: Terrain, prec: real, p: int, i: int)
    requires
        t.wf(),
        prec >= 0real,
    ensures
        net(t.moves_from(prec, p), i) == visit_gain(t, prec, p, i),
{
    let left = if t.flows(prec, p, p - 1) {
        seq![(Move { from: p, to: p - 1, amount: t.transfer(prec, p, p - 1) })]
    } else {
        Seq::<Move>::empty()
    };
    let right = if t.flows(prec, p, p + 1) {
        seq![(Move { from: p, to: p + 1, amount: t.transfer(prec, p, p + 1) })]
    } else {
        Seq::<Move>::empty()
    };
    assert(t.moves_from(prec, p) == left + right);
    lemma_net_concat(left, right, i);
    assert(net(left, i) == if t.flows(prec, p, p - 1) {
        gain(left[0], i)
    } else {
        0real
    }) by {
        if t.flows(prec, p, p - 1) {
            assert(left.drop_last() =~= Seq::<Move>::empty());
            assert(net(left.drop_last(), i) == 0real);
        }
    }
    assert(net(right, i) == if t.flows(prec, p, p + 1) {
        gain(right[0], i)
    } else {
        0real
    }) by {
        if t.flows(prec, p, p + 1) {
            assert(right.drop_last() =~= Seq::<Move>::empty());
            assert(net(right.drop_last(), i) == 0real);
        }
    }
}

/// The movements recorded at one point are between that point and its
/// neighbours.
pub proof fn lemma_visit_fits(t: Terrain, prec: real, p: int)
    ensures
        moves_fit(t.moves_from(prec, p), t.len()),
{
}

/// All recorded movements are between two different points of the row.
pub proof fn lemma_recorded_fits(t: Terrain, prec: real, order: Seq<int>)
    ensures
        moves_fit(t.recorded(prec, order), t.len()),
    decreases order.len(),
{
    if order.len() > 0 {
        lemma_recorded_fits(t, prec, order.drop_last());
        lemma_visit_fits(t, prec, order.last());
    }
}

/// One more candidate is one more target exactly if it lies lower by more
/// than the tolerance.
pub proof fn lemma_lower_among_push(t: Terrain, prec: real, p: int, candidates: Seq<int>, x: int)
    ensures
        t.lower_among(prec, p, candidates.push(x)) == if t.level(p) > t.level(x) + prec {
            t.lower_among(prec, p, candidates).push(x)
        } else {
            t.lower_among(prec, p, candidates)
        },
{
    assert(candidates.push(x).drop_last() =~= candidates);
}

/// One more target is one more movement.
pub proof fn lemma_moves_to_push(t: Terrain, prec: real, p: int, targets: Seq<int>, x: int)
    ensures
        t.moves_to(prec, p, targets.push(x)) == t.moves_to(prec, p, targets).push(
            Move { from: p, to: x, amount: t.transfer(prec, p, x) },
        ),
{
    assert(targets.push(x).drop_last() =~= targets);
}

/// Among the neighbours of a point that gives water away, those that lie
/// lower by more than the tolerance are the ones that water flows to, and
/// the movements to them are the ones recorded at the point.
pub proof fn lemma_targets_of_source(t: Terrain, prec: real, p: int)
    requires
        t.is_source(prec, p),
    ensures
        t.lower_among(prec, p, chain_neighbors(t.len(), p)) == t.targets(prec, p),
        t.targets(prec, p).len() == t.fan_out(prec, p),
        t.moves_to(prec, p, t.targets(prec, p)) == t.moves_from(prec, p),
        forall|k: int|
            0 <= k < t.targets(prec, p).len() ==> t.flows(
                prec,
                p,
                #[trigger] t.targets(prec, p)[k],
            ),
{
    let near = chain_neighbors(t.len(), p);
    let none = Seq::<int>::empty();
    let both = t.targets(prec, p);
    assert(t.lower_among(prec, p, none) == none);
    assert(t.moves_to(prec, p, none) == Seq::<Move>::empty());
    lemma_moves_to_push(t, prec, p, none, p - 1);
    lemma_moves_to_push(t, prec, p, none, p + 1);
    lemma_moves_to_push(t, prec, p, none.push(p - 1), p + 1);
    if 0 < p && p + 1 < t.len() {
        assert(near =~= none.push(p - 1).push(p + 1));
        lemma_lower_among_push(t, prec, p, none, p - 1);
        lemma_lower_among_push(t, prec, p, none.push(p - 1), p + 1);
    } else if 0 < p {
        assert(near =~= none.push(p - 1));
        lemma_lower_among_push(t, prec, p, none, p - 1);
    } else if p + 1 < t.len() {
        assert(near =~= none.push(p + 1));
        lemma_lower_among_push(t, prec, p, none, p + 1);
    }
    assert(t.lower_among(prec, p, near) == both);
    assert(t.moves_to(prec, p, both) =~= t.moves_from(prec, p));
}

/// A pass records no movement exactly when the terrain is stable.
pub proof fn lemma_nothing_recorded_iff_stable(t: Terrain, prec: real, order: Seq<int>)
    requires
        is_order(order, t.len()),
    ensures
        t.recorded(prec, order).len() == 0 <==> t.stable(prec),
{
    lemma_order_is_complete(order, t.len());
    lemma_recorded_len(t, prec, order);
    if t.recorded(prec, order).len() == 0 {
        assert forall|i: int, j: int| !#[trigger] t.flows(prec, i, j) by {
            if t.flows(prec, i, j) {
                assert(order.contains(i));
                let k = choose|k: int| 0 <= k < order.len() && order[k] == i;
                assert(t.moves_from(prec, order[k]).len() == 0);
            }
        }
    }
    if t.stable(prec) {
        assert forall|k: int| 0 <= k < order.len() implies #[trigger] t.moves_from(
            prec,
            order[k],
        ).len() == 0 by {
            assert(!t.flows(prec, order[k], order[k] - 1));
            assert(!t.flows(prec, order[k], order[k] + 1));
        }
    }
}

/// Nothing is recorded along an order exactly when nothing is recorded at
/// any of its points.
proof fn lemma_recorded_len(t: Terrain, prec: real, order: Seq<int>)
    ensures
        t.recorded(prec, order).len() == 0 <==> (forall|k: int|
            0 <= k < order.len() ==> #[trigger] t.moves_from(prec, order[k]).len() == 0),
    decreases order.len(),
{
    if order.len() > 0 {
        let rest = order.drop_last();
        lemma_recorded_len(t, prec, rest);
        if t.recorded(prec, order).len() == 0 {
            assert forall|k: int| 0 <= k < order.len() implies #[trigger] t.moves_from(
                prec,
                order[k],
            ).len() == 0 by {
                if k < rest.len() {
                    assert(rest[k] == order[k]);
                }
            }
        }
        if forall|k: int|
            0 <= k < order.len() ==> #[trigger] t.moves_from(prec, order[k]).len() == 0 {
            assert forall|k: int| 0 <= k < rest.len() implies #[trigger] t.moves_from(
                prec,
                rest[k],
            ).len() == 0 by {
                assert(rest[k] == order[k]);
            }
            assert(t.moves_from(prec, order[order.len() - 1]).len() == 0);
        }
    }
}

/// The net effect of the movements recorded along `order` on point `i`: the
/// sum of what each visit adds.
pub open spec fn visits_gain(t: Terrain, prec: real, order: Seq<int>, i: int) -> real
    decreases order.len(),
{
    if order.len() == 0 {
        0real
    } else {
        visits_gain(t, prec, order.drop_last(), i) + visit_gain(t, prec, order.last(), i)
    }
}

/// The movements recorded along an order add to the water on point `i`
/// what the visits add, one after the other.
proof fn lemma_net_of_visits(t: Terrain, prec: real, order: Seq<int>, i: int)
    requires
        t.wf(),
        prec >= 0real,
    ensures
        net(t.recorded(prec, order), i) == visits_gain(t, prec, order, i),
    decreases order.len(),
{
    if order.len() > 0 {
        lemma_net_of_visits(t, prec, order.drop_last(), i);
        lemma_net_concat(
            t.recorded(prec, order.drop_last()),
            t.moves_from(prec, order.last()),
            i,
        );
        lemma_net_of_visit(t, prec, order.last(), i);
    }
}

/// Along an order without repetition, point `i` has lost its outflow if it
/// was visited, and has received from each neighbour that was visited.
proof fn lemma_visits_gain(t: Terrain, prec: real, order: Seq<int>, i: int)
    requires
        t.wf(),
        prec >= 0real,
        order.no_duplicates(),
    ensures
        visits_gain(t, prec, order, i) == (if order.contains(i) {
            -t.outflow(prec, i)
        } else {
            0real
        }) + (if order.contains(i - 1) {
            t.transfer(prec, i - 1, i)
        } else {
            0real
        }) + (if order.contains(i + 1) {
            t.transfer(prec, i + 1, i)
        } else {
            0real
        }),
    decreases order.len(),
{
    if order.len() > 0 {
        let rest = order.drop_last();
        let p = order.last();
        assert(rest.no_duplicates()) by {
            assert forall|k: int, l: int| 0 <= k < rest.len() && 0 <= l < rest.len() && k != l
                implies rest[k] != rest[l] by {
                assert(rest[k] == order[k] && rest[l] == order[l]);
            }
        }
        lemma_visits_gain(t, prec, rest, i);
        assert(!rest.contains(p)) by {
            if rest.contains(p) {
                let k = choose|k: int| 0 <= k < rest.len() && rest[k] == p;
                assert(order[k] == order[order.len() - 1]);
            }
        }
        assert forall|x: int| order.contains(x) <==> (rest.contains(x) || x == p) by {
            if order.contains(x) {
                let k = choose|k: int| 0 <= k < order.len() && order[k] == x;
                if k < rest.len() {
                    assert(rest[k] == x);
                }
            }
            if rest.contains(x) {
                let k = choose|k: int| 0 <= k < rest.len() && rest[k] == x;
                assert(order[k] == x);
            }
            if x == p {
                assert(order[order.len() - 1] == p);
            }
        }
        assert(order.contains(i) <==> (rest.contains(i) || i == p));
        assert(order.contains(i - 1) <==> (rest.contains(i - 1) || i - 1 == p));
        assert(order.contains(i + 1) <==> (rest.contains(i + 1) || i + 1 == p));
    } else {
        assert(!order.contains(i));
        assert(!order.contains(i - 1));
        assert(!order.contains(i + 1));
    }
}

/// An order of `n` points has no repetition and holds every index
/// below `n`.
pub proof fn lemma_order_is_complete(order: Seq<int>, n: nat)
    requires
        is_order(order, n),
    ensures
        order.no_duplicates(),
        forall|i: int| 0 <= i < n ==> order.contains(i),
{
    assert(order.no_duplicates()) by {
        assert forall|k: int, l: int| 0 <= k < order.len() && 0 <= l < order.len() && k != l
            implies order[k] != order[l] by {
            if k < l {
                assert(order[k] != order[l]);
            } else {
                assert(order[l] != order[k]);
            }
        }
    }
    order.unique_seq_to_set();
    lemma_int_range(0, n as int);
    let all = set_int_range(0, n as int);
    assert(order.to_set().subset_of(all)) by {
        assert forall|x: int| order.to_set().contains(x) implies all.contains(x) by {
            let k = choose|k: int| 0 <= k < order.len() && order[k] == x;
            assert(0 <= order[k] < n);
        }
    }
    vstd::set_lib::lemma_len_subset(order.to_set(), all);
    lemma_subset_equality(order.to_set(), all);
    assert forall|i: int| 0 <= i < n implies order.contains(i) by {
        assert(all.contains(i));
        assert(order.to_set().contains(i));
    }
}

/// Whatever order a pass visits the points in, the movements that it
/// records, made one after the other, leave the water of the pass.
pub proof fn lemma_recorded_gives_pass(t: Terrain, prec: real, order: Seq<int>)
    requires
        t.wf(),
        prec >= 0real,
        is_order(order, t.len()),
    ensures
        applied(t.water, t.recorded(prec, order)) == t.pass(prec).water,
{
    let moves = t.recorded(prec, order);
    lemma_recorded_fits(t, prec, order);
    lemma_applied_is_net(t.water, moves);
    lemma_order_is_complete(order, t.len());
    let after = applied(t.water, moves);
    assert forall|i: int| 0 <= i < t.water.len() implies after[i] == t.pass(prec).water[i] by {
        lemma_net_of_visits(t, prec, order, i);
        lemma_visits_gain(t, prec, order, i);
        assert(order.contains(i));
        if 0 <= i - 1 {
            assert(order.contains(i - 1));
        }
        if i + 1 < t.len() {
            assert(order.contains(i + 1));
        }
        assert(after[i] == t.water[i] + net(moves, i));
    }
    assert(after =~= t.pass(prec).water);
}

/// Order-equivalence: two evaluation orders of one terrain record
/// movements that leave the same water on every point.
pub proof fn lemma_order_equivalence(t: Terrain, prec: real, first: Seq<int>, second: Seq<int>)
    requires
        t.wf(),
        prec >= 0real,
        is_order(first, t.len()),
        is_order(second, t.len()),
    ensures
        applied(t.water, t.recorded(prec, first)) == applied(t.water, t.recorded(prec, second)),
{
    lemma_recorded_gives_pass(t, prec, first);
    lemma_recorded_gives_pass(t, prec, second);
}

} // verus!
