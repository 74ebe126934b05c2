//! Evaluation orders: the order in which a pass visits the points.
//!
//! Any order that holds each point once gives the same water after a pass.
//! Visiting high ground first lets a point settle against neighbours that
//! have already been looked at, so that is the order a landscape uses unless
//! it is told otherwise.

use vstd::prelude::*;
use bigdecimal::BigDecimal;
use crate::decimal::{decimal_value, operable, dec_lt};
use crate::flow::{is_order, as_ints};

verus! {

/// The order in which a pass visits the points.
#[derive(Debug, Clone, Copy, PartialEq, Eq)]
pub enum EvaluationOrder {
    /// The order in which the points were given.
    Input,
    /// From the highest ground to the lowest; points of equal ground in the
    /// order in which they were given.
    HeightDescending,
}

/// The values of a row of decimals.
pub open spec fn values(heights: Seq<BigDecimal>) -> Seq<real> {
    Seq::new(heights.len(), |i: int| decimal_value(heights[i]))
}

/// Point `a` comes before point `b`: it lies higher, or as high and
/// earlier in the row.
pub open spec fn precedes(heights: Seq<real>, a: int, b: int) -> bool {
    heights[a] > heights[b] || (heights[a] == heights[b] && a < b)
}

/// `order` holds its points from the highest to the lowest, and points of
/// equal height in rising order of their index.
pub open spec fn ranked(order: Seq<int>, heights: Seq<real>) -> bool {
    forall|a: int, b: int|
        0 <= a < b < order.len() ==> precedes(heights, #[trigger] order[a], #[trigger] order[b])
}

/// Every member of `run` is an index from `lo` up to, but not including,
/// `hi`.
pub open spec fn within(run: Seq<int>, lo: int, hi: int) -> bool {
    forall|k: int| 0 <= k < run.len() ==> lo <= #[trigger] run[k] < hi
}

/// The order in which `n` points were given: 0, 1, 2 and so on.
pub fn input_order(n: usize) -> (order: Vec<usize>)
    ensures
        order@.len() == n,
        forall|k: int| 0 <= k < n ==> order@[k] == k,
        is_order(as_ints(order@), n as nat),
{
    let mut order: Vec<usize> = Vec::new();
    let mut i: usize = 0;
    while i < n
        invariant
            i <= n,
            order@.len() == i,
            forall|k: int| 0 <= k < i ==> order@[k] == k,
        decreases n - i,
    {
        order.push(i);
        i += 1;
    }
    order
}

/// Whether point `a` comes before point `b`.
fn goes_first(heights: &Vec<BigDecimal>, a: usize, b: usize) -> (r: bool)
    requires
        a < heights@.len(),
        b < heights@.len(),
        forall|i: int| 0 <= i < heights@.len() ==> operable(#[trigger] heights@[i]),
    ensures
        r == precedes(values(heights@), a as int, b as int),
{
    if dec_lt(&heights[b], &heights[a]) {
        true
    } else if dec_lt(&heights[a], &heights[b]) {
        false
    } else {
        a < b
    }
}

/// Merges two ranked runs, the first over the indices from `lo` to `mid`
/// and the second over those from `mid` to `hi`, into one.
fn merge(
    heights: &Vec<BigDecimal>,
    left: &Vec<usize>,
    right: &Vec<usize>,
    Ghost(lo): Ghost<int>,
    Ghost(mid): Ghost<int>,
    Ghost(hi): Ghost<int>,
) -> (out: Vec<usize>)
    requires
        0 <= lo <= mid <= hi <= heights@.len(),
        forall|i: int| 0 <= i < heights@.len() ==> operable(#[trigger] heights@[i]),
        within(as_ints(left@), lo, mid),
        within(as_ints(right@), mid, hi),
        ranked(as_ints(left@), values(heights@)),
        ranked(as_ints(right@), values(heights@)),
    ensures
        out@.len() == left@.len() + right@.len(),
        within(as_ints(out@), lo, hi),
        ranked(as_ints(out@), values(heights@)),
{
    let ghost h = values(heights@);
    let ghost l = as_ints(left@);
    let ghost r = as_ints(right@);
    let mut out: Vec<usize> = Vec::new();
    let mut i: usize = 0;
    let mut j: usize = 0;
    while i < left.len() || j < right.len()
        invariant
            i <= left@.len(),
            j <= right@.len(),
            out@.len() == i + j,
            0 <= lo <= mid <= hi <= heights@.len(),
            forall|k: int| 0 <= k < heights@.len() ==> operable(#[trigger] heights@[k]),
            h == values(heights@),
            l == as_ints(left@),
            r == as_ints(right@),
            within(l, lo, mid),
            within(r, mid, hi),
            ranked(l, h),
            ranked(r, h),
            within(as_ints(out@), lo, hi),
            ranked(as_ints(out@), h),
            forall|p: int, k: int|
                0 <= p < out@.len() && i <= k < l.len() ==> precedes(
                    h,
                    #[trigger] as_ints(out@)[p],
                    #[trigger] l[k],
                ),
            forall|p: int, k: int|
                0 <= p < out@.len() && j <= k < r.len() ==> precedes(
                    h,
                    #[trigger] as_ints(out@)[p],
                    #[trigger] r[k],
                ),
        decreases left@.len() - i + right@.len() - j,
    {
        let ghost before = as_ints(out@);
        let from_left = if j == right.len() {
            true
        } else if i == left.len() {
            false
        } else {
            assert(lo <= l[i as int] < mid && mid <= r[j as int] < hi);
            goes_first(heights, left[i], right[j])
        };
        if from_left {
            assert(lo <= l[i as int] < mid);
            out.push(left[i]);
            proof {
                let x = l[i as int];
                let now = as_ints(out@);
                assert(now =~= before.push(x));
                assert forall|p: int, k: int|
                    0 <= p < now.len() && i + 1 <= k < l.len() implies precedes(
                    h,
                    #[trigger] now[p],
                    #[trigger] l[k],
                ) by {
                    if p < before.len() {
                        assert(now[p] == before[p]);
                    } else {
                        assert(precedes(h, l[i as int], l[k]));
                    }
                }
                assert forall|p: int, k: int|
                    0 <= p < now.len() && j <= k < r.len() implies precedes(
                    h,
                    #[trigger] now[p],
                    #[trigger] r[k],
                ) by {
                    if p < before.len() {
                        assert(now[p] == before[p]);
                    } else {
                        assert(precedes(h, x, r[j as int]));
                        if j < k {
                            assert(precedes(h, r[j as int], r[k]));
                        }
                    }
                }
                assert forall|a: int, b: int| 0 <= a < b < now.len() implies precedes(
                    h,
                    #[trigger] now[a],
                    #[trigger] now[b],
                ) by {
                    assert(now[a] == before[a]);
                    if b < before.len() {
                        assert(now[b] == before[b]);
                    } else {
                        assert(precedes(h, before[a], l[i as int]));
                    }
                }
                assert forall|k: int| 0 <= k < now.len() implies lo <= #[trigger] now[k] < hi by {
                    if k < before.len() {
                        assert(now[k] == before[k]);
                    }
                }
            }
            i += 1;
        } else {
            assert(mid <= r[j as int] < hi);
            out.push(right[j]);
            proof {
                let x = r[j as int];
                let now = as_ints(out@);
                assert(now =~= before.push(x));
                assert forall|p: int, k: int|
                    0 <= p < now.len() && i <= k < l.len() implies precedes(
                    h,
                    #[trigger] now[p],
                    #[trigger] l[k],
                ) by {
                    if p < before.len() {
                        assert(now[p] == before[p]);
                    } else {
                        assert(lo <= l[i as int] < mid);
                        assert(precedes(h, x, l[i as int]));
                        if i < k {
                            assert(precedes(h, l[i as int], l[k]));
                        }
                    }
                }
                assert forall|p: int, k: int|
                    0 <= p < now.len() && j + 1 <= k < r.len() implies precedes(
                    h,
                    #[trigger] now[p],
                    #[trigger] r[k],
                ) by {
                    if p < before.len() {
                        assert(now[p] == before[p]);
                    } else {
                        assert(precedes(h, r[j as int], r[k]));
                    }
                }
                assert forall|a: int, b: int| 0 <= a < b < now.len() implies precedes(
                    h,
                    #[trigger] now[a],
                    #[trigger] now[b],
                ) by {
                    assert(now[a] == before[a]);
                    if b < before.len() {
                        assert(now[b] == before[b]);
                    } else {
                        assert(precedes(h, before[a], r[j as int]));
                    }
                }
                assert forall|k: int| 0 <= k < now.len() implies lo <= #[trigger] now[k] < hi by {
                    if k < before.len() {
                        assert(now[k] == before[k]);
                    }
                }
            }
            j += 1;
        }
    }
    out
}

/// The indices from `lo` up to `hi`, from the highest point to the lowest.
fn ranked_run(heights: &Vec<BigDecimal>, lo: usize, hi: usize) -> (run: Vec<usize>)
    requires
        lo <= hi <= heights@.len(),
        forall|i: int| 0 <= i < heights@.len() ==> operable(#[trigger] heights@[i]),
    ensures
        run@.len() == hi - lo,
        within(as_ints(run@), lo as int, hi as int),
        ranked(as_ints(run@), values(heights@)),
    decreases hi - lo,
{
    if hi - lo == 0 {
        Vec::new()
    } else if hi - lo == 1 {
        let mut run: Vec<usize> = Vec::new();
        run.push(lo);
        run
    } else {
        let mid = lo + (hi - lo) / 2;
        let left = ranked_run(heights, lo, mid);
        let right = ranked_run(heights, mid, hi);
        merge(heights, &left, &right, Ghost(lo as int), Ghost(mid as int), Ghost(hi as int))
    }
}

/// The indices of `heights`, from the highest to the lowest; those of equal
/// heights in rising order.
pub fn height_descending_order(heights: &Vec<BigDecimal>) -> (order: Vec<usize>)
    requires
        forall|i: int| 0 <= i < heights@.len() ==> operable(#[trigger] heights@[i]),
    ensures
        is_order(as_ints(order@), heights@.len()),
        ranked(as_ints(order@), values(heights@)),
{
    let order = ranked_run(heights, 0, heights.len());
    proof {
        let o = as_ints(order@);
        let h = values(heights@);
        assert forall|k: int, l: int| 0 <= k < l < o.len() implies o[k] != o[l] by {
            assert(precedes(h, o[k], o[l]));
        }
    }
    order
}

} // verus!
