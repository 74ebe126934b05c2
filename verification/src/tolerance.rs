//! Agreement of two rows of levels within a tolerance.
//!
//! Two evaluation orders, or two runs with different tolerances, are held
//! against each other point by point. A difference counts only if it is
//! more than the tolerance times the number of points; with a tolerance of
//! zero the rows must be equal.

use vstd::prelude::*;
use bigdecimal::BigDecimal;
use crate::decimal::{decimal_value, operable, dec_from_count, dec_mul, dec_sub, dec_lt};
use crate::ranking::values;

verus! {

/// The two rows are of one length, and no two levels at one place differ by
/// more than `precision` times that length.
pub open spec fn agree(precision: real, left: Seq<real>, right: Seq<real>) -> bool {
    &&& left.len() == right.len()
    &&& forall|i: int|
        0 <= i < left.len() ==> -(precision * left.len() as real) <= #[trigger] left[i] - right[i]
            <= precision * left.len() as real
}

/// Whether two rows of levels agree within the tolerance. The rows are of
/// one length: there is a level in each for every point.
pub fn compare(precision: &BigDecimal, left: &[BigDecimal], right: &[BigDecimal]) -> (same: bool)
    requires
        left@.len() == right@.len(),
        operable(*precision),
        forall|i: int| 0 <= i < left@.len() ==> operable(#[trigger] left@[i]),
        forall|i: int| 0 <= i < right@.len() ==> operable(#[trigger] right@[i]),
    ensures
        same == agree(decimal_value(*precision), values(left@), values(right@)),
{
    let n = left.len();
    let count = dec_from_count(n as u64);
    let allowed = dec_mul(precision, &count);
    let ghost l = values(left@);
    let ghost r = values(right@);
    let ghost bound = decimal_value(*precision) * n as real;
    let mut i: usize = 0;
    while i < n
        invariant
            i <= n,
            n == left@.len(),
            n == right@.len(),
            l == values(left@),
            r == values(right@),
            operable(allowed),
            decimal_value(allowed) == bound,
            bound == decimal_value(*precision) * n as real,
            forall|k: int| 0 <= k < left@.len() ==> operable(#[trigger] left@[k]),
            forall|k: int| 0 <= k < right@.len() ==> operable(#[trigger] right@[k]),
            forall|k: int| 0 <= k < i ==> -bound <= #[trigger] l[k] - r[k] <= bound,
        decreases n - i,
    {
        let over = dec_sub(&left[i], &right[i]);
        let under = dec_sub(&right[i], &left[i]);
        if dec_lt(&allowed, &over) || dec_lt(&allowed, &under) {
            proof {
                assert(l[i as int] - r[i as int] == decimal_value(over));
                assert(!(-bound <= l[i as int] - r[i as int] <= bound));
            }
            return false;
        }
        proof {
            assert(l[i as int] - r[i as int] == decimal_value(over));
        }
        i += 1;
    }
    true
}

} // verus!
