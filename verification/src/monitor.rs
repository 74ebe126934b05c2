//! The convergence monitor: a guard that watches the potential from pass
//! to pass.
//!
//! After every pass that moved water the potential must have fallen, and it
//! must never lie below the potential of the bare ground. The engine is
//! proved to keep both, so the guard never finds a fault there; it stands
//! for itself and can be asked about any three numbers.

use vstd::prelude::*;
use bigdecimal::BigDecimal;
use crate::decimal::{decimal_value, operable, dec_lt};

verus! {

/// What the monitor can find wrong after a pass.
#[derive(Debug, Clone, Copy, PartialEq, Eq)]
pub enum Violation {
    /// The potential before the pass was below that of the bare ground.
    StartBelowGround,
    /// The potential after the pass is below that of the bare ground.
    BelowGround,
    /// The potential has risen.
    Rose,
    /// The potential has stayed as it was, though water was moved.
    Stalled,
}

/// What the monitor finds, given the potential before a pass, the potential
/// after it and the potential of the bare ground: the first of the faults
/// that holds, or none.
pub open spec fn verdict(state: real, new_state: real, lbound: real) -> Option<Violation> {
    if state < lbound {
        Some(Violation::StartBelowGround)
    } else if new_state < lbound {
        Some(Violation::BelowGround)
    } else if new_state > state {
        Some(Violation::Rose)
    } else if new_state == state {
        Some(Violation::Stalled)
    } else {
        None
    }
}

/// Checks that a pass has lowered the potential and has kept it at or above
/// the potential of the bare ground.
pub fn check_progress(state: &BigDecimal, new_state: &BigDecimal, lbound: &BigDecimal) -> (r:
    Result<(), Violation>)
    requires
        operable(*state),
        operable(*new_state),
        operable(*lbound),
    ensures
        r == match verdict(
            decimal_value(*state),
            decimal_value(*new_state),
            decimal_value(*lbound),
        ) {
            Some(v) => Err::<(), Violation>(v),
            None => Ok::<(), Violation>(()),
        },
{
    if dec_lt(state, lbound) {
        return Err(Violation::StartBelowGround);
    }
    if dec_lt(new_state, lbound) {
        return Err(Violation::BelowGround);
    }
    if dec_lt(state, new_state) {
        return Err(Violation::Rose);
    }
    if !dec_lt(new_state, state) {
        return Err(Violation::Stalled);
    }
    Ok(())
}

} // verus!
