//! What a rain simulation offers to the program that drives it.

use vstd::prelude::*;
use bigdecimal::BigDecimal;
use crate::decimal::decimal_value;
use crate::flow::{Terrain, total, even_rain};
use crate::landscape::{Landscape, StabilizeError};
use crate::potential::pass_bound;
use crate::row::takes;

verus! {

/// A simulation of rain on a landscape, step by step.
///
/// Each step puts rain on the points and then makes passes until the water
/// is stable, or until the passes allowed are used up.
pub trait Solver {
    /// The type of a ground height, of an amount of water and of a level.
    type PointHeight;

    /// The simulation is in a state from which a step can be made.
    spec fn ready(&self) -> bool;

    /// `amount` can fall on a point as rain.
    spec fn falls(amount: Self::PointHeight) -> bool;

    /// The real number that a height stands for.
    spec fn measure(h: Self::PointHeight) -> real;

    /// Ground and water of all points.
    spec fn model(&self) -> Terrain;

    /// The tolerance below which water does not flow.
    spec fn threshold(&self) -> real;

    /// The passes that the next step may make.
    spec fn budget(&self) -> nat;

    /// The passes made so far.
    spec fn spent(&self) -> nat;

    /// Simulates one step of falling rain. `rain_distr` gives the amount
    /// that falls on the point with a given index. With `return_result` the
    /// levels of all points come back; without it, an empty row.
    ///
    /// Every point receives an amount that `rain_distr` gives for its index;
    /// then passes are made until the water is stable, or until the passes
    /// allowed are used up. With a tolerance above zero the step succeeds
    /// if it may make `pass_bound` passes.
    fn rain<F: Fn(usize) -> Self::PointHeight>(&mut self, rain_distr: F, return_result: bool) -> (r:
        Result<&[Self::PointHeight], StabilizeError>)
        requires
            old(self).ready(),
            forall|i: usize| i < old(self).model().len() ==> call_requires(rain_distr, (i,)),
            forall|i: usize, a: Self::PointHeight|
                call_ensures(rain_distr, (i,), a) ==> Self::falls(a),
        ensures
            final(self).ready(),
            final(self).threshold() == old(self).threshold(),
            final(self).spent() >= old(self).spent(),
            final(self).model().wf(),
            final(self).model().ground == old(self).model().ground,
            r is Err ==> r->Err_0 == StabilizeError::PassLimit,
            r is Ok ==> final(self).model().stable(old(self).threshold()),
            total(final(self).model().water) >= total(old(self).model().water),
            exists|amounts: Seq<real>|
                #![trigger amounts.len()]
                {
                    &&& amounts.len() == old(self).model().len()
                    &&& forall|i: int|
                        #![trigger amounts[i]]
                        0 <= i < amounts.len() ==> amounts[i] >= 0real
                            && exists|a: Self::PointHeight|
                            #![trigger call_ensures(rain_distr, (i as usize,), a)]
                            call_ensures(rain_distr, (i as usize,), a) && Self::measure(a)
                                == amounts[i]
                    &&& old(self).model().rained(amounts).settles_to(
                        old(self).threshold(),
                        old(self).budget(),
                        (final(self).spent() - old(self).spent()) as nat,
                        final(self).model(),
                        r is Ok,
                    )
                    &&& old(self).threshold() > 0real && old(self).budget() >= pass_bound(
                        old(self).model().rained(amounts),
                        old(self).threshold(),
                    ) ==> r is Ok
                    &&& total(final(self).model().water) == total(old(self).model().water) + total(
                        amounts,
                    )
                },
            r is Ok && return_result ==> r->Ok_0@.len() == final(self).model().len()
                && forall|i: int|
                0 <= i < r->Ok_0@.len() ==> Self::measure(#[trigger] r->Ok_0@[i])
                    == final(self).model().level(i),
            r is Ok && !return_result ==> r->Ok_0@.len() == 0,
    ;

    /// Simulates one step of rain that falls evenly: `cnt` on every point.
    fn rain_uniform(&mut self, cnt: Self::PointHeight, return_result: bool) -> (r: Result<
        &[Self::PointHeight],
        StabilizeError,
    >)
        requires
            old(self).ready(),
            Self::falls(cnt),
        ensures
            final(self).ready(),
            final(self).threshold() == old(self).threshold(),
            final(self).spent() >= old(self).spent(),
            final(self).model().wf(),
            final(self).model().ground == old(self).model().ground,
            r is Err ==> r->Err_0 == StabilizeError::PassLimit,
            old(self).model().rained(
                even_rain(old(self).model().len(), Self::measure(cnt)),
            ).settles_to(
                old(self).threshold(),
                old(self).budget(),
                (final(self).spent() - old(self).spent()) as nat,
                final(self).model(),
                r is Ok,
            ),
            old(self).threshold() > 0real && old(self).budget() >= pass_bound(
                old(self).model().rained(even_rain(old(self).model().len(), Self::measure(cnt))),
                old(self).threshold(),
            ) ==> r is Ok,
            total(final(self).model().water) == total(old(self).model().water)
                + old(self).model().len() as real * Self::measure(cnt),
            r is Ok && return_result ==> r->Ok_0@.len() == final(self).model().len()
                && forall|i: int|
                0 <= i < r->Ok_0@.len() ==> Self::measure(#[trigger] r->Ok_0@[i])
                    == final(self).model().level(i),
            r is Ok && !return_result ==> r->Ok_0@.len() == 0,
    ;

    /// The tolerance of the simulation: where levels differ by no more,
    /// water does not flow.
    fn precision(&self) -> (p: Self::PointHeight)
        ensures
            Self::measure(p) == self.threshold(),
            self.ready() ==> Self::falls(p),
    ;
}

impl Solver for Landscape {
    type PointHeight = BigDecimal;

    open spec fn ready(&self) -> bool {
        self.wf()
    }

    open spec fn falls(amount: BigDecimal) -> bool {
        takes(amount)
    }

    open spec fn measure(h: BigDecimal) -> real {
        decimal_value(h)
    }

    open spec fn model(&self) -> Terrain {
        self.terrain()
    }

    open spec fn threshold(&self) -> real {
        self.tolerance()
    }

    open spec fn budget(&self) -> nat {
        self.allowance()
    }

    open spec fn spent(&self) -> nat {
        self.passes_made()
    }

    fn rain<F: Fn(usize) -> BigDecimal>(&mut self, rain_distr: F, return_result: bool) -> (r:
        Result<&[BigDecimal], StabilizeError>) {
        proof {
            self.lemma_wf();
        }
        Landscape::rain(self, rain_distr, return_result)
    }

    fn rain_uniform(&mut self, cnt: BigDecimal, return_result: bool) -> (r: Result<
        &[BigDecimal],
        StabilizeError,
    >) {
        proof {
            self.lemma_wf();
        }
        Landscape::rain_uniform(self, cnt, return_result)
    }

    fn precision(&self) -> (p: BigDecimal) {
        Landscape::precision(self)
    }
}

} // verus!
