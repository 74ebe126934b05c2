//! One point of the landscape: its ground, which never changes, and the
//! water that stands on it.

use vstd::prelude::*;
use bigdecimal::BigDecimal;
use crate::decimal::{
    decimal_value, decimal_scale, admissible, INPUT_SCALE, dec_zero, dec_add, dec_sub, dec_clone,
};

verus! {

/// A point of the landscape.
pub struct Point {
    ground: BigDecimal,
    water: BigDecimal,
}

impl Point {
    /// The height of the ground.
    pub closed spec fn ground_value(&self) -> real {
        decimal_value(self.ground)
    }

    /// The amount of water on the ground.
    pub closed spec fn water_value(&self) -> real {
        decimal_value(self.water)
    }

    /// The level of the point: ground plus water.
    pub open spec fn level(&self) -> real {
        self.ground_value() + self.water_value()
    }

    /// The scale of the decimal that holds the ground height.
    pub closed spec fn ground_scale(&self) -> int {
        decimal_scale(self.ground)
    }

    /// The scale of the decimal that holds the water amount.
    pub closed spec fn water_scale(&self) -> int {
        decimal_scale(self.water)
    }

    /// The ground is not below zero, and both decimals have scales that the
    /// arithmetic can work on.
    pub open spec fn sound(&self) -> bool {
        &&& self.ground_value() >= 0real
        &&& -INPUT_SCALE <= self.ground_scale() <= INPUT_SCALE
        &&& -INPUT_SCALE <= self.water_scale() <= 2 * INPUT_SCALE
    }

    /// The point is sound and holds no negative amount of water.
    pub open spec fn wf(&self) -> bool {
        self.sound() && self.water_value() >= 0real
    }

    /// An amount of water that can be put on a point or taken from it:
    /// its scale is one that the arithmetic can work on.
    pub open spec fn movable(amount: BigDecimal) -> bool {
        -INPUT_SCALE <= decimal_scale(amount) <= 2 * INPUT_SCALE
    }

    /// The larger of the water's scale and that of `amount`.
    pub open spec fn scale_with(&self, amount: BigDecimal) -> int {
        if self.water_scale() >= decimal_scale(amount) {
            self.water_scale()
        } else {
            decimal_scale(amount)
        }
    }

    /// A dry point with the ground at height `h`.
    pub fn with_height(h: BigDecimal) -> (p: Point)
        requires
            admissible(h),
            decimal_value(h) >= 0real,
        ensures
            p.wf(),
            p.ground_value() == decimal_value(h),
            p.ground_scale() == decimal_scale(h),
            p.water_value() == 0real,
            p.water_scale() == 0,
    {
        Point { ground: h, water: dec_zero() }
    }

    /// The level of the point: ground plus water.
    pub fn get_height(&self) -> (h: BigDecimal)
        requires
            self.sound(),
        ensures
            decimal_value(h) == self.level(),
            -INPUT_SCALE <= decimal_scale(h),
            decimal_scale(h) <= INPUT_SCALE || decimal_scale(h) <= self.water_scale(),
    {
        dec_add(&self.ground, &self.water)
    }

    /// The amount of water on the point.
    pub fn water(&self) -> (w: BigDecimal)
        ensures
            decimal_value(w) == self.water_value(),
            decimal_scale(w) == self.water_scale(),
    {
        dec_clone(&self.water)
    }

    /// The height of the ground.
    pub fn ground(&self) -> (g: BigDecimal)
        ensures
            decimal_value(g) == self.ground_value(),
            decimal_scale(g) == self.ground_scale(),
    {
        dec_clone(&self.ground)
    }

    /// Puts `cnt` more water on the point. The amount is not negative.
    pub fn rain(&mut self, cnt: BigDecimal)
        requires
            old(self).sound(),
            Self::movable(cnt),
            decimal_value(cnt) >= 0real,
        ensures
            final(self).sound(),
            old(self).wf() ==> final(self).wf(),
            final(self).ground_value() == old(self).ground_value(),
            final(self).ground_scale() == old(self).ground_scale(),
            final(self).water_value() == old(self).water_value() + decimal_value(cnt),
            final(self).water_scale() <= old(self).scale_with(cnt),
    {
        self.water = dec_add(&self.water, &cnt);
    }

    /// Takes `cnt` of the water away from the point.
    pub(crate) fn drain(&mut self, cnt: &BigDecimal)
        requires
            old(self).sound(),
            Self::movable(*cnt),
        ensures
            final(self).sound(),
            final(self).ground_value() == old(self).ground_value(),
            final(self).ground_scale() == old(self).ground_scale(),
            final(self).water_value() == old(self).water_value() - decimal_value(*cnt),
            final(self).water_scale() <= old(self).scale_with(*cnt),
    {
        self.water = dec_sub(&self.water, cnt);
    }
}

} // verus!
