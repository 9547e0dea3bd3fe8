//! What geometric figures can do.

use vstd::prelude::*;
use crate::pt::{Pt, tdiv, add_fits, sub_fits, scale_fits, div_ok};
use crate::sg::{Sg, sg_add, sg_sub, sg_scale, sg_div};
use crate::pg::{Pg, pts_add, pts_add_ok, pts_sub, pts_sub_ok, pts_scale, pts_scale_ok, pts_div, pts_div_ok};
use crate::ml::Ml;

verus! {

/// A geometric figure which can be translated by an xy shift (represented by
/// a point).
pub trait Translatable: core::ops::Add<Pt> + core::ops::Sub<Pt> + Sized {}

/// A geometric figure which can be scaled by a factor of type `T`.
pub trait Scalable<T>: core::ops::Mul<T> + core::ops::Div<T> + Sized {}

/// The same as `Translatable`, but in place.
pub trait TranslatableAssign: Sized {
    /// Translating by `by` keeps every coordinate in range.
    spec fn can_add(&self, by: Pt) -> bool;

    /// Translating by minus `by` keeps every coordinate in range.
    spec fn can_sub(&self, by: Pt) -> bool;

    /// `self` is `from` translated by `by` (by minus `by` when `back`).
    spec fn is_translation_of(&self, from: Self, by: Pt, back: bool) -> bool;

    /// Translates the figure by `by`.
    fn add_assign(&mut self, by: Pt)
        requires
            old(self).can_add(by),
        ensures
            final(self).is_translation_of(*old(self), by, false),
    ;

    /// Translates the figure by minus `by`.
    fn sub_assign(&mut self, by: Pt)
        requires
            old(self).can_sub(by),
        ensures
            final(self).is_translation_of(*old(self), by, true),
    ;
}

/// The same as `Scalable`, but in place.
pub trait ScalableAssign: Sized {
    /// Scaling by `f` keeps every coordinate in range.
    spec fn can_mul(&self, f: i32) -> bool;

    /// Dividing by `f` is defined and keeps every coordinate in range.
    spec fn can_div(&self, f: i32) -> bool;

    /// `self` is `from` scaled by `f` (divided by `f`, rounding toward zero,
    /// when `div`).
    spec fn is_scaling_of(&self, from: Self, f: i32, div: bool) -> bool;

    /// Scales the figure by `f`.
    fn mul_assign(&mut self, f: i32)
        requires
            old(self).can_mul(f),
        ensures
            final(self).is_scaling_of(*old(self), f, false),
    ;

    /// Divides the figure by `f`, each coordinate rounded toward zero.
    fn div_assign(&mut self, f: i32)
        requires
            old(self).can_div(f),
        ensures
            final(self).is_scaling_of(*old(self), f, true),
    ;
}

impl TranslatableAssign for Pt {
    open spec fn can_add(&self, by: Pt) -> bool {
        add_fits(*self, by)
    }

    open spec fn can_sub(&self, by: Pt) -> bool {
        sub_fits(*self, by)
    }

    open spec fn is_translation_of(&self, from: Pt, by: Pt, back: bool) -> bool {
        if back {
            self.x == from.x - by.x && self.y == from.y - by.y
        } else {
            self.x == from.x + by.x && self.y == from.y + by.y
        }
    }

    fn add_assign(&mut self, by: Pt) {
        Pt::add_assign(self, by);
    }

    fn sub_assign(&mut self, by: Pt) {
        Pt::sub_assign(self, by);
    }
}

impl TranslatableAssign for Sg {
    open spec fn can_add(&self, by: Pt) -> bool {
        add_fits(self.i, by) && add_fits(self.f, by)
    }

    open spec fn can_sub(&self, by: Pt) -> bool {
        sub_fits(self.i, by) && sub_fits(self.f, by)
    }

    open spec fn is_translation_of(&self, from: Sg, by: Pt, back: bool) -> bool {
        *self == if back { sg_sub(from, by) } else { sg_add(from, by) }
    }

    fn add_assign(&mut self, by: Pt) {
        Sg::add_assign(self, by);
    }

    fn sub_assign(&mut self, by: Pt) {
        Sg::sub_assign(self, by);
    }
}

impl TranslatableAssign for Pg {
    open spec fn can_add(&self, by: Pt) -> bool {
        pts_add_ok(self.pts@, by)
    }

    open spec fn can_sub(&self, by: Pt) -> bool {
        pts_sub_ok(self.pts@, by)
    }

    open spec fn is_translation_of(&self, from: Pg, by: Pt, back: bool) -> bool {
        self.kind == from.kind && self.pts@ == if back { pts_sub(from.pts@, by) } else { pts_add(from.pts@, by) }
    }

    fn add_assign(&mut self, by: Pt) {
        Pg::add_assign(self, by);
    }

    fn sub_assign(&mut self, by: Pt) {
        Pg::sub_assign(self, by);
    }
}

impl TranslatableAssign for Ml {
    open spec fn can_add(&self, by: Pt) -> bool {
        pts_add_ok(self.pts@, by)
    }

    open spec fn can_sub(&self, by: Pt) -> bool {
        pts_sub_ok(self.pts@, by)
    }

    open spec fn is_translation_of(&self, from: Ml, by: Pt, back: bool) -> bool {
        self.pts@ == if back { pts_sub(from.pts@, by) } else { pts_add(from.pts@, by) }
    }

    fn add_assign(&mut self, by: Pt) {
        Ml::add_assign(self, by);
    }

    fn sub_assign(&mut self, by: Pt) {
        Ml::sub_assign(self, by);
    }
}

impl ScalableAssign for Pt {
    open spec fn can_mul(&self, f: i32) -> bool {
        scale_fits(*self, f)
    }

    open spec fn can_div(&self, f: i32) -> bool {
        div_ok(*self, f)
    }

    open spec fn is_scaling_of(&self, from: Pt, f: i32, div: bool) -> bool {
        if div {
            self.x == tdiv(from.x as int, f as int) && self.y == tdiv(from.y as int, f as int)
        } else {
            self.x == from.x * f && self.y == from.y * f
        }
    }

    fn mul_assign(&mut self, f: i32) {
        Pt::mul_assign(self, f);
    }

    fn div_assign(&mut self, f: i32) {
        Pt::div_assign(self, f);
    }
}

impl ScalableAssign for Sg {
    open spec fn can_mul(&self, f: i32) -> bool {
        scale_fits(self.i, f) && scale_fits(self.f, f)
    }

    open spec fn can_div(&self, f: i32) -> bool {
        div_ok(self.i, f) && div_ok(self.f, f)
    }

    open spec fn is_scaling_of(&self, from: Sg, f: i32, div: bool) -> bool {
        *self == if div { sg_div(from, f) } else { sg_scale(from, f) }
    }

    fn mul_assign(&mut self, f: i32) {
        Sg::mul_assign(self, f);
    }

    fn div_assign(&mut self, f: i32) {
        Sg::div_assign(self, f);
    }
}

impl ScalableAssign for Pg {
    open spec fn can_mul(&self, f: i32) -> bool {
        pts_scale_ok(self.pts@, f)
    }

    open spec fn can_div(&self, f: i32) -> bool {
        pts_div_ok(self.pts@, f)
    }

    open spec fn is_scaling_of(&self, from: Pg, f: i32, div: bool) -> bool {
        self.kind == from.kind && self.pts@ == if div { pts_div(from.pts@, f) } else { pts_scale(from.pts@, f) }
    }

    fn mul_assign(&mut self, f: i32) {
        Pg::mul_assign(self, f);
    }

    fn div_assign(&mut self, f: i32) {
        Pg::div_assign(self, f);
    }
}

impl ScalableAssign for Ml {
    open spec fn can_mul(&self, f: i32) -> bool {
        pts_scale_ok(self.pts@, f)
    }

    open spec fn can_div(&self, f: i32) -> bool {
        pts_div_ok(self.pts@, f)
    }

    open spec fn is_scaling_of(&self, from: Ml, f: i32, div: bool) -> bool {
        self.pts@ == if div { pts_div(from.pts@, f) } else { pts_scale(from.pts@, f) }
    }

    fn mul_assign(&mut self, f: i32) {
        Ml::mul_assign(self, f);
    }

    fn div_assign(&mut self, f: i32) {
        Ml::div_assign(self, f);
    }
}

/// A geometric figure which can be empty. Most can't.
pub trait Nullable {
    /// Is it empty?
    fn is_empty(&self) -> bool;
}

impl Translatable for Pt {}

impl Translatable for Sg {}

impl Translatable for Pg {}

impl Translatable for Ml {}

impl Scalable<i32> for Pt {}

impl Scalable<i32> for Sg {}

impl Scalable<i32> for Pg {}

impl Scalable<i32> for Ml {}

impl Nullable for Sg {
    /// A segment is never empty.
    fn is_empty(&self) -> (r: bool)
        ensures
            !r,
    {
        false
    }
}

impl Nullable for Pg {
    /// A polygon is empty when it has no points.
    fn is_empty(&self) -> (r: bool)
        ensures
            r == (self.pts@.len() == 0),
    {
        self.pts.len() == 0
    }
}

impl Nullable for Ml {
    /// A multiline is empty when it has no points.
    fn is_empty(&self) -> (r: bool)
        ensures
            r == (self.pts@.len() == 0),
    {
        self.pts.len() == 0
    }
}

} // verus!
