//! A 2D segment.

use vstd::prelude::*;
use crate::pt::{Pt, pt_add, add_fits, pt_sub, sub_fits, pt_scale, scale_fits, pt_div, div_ok, tdiv, cross, dot_from, fits_i32, cross_i128, dot_from_i128, tdiv_i128, half_sum, lemma_diff_product_bound, lemma_tdiv_bound, div_i32};
use crate::frac::Frac;
use crate::intersection::{Intersection, IntersectionResult, MultipleIntersections};
use crate::bounds::Bounds;

verus! {

/// Which side of a segment a point lies on, as `Sg::_ccw` names it.
#[derive(Debug, Clone, Copy, PartialEq, Eq, Structural)]
pub enum _Orientation {
    /// On the line through the segment.
    _Colinear,
    /// To the left of the segment, looking from its start to its end.
    _Clockwise,
    /// To the right of the segment, looking from its start to its end.
    _CounterClockwise,
}

/// Whether a line segment contains a point, and if so where.
#[derive(Debug, Clone, Copy, PartialEq, Eq, Structural)]
pub enum Contains {
    /// A line segment contains a point along it.
    Within,
    /// A line segment contains a point at its head.
    AtStart,
    /// A line segment contains a point at its tail.
    AtEnd,
}

/// Another name for `Contains`.
pub type SegmentContainsPoint = Contains;

/// A segment in 2D space, with initial and final points.
#[derive(Debug, Clone, Copy, PartialEq, Eq, PartialOrd, Ord, Hash, Structural)]
pub struct Sg {
    /// The initial point of the segment.
    pub i: Pt,
    /// The final point of the segment.
    pub f: Pt,
}

/// A ray which emits from a point and goes in a direction.
#[derive(Debug, Clone, Copy, PartialEq, Eq, Structural)]
pub struct Ry {
    /// Where the ray starts.
    pub pt: Pt,
    /// The x-component of the ray's direction.
    pub dx: i64,
    /// The y-component of the ray's direction.
    pub dy: i64,
}

/// An alternate constructor for segments.
#[allow(non_snake_case)]
pub fn Sg(i: Pt, f: Pt) -> (r: Sg)
    ensures
        r.i == i,
        r.f == f,
{
    Sg { i, f }
}

/// The x-extent of a segment.
pub open spec fn sdx(s: Sg) -> int {
    s.f.x - s.i.x
}

/// The y-extent of a segment.
pub open spec fn sdy(s: Sg) -> int {
    s.f.y - s.i.y
}

/// The two segments have the same slope (rise over run), where a vertical
/// segment has an infinite slope whose sign is that of its rise, and a
/// segment of no extent has no slope at all.
pub open spec fn same_slope(a: Sg, b: Sg) -> bool {
    if sdx(a) != 0 && sdx(b) != 0 {
        sdy(a) * sdx(b) == sdy(b) * sdx(a)
    } else if sdx(a) == 0 && sdx(b) == 0 {
        (sdy(a) > 0 && sdy(b) > 0) || (sdy(a) < 0 && sdy(b) < 0)
    } else {
        false
    }
}

/// The two segments share an endpoint.
pub open spec fn shares_endpoint(a: Sg, b: Sg) -> bool {
    a.f == b.i || b.f == a.i || a.i == b.i || a.f == b.f
}

/// The determinant of the two segments' directions; zero when parallel.
pub open spec fn isxn_denom(a: Sg, b: Sg) -> int {
    -sdx(b) * sdy(a) + sdx(a) * sdy(b)
}

/// Numerator of the fraction along `a` at which the lines of `a` and `b` cross.
pub open spec fn isxn_t_num(a: Sg, b: Sg) -> int {
    sdx(b) * (a.i.y - b.i.y) - sdy(b) * (a.i.x - b.i.x)
}

/// Numerator of the fraction along `b` at which the lines of `a` and `b` cross.
pub open spec fn isxn_s_num(a: Sg, b: Sg) -> int {
    -sdy(a) * (a.i.x - b.i.x) + sdx(a) * (a.i.y - b.i.y)
}

/// Makes the denominator positive, moving its sign onto the numerator.
pub open spec fn norm_num(num: int, den: int) -> int {
    if den < 0 {
        -num
    } else {
        num
    }
}

/// Absolute value.
pub open spec fn abs(v: int) -> int {
    if v < 0 {
        -v
    } else {
        v
    }
}

/// The lines of `a` and `b` cross at a point that lies on both segments.
pub open spec fn segments_cross(a: Sg, b: Sg) -> bool {
    let d = isxn_denom(a, b);
    let t = norm_num(isxn_t_num(a, b), d);
    let s = norm_num(isxn_s_num(a, b), d);
    d != 0 && 0 <= t <= abs(d) && 0 <= s <= abs(d)
}

/// The lattice point at fraction `num / den` along `s`, each coordinate
/// rounded toward the start of `s`.
pub open spec fn pt_along(s: Sg, num: int, den: int) -> Pt {
    Pt {
        x: (s.i.x + tdiv(num * sdx(s), den)) as i32,
        y: (s.i.y + tdiv(num * sdy(s), den)) as i32,
    }
}

/// The single crossing of `a` and `b`, when `segments_cross(a, b)`.
pub open spec fn crossing(a: Sg, b: Sg) -> Intersection {
    let d = isxn_denom(a, b);
    let t = norm_num(isxn_t_num(a, b), d);
    let s = norm_num(isxn_s_num(a, b), d);
    Intersection {
        pt: pt_along(a, t, abs(d)),
        a_pct: Frac { num: t as i128, den: abs(d) as i128 },
        b_pct: Frac { num: s as i128, den: abs(d) as i128 },
    }
}

/// What intersecting segment `a` with segment `b` yields.
pub open spec fn intersect_spec(a: Sg, b: Sg) -> Option<IntersectionResult> {
    if a == b {
        Some(IntersectionResult::MultipleIntersections(MultipleIntersections::LineSegmentsAreTheSame))
    } else if a == (Sg { i: b.f, f: b.i }) {
        Some(
            IntersectionResult::MultipleIntersections(
                MultipleIntersections::LineSegmentsAreTheSameButReversed,
            ),
        )
    } else if same_slope(a, b) && shares_endpoint(a, b) {
        Some(
            IntersectionResult::MultipleIntersections(
                MultipleIntersections::LineSegmentsAreColinear,
            ),
        )
    } else if segments_cross(a, b) {
        Some(IntersectionResult::OneIntersection(crossing(a, b)))
    } else {
        None
    }
}

/// A segment translated by `p`.
pub open spec fn sg_add(s: Sg, p: Pt) -> Sg {
    Sg { i: pt_add(s.i, p), f: pt_add(s.f, p) }
}

/// A segment translated by minus `p`.
pub open spec fn sg_sub(s: Sg, p: Pt) -> Sg {
    Sg { i: pt_sub(s.i, p), f: pt_sub(s.f, p) }
}

/// A segment scaled by `k`.
pub open spec fn sg_scale(s: Sg, k: i32) -> Sg {
    Sg { i: pt_scale(s.i, k), f: pt_scale(s.f, k) }
}

/// A segment divided by `k`.
pub open spec fn sg_div(s: Sg, k: i32) -> Sg {
    Sg { i: pt_div(s.i, k), f: pt_div(s.f, k) }
}

/// The point `p` lies on segment `s` strictly between its two endpoints or
/// on one of them.
pub open spec fn on_segment(s: Sg, p: Pt) -> bool {
    cross(s.i, s.f, p) == 0 && dot_from(p, s.i, s.f) <= 0
}

/// What `Sg::line_segment_contains_pt` answers.
pub open spec fn contains_spec(s: Sg, p: Pt) -> Option<Contains> {
    if p == s.i {
        Some(Contains::AtStart)
    } else if p == s.f {
        Some(Contains::AtEnd)
    } else if on_segment(s, p) {
        Some(Contains::Within)
    } else {
        None
    }
}

/// The point at fraction `num / den` along `s`, scaled by `den`.
pub open spec fn scaled_pt_along(s: Sg, num: int, den: int) -> (int, int) {
    (den * s.i.x + num * sdx(s), den * s.i.y + num * sdy(s))
}

/// The offset `tdiv(num * ext, den)` of a point a fraction `num / den` along
/// an extent `ext` lies between 0 and `ext`.
pub proof fn lemma_offset_within(num: int, den: int, ext: int)
    requires
        0 < den,
        0 <= num <= den,
    ensures
        ext >= 0 ==> 0 <= tdiv(num * ext, den) <= ext,
        ext < 0 ==> ext <= tdiv(num * ext, den) <= 0,
{
    if ext >= 0 {
        assert(0 <= num * ext <= den * ext) by (nonlinear_arith)
            requires 0 <= num <= den, ext >= 0;
        vstd::arithmetic::div_mod::lemma_div_pos_is_pos(num * ext, den);
        vstd::arithmetic::div_mod::lemma_div_is_ordered(num * ext, den * ext, den);
        vstd::arithmetic::div_mod::lemma_div_multiples_vanish(ext, den);
    } else {
        assert(0 <= num * (-ext) <= den * (-ext)) by (nonlinear_arith)
            requires 0 <= num <= den, ext < 0;
        assert(-(num * ext) == num * (-ext)) by (nonlinear_arith);
        vstd::arithmetic::div_mod::lemma_div_pos_is_pos(num * (-ext), den);
        vstd::arithmetic::div_mod::lemma_div_is_ordered(num * (-ext), den * (-ext), den);
        vstd::arithmetic::div_mod::lemma_div_multiples_vanish(-ext, den);
    }
}

/// Computes `pt_along(s, num, den)`.
pub fn pt_along_exec(s: &Sg, num: i128, den: i128) -> (r: Pt)
    requires
        0 < den <= 0x10_0000_0000_0000_0000,
        0 <= num <= den,
    ensures
        r == pt_along(*s, num as int, den as int),
        r.x == s.i.x + tdiv(num * sdx(*s), den as int),
        r.y == s.i.y + tdiv(num * sdy(*s), den as int),
{
    let ex = s.f.x as i128 - s.i.x as i128;
    let ey = s.f.y as i128 - s.i.y as i128;
    proof {
        assert(-0x1000_0000_0000_0000_0000_0000_0000 <= num * ex <= 0x1000_0000_0000_0000_0000_0000_0000) by (nonlinear_arith)
            requires 0 <= num <= 0x10_0000_0000_0000_0000, -0x1_0000_0000 <= ex <= 0x1_0000_0000;
        assert(-0x1000_0000_0000_0000_0000_0000_0000 <= num * ey <= 0x1000_0000_0000_0000_0000_0000_0000) by (nonlinear_arith)
            requires 0 <= num <= 0x10_0000_0000_0000_0000, -0x1_0000_0000 <= ey <= 0x1_0000_0000;
    }
    let ox = tdiv_i128(num * ex, den);
    let oy = tdiv_i128(num * ey, den);
    proof {
        lemma_offset_within(num as int, den as int, ex as int);
        lemma_offset_within(num as int, den as int, ey as int);
    }
    Pt { x: (s.i.x as i128 + ox) as i32, y: (s.i.y as i128 + oy) as i32 }
}

impl Sg {
    /// On which side of this segment `other` lies: the sign of
    /// `cross(self.i, self.f, other)`.
    pub fn _ccw(&self, other: &Pt) -> (r: _Orientation)
        ensures
            r == (if cross(self.i, self.f, *other) == 0 {
                _Orientation::_Colinear
            } else if cross(self.i, self.f, *other) > 0 {
                _Orientation::_Clockwise
            } else {
                _Orientation::_CounterClockwise
            }),
    {
        let c = cross_i128(self.i, self.f, *other);
        if c == 0 {
            _Orientation::_Colinear
        } else if c > 0 {
            _Orientation::_Clockwise
        } else {
            _Orientation::_CounterClockwise
        }
    }

    /// Whether this line segment has point `other` along it, and where.
    pub fn line_segment_contains_pt(&self, other: &Pt) -> (r: Option<Contains>)
        ensures
            r == contains_spec(*self, *other),
    {
        if *other == self.i {
            return Some(Contains::AtStart);
        }
        if *other == self.f {
            return Some(Contains::AtEnd);
        }
        if cross_i128(self.i, self.f, *other) == 0 && dot_from_i128(*other, self.i, self.f) <= 0 {
            return Some(Contains::Within);
        }
        None
    }

    /// The same segment, run the other way.
    pub fn flip(&self) -> (r: Sg)
        ensures
            r.i == self.f,
            r.f == self.i,
    {
        Sg { i: self.f, f: self.i }
    }

    /// The crossing of this segment's line with `other`'s, when it lies on
    /// both segments.
    fn get_line_intersection_inner(&self, other: &Sg) -> (r: Option<Intersection>)
        ensures
            r == (if segments_cross(*self, *other) {
                Some(crossing(*self, *other))
            } else {
                None
            }),
    {
        let s1_x = self.f.x as i128 - self.i.x as i128;
        let s1_y = self.f.y as i128 - self.i.y as i128;
        let s2_x = other.f.x as i128 - other.i.x as i128;
        let s2_y = other.f.y as i128 - other.i.y as i128;
        let d_x = self.i.x as i128 - other.i.x as i128;
        let d_y = self.i.y as i128 - other.i.y as i128;
        proof {
            lemma_diff_product_bound(s2_x as int, s1_y as int);
            lemma_diff_product_bound(s1_x as int, s2_y as int);
            lemma_diff_product_bound(s1_y as int, d_x as int);
            lemma_diff_product_bound(s1_x as int, d_y as int);
            lemma_diff_product_bound(s2_x as int, d_y as int);
            lemma_diff_product_bound(s2_y as int, d_x as int);
            assert(-s2_x * s1_y == -(s2_x * s1_y)) by (nonlinear_arith);
            assert(-s1_y * d_x == -(s1_y * d_x)) by (nonlinear_arith);
        }
        let den = -s2_x * s1_y + s1_x * s2_y;
        let s_num = -s1_y * d_x + s1_x * d_y;
        let t_num = s2_x * d_y - s2_y * d_x;
        if den == 0 {
            return None;
        }
        let (s, t, d) = if den < 0 {
            (-s_num, -t_num, -den)
        } else {
            (s_num, t_num, den)
        };
        if 0 <= s && s <= d && 0 <= t && t <= d {
            let pt = pt_along_exec(self, t, d);
            Some(
                Intersection {
                    pt,
                    a_pct: Frac { num: t, den: d },
                    b_pct: Frac { num: s, den: d },
                },
            )
        } else {
            None
        }
    }

    /// Intersects this segment with `other`. Identical segments, reversed
    /// identical segments, and segments of equal slope that share an endpoint
    /// overlap in more than one point; otherwise the segments meet at one point
    /// or not at all. Parallel segments that overlap without sharing an
    /// endpoint are reported as not meeting.
    pub fn intersects(&self, other: &Sg) -> (r: Option<IntersectionResult>)
        ensures
            r == intersect_spec(*self, *other),
    {
        if *self == *other {
            Some(
                IntersectionResult::MultipleIntersections(
                    MultipleIntersections::LineSegmentsAreTheSame,
                ),
            )
        } else if *self == Sg(other.f, other.i) {
            Some(
                IntersectionResult::MultipleIntersections(
                    MultipleIntersections::LineSegmentsAreTheSameButReversed,
                ),
            )
        } else if self.slope_eq(other) && (self.f == other.i || other.f == self.i || self.i
            == other.i || self.f == other.f) {
            Some(
                IntersectionResult::MultipleIntersections(
                    MultipleIntersections::LineSegmentsAreColinear,
                ),
            )
        } else {
            match self.get_line_intersection_inner(other) {
                Some(isxn) => Some(IntersectionResult::OneIntersection(isxn)),
                None => None,
            }
        }
    }

    /// Whether this segment and `other` have the same slope.
    pub fn slope_eq(&self, other: &Sg) -> (r: bool)
        ensures
            r == same_slope(*self, *other),
    {
        let ax = self.f.x as i128 - self.i.x as i128;
        let ay = self.f.y as i128 - self.i.y as i128;
        let bx = other.f.x as i128 - other.i.x as i128;
        let by = other.f.y as i128 - other.i.y as i128;
        if ax != 0 && bx != 0 {
            proof {
                lemma_diff_product_bound(ay as int, bx as int);
                lemma_diff_product_bound(by as int, ax as int);
            }
            ay * bx == by * ax
        } else if ax == 0 && bx == 0 {
            (ay > 0 && by > 0) || (ay < 0 && by < 0)
        } else {
            false
        }
    }

    /// The cross product of this segment's direction with `other`'s.
    pub fn cross_z(&self, other: &Sg) -> (r: i128)
        ensures
            r == sdx(*self) * sdy(*other) - sdx(*other) * sdy(*self),
    {
        let x1 = self.f.x as i128 - self.i.x as i128;
        let y1 = self.f.y as i128 - self.i.y as i128;
        let x2 = other.f.x as i128 - other.i.x as i128;
        let y2 = other.f.y as i128 - other.i.y as i128;
        proof {
            lemma_diff_product_bound(x1 as int, y2 as int);
            lemma_diff_product_bound(x2 as int, y1 as int);
        }
        (x1 * y2) - (x2 * y1)
    }

    /// Midpoint of a segment, each coordinate rounded toward zero.
    pub fn midpoint(&self) -> (r: Pt)
        ensures
            r.x == tdiv(self.i.x + self.f.x, 2),
            r.y == tdiv(self.i.y + self.f.y, 2),
    {
        Pt { x: half_sum(self.i.x, self.f.x), y: half_sum(self.i.y, self.f.y) }
    }

    /// A ray perpendicular to this segment, emitting from its midpoint: the
    /// segment's direction turned a quarter turn counterclockwise.
    pub fn ray_perpendicular(&self) -> (r: Ry)
        ensures
            r.pt == self.midpoint_spec(),
            r.dx == -sdy(*self),
            r.dy == sdx(*self),
    {
        let dx = self.f.x as i64 - self.i.x as i64;
        let dy = self.f.y as i64 - self.i.y as i64;
        Ry { pt: self.midpoint(), dx: -dy, dy: dx }
    }

    /// Both perpendicular rays which emit from the midpoint of this segment:
    /// the ray of `ray_perpendicular` turned half a turn, then that ray.
    pub fn rays_perpendicular_both(&self) -> (r: (Ry, Ry))
        ensures
            r.1.pt == self.midpoint_spec(),
            r.1.dx == -sdy(*self),
            r.1.dy == sdx(*self),
            r.0.pt == self.midpoint_spec(),
            r.0.dx == sdy(*self),
            r.0.dy == -sdx(*self),
    {
        let ray = self.ray_perpendicular();
        (ray.rotate_half_turn(), ray)
    }

    /// The midpoint, as `midpoint` computes it.
    pub open spec fn midpoint_spec(self) -> Pt {
        Pt {
            x: tdiv(self.i.x + self.f.x, 2) as i32,
            y: tdiv(self.i.y + self.f.y, 2) as i32,
        }
    }

    /// The bounding box of the segment.
    pub fn bounds(&self) -> (r: Bounds)
        ensures
            r.top_bound == if self.i.y >= self.f.y { self.i.y } else { self.f.y },
            r.bottom_bound == if self.i.y <= self.f.y { self.i.y } else { self.f.y },
            r.left_bound == if self.i.x <= self.f.x { self.i.x } else { self.f.x },
            r.right_bound == if self.i.x >= self.f.x { self.i.x } else { self.f.x },
    {
        Bounds {
            top_bound: if self.i.y >= self.f.y { self.i.y } else { self.f.y },
            bottom_bound: if self.i.y <= self.f.y { self.i.y } else { self.f.y },
            left_bound: if self.i.x <= self.f.x { self.i.x } else { self.f.x },
            right_bound: if self.i.x >= self.f.x { self.i.x } else { self.f.x },
        }
    }

    /// Translates both ends in place by `by`.
    pub fn add_assign(&mut self, by: Pt)
        requires
            add_fits(old(self).i, by) && add_fits(old(self).f, by),
        ensures
            *final(self) == sg_add(*old(self), by),
    {
        self.i = self.i + by;
        self.f = self.f + by;
    }

    /// Translates both ends in place by minus `by`.
    pub fn sub_assign(&mut self, by: Pt)
        requires
            sub_fits(old(self).i, by) && sub_fits(old(self).f, by),
        ensures
            *final(self) == sg_sub(*old(self), by),
    {
        self.i = self.i - by;
        self.f = self.f - by;
    }

    /// Scales both ends in place by `f`.
    pub fn mul_assign(&mut self, f: i32)
        requires
            scale_fits(old(self).i, f) && scale_fits(old(self).f, f),
        ensures
            *final(self) == sg_scale(*old(self), f),
    {
        self.i = self.i * f;
        self.f = self.f * f;
    }

    /// Divides both ends in place by `f`, rounding toward zero.
    pub fn div_assign(&mut self, f: i32)
        requires
            div_ok(old(self).i, f) && div_ok(old(self).f, f),
        ensures
            *final(self) == sg_div(*old(self), f),
    {
        self.i = self.i / f;
        self.f = self.f / f;
    }
}

impl Ry {
    /// This ray turned by half a turn: same start, opposite direction.
    pub fn rotate_half_turn(&self) -> (r: Ry)
        requires
            self.dx != i64::MIN,
            self.dy != i64::MIN,
        ensures
            r.pt == self.pt,
            r.dx == -self.dx,
            r.dy == -self.dy,
    {
        Ry { pt: self.pt, dx: -self.dx, dy: -self.dy }
    }
}

impl core::ops::Add<Pt> for Sg {
    type Output = Sg;

    fn add(self, rhs: Pt) -> (r: Sg) {
        Sg { i: self.i + rhs, f: self.f + rhs }
    }
}

impl vstd::std_specs::ops::AddSpecImpl<Pt> for Sg {
    open spec fn obeys_add_spec() -> bool {
        true
    }

    open spec fn add_req(self, rhs: Pt) -> bool {
        add_fits(self.i, rhs) && add_fits(self.f, rhs)
    }

    open spec fn add_spec(self, rhs: Pt) -> Sg {
        sg_add(self, rhs)
    }
}

impl core::ops::Sub<Pt> for Sg {
    type Output = Sg;

    fn sub(self, rhs: Pt) -> (r: Sg) {
        Sg { i: self.i - rhs, f: self.f - rhs }
    }
}

impl vstd::std_specs::ops::SubSpecImpl<Pt> for Sg {
    open spec fn obeys_sub_spec() -> bool {
        true
    }

    open spec fn sub_req(self, rhs: Pt) -> bool {
        sub_fits(self.i, rhs) && sub_fits(self.f, rhs)
    }

    open spec fn sub_spec(self, rhs: Pt) -> Sg {
        sg_sub(self, rhs)
    }
}

impl core::ops::Mul<i32> for Sg {
    type Output = Sg;

    fn mul(self, rhs: i32) -> (r: Sg) {
        Sg { i: self.i * rhs, f: self.f * rhs }
    }
}

impl vstd::std_specs::ops::MulSpecImpl<i32> for Sg {
    open spec fn obeys_mul_spec() -> bool {
        true
    }

    open spec fn mul_req(self, rhs: i32) -> bool {
        scale_fits(self.i, rhs) && scale_fits(self.f, rhs)
    }

    open spec fn mul_spec(self, rhs: i32) -> Sg {
        sg_scale(self, rhs)
    }
}

impl core::ops::Div<i32> for Sg {
    type Output = Sg;

    fn div(self, rhs: i32) -> (r: Sg) {
        Sg { i: self.i / rhs, f: self.f / rhs }
    }
}

impl vstd::std_specs::ops::DivSpecImpl<i32> for Sg {
    open spec fn obeys_div_spec() -> bool {
        true
    }

    open spec fn div_req(self, rhs: i32) -> bool {
        div_ok(self.i, rhs) && div_ok(self.f, rhs)
    }

    open spec fn div_spec(self, rhs: i32) -> Sg {
        sg_div(self, rhs)
    }
}

/// The quantities that locate a crossing stay far inside `i128`.
pub proof fn lemma_isxn_bounds(a: Sg, b: Sg)
    ensures
        -0x4_0000_0000_0000_0000 <= isxn_denom(a, b) <= 0x4_0000_0000_0000_0000,
        -0x4_0000_0000_0000_0000 <= isxn_t_num(a, b) <= 0x4_0000_0000_0000_0000,
        -0x4_0000_0000_0000_0000 <= isxn_s_num(a, b) <= 0x4_0000_0000_0000_0000,
{
    let (ax, ay, bx, by, dx, dy) = (sdx(a), sdy(a), sdx(b), sdy(b), a.i.x - b.i.x, a.i.y - b.i.y);
    lemma_diff_product_bound(bx, ay);
    lemma_diff_product_bound(ax, by);
    lemma_diff_product_bound(bx, dy);
    lemma_diff_product_bound(by, dx);
    lemma_diff_product_bound(ay, dx);
    lemma_diff_product_bound(ax, dy);
    assert(-bx * ay == -(bx * ay)) by (nonlinear_arith);
    assert(-ay * dx == -(ay * dx)) by (nonlinear_arith);
}

/// The fields of a crossing, as integers.
pub proof fn lemma_crossing_fields(a: Sg, b: Sg)
    ensures
        crossing(a, b).a_pct.num == norm_num(isxn_t_num(a, b), isxn_denom(a, b)),
        crossing(a, b).b_pct.num == norm_num(isxn_s_num(a, b), isxn_denom(a, b)),
        crossing(a, b).a_pct.den == abs(isxn_denom(a, b)),
        crossing(a, b).b_pct.den == abs(isxn_denom(a, b)),
{
    lemma_isxn_bounds(a, b);
}

/// The crossing reported for two segments is one point of both: the point
/// `a_pct` of the way along `a` is the point `b_pct` of the way along `b`
/// (both scaled by the common denominator, before any rounding).
pub proof fn lemma_crossing_on_both_segments(a: Sg, b: Sg)
    requires
        segments_cross(a, b),
    ensures
        crossing(a, b).a_pct.den == crossing(a, b).b_pct.den,
        scaled_pt_along(a, crossing(a, b).a_pct.num as int, crossing(a, b).a_pct.den as int)
            == scaled_pt_along(b, crossing(a, b).b_pct.num as int, crossing(a, b).b_pct.den as int),
{
    lemma_crossing_fields(a, b);
    let d = isxn_denom(a, b);
    let t = isxn_t_num(a, b);
    let s = isxn_s_num(a, b);
    let (ax, ay, bx, by, dx, dy) = (sdx(a), sdy(a), sdx(b), sdy(b), a.i.x - b.i.x, a.i.y - b.i.y);
    lemma_cramer_identity(ax, ay, bx, by, dx, dy);
    lemma_cramer_identity(ay, ax, by, bx, dy, dx);
    assert(d * dx + t * ax - s * bx == 0);
    assert(-by * ax + ay * bx == -d) by (nonlinear_arith) requires d == -bx * ay + ax * by;
    assert(by * dx - bx * dy == -t) by (nonlinear_arith) requires t == bx * dy - by * dx;
    assert(-ax * dy + ay * dx == -s) by (nonlinear_arith) requires s == -ay * dx + ax * dy;
    assert((-d) * dy + (-t) * ay - (-s) * by == 0);
    assert(d * dy + t * ay - s * by == 0) by (nonlinear_arith)
        requires (-d) * dy + (-t) * ay - (-s) * by == 0;
    assert(d * a.i.x - d * b.i.x == d * dx) by (nonlinear_arith) requires dx == a.i.x - b.i.x;
    assert(d * a.i.y - d * b.i.y == d * dy) by (nonlinear_arith) requires dy == a.i.y - b.i.y;
    if d < 0 {
        assert((-d) * a.i.x + (-t) * ax == (-d) * b.i.x + (-s) * bx) by (nonlinear_arith)
            requires d * a.i.x - d * b.i.x == d * dx, d * dx + t * ax - s * bx == 0;
        assert((-d) * a.i.y + (-t) * ay == (-d) * b.i.y + (-s) * by) by (nonlinear_arith)
            requires d * a.i.y - d * b.i.y == d * dy, d * dy + t * ay - s * by == 0;
    }
}

/// Cramer's rule, in the form the crossing of two lines needs.
proof fn lemma_cramer_identity(ax: int, ay: int, bx: int, by: int, dx: int, dy: int)
    ensures
        (-bx * ay + ax * by) * dx + (bx * dy - by * dx) * ax - (-ay * dx + ax * dy) * bx == 0,
{
    let m1 = bx * ay * dx;
    let m2 = ax * by * dx;
    let m3 = ax * bx * dy;
    assert((-bx * ay + ax * by) * dx == -m1 + m2) by {
        vstd::arithmetic::mul::lemma_mul_is_distributive_add_other_way(dx, -bx * ay, ax * by);
        vstd::arithmetic::mul::lemma_mul_unary_negation(bx, ay);
        vstd::arithmetic::mul::lemma_mul_unary_negation(bx * ay, dx);
    }
    assert((bx * dy - by * dx) * ax == m3 - m2) by {
        vstd::arithmetic::mul::lemma_mul_is_distributive_sub_other_way(ax, bx * dy, by * dx);
        vstd::arithmetic::mul::lemma_mul_is_associative(bx, dy, ax);
        vstd::arithmetic::mul::lemma_mul_is_commutative(ax, bx * dy);
        vstd::arithmetic::mul::lemma_mul_is_associative(ax, bx, dy);
        vstd::arithmetic::mul::lemma_mul_is_associative(by, dx, ax);
        vstd::arithmetic::mul::lemma_mul_is_commutative(ax, by * dx);
        vstd::arithmetic::mul::lemma_mul_is_associative(ax, by, dx);
    }
    assert((-ay * dx + ax * dy) * bx == -m1 + m3) by {
        vstd::arithmetic::mul::lemma_mul_is_distributive_add_other_way(bx, -ay * dx, ax * dy);
        vstd::arithmetic::mul::lemma_mul_unary_negation(ay, dx);
        vstd::arithmetic::mul::lemma_mul_unary_negation(ay * dx, bx);
        vstd::arithmetic::mul::lemma_mul_is_commutative(bx, ay * dx);
        vstd::arithmetic::mul::lemma_mul_is_associative(bx, ay, dx);
        vstd::arithmetic::mul::lemma_mul_is_associative(ax, dy, bx);
        vstd::arithmetic::mul::lemma_mul_is_commutative(bx, ax * dy);
        vstd::arithmetic::mul::lemma_mul_is_associative(bx, ax, dy);
        vstd::arithmetic::mul::lemma_mul_is_commutative(ax, bx);
        vstd::arithmetic::mul::lemma_mul_is_associative(ax, bx, dy);
    }
}

/// Intersecting `b` with `a` gives the same answer as intersecting `a` with
/// `b`, with the roles of the two segments swapped: the same kind of overlap,
/// or a single crossing at the same two fractions, exchanged.
pub proof fn lemma_intersects_symmetric(a: Sg, b: Sg)
    ensures
        intersect_spec(a, b) is None <==> intersect_spec(b, a) is None,
        intersect_spec(a, b) matches Some(IntersectionResult::MultipleIntersections(m))
            ==> intersect_spec(b, a) == Some(IntersectionResult::MultipleIntersections(m)),
        intersect_spec(a, b) matches Some(IntersectionResult::OneIntersection(i))
            ==> intersect_spec(b, a) matches Some(IntersectionResult::OneIntersection(j))
                && j.a_pct == i.b_pct && j.b_pct == i.a_pct,
{
    assert(isxn_denom(b, a) == -isxn_denom(a, b)) by (nonlinear_arith);
    assert(isxn_t_num(b, a) == -isxn_s_num(a, b)) by (nonlinear_arith);
    assert(isxn_s_num(b, a) == -isxn_t_num(a, b)) by (nonlinear_arith);
    assert(same_slope(a, b) == same_slope(b, a)) by (nonlinear_arith);
}

/// A single crossing lies a fraction in [0, 1] along each segment, with a
/// denominator below 2^67.
pub proof fn lemma_crossing_wf(a: Sg, b: Sg)
    ensures
        intersect_spec(a, b) matches Some(IntersectionResult::OneIntersection(x)) ==> x.a_pct.wf()
            && x.b_pct.wf() && x.a_pct.den <= 0x4_0000_0000_0000_0000 && x.b_pct.den <= 0x4_0000_0000_0000_0000,
{
    lemma_crossing_fields(a, b);
    lemma_isxn_bounds(a, b);
}

/// Joining two pieces that meet at `shared` into `res` keeps their total
/// length: `shared` lies on `res`, between its two ends (the pieces lying on
/// one line).
pub open spec fn lengths_add_up(shared: Pt, res: Sg) -> bool {
    dot_from(shared, res.i, res.f) <= 0
}

/// What `Sg::try_add` gives.
pub open spec fn try_add_spec(a: Sg, b: Sg) -> Option<Sg> {
    if sdx(a) * sdy(b) - sdx(b) * sdy(a) != 0 {
        None
    } else if a.f == b.i && lengths_add_up(a.f, Sg { i: a.i, f: b.f }) {
        Some(Sg { i: a.i, f: b.f })
    } else if a.f == b.f && lengths_add_up(a.f, Sg { i: a.i, f: b.i }) {
        Some(Sg { i: a.i, f: b.i })
    } else if a.i == b.f && lengths_add_up(a.i, Sg { i: b.i, f: a.f }) {
        Some(Sg { i: b.i, f: a.f })
    } else if a.i == b.i && lengths_add_up(a.i, Sg { i: a.f, f: b.f }) {
        Some(Sg { i: a.f, f: b.f })
    } else {
        None
    }
}

impl Sg {
    /// Tries to adjoin another segment to this one: they must be parallel or
    /// antiparallel, meet end to end (tail to tip, tail to tail, tip to tail
    /// or tip to tip, tried in that order), and the joined segment must be as
    /// long as the two together, so that overlapping pieces are never merged.
    pub fn try_add(&self, other: &Sg) -> (r: Option<Sg>)
        ensures
            r == try_add_spec(*self, *other),
    {
        if self.cross_z(other) != 0 {
            return None;
        }
        if self.f == other.i && dot_from_i128(self.f, self.i, other.f) <= 0 {
            return Some(Sg { i: self.i, f: other.f });
        }
        if self.f == other.f && dot_from_i128(self.f, self.i, other.i) <= 0 {
            return Some(Sg { i: self.i, f: other.i });
        }
        if self.i == other.f && dot_from_i128(self.i, other.i, self.f) <= 0 {
            return Some(Sg { i: other.i, f: self.f });
        }
        if self.i == other.i && dot_from_i128(self.i, self.f, other.f) <= 0 {
            return Some(Sg { i: self.f, f: other.f });
        }
        None
    }
}

/// The end of `s` other than `c` (its start when `c` is not its start).
pub open spec fn far_end(s: Sg, c: Pt) -> Pt {
    if s.i == c {
        s.f
    } else {
        s.i
    }
}

/// Two segments that lie on one line, point the same way and share an
/// endpoint, and are not the same segment, are reported as colinear, in
/// whichever direction the line runs (vertical lines too).
pub proof fn lemma_same_way_on_one_line_is_colinear(a: Sg, b: Sg)
    requires
        a.i != a.f,
        b.i != b.f,
        cross(a.i, a.f, b.i) == 0,
        cross(a.i, a.f, b.f) == 0,
        sdx(a) * sdx(b) + sdy(a) * sdy(b) > 0,
        shares_endpoint(a, b),
        a != b,
    ensures
        intersect_spec(a, b) == Some(IntersectionResult::MultipleIntersections(MultipleIntersections::LineSegmentsAreColinear)),
{
    let (ax, ay, bx, by) = (sdx(a), sdy(a), sdx(b), sdy(b));
    assert(ax * by - ay * bx == cross(a.i, a.f, b.f) - cross(a.i, a.f, b.i)) by (nonlinear_arith)
        requires
            ax == a.f.x - a.i.x,
            ay == a.f.y - a.i.y,
            bx == b.f.x - b.i.x,
            by == b.f.y - b.i.y;
    assert(ax * by == ay * bx);
    if ax != 0 && bx != 0 {
        assert(ay * bx == by * ax) by (nonlinear_arith)
            requires ax * by == ay * bx;
    } else if ax == 0 && bx == 0 {
        assert(ay * by > 0) by (nonlinear_arith)
            requires ax * bx + ay * by > 0, ax == 0, bx == 0;
        assert((ay > 0 && by > 0) || (ay < 0 && by < 0)) by (nonlinear_arith)
            requires ay * by > 0;
    } else if ax == 0 {
        assert(ay != 0);
        assert(bx != 0);
        assert(ay * bx != 0) by (nonlinear_arith)
            requires ay != 0, bx != 0;
        assert(ax * by == 0) by (nonlinear_arith)
            requires ax == 0;
    } else {
        assert(by != 0);
        assert(ax * by != 0) by (nonlinear_arith)
            requires ax != 0, by != 0;
        assert(ay * bx == 0) by (nonlinear_arith)
            requires bx == 0;
    }
    assert(same_slope(a, b));
    if a == (Sg { i: b.f, f: b.i }) {
        assert(ax == -bx && ay == -by);
        assert(ax * bx + ay * by <= 0) by (nonlinear_arith)
            requires ax == -bx, ay == -by;
    }
}

/// Two segments on one line that share an endpoint `c` and do not overlap
/// (their other ends lie on opposite sides of `c`, or at it) are joined into
/// one segment between their other ends, whichever ends they share and
/// whichever way each points.
pub proof fn lemma_try_add_joins_touching(a: Sg, b: Sg, c: Pt)
    requires
        cross(a.i, a.f, b.i) == 0,
        cross(a.i, a.f, b.f) == 0,
        a.i != a.f,
        a.i == c || a.f == c,
        b.i == c || b.f == c,
        dot_from(c, far_end(a, c), far_end(b, c)) <= 0,
    ensures
        try_add_spec(a, b) matches Some(r) && ((r.i == far_end(a, c) && r.f == far_end(b, c))
            || (r.i == far_end(b, c) && r.f == far_end(a, c))),
{
    let (ax, ay, bx, by) = (sdx(a), sdy(a), sdx(b), sdy(b));
    assert(ax * by - ay * bx == cross(a.i, a.f, b.f) - cross(a.i, a.f, b.i)) by (nonlinear_arith)
        requires
            ax == a.f.x - a.i.x,
            ay == a.f.y - a.i.y,
            bx == b.f.x - b.i.x,
            by == b.f.y - b.i.y;
    assert(ax * by - bx * ay == 0) by (nonlinear_arith)
        requires ax * by - ay * bx == 0;
    lemma_dot_from_facts(c, a.i, b.i);
    lemma_dot_from_facts(c, a.i, b.f);
    lemma_dot_from_facts(c, a.f, b.i);
    lemma_dot_from_facts(c, a.f, b.f);
    lemma_dot_from_facts(c, a.i, a.f);
    lemma_dot_from_facts(c, b.i, b.f);
    lemma_dot_from_facts(c, a.f, a.i);
    lemma_dot_from_facts(c, b.f, b.i);
}

/// The dot product of two vectors from `c` does not depend on their order;
/// it is zero when one of them has no length, and positive for a vector of
/// some length with itself.
proof fn lemma_dot_from_facts(c: Pt, x: Pt, y: Pt)
    ensures
        dot_from(c, x, y) == dot_from(c, y, x),
        dot_from(c, c, y) == 0,
        dot_from(c, x, c) == 0,
        x != c ==> dot_from(c, x, x) > 0,
        y != c ==> dot_from(c, y, y) > 0,
{
    assert(dot_from(c, x, y) == dot_from(c, y, x)) by (nonlinear_arith);
    assert(dot_from(c, c, y) == 0) by (nonlinear_arith);
    assert(dot_from(c, x, c) == 0) by (nonlinear_arith);
    let (dx, dy) = (x.x - c.x, x.y - c.y);
    if x != c {
        assert(dx != 0 || dy != 0);
        assert(dx * dx + dy * dy > 0) by (nonlinear_arith)
            requires dx != 0 || dy != 0;
    }
    let (ex, ey) = (y.x - c.x, y.y - c.y);
    if y != c {
        assert(ex != 0 || ey != 0);
        assert(ex * ex + ey * ey > 0) by (nonlinear_arith)
            requires ex != 0 || ey != 0;
    }
}

/// Joining gives a segment only for segments that touch: when `try_add`
/// gives `r`, the two segments are parallel and share an endpoint `c`, their
/// other ends lie on opposite sides of `c` (or at it), and `r` runs between
/// those other ends.
pub proof fn lemma_try_add_only_joins_touching(a: Sg, b: Sg)
    ensures
        try_add_spec(a, b) matches Some(r) ==> sdx(a) * sdy(b) - sdx(b) * sdy(a) == 0
            && exists|c: Pt| (a.i == c || a.f == c) && (b.i == c || b.f == c)
                && #[trigger] dot_from(c, far_end(a, c), far_end(b, c)) <= 0
                && ((r.i == far_end(a, c) && r.f == far_end(b, c)) || (r.i == far_end(b, c) && r.f == far_end(a, c))),
{
    if let Some(r) = try_add_spec(a, b) {
        if a.f == b.i && lengths_add_up(a.f, Sg { i: a.i, f: b.f }) {
            let c = a.f;
            lemma_dot_from_facts(c, a.i, b.f);
            assert(dot_from(c, far_end(a, c), far_end(b, c)) <= 0);
        } else if a.f == b.f && lengths_add_up(a.f, Sg { i: a.i, f: b.i }) {
            let c = a.f;
            lemma_dot_from_facts(c, a.i, b.i);
            assert(dot_from(c, far_end(a, c), far_end(b, c)) <= 0);
        } else if a.i == b.f && lengths_add_up(a.i, Sg { i: b.i, f: a.f }) {
            let c = a.i;
            lemma_dot_from_facts(c, a.f, b.i);
            assert(dot_from(c, far_end(a, c), far_end(b, c)) <= 0);
        } else {
            let c = a.i;
            lemma_dot_from_facts(c, a.f, b.f);
            assert(dot_from(c, far_end(a, c), far_end(b, c)) <= 0);
        }
    }
}

/// Intersecting does not depend on the order of the two segments: the same
/// kind of answer either way, and a single crossing lies as far along each
/// segment whichever comes first.
pub proof fn lemma_intersect_symmetric(a: Sg, b: Sg)
    ensures
        (intersect_spec(a, b) is None) == (intersect_spec(b, a) is None),
        intersect_spec(a, b) matches Some(IntersectionResult::MultipleIntersections(m))
            ==> intersect_spec(b, a) == Some(IntersectionResult::MultipleIntersections(m)),
        intersect_spec(a, b) matches Some(IntersectionResult::OneIntersection(x))
            ==> (intersect_spec(b, a) matches Some(IntersectionResult::OneIntersection(y))
                && y.a_pct == x.b_pct && y.b_pct == x.a_pct),
{
    lemma_isxn_bounds(a, b);
    lemma_isxn_bounds(b, a);
    let (ax, ay, bx, by) = (sdx(a), sdy(a), sdx(b), sdy(b));
    let (dx, dy) = (a.i.x - b.i.x, a.i.y - b.i.y);
    assert(isxn_denom(b, a) == -isxn_denom(a, b)) by (nonlinear_arith)
        requires
            isxn_denom(b, a) == -ax * by + bx * ay,
            isxn_denom(a, b) == -bx * ay + ax * by;
    assert(isxn_t_num(b, a) == -isxn_s_num(a, b)) by (nonlinear_arith)
        requires
            isxn_t_num(b, a) == ax * (-dy) - ay * (-dx),
            isxn_s_num(a, b) == -ay * dx + ax * dy;
    assert(isxn_s_num(b, a) == -isxn_t_num(a, b)) by (nonlinear_arith)
        requires
            isxn_s_num(b, a) == -by * (-dx) + bx * (-dy),
            isxn_t_num(a, b) == bx * dy - by * dx;
    if a == (Sg { i: b.f, f: b.i }) {
        assert(b == Sg { i: a.f, f: a.i });
    }
    if b == (Sg { i: a.f, f: a.i }) {
        assert(a == Sg { i: b.f, f: b.i });
    }
    assert(same_slope(a, b) == same_slope(b, a));
    assert(shares_endpoint(a, b) == shares_endpoint(b, a));
    assert(segments_cross(a, b) == segments_cross(b, a));
}

} // verus!
