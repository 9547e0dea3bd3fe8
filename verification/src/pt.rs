//! A 2D point on the integer lattice of thousandths of a plotting unit.

use vstd::prelude::*;

verus! {

/// How many lattice steps make one plotting unit: coordinates count
/// thousandths of a unit.
pub const UNIT: i32 = 1000;

/// A point in 2D space. Coordinates count lattice steps of a thousandth of a
/// plotting unit (`UNIT` steps to the unit): the point (1.5, 2) of the plane
/// is `Pt { x: 1500, y: 2000 }`. Whatever a computation yields off the
/// lattice (a crossing of two segments, a midpoint, a quotient) is rounded
/// onto it as its contract states.
#[derive(Debug, Clone, Copy, PartialEq, Eq, PartialOrd, Ord, Hash, Structural)]
pub struct Pt {
    /// The x-coordinate of the point.
    pub x: i32,
    /// The y-coordinate of the point.
    pub y: i32,
}

/// Whether `v` fits in an `i32`.
pub open spec fn fits_i32(v: int) -> bool {
    i32::MIN <= v <= i32::MAX
}

/// The sum of two points, when it fits.
pub open spec fn pt_add(a: Pt, b: Pt) -> Pt {
    Pt { x: (a.x + b.x) as i32, y: (a.y + b.y) as i32 }
}

/// `a + b` fits in a point.
pub open spec fn add_fits(a: Pt, b: Pt) -> bool {
    fits_i32(a.x + b.x) && fits_i32(a.y + b.y)
}

/// The difference of two points, when it fits.
pub open spec fn pt_sub(a: Pt, b: Pt) -> Pt {
    Pt { x: (a.x - b.x) as i32, y: (a.y - b.y) as i32 }
}

/// `a - b` fits in a point.
pub open spec fn sub_fits(a: Pt, b: Pt) -> bool {
    fits_i32(a.x - b.x) && fits_i32(a.y - b.y)
}

/// A point scaled by `k`, when it fits.
pub open spec fn pt_scale(a: Pt, k: i32) -> Pt {
    Pt { x: (a.x * k) as i32, y: (a.y * k) as i32 }
}

/// `a * k` fits in a point.
pub open spec fn scale_fits(a: Pt, k: i32) -> bool {
    fits_i32(a.x * k) && fits_i32(a.y * k)
}

/// A point divided by `k`, each coordinate rounded toward zero.
pub open spec fn pt_div(a: Pt, k: i32) -> Pt {
    Pt { x: tdiv(a.x as int, k as int) as i32, y: tdiv(a.y as int, k as int) as i32 }
}

/// `a / k` is defined and fits in a point.
pub open spec fn div_ok(a: Pt, k: i32) -> bool {
    k != 0 && !(k == -1 && (a.x == i32::MIN || a.y == i32::MIN))
}

/// Division rounding toward zero, as integer division in Rust does.
pub open spec fn tdiv(n: int, d: int) -> int {
    if n >= 0 {
        if d > 0 { n / d } else { -(n / (-d)) }
    } else {
        if d > 0 { -((-n) / d) } else { (-n) / (-d) }
    }
}

/// Twice the signed area of the triangle (o, a, b): positive when b lies to
/// the left of the ray from o through a.
pub open spec fn cross(o: Pt, a: Pt, b: Pt) -> int {
    (a.x - o.x) * (b.y - o.y) - (a.y - o.y) * (b.x - o.x)
}

/// The dot product of the vectors (o, a) and (o, b).
pub open spec fn dot_from(o: Pt, a: Pt, b: Pt) -> int {
    (a.x - o.x) * (b.x - o.x) + (a.y - o.y) * (b.y - o.y)
}

/// Lexicographic order on points: by x, then by y.
pub open spec fn pt_le(a: Pt, b: Pt) -> bool {
    a.x < b.x || (a.x == b.x && a.y <= b.y)
}

/// The three points lie on one line (the test used for colinearity).
pub open spec fn colinear3(p1: Pt, p2: Pt, p3: Pt) -> bool {
    (p2.y - p1.y) * (p3.x - p2.x) == (p3.y - p2.y) * (p2.x - p1.x)
}

/// Products of two lattice differences stay far inside `i128`.
pub proof fn lemma_diff_product_bound(a: int, b: int)
    requires
        -0x1_0000_0000 <= a <= 0x1_0000_0000,
        -0x1_0000_0000 <= b <= 0x1_0000_0000,
    ensures
        -0x1_0000_0000_0000_0000 <= a * b <= 0x1_0000_0000_0000_0000,
{
    assert(-0x1_0000_0000_0000_0000 <= a * b <= 0x1_0000_0000_0000_0000) by (nonlinear_arith)
        requires
            -0x1_0000_0000 <= a <= 0x1_0000_0000,
            -0x1_0000_0000 <= b <= 0x1_0000_0000,
    ;
}

/// Computes `cross(o, a, b)` exactly.
pub fn cross_i128(o: Pt, a: Pt, b: Pt) -> (r: i128)
    ensures
        r == cross(o, a, b),
{
    let ax = a.x as i128 - o.x as i128;
    let ay = a.y as i128 - o.y as i128;
    let bx = b.x as i128 - o.x as i128;
    let by = b.y as i128 - o.y as i128;
    proof {
        lemma_diff_product_bound(ax as int, by as int);
        lemma_diff_product_bound(ay as int, bx as int);
    }
    ax * by - ay * bx
}

/// Computes `dot_from(o, a, b)` exactly.
pub fn dot_from_i128(o: Pt, a: Pt, b: Pt) -> (r: i128)
    ensures
        r == dot_from(o, a, b),
{
    let ax = a.x as i128 - o.x as i128;
    let ay = a.y as i128 - o.y as i128;
    let bx = b.x as i128 - o.x as i128;
    let by = b.y as i128 - o.y as i128;
    proof {
        lemma_diff_product_bound(ax as int, bx as int);
        lemma_diff_product_bound(ay as int, by as int);
    }
    ax * bx + ay * by
}

/// Computes `tdiv(n, d)` for a positive divisor.
pub fn tdiv_i128(n: i128, d: i128) -> (r: i128)
    requires
        d > 0,
        n > i128::MIN,
    ensures
        r == tdiv(n as int, d as int),
{
    if n >= 0 {
        n / d
    } else {
        let m: i128 = -n;
        -(m / d)
    }
}

/// Builds the point with lattice coordinates `x` and `y`.
#[allow(non_snake_case)]
pub fn Pt(x: i32, y: i32) -> (r: Pt)
    ensures
        r.x == x,
        r.y == y,
{
    Pt { x, y }
}

/// Builds the point with lattice coordinates `x` and `y`, as `Pt` does.
#[allow(non_snake_case)]
pub fn Pt2(x: i32, y: i32) -> (r: Pt)
    ensures
        r.x == x,
        r.y == y,
{
    Pt { x, y }
}

/// Builds the point with lattice coordinates `x` and `y`, as `Pt` does.
#[allow(non_snake_case)]
pub fn Point(x: i32, y: i32) -> (r: Pt)
    ensures
        r.x == x,
        r.y == y,
{
    Pt { x, y }
}

impl core::ops::Add<Pt> for Pt {
    type Output = Pt;

    fn add(self, rhs: Pt) -> (r: Pt) {
        Pt { x: self.x + rhs.x, y: self.y + rhs.y }
    }
}

impl vstd::std_specs::ops::AddSpecImpl<Pt> for Pt {
    open spec fn obeys_add_spec() -> bool {
        true
    }

    open spec fn add_req(self, rhs: Pt) -> bool {
        add_fits(self, rhs)
    }

    open spec fn add_spec(self, rhs: Pt) -> Pt {
        pt_add(self, rhs)
    }
}

impl core::ops::Sub<Pt> for Pt {
    type Output = Pt;

    fn sub(self, rhs: Pt) -> (r: Pt) {
        Pt { x: self.x - rhs.x, y: self.y - rhs.y }
    }
}

impl vstd::std_specs::ops::SubSpecImpl<Pt> for Pt {
    open spec fn obeys_sub_spec() -> bool {
        true
    }

    open spec fn sub_req(self, rhs: Pt) -> bool {
        sub_fits(self, rhs)
    }

    open spec fn sub_spec(self, rhs: Pt) -> Pt {
        pt_sub(self, rhs)
    }
}

impl core::ops::Mul<i32> for Pt {
    type Output = Pt;

    fn mul(self, rhs: i32) -> (r: Pt) {
        Pt { x: self.x * rhs, y: self.y * rhs }
    }
}

impl vstd::std_specs::ops::MulSpecImpl<i32> for Pt {
    open spec fn obeys_mul_spec() -> bool {
        true
    }

    open spec fn mul_req(self, rhs: i32) -> bool {
        scale_fits(self, rhs)
    }

    open spec fn mul_spec(self, rhs: i32) -> Pt {
        pt_scale(self, rhs)
    }
}

impl core::ops::Mul<Pt> for Pt {
    type Output = Pt;

    fn mul(self, rhs: Pt) -> (r: Pt) {
        Pt { x: self.x * rhs.x, y: self.y * rhs.y }
    }
}

impl vstd::std_specs::ops::MulSpecImpl<Pt> for Pt {
    open spec fn obeys_mul_spec() -> bool {
        true
    }

    open spec fn mul_req(self, rhs: Pt) -> bool {
        fits_i32(self.x * rhs.x) && fits_i32(self.y * rhs.y)
    }

    open spec fn mul_spec(self, rhs: Pt) -> Pt {
        Pt { x: (self.x * rhs.x) as i32, y: (self.y * rhs.y) as i32 }
    }
}

/// A quotient rounded toward zero is no larger in magnitude than the dividend,
/// and is at most half of it for divisors of magnitude two or more.
pub proof fn lemma_tdiv_bound(n: int, d: int)
    requires
        d != 0,
    ensures
        n >= 0 && d > 0 ==> 0 <= tdiv(n, d) <= n,
        n >= 0 && d < 0 ==> -n <= tdiv(n, d) <= 0,
        n < 0 && d > 0 ==> n <= tdiv(n, d) <= 0,
        n < 0 && d < 0 ==> 0 <= tdiv(n, d) <= -n,
        (d >= 2 || d <= -2) ==> -(if n >= 0 { n } else { -n }) / 2 <= tdiv(n, d) <= (if n >= 0 { n } else { -n }) / 2,
        tdiv(n, d) == tdiv(-n, -d),
{
    let a = if n >= 0 { n } else { -n };
    let b = if d > 0 { d } else { -d };
    vstd::arithmetic::div_mod::lemma_div_pos_is_pos(a, b);
    vstd::arithmetic::div_mod::lemma_div_is_ordered_by_denominator(a, 1, b);
    vstd::arithmetic::div_mod::lemma_div_basics(a);
    if b >= 2 {
        vstd::arithmetic::div_mod::lemma_div_is_ordered_by_denominator(a, 2, b);
    }
    if n == 0 {
        vstd::arithmetic::div_mod::lemma_div_basics(b);
    }
}

/// Divides with rounding toward zero, as `/` does on Rust integers.
pub fn div_i32(n: i32, d: i32) -> (r: i32)
    requires
        d != 0,
        !(n == i32::MIN && d == -1),
    ensures
        r == tdiv(n as int, d as int),
{
    let nn = n as i128;
    let dd = d as i128;
    let q = if dd > 0 {
        tdiv_i128(nn, dd)
    } else {
        tdiv_i128(-nn, -dd)
    };
    proof {
        lemma_tdiv_bound(n as int, d as int);
    }
    q as i32
}

impl core::ops::Div<i32> for Pt {
    type Output = Pt;

    fn div(self, rhs: i32) -> (r: Pt) {
        Pt { x: div_i32(self.x, rhs), y: div_i32(self.y, rhs) }
    }
}

impl vstd::std_specs::ops::DivSpecImpl<i32> for Pt {
    open spec fn obeys_div_spec() -> bool {
        true
    }

    open spec fn div_req(self, rhs: i32) -> bool {
        div_ok(self, rhs)
    }

    open spec fn div_spec(self, rhs: i32) -> Pt {
        pt_div(self, rhs)
    }
}

impl core::ops::Div<Pt> for Pt {
    type Output = Pt;

    fn div(self, rhs: Pt) -> (r: Pt) {
        Pt { x: div_i32(self.x, rhs.x), y: div_i32(self.y, rhs.y) }
    }
}

impl vstd::std_specs::ops::DivSpecImpl<Pt> for Pt {
    open spec fn obeys_div_spec() -> bool {
        true
    }

    open spec fn div_req(self, rhs: Pt) -> bool {
        rhs.x != 0 && rhs.y != 0 && !(rhs.x == -1 && self.x == i32::MIN) && !(rhs.y == -1
            && self.y == i32::MIN)
    }

    open spec fn div_spec(self, rhs: Pt) -> Pt {
        Pt { x: tdiv(self.x as int, rhs.x as int) as i32, y: tdiv(self.y as int, rhs.y as int) as i32 }
    }
}

impl Pt {
    /// Translates this point in place by `other`.
    pub fn add_assign(&mut self, other: Pt)
        requires
            fits_i32(old(self).x + other.x),
            fits_i32(old(self).y + other.y),
        ensures
            final(self).x == old(self).x + other.x,
            final(self).y == old(self).y + other.y,
    {
        *self = Pt { x: self.x + other.x, y: self.y + other.y };
    }

    /// Translates this point in place by minus `other`.
    pub fn sub_assign(&mut self, other: Pt)
        requires
            fits_i32(old(self).x - other.x),
            fits_i32(old(self).y - other.y),
        ensures
            final(self).x == old(self).x - other.x,
            final(self).y == old(self).y - other.y,
    {
        *self = Pt { x: self.x - other.x, y: self.y - other.y };
    }

    /// Scales this point in place by `f`.
    pub fn mul_assign(&mut self, f: i32)
        requires
            fits_i32(old(self).x * f),
            fits_i32(old(self).y * f),
        ensures
            final(self).x == old(self).x * f,
            final(self).y == old(self).y * f,
    {
        *self = Pt { x: self.x * f, y: self.y * f };
    }

    /// Divides this point in place by `f`, rounding each coordinate toward zero.
    pub fn div_assign(&mut self, f: i32)
        requires
            f != 0,
            !(f == -1 && (old(self).x == i32::MIN || old(self).y == i32::MIN)),
        ensures
            final(self).x == tdiv(old(self).x as int, f as int),
            final(self).y == tdiv(old(self).y as int, f as int),
    {
        *self = Pt { x: div_i32(self.x, f), y: div_i32(self.y, f) };
    }

    /// Dot product of (origin, self) and (origin, other).
    pub fn dot(&self, other: &Pt) -> (r: i128)
        ensures
            r == self.x * other.x + self.y * other.y,
    {
        proof {
            lemma_diff_product_bound(self.x as int, other.x as int);
            lemma_diff_product_bound(self.y as int, other.y as int);
        }
        (self.x as i128) * (other.x as i128) + (self.y as i128) * (other.y as i128)
    }

    /// Average of two points, each coordinate rounded toward zero.
    pub fn avg(&self, other: &Pt) -> (r: Pt)
        ensures
            r.x == tdiv(self.x + other.x, 2),
            r.y == tdiv(self.y + other.y, 2),
    {
        Pt { x: half_sum(self.x, other.x), y: half_sum(self.y, other.y) }
    }

    /// Flips the sign of the x-coordinate.
    pub fn flip_x(&mut self)
        requires
            old(self).x != i32::MIN,
        ensures
            final(self).x == -old(self).x,
            final(self).y == old(self).y,
    {
        self.x = -self.x;
    }

    /// Flips the sign of the y-coordinate.
    pub fn flip_y(&mut self)
        requires
            old(self).y != i32::MIN,
        ensures
            final(self).x == old(self).x,
            final(self).y == -old(self).y,
    {
        self.y = -self.y;
    }
}

/// Half of the sum of two coordinates, rounded toward zero.
pub fn half_sum(a: i32, b: i32) -> (r: i32)
    ensures
        r == tdiv(a + b, 2),
{
    let s = a as i128 + b as i128;
    let q = tdiv_i128(s, 2);
    proof {
        lemma_tdiv_bound(s as int, 2);
    }
    q as i32
}

/// Whether three points are colinear.
pub fn is_colinear_3(p1: Pt, p2: Pt, p3: Pt) -> (r: bool)
    ensures
        r == colinear3(p1, p2, p3),
{
    let a = p1.x as i128;
    let b = p1.y as i128;
    let m = p2.x as i128;
    let n = p2.y as i128;
    let x = p3.x as i128;
    let y = p3.y as i128;
    proof {
        lemma_diff_product_bound(n - b, x - m);
        lemma_diff_product_bound(y - n, m - a);
    }
    (n - b) * (x - m) == (y - n) * (m - a)
}

/// Returns true if all the points are colinear; two or fewer points never are.
pub fn is_colinear_n(ch: &Vec<Pt>) -> (r: bool)
    ensures
        r == (ch@.len() > 2 && forall|k: int| 2 <= k < ch@.len() ==> colinear3(ch@[0], ch@[1], #[trigger] ch@[k])),
{
    if ch.len() <= 2 {
        return false;
    }
    let mut k: usize = 2;
    while k < ch.len()
        invariant
            2 <= k <= ch@.len(),
            forall|j: int| 2 <= j < k ==> colinear3(ch@[0], ch@[1], #[trigger] ch@[j]),
        decreases ch@.len() - k,
    {
        if !is_colinear_3(ch[0], ch[1], ch[k]) {
            return false;
        }
        k = k + 1;
    }
    true
}

} // verus!
