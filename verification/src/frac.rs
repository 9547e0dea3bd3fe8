//! Exact fractions in [0, 1]: how far along a segment a point lies.

use vstd::prelude::*;
use crate::pt::tdiv;

verus! {

/// The fraction `num / den`, kept unreduced.
#[derive(Debug, Clone, Copy)]
pub struct Frac {
    /// Numerator.
    pub num: i128,
    /// Denominator.
    pub den: i128,
}

/// The sign of `v`: -1, 0 or 1.
pub open spec fn sign(v: int) -> int {
    if v > 0 {
        1
    } else if v < 0 {
        -1
    } else {
        0
    }
}

impl Frac {
    /// A fraction in [0, 1] with a positive denominator.
    pub open spec fn wf(self) -> bool {
        0 < self.den && 0 <= self.num <= self.den
    }

    /// `self` and `other` name the same rational number.
    pub open spec fn same_value(self, other: Frac) -> bool {
        self.num * other.den == other.num * self.den
    }

    /// What `==` on fractions computes: equality of value for fractions with
    /// positive denominators and nonnegative numerators, of fields otherwise.
    pub open spec fn frac_eq(self, other: Frac) -> bool {
        if self.den <= 0 || other.den <= 0 || self.num < 0 || other.num < 0 {
            self.num == other.num && self.den == other.den
        } else {
            self.same_value(other)
        }
    }

    /// `self` is strictly smaller than `other` (for positive denominators).
    pub open spec fn lt_value(self, other: Frac) -> bool {
        self.num * other.den < other.num * self.den
    }

    /// `self` is at most `other` (for positive denominators).
    pub open spec fn le_value(self, other: Frac) -> bool {
        self.num * other.den <= other.num * self.den
    }
}

proof fn lemma_compare_step(a: int, b: int, c: int, d: int)
    requires
        a >= 0,
        b > 0,
        c >= 0,
        d > 0,
    ensures
        a * d - c * b == (a / b - c / d) * b * d + ((a % b) * d - (c % d) * b),
        -(b * d) < (a % b) * d - (c % d) * b < b * d,
{
    vstd::arithmetic::div_mod::lemma_fundamental_div_mod(a, b);
    vstd::arithmetic::div_mod::lemma_fundamental_div_mod(c, d);
    vstd::arithmetic::div_mod::lemma_mod_bound(a, b);
    vstd::arithmetic::div_mod::lemma_mod_bound(c, d);
    let q1 = a / b;
    let q2 = c / d;
    let r1 = a % b;
    let r2 = c % d;
    assert(a * d - c * b == (q1 - q2) * b * d + (r1 * d - r2 * b)) by (nonlinear_arith)
        requires
            a == b * q1 + r1,
            c == d * q2 + r2,
    ;
    assert(-(b * d) < r1 * d - r2 * b < b * d) by (nonlinear_arith)
        requires
            0 <= r1 < b,
            0 <= r2 < d,
            b > 0,
            d > 0,
    ;
}

proof fn lemma_sign_from_quotients(q: int, bd: int, r: int)
    requires
        q != 0,
        bd > 0,
        -bd < r < bd,
    ensures
        sign(q * bd + r) == sign(q),
{
    if q > 0 {
        assert(q * bd >= bd) by (nonlinear_arith)
            requires q >= 1, bd > 0;
    } else {
        assert(q * bd <= -bd) by (nonlinear_arith)
            requires q <= -1, bd > 0;
    }
}

/// The sign of `a * d - c * b`, computed without overflow: compares the
/// fractions a/b and c/d.
pub fn compare_fractions(a: i128, b: i128, c: i128, d: i128) -> (r: i8)
    requires
        a >= 0,
        b > 0,
        c >= 0,
        d > 0,
    ensures
        r == sign(a * d - c * b),
    decreases b + d,
{
    let q1 = a / b;
    let q2 = c / d;
    let r1 = a % b;
    let r2 = c % d;
    proof {
        lemma_compare_step(a as int, b as int, c as int, d as int);
        vstd::arithmetic::div_mod::lemma_mod_bound(a as int, b as int);
        vstd::arithmetic::div_mod::lemma_mod_bound(c as int, d as int);
    }
    if q1 != q2 {
        proof {
            vstd::arithmetic::mul::lemma_mul_strictly_positive(b as int, d as int);
            assert((q1 - q2) * b * d == (q1 - q2) * (b * d)) by (nonlinear_arith);
            lemma_sign_from_quotients(q1 - q2, b * d, r1 * d - r2 * b);
        }
        if q1 > q2 {
            1
        } else {
            -1
        }
    } else if r1 == 0 {
        proof {
            assert((q1 - q2) * b * d == 0) by (nonlinear_arith) requires q1 == q2;
            assert(r1 * d == 0) by (nonlinear_arith) requires r1 == 0;
            assert(r2 * b >= 0) by (nonlinear_arith)
                requires r2 >= 0, b > 0;
            assert(r2 > 0 ==> r2 * b > 0) by (nonlinear_arith)
                requires b > 0;
        }
        if r2 == 0 {
            0
        } else {
            -1
        }
    } else if r2 == 0 {
        proof {
            assert((q1 - q2) * b * d == 0) by (nonlinear_arith) requires q1 == q2;
            assert(r2 * b == 0) by (nonlinear_arith) requires r2 == 0;
            assert(r1 * d > 0) by (nonlinear_arith)
                requires r1 > 0, d > 0;
        }
        1
    } else {
        let s = compare_fractions(d, r2, b, r1);
        proof {
            assert((q1 - q2) * b * d == 0) by (nonlinear_arith) requires q1 == q2;
            assert(d * r1 - b * r2 == r1 * d - r2 * b) by (nonlinear_arith);
        }
        s
    }
}

impl Frac {
    /// The fraction `num / den`, provided it lies in [0, 1]. A negative
    /// denominator is allowed; its sign is moved to the numerator.
    pub fn new(num: i128, den: i128) -> (r: Option<Frac>)
        requires
            num > i128::MIN,
            den > i128::MIN,
        ensures
            r is Some <==> ((den > 0 && 0 <= num <= den) || (den < 0 && den <= num <= 0)),
            r matches Some(f) ==> f.wf() && (den > 0 ==> f.num == num && f.den == den) && (den < 0
                ==> f.num == -num && f.den == -den),
    {
        if den == 0 {
            return None;
        }
        let (n, d) = if den < 0 {
            (-num, -den)
        } else {
            (num, den)
        };
        if 0 <= n && n <= d {
            Some(Frac { num: n, den: d })
        } else {
            None
        }
    }

    /// The fraction zero.
    pub fn zero() -> (r: Frac)
        ensures
            r.wf(),
            r.num == 0,
            r.den == 1,
    {
        Frac { num: 0, den: 1 }
    }

    /// The fraction one.
    pub fn one() -> (r: Frac)
        ensures
            r.wf(),
            r.num == 1,
            r.den == 1,
    {
        Frac { num: 1, den: 1 }
    }

    /// Compares two fractions by value: -1, 0 or 1.
    pub fn compare(&self, other: &Frac) -> (r: i8)
        requires
            self.wf(),
            other.wf(),
        ensures
            r == sign(self.num * other.den - other.num * self.den),
    {
        compare_fractions(self.num, self.den, other.num, other.den)
    }

    /// Whether this fraction is at most `other` in value.
    pub fn le(&self, other: &Frac) -> (r: bool)
        requires
            self.wf(),
            other.wf(),
        ensures
            r == self.le_value(*other),
    {
        self.compare(other) <= 0
    }

    /// Whether this fraction is strictly less than `other` in value.
    pub fn lt(&self, other: &Frac) -> (r: bool)
        requires
            self.wf(),
            other.wf(),
        ensures
            r == self.lt_value(*other),
    {
        self.compare(other) < 0
    }

    /// Whether this fraction is 0 or 1.
    pub fn is_at_boundary(&self) -> (r: bool)
        requires
            self.wf(),
        ensures
            r == (self.num == 0 || self.num == self.den),
    {
        self.num == 0 || self.num == self.den
    }
}

impl PartialEq for Frac {
    fn eq(&self, other: &Frac) -> (r: bool) {
        if self.den <= 0 || other.den <= 0 || self.num < 0 || other.num < 0 {
            self.num == other.num && self.den == other.den
        } else {
            compare_fractions(self.num, self.den, other.num, other.den) == 0
        }
    }
}

impl vstd::std_specs::cmp::PartialEqSpecImpl for Frac {
    open spec fn obeys_eq_spec() -> bool {
        true
    }

    open spec fn eq_spec(&self, other: &Frac) -> bool {
        self.frac_eq(*other)
    }
}

} // verus!
