//! Where two segments meet.

use vstd::prelude::*;
use crate::pt::Pt;
use crate::frac::Frac;
use crate::utils::Which;

verus! {

/// The ways in which two segments can overlap along more than one point.
#[derive(Debug, Clone, Copy, PartialEq, Eq, Structural)]
pub enum MultipleIntersections {
    /// The two segments are identical.
    LineSegmentsAreTheSame,
    /// The two segments are identical but run in opposite directions.
    LineSegmentsAreTheSameButReversed,
    /// The two segments have the same slope and share an endpoint.
    LineSegmentsAreColinear,
}

/// A single point where segment `a` meets segment `b`, with how far along
/// each segment it lies.
#[derive(Debug, Clone, Copy)]
pub struct Intersection {
    /// The point of intersection, rounded toward the start of `a` onto the lattice.
    pub pt: Pt,
    /// How far along segment `a` the intersection lies.
    pub a_pct: Frac,
    /// How far along segment `b` the intersection lies.
    pub b_pct: Frac,
}

/// The outcome of intersecting two segments.
#[derive(Debug, Clone, Copy, PartialEq)]
pub enum IntersectionResult {
    /// The segments meet at one point.
    OneIntersection(Intersection),
    /// The segments overlap in more than one point.
    MultipleIntersections(MultipleIntersections),
}

impl Intersection {
    /// An intersection at `pt`, `a_pct` along the first segment and `b_pct`
    /// along the second. Both fractions must lie in [0, 1].
    pub fn new(pt: Pt, a_pct: Frac, b_pct: Frac) -> (r: Option<Intersection>)
        ensures
            r is Some <==> (a_pct.wf() && b_pct.wf()),
            r matches Some(i) ==> i.pt == pt && i.a_pct == a_pct && i.b_pct == b_pct,
    {
        if 0 < a_pct.den && 0 <= a_pct.num && a_pct.num <= a_pct.den && 0 < b_pct.den && 0
            <= b_pct.num && b_pct.num <= b_pct.den {
            Some(Intersection { pt, a_pct, b_pct })
        } else {
            None
        }
    }

    /// How far along the first segment the intersection lies.
    pub fn percent_along_a(&self) -> (r: Frac)
        ensures
            r == self.a_pct,
    {
        self.a_pct
    }

    /// How far along the second segment the intersection lies.
    pub fn percent_along_b(&self) -> (r: Frac)
        ensures
            r == self.b_pct,
    {
        self.b_pct
    }

    /// How far along the chosen segment the intersection lies.
    pub fn percent_along(&self, which: Which) -> (r: Frac)
        ensures
            r == (match which {
                Which::A => self.a_pct,
                Which::B => self.b_pct,
            }),
    {
        match which {
            Which::A => self.a_pct,
            Which::B => self.b_pct,
        }
    }

    /// The same intersection, seen with the two segments swapped.
    pub fn flip_pcts(&self) -> (r: Intersection)
        ensures
            r.pt == self.pt,
            r.a_pct == self.b_pct,
            r.b_pct == self.a_pct,
    {
        Intersection { pt: self.pt, a_pct: self.b_pct, b_pct: self.a_pct }
    }
}

impl PartialEq for Intersection {
    fn eq(&self, other: &Intersection) -> (r: bool) {
        self.pt == other.pt && self.a_pct == other.a_pct && self.b_pct == other.b_pct
    }
}

impl vstd::std_specs::cmp::PartialEqSpecImpl for Intersection {
    open spec fn obeys_eq_spec() -> bool {
        true
    }

    open spec fn eq_spec(&self, other: &Intersection) -> bool {
        self.pt == other.pt && self.a_pct.frac_eq(other.a_pct) && self.b_pct.frac_eq(other.b_pct)
    }
}

} // verus!
