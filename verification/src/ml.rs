//! Multilines: open chains of points that never close on themselves.

use vstd::prelude::*;
use crate::pt::Pt;
use crate::sg::{Sg, intersect_spec};
use crate::intersection::IntersectionResult;
use crate::bounds::{Bounds, is_bounds_of, bounds_of};
use crate::pg::{
    PolygonKind, segs_of, any_pair_meets, hits_all, hits_against, open_segments, segs_meet,
    segs_hits_all, segs_meet_segment, segs_hits_against, pts_add, pts_add_ok, pts_sub, pts_sub_ok,
    pts_scale, pts_scale_ok, pts_div, pts_div_ok, map_add, map_sub, map_scale, map_div,
};

verus! {

/// A multiline: a nonempty chain of points whose last point is not its first.
#[derive(Debug, Clone)]
pub struct Ml {
    /// The points of the chain, in order.
    pub pts: Vec<Pt>,
}

/// Why a multiline could not be built.
#[derive(Debug, Clone, Copy, PartialEq, Eq, Structural)]
pub enum MlError {
    /// There were no points or segments.
    Empty,
    /// The chain would end where it starts.
    Cycle,
    /// Some segment does not start where the one before it ends.
    NotAChain,
}

/// The points make a multiline: there is one, and the last is not the first.
pub open spec fn ml_ok(s: Seq<Pt>) -> bool {
    s.len() > 0 && s[0] != s.last()
}

/// Each segment of `v` starts where the one before it ends.
pub open spec fn is_chain(v: Seq<Sg>) -> bool {
    forall|k: int| 0 <= k < v.len() - 1 ==> (#[trigger] v[k]).f == v[k + 1].i
}

/// The points of a chain of segments: the start of each, then the end of
/// the last.
pub open spec fn chain_pts(v: Seq<Sg>) -> Seq<Pt> {
    Seq::new(v.len(), |k: int| v[k].i).push(v.last().f)
}

/// Builds a multiline. The points must make one: there is at least one, and
/// the last is not the first.
#[allow(non_snake_case)]
pub fn Ml(a: Vec<Pt>) -> (r: Ml)
    requires
        ml_ok(a@),
    ensures
        r.pts@ == a@,
{
    Ml { pts: a }
}

impl Ml {
    /// A multiline through the points, unless there are none or the last
    /// is the first.
    pub fn try_from_pts(value: Vec<Pt>) -> (r: Result<Ml, MlError>)
        ensures
            value@.len() == 0 ==> r == Err::<Ml, MlError>(MlError::Empty),
            value@.len() > 0 && value@[0] == value@.last() ==> r == Err::<Ml, MlError>(MlError::Cycle),
            ml_ok(value@) ==> (r matches Ok(m) && m.pts@ == value@),
    {
        if value.len() == 0 {
            return Err(MlError::Empty);
        }
        if value[0] == value[value.len() - 1] {
            return Err(MlError::Cycle);
        }
        Ok(Ml { pts: value })
    }

    /// A multiline along a chain of segments, unless there are none, the
    /// chain ends where it starts, or it is not a chain.
    pub fn try_from_sgs(value: Vec<Sg>) -> (r: Result<Ml, MlError>)
        ensures
            value@.len() == 0 ==> r == Err::<Ml, MlError>(MlError::Empty),
            value@.len() > 0 && value@[0].i == value@.last().f ==> r == Err::<Ml, MlError>(MlError::Cycle),
            value@.len() > 0 && value@[0].i != value@.last().f && !is_chain(value@) ==> r == Err::<Ml, MlError>(MlError::NotAChain),
            value@.len() > 0 && value@[0].i != value@.last().f && is_chain(value@) ==> (r matches Ok(m) && m.pts@ == chain_pts(value@)),
    {
        let n = value.len();
        if n == 0 {
            return Err(MlError::Empty);
        }
        if value[0].i == value[n - 1].f {
            return Err(MlError::Cycle);
        }
        let mut k: usize = 0;
        while k + 1 < n
            invariant
                n == value@.len(),
                n > 0,
                value@[0].i != value@.last().f,
                k + 1 <= n,
                forall|j: int| 0 <= j < k ==> (#[trigger] value@[j]).f == value@[j + 1].i,
            decreases n - k,
        {
            if value[k].f != value[k + 1].i {
                return Err(MlError::NotAChain);
            }
            k = k + 1;
        }
        let mut pts: Vec<Pt> = Vec::new();
        let mut j: usize = 0;
        while j < n
            invariant
                n == value@.len(),
                j <= n,
                pts@ == Seq::new(j as nat, |i: int| value@[i].i),
            decreases n - j,
        {
            pts.push(value[j].i);
            proof {
                assert(pts@ =~= Seq::new((j + 1) as nat, |i: int| value@[i].i));
            }
            j = j + 1;
        }
        pts.push(value[n - 1].f);
        proof {
            assert(pts@ =~= chain_pts(value@));
        }
        Ok(Ml { pts })
    }

    /// The segments joining consecutive points.
    pub fn to_segments(&self) -> (r: Vec<Sg>)
        ensures
            r@ == segs_of(self.pts@, PolygonKind::Open),
    {
        open_segments(&self.pts)
    }

    /// Returns true if any segment of this multiline meets any segment of
    /// the other.
    pub fn intersects(&self, other: &Ml) -> (r: bool)
        ensures
            r == any_pair_meets(segs_of(self.pts@, PolygonKind::Open), segs_of(other.pts@, PolygonKind::Open)),
    {
        segs_meet(&self.to_segments(), &other.to_segments())
    }

    /// The intersection outcomes of each segment of this multiline against
    /// each segment of the other, row by row, leaving out the pairs that do
    /// not meet.
    pub fn intersects_detailed(&self, other: &Ml) -> (r: Vec<IntersectionResult>)
        ensures
            r@ == hits_all(segs_of(self.pts@, PolygonKind::Open), segs_of(other.pts@, PolygonKind::Open), segs_of(self.pts@, PolygonKind::Open).len() as int),
    {
        segs_hits_all(&self.to_segments(), &other.to_segments())
    }

    /// Returns true if any segment of this multiline meets `other`.
    pub fn intersects_segment(&self, other: &Sg) -> (r: bool)
        ensures
            r == exists|k: int| 0 <= k < segs_of(self.pts@, PolygonKind::Open).len() && (#[trigger] intersect_spec(segs_of(self.pts@, PolygonKind::Open)[k], *other)) is Some,
    {
        segs_meet_segment(&self.to_segments(), other)
    }

    /// The intersection outcomes of each segment of this multiline against
    /// `other`, in order, leaving out the segments that do not meet it.
    pub fn intersects_segment_detailed(&self, other: &Sg) -> (r: Vec<IntersectionResult>)
        ensures
            r@ == hits_against(segs_of(self.pts@, PolygonKind::Open), *other, segs_of(self.pts@, PolygonKind::Open).len() as int),
    {
        segs_hits_against(&self.to_segments(), other)
    }

    /// The points, in order, to read in place.
    pub fn iter(&self) -> (r: std::slice::Iter<'_, Pt>)
        ensures
            vstd::std_specs::slice::into_iter_elts(r) == self.pts@,
    {
        let sl = self.pts.as_slice();
        let it = sl.iter();
        proof {
            broadcast use vstd::std_specs::slice::axiom_spec_slice_iter;
            assert(vstd::std_specs::iter::IteratorSpec::remaining(&it).unref() =~= sl@);
        }
        it
    }

    /// The points, in order, to change in place.
    pub fn iter_mut(&mut self) -> (r: &mut [Pt])
        ensures
            r@ == old(self).pts@,
            final(self).pts@ == final(r)@,
    {
        self.pts.as_mut_slice()
    }

    /// The points, in order, taken out of the multiline.
    pub fn into_iter(self) -> (r: std::vec::IntoIter<Pt>)
        ensures
            vstd::std_specs::vec::into_iter_elts(r) == self.pts@,
    {
        let it = self.pts.into_iter();
        proof {
            broadcast use vstd::std_specs::vec::axiom_spec_into_iter;
            assert(vstd::std_specs::iter::IteratorSpec::remaining(&it) =~= self.pts@);
        }
        it
    }

    /// The bounding box of the points; none for a multiline with no points.
    pub fn bounds(&self) -> (r: Option<Bounds>)
        ensures
            self.pts@.len() == 0 <==> r is None,
            r matches Some(b) ==> is_bounds_of(b, self.pts@),
    {
        if self.pts.len() == 0 {
            None
        } else {
            Some(bounds_of(&self.pts))
        }
    }

    /// Whether the multiline has no points.
    pub fn is_empty(&self) -> (r: bool)
        ensures
            r == (self.pts@.len() == 0),
    {
        self.pts.len() == 0
    }

    /// Translates every point in place by `by`.
    pub fn add_assign(&mut self, by: Pt)
        requires
            pts_add_ok(old(self).pts@, by),
        ensures
            final(self).pts@ == pts_add(old(self).pts@, by),
    {
        self.pts = map_add(&self.pts, by);
    }

    /// Translates every point in place by minus `by`.
    pub fn sub_assign(&mut self, by: Pt)
        requires
            pts_sub_ok(old(self).pts@, by),
        ensures
            final(self).pts@ == pts_sub(old(self).pts@, by),
    {
        self.pts = map_sub(&self.pts, by);
    }

    /// Scales every point in place by `f`.
    pub fn mul_assign(&mut self, f: i32)
        requires
            pts_scale_ok(old(self).pts@, f),
        ensures
            final(self).pts@ == pts_scale(old(self).pts@, f),
    {
        self.pts = map_scale(&self.pts, f);
    }

    /// Divides every point in place by `f`, rounding toward zero.
    pub fn div_assign(&mut self, f: i32)
        requires
            pts_div_ok(old(self).pts@, f),
        ensures
            final(self).pts@ == pts_div(old(self).pts@, f),
    {
        self.pts = map_div(&self.pts, f);
    }
}

impl PartialEq for Ml {
    fn eq(&self, other: &Ml) -> (r: bool) {
        let n = self.pts.len();
        if n != other.pts.len() {
            return false;
        }
        let mut k: usize = 0;
        while k < n
            invariant
                n == self.pts@.len() == other.pts@.len(),
                k <= n,
                forall|j: int| 0 <= j < k ==> self.pts@[j] == other.pts@[j],
            decreases n - k,
        {
            if self.pts[k] != other.pts[k] {
                proof {
                    assert(self.pts@[k as int] != other.pts@[k as int]);
                }
                return false;
            }
            k = k + 1;
        }
        proof {
            assert(self.pts@ =~= other.pts@);
        }
        true
    }
}

impl vstd::std_specs::cmp::PartialEqSpecImpl for Ml {
    open spec fn obeys_eq_spec() -> bool {
        true
    }

    open spec fn eq_spec(&self, other: &Ml) -> bool {
        self.pts@ == other.pts@
    }
}

impl core::ops::Add<Pt> for Ml {
    type Output = Ml;

    fn add(self, rhs: Pt) -> (r: Ml)
        ensures
            r.pts@ == pts_add(self.pts@, rhs),
    {
        Ml { pts: map_add(&self.pts, rhs) }
    }
}

impl vstd::std_specs::ops::AddSpecImpl<Pt> for Ml {
    open spec fn obeys_add_spec() -> bool {
        false
    }

    open spec fn add_req(self, rhs: Pt) -> bool {
        pts_add_ok(self.pts@, rhs)
    }

    open spec fn add_spec(self, rhs: Pt) -> Ml {
        arbitrary()
    }
}

impl core::ops::Sub<Pt> for Ml {
    type Output = Ml;

    fn sub(self, rhs: Pt) -> (r: Ml)
        ensures
            r.pts@ == pts_sub(self.pts@, rhs),
    {
        Ml { pts: map_sub(&self.pts, rhs) }
    }
}

impl vstd::std_specs::ops::SubSpecImpl<Pt> for Ml {
    open spec fn obeys_sub_spec() -> bool {
        false
    }

    open spec fn sub_req(self, rhs: Pt) -> bool {
        pts_sub_ok(self.pts@, rhs)
    }

    open spec fn sub_spec(self, rhs: Pt) -> Ml {
        arbitrary()
    }
}

impl core::ops::Mul<i32> for Ml {
    type Output = Ml;

    fn mul(self, rhs: i32) -> (r: Ml)
        ensures
            r.pts@ == pts_scale(self.pts@, rhs),
    {
        Ml { pts: map_scale(&self.pts, rhs) }
    }
}

impl vstd::std_specs::ops::MulSpecImpl<i32> for Ml {
    open spec fn obeys_mul_spec() -> bool {
        false
    }

    open spec fn mul_req(self, rhs: i32) -> bool {
        pts_scale_ok(self.pts@, rhs)
    }

    open spec fn mul_spec(self, rhs: i32) -> Ml {
        arbitrary()
    }
}

impl core::ops::Div<i32> for Ml {
    type Output = Ml;

    fn div(self, rhs: i32) -> (r: Ml)
        ensures
            r.pts@ == pts_div(self.pts@, rhs),
    {
        Ml { pts: map_div(&self.pts, rhs) }
    }
}

impl vstd::std_specs::ops::DivSpecImpl<i32> for Ml {
    open spec fn obeys_div_spec() -> bool {
        false
    }

    open spec fn div_req(self, rhs: i32) -> bool {
        pts_div_ok(self.pts@, rhs)
    }

    open spec fn div_spec(self, rhs: i32) -> Ml {
        arbitrary()
    }
}

} // verus!
