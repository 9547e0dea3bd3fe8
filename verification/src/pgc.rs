//! Polygons with cavities: an outer polygon and the polygons cut out of it.

use vstd::prelude::*;
use crate::pt::Pt;
use crate::bounds::{Bounds, is_bounds_of};
use crate::pg::{Pg, ObjType, is_outside};

verus! {

/// A polygon with cavities.
#[derive(Debug, Clone)]
pub struct Pgc {
    /// The outer polygon.
    pub outer: Pg,
    /// The cavities.
    pub inner: Vec<Pg>,
}

/// Why a polygon with cavities could not be built.
#[derive(Debug, Clone, Copy, PartialEq, Eq, Structural)]
pub enum PgcError {
    /// A point of a cavity lies outside the outer polygon.
    InnerPointOutside,
}

/// No point of any cavity lies outside the outer polygon.
pub open spec fn cavities_inside(outer: Pg, inner: Seq<Pg>) -> bool {
    forall|i: int, k: int| 0 <= i < inner.len() && 0 <= k < inner[i].pts@.len()
        ==> !is_outside(outer.pts@, outer.kind, #[trigger] inner[i].pts@[k])
}

/// The points of the cavities, cavity by cavity.
pub open spec fn inner_pts(inner: Seq<Pg>) -> Seq<Pt>
    decreases inner.len(),
{
    if inner.len() == 0 {
        Seq::empty()
    } else {
        inner_pts(inner.drop_last()) + inner.last().pts@
    }
}

/// Builds a polygon with cavities, unless a point of a cavity lies outside
/// the outer polygon.
#[allow(non_snake_case)]
pub fn Pgc(a: Pg, b: Vec<Pg>) -> (r: Result<Pgc, PgcError>)
    ensures
        cavities_inside(a, b@) ==> (r matches Ok(p) && p.outer == a && p.inner@ == b@),
        !cavities_inside(a, b@) ==> r == Err::<Pgc, PgcError>(PgcError::InnerPointOutside),
{
    let mut i: usize = 0;
    while i < b.len()
        invariant
            i <= b@.len(),
            forall|x: int, k: int| 0 <= x < i && 0 <= k < b@[x].pts@.len()
                ==> !is_outside(a.pts@, a.kind, #[trigger] b@[x].pts@[k]),
        decreases b@.len() - i,
    {
        let inner_pg = &b[i];
        let mut k: usize = 0;
        while k < inner_pg.pts.len()
            invariant
                i < b@.len(),
                *inner_pg == b@[i as int],
                k <= inner_pg.pts@.len(),
                forall|x: int, j: int| 0 <= x < i && 0 <= j < b@[x].pts@.len()
                    ==> !is_outside(a.pts@, a.kind, #[trigger] b@[x].pts@[j]),
                forall|j: int| 0 <= j < k ==> !is_outside(a.pts@, a.kind, #[trigger] inner_pg.pts@[j]),
            decreases inner_pg.pts@.len() - k,
        {
            if a.point_is_outside(&inner_pg.pts[k]) {
                proof {
                    assert(is_outside(a.pts@, a.kind, b@[i as int].pts@[k as int]));
                }
                return Err(PgcError::InnerPointOutside);
            }
            k = k + 1;
        }
        i = i + 1;
    }
    Ok(Pgc { outer: a, inner: b })
}

impl Pgc {
    /// All the points: the outer polygon's, then each cavity's.
    pub fn iter(&self) -> (r: Vec<Pt>)
        ensures
            r@ == self.outer.pts@ + inner_pts(self.inner@),
    {
        let mut out: Vec<Pt> = Vec::new();
        let mut k: usize = 0;
        while k < self.outer.pts.len()
            invariant
                k <= self.outer.pts@.len(),
                out@ == self.outer.pts@.take(k as int),
            decreases self.outer.pts@.len() - k,
        {
            out.push(self.outer.pts[k]);
            proof {
                assert(out@ =~= self.outer.pts@.take(k + 1));
            }
            k = k + 1;
        }
        proof {
            assert(out@ =~= self.outer.pts@ + inner_pts(self.inner@.take(0)));
        }
        let mut i: usize = 0;
        while i < self.inner.len()
            invariant
                i <= self.inner@.len(),
                out@ == self.outer.pts@ + inner_pts(self.inner@.take(i as int)),
            decreases self.inner@.len() - i,
        {
            let ghost before = out@;
            let q = &self.inner[i];
            let mut j: usize = 0;
            while j < q.pts.len()
                invariant
                    j <= q.pts@.len(),
                    out@ == before + q.pts@.take(j as int),
                decreases q.pts@.len() - j,
            {
                out.push(q.pts[j]);
                proof {
                    assert(out@ =~= before + q.pts@.take(j + 1));
                }
                j = j + 1;
            }
            proof {
                assert(self.inner@.take(i + 1).drop_last() =~= self.inner@.take(i as int));
                assert(q.pts@.take(q.pts@.len() as int) =~= q.pts@);
                assert(out@ =~= self.outer.pts@ + inner_pts(self.inner@.take(i + 1)));
            }
            i = i + 1;
        }
        proof {
            assert(self.inner@.take(self.inner@.len() as int) =~= self.inner@);
        }
        out
    }

    /// The outer polygon and the cavities, to change in place.
    pub fn iter_mut(&mut self) -> (r: (&mut Pg, &mut Vec<Pg>))
        ensures
            *r.0 == old(self).outer,
            *r.1 == old(self).inner,
            final(self).outer == *final(r.0),
            final(self).inner == *final(r.1),
    {
        (&mut self.outer, &mut self.inner)
    }

    /// The kind of object this is.
    pub fn objtype(&self) -> (r: ObjType)
        ensures
            r == ObjType::PolygonWithCavities,
    {
        ObjType::PolygonWithCavities
    }

    /// Whether the outer polygon has no points or there are no cavities.
    pub fn is_empty(&self) -> (r: bool)
        ensures
            r == (self.outer.pts@.len() == 0 || self.inner@.len() == 0),
    {
        self.outer.is_empty() || self.inner.len() == 0
    }

    /// The bounding box of the outer polygon; none when it has no points.
    pub fn bounds(&self) -> (r: Option<Bounds>)
        ensures
            self.outer.pts@.len() == 0 <==> r is None,
            r matches Some(b) ==> is_bounds_of(b, self.outer.pts@),
    {
        self.outer.bounds()
    }
}

} // verus!
