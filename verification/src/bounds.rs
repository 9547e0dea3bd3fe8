//! Axis-aligned bounding boxes.

use vstd::prelude::*;
use crate::pt::Pt;

verus! {

/// An axis-aligned bounding box.
#[derive(Debug, Clone, Copy, PartialEq, Eq, Structural)]
pub struct Bounds {
    /// The largest y-coordinate.
    pub top_bound: i32,
    /// The smallest y-coordinate.
    pub bottom_bound: i32,
    /// The smallest x-coordinate.
    pub left_bound: i32,
    /// The largest x-coordinate.
    pub right_bound: i32,
}

impl Bounds {
    /// Top.
    pub fn t(&self) -> (r: i32)
        ensures
            r == self.top_bound,
    {
        self.top_bound
    }

    /// Bottom.
    pub fn b(&self) -> (r: i32)
        ensures
            r == self.bottom_bound,
    {
        self.bottom_bound
    }

    /// Left.
    pub fn l(&self) -> (r: i32)
        ensures
            r == self.left_bound,
    {
        self.left_bound
    }

    /// Right.
    pub fn r(&self) -> (r: i32)
        ensures
            r == self.right_bound,
    {
        self.right_bound
    }

    /// Top-left corner.
    pub fn tl(&self) -> (r: Pt)
        ensures
            r == (Pt { x: self.left_bound, y: self.top_bound }),
    {
        Pt { x: self.left_bound, y: self.top_bound }
    }

    /// Top-right corner.
    pub fn tr(&self) -> (r: Pt)
        ensures
            r == (Pt { x: self.right_bound, y: self.top_bound }),
    {
        Pt { x: self.right_bound, y: self.top_bound }
    }

    /// Bottom-left corner.
    pub fn bl(&self) -> (r: Pt)
        ensures
            r == (Pt { x: self.left_bound, y: self.bottom_bound }),
    {
        Pt { x: self.left_bound, y: self.bottom_bound }
    }

    /// Bottom-right corner.
    pub fn br(&self) -> (r: Pt)
        ensures
            r == (Pt { x: self.right_bound, y: self.bottom_bound }),
    {
        Pt { x: self.right_bound, y: self.bottom_bound }
    }
}

/// The box of a set of points: every point lies inside it, and each side
/// touches one of them.
pub open spec fn is_bounds_of(b: Bounds, pts: Seq<Pt>) -> bool {
    &&& forall|k: int|
        0 <= k < pts.len() ==> b.left_bound <= #[trigger] pts[k].x <= b.right_bound
            && b.bottom_bound <= pts[k].y <= b.top_bound
    &&& exists|k: int| 0 <= k < pts.len() && #[trigger] pts[k].x == b.left_bound
    &&& exists|k: int| 0 <= k < pts.len() && #[trigger] pts[k].x == b.right_bound
    &&& exists|k: int| 0 <= k < pts.len() && #[trigger] pts[k].y == b.bottom_bound
    &&& exists|k: int| 0 <= k < pts.len() && #[trigger] pts[k].y == b.top_bound
}

/// The bounding box of a nonempty list of points.
pub fn bounds_of(pts: &Vec<Pt>) -> (r: Bounds)
    requires
        pts@.len() > 0,
    ensures
        is_bounds_of(r, pts@),
{
    let mut b = Bounds {
        top_bound: pts[0].y,
        bottom_bound: pts[0].y,
        left_bound: pts[0].x,
        right_bound: pts[0].x,
    };
    let mut k: usize = 1;
    assert(pts@.take(1)[0] == pts@[0]);
    while k < pts.len()
        invariant
            1 <= k <= pts@.len(),
            is_bounds_of(b, pts@.take(k as int)),
        decreases pts@.len() - k,
    {
        let p = pts[k];
        let ghost before = b;
        if p.x < b.left_bound {
            b.left_bound = p.x;
        }
        if p.x > b.right_bound {
            b.right_bound = p.x;
        }
        if p.y < b.bottom_bound {
            b.bottom_bound = p.y;
        }
        if p.y > b.top_bound {
            b.top_bound = p.y;
        }
        proof {
            let s = pts@.take(k as int);
            let s2 = pts@.take(k + 1);
            assert forall|j: int| 0 <= j < s.len() implies s2[j] == #[trigger] s[j] by {}
            assert(s2[k as int] == p);
            if b.left_bound == before.left_bound {
                let w = choose|j: int| 0 <= j < s.len() && #[trigger] s[j].x == before.left_bound;
                assert(s2[w].x == b.left_bound);
            } else {
                assert(s2[k as int].x == b.left_bound);
            }
            if b.right_bound == before.right_bound {
                let w = choose|j: int| 0 <= j < s.len() && #[trigger] s[j].x == before.right_bound;
                assert(s2[w].x == b.right_bound);
            } else {
                assert(s2[k as int].x == b.right_bound);
            }
            if b.bottom_bound == before.bottom_bound {
                let w = choose|j: int| 0 <= j < s.len() && #[trigger] s[j].y == before.bottom_bound;
                assert(s2[w].y == b.bottom_bound);
            } else {
                assert(s2[k as int].y == b.bottom_bound);
            }
            if b.top_bound == before.top_bound {
                let w = choose|j: int| 0 <= j < s.len() && #[trigger] s[j].y == before.top_bound;
                assert(s2[w].y == b.top_bound);
            } else {
                assert(s2[k as int].y == b.top_bound);
            }
        }
        k = k + 1;
    }
    proof {
        assert(pts@.take(pts@.len() as int) =~= pts@);
    }
    b
}

} // verus!
