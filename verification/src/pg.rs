//! Polygons (closed point lists) and multilines (open point lists).

use vstd::prelude::*;
use crate::pt::{Pt, cross, cross_i128, pt_add, add_fits, pt_sub, sub_fits, pt_scale, scale_fits, pt_div, div_ok};
use crate::sg::{Sg, on_segment, contains_spec, Contains, intersect_spec};
use crate::intersection::IntersectionResult;
use crate::bounds::{Bounds, is_bounds_of, bounds_of};

verus! {

/// Whether a polygon is open (no line is drawn between its last and first
/// points) or closed (a line is drawn between its last and first points).
#[derive(Debug, Clone, Copy, PartialEq, Eq, Structural)]
pub enum PolygonKind {
    /// A multiline.
    Open,
    /// A polygon.
    Closed,
}

/// Whether a curve is positively or negatively oriented (whether its points are
/// listed in counter-clockwise or clockwise order).
#[derive(Debug, Clone, Copy, PartialEq, Eq, Structural)]
pub enum CurveOrientation {
    /// Negatively oriented, i.e. points listed in clockwise order.
    Negative,
    /// Positively oriented, i.e. points listed in counter-clockwise order.
    Positive,
}

/// The orientation of a point list, named by the way its points turn.
#[derive(Debug, Clone, Copy, PartialEq, Eq, Structural)]
pub enum PointListOrientation {
    /// Points listed in clockwise order.
    Clockwise,
    /// Points listed in counter-clockwise order.
    CounterClockwise,
}

/// Why a polygon could not be built.
#[derive(Debug, Clone, Copy, PartialEq, Eq, Structural)]
pub enum PolygonConstructorError {
    /// It is not possible to construct a polygon from two or fewer points.
    TwoOrFewerPoints,
}

/// Why a multiline could not be built.
#[derive(Debug, Clone, Copy, PartialEq, Eq, Structural)]
pub enum MultilineConstructorError {
    /// It is not possible to construct a multiline from one or fewer points.
    OneOrFewerPoints,
}

/// Where a point lies relative to a polygon.
#[derive(Debug, Clone, Copy, PartialEq, Eq, Structural)]
pub enum PointLoc {
    /// Outside the polygon.
    Outside,
    /// Inside the polygon's area, off its border.
    Inside,
    /// On the vertex with this index.
    OnPoint(usize),
    /// On the edge with this index, between its two vertices.
    OnSegment(usize),
}

/// The kind of a geometric object.
#[derive(Debug, Clone, Copy, PartialEq, Eq, Structural)]
pub enum ObjType {
    /// A point.
    Point,
    /// A segment.
    Segment,
    /// A polygon.
    Polygon,
    /// A polygon with cavities.
    PolygonWithCavities,
}

/// A polygon (closed) or a multiline (open): a list of points rendered with
/// connecting line segments.
#[derive(Debug, Clone)]
pub struct Pg {
    /// The points which describe the polygon or multiline.
    pub pts: Vec<Pt>,
    /// Whether this is a polygon or a multiline.
    pub kind: PolygonKind,
}

/// The `k`-th edge of the closed ring through `s`: from `s[k]` to the next
/// point, the last point joining back to the first.
pub open spec fn ring_edge(s: Seq<Pt>, k: int) -> Sg {
    Sg { i: s[k], f: s[(k + 1) % (s.len() as int)] }
}

/// The segments of a point list: consecutive points joined, and for a closed
/// polygon the last point joined back to the first.
pub open spec fn segs_of(s: Seq<Pt>, kind: PolygonKind) -> Seq<Sg> {
    match kind {
        PolygonKind::Closed => Seq::new(s.len(), |k: int| ring_edge(s, k)),
        PolygonKind::Open => if s.len() == 0 {
            Seq::empty()
        } else {
            Seq::new((s.len() - 1) as nat, |k: int| Sg { i: s[k], f: s[k + 1] })
        },
    }
}

/// The shoelace term of one segment: `(f.x - i.x) * (f.y + i.y)`.
pub open spec fn shoelace_term(g: Sg) -> int {
    (g.f.x - g.i.x) * (g.f.y + g.i.y)
}

/// The sum of the shoelace terms of a list of segments: twice the signed area
/// they enclose, negated.
pub open spec fn shoelace(s: Seq<Sg>) -> int
    decreases s.len(),
{
    if s.len() == 0 {
        0
    } else {
        shoelace(s.drop_last()) + shoelace_term(s.last())
    }
}

/// The orientation of a point list, or none when it encloses no area.
pub open spec fn orientation_of(s: Seq<Pt>, kind: PolygonKind) -> Option<CurveOrientation> {
    let o = shoelace(segs_of(s, kind));
    if o == 0 {
        None
    } else if o > 0 {
        Some(CurveOrientation::Negative)
    } else {
        Some(CurveOrientation::Positive)
    }
}

/// Reversing a segment negates its shoelace term.
proof fn lemma_term_flip(g: Sg)
    ensures
        shoelace_term(Sg { i: g.f, f: g.i }) == -shoelace_term(g),
{
    assert((g.i.x - g.f.x) * (g.i.y + g.f.y) == -((g.f.x - g.i.x) * (g.f.y + g.i.y)))
        by (nonlinear_arith);
}

/// The shoelace sum of a concatenation.
proof fn lemma_shoelace_concat(a: Seq<Sg>, b: Seq<Sg>)
    ensures
        shoelace(a + b) == shoelace(a) + shoelace(b),
    decreases b.len(),
{
    if b.len() == 0 {
        assert(a + b =~= a);
    } else {
        assert((a + b).drop_last() =~= a + b.drop_last());
        assert((a + b).last() == b.last());
        lemma_shoelace_concat(a, b.drop_last());
    }
}

/// Reversing a list of segments, each segment flipped, negates the sum.
proof fn lemma_shoelace_reverse(s: Seq<Sg>, t: Seq<Sg>)
    requires
        t.len() == s.len(),
        forall|k: int| 0 <= k < s.len() ==> #[trigger] t[k] == (Sg { i: s[s.len() - 1 - k].f, f: s[s.len() - 1 - k].i }),
    ensures
        shoelace(t) == -shoelace(s),
    decreases s.len(),
{
    if s.len() > 0 {
        let n = s.len() as int;
        let s1 = s.drop_last();
        let t1 = t.subrange(1, n);
        assert forall|k: int| 0 <= k < s1.len() implies #[trigger] t1[k] == (Sg {
            i: s1[s1.len() - 1 - k].f,
            f: s1[s1.len() - 1 - k].i,
        }) by {
            assert(t1[k] == t[k + 1]);
        }
        lemma_shoelace_reverse(s1, t1);
        assert(t =~= seq![t[0]] + t1);
        lemma_shoelace_concat(seq![t[0]], t1);
        let one = seq![t[0]];
        assert(one.drop_last() =~= Seq::<Sg>::empty());
        assert(one.last() == t[0]);
        assert(shoelace(one.drop_last()) == 0);
        assert(shoelace(one) == shoelace(one.drop_last()) + shoelace_term(one.last()));
        lemma_term_flip(s.last());
        assert(t[0] == (Sg { i: s.last().f, f: s.last().i }));
        assert(shoelace(s) == shoelace(s1) + shoelace_term(s.last()));
    }
}

/// The segments of a reversed point list are the segments of the list, flipped,
/// in reverse order.
proof fn lemma_segs_of_reverse(s: Seq<Pt>, kind: PolygonKind)
    ensures
        shoelace(segs_of(s.reverse(), kind)) == -shoelace(segs_of(s, kind)),
{
    let n = s.len() as int;
    let r = s.reverse();
    match kind {
        PolygonKind::Open => {
            if n > 0 {
                let a = segs_of(s, kind);
                let b = segs_of(r, kind);
                assert forall|k: int| 0 <= k < a.len() implies #[trigger] b[k] == (Sg {
                    i: a[a.len() - 1 - k].f,
                    f: a[a.len() - 1 - k].i,
                }) by {
                    assert(r[k] == s[n - 1 - k]);
                    assert(r[k + 1] == s[n - 2 - k]);
                }
                lemma_shoelace_reverse(a, b);
            }
        },
        PolygonKind::Closed => {
            if n > 0 {
                let a = segs_of(s, kind);
                let b = segs_of(r, kind);
                // b's edges are a's edges flipped: edge k of b runs from
                // s[n-1-k] back to s[n-2-k] (to s[n-1] for the last one).
                // Rotating a by one puts its last edge first.
                let a2 = seq![a[n - 1]] + a.subrange(0, n - 1);
                lemma_shoelace_concat(a.subrange(0, n - 1), seq![a[n - 1]]);
                lemma_shoelace_concat(seq![a[n - 1]], a.subrange(0, n - 1));
                assert(a.subrange(0, n - 1) + seq![a[n - 1]] =~= a);
                let b2 = b.subrange(0, n - 1) + seq![b[n - 1]];
                assert(b2 =~= b);
                assert forall|k: int| 0 <= k < b.len() implies #[trigger] b[k] == (Sg {
                    i: a2[a2.len() - 1 - k].f,
                    f: a2[a2.len() - 1 - k].i,
                }) by {
                    assert(r[k] == s[n - 1 - k]);
                    if k < n - 1 {
                        vstd::arithmetic::div_mod::lemma_small_mod((k + 1) as nat, n as nat);
                        assert(r[k + 1] == s[n - 2 - k]);
                        assert(a2[n - 1 - k] == a[n - 2 - k]);
                        vstd::arithmetic::div_mod::lemma_small_mod((n - 1 - k) as nat, n as nat);
                    } else {
                        vstd::arithmetic::div_mod::lemma_mod_self_0(n);
                        assert(a2[0] == a[n - 1]);
                    }
                }
                lemma_shoelace_reverse(a2, b);
            }
        },
    }
}

/// Reversing the points of a polygon or multiline turns its orientation
/// around: negative becomes positive, positive becomes negative, and no
/// orientation stays none.
pub proof fn lemma_reverse_flips_orientation(s: Seq<Pt>, kind: PolygonKind)
    ensures
        orientation_of(s.reverse(), kind) == (match orientation_of(s, kind) {
            None => None,
            Some(CurveOrientation::Negative) => Some(CurveOrientation::Positive),
            Some(CurveOrientation::Positive) => Some(CurveOrientation::Negative),
        }),
{
    lemma_segs_of_reverse(s, kind);
}

/// The points a polygon keeps from a list: all of them, less a last point
/// that repeats the first.
pub open spec fn closed_pts(s: Seq<Pt>) -> Seq<Pt> {
    if s.len() > 0 && s.last() == s[0] {
        s.drop_last()
    } else {
        s
    }
}

/// The points in an order that is not negatively oriented: reversed when they
/// were negatively oriented, unchanged otherwise.
pub open spec fn oriented_pts(s: Seq<Pt>, kind: PolygonKind) -> Seq<Pt> {
    if orientation_of(s, kind) == Some(CurveOrientation::Negative) {
        s.reverse()
    } else {
        s
    }
}

/// The points of the polygon that `Pg` builds from the list `s`.
pub open spec fn polygon_pts(s: Seq<Pt>) -> Seq<Pt> {
    oriented_pts(closed_pts(s), PolygonKind::Closed)
}

/// A point list reoriented by `oriented_pts` is never negatively oriented.
pub proof fn lemma_oriented_is_not_negative(s: Seq<Pt>, kind: PolygonKind)
    ensures
        orientation_of(oriented_pts(s, kind), kind) != Some(CurveOrientation::Negative),
{
    lemma_reverse_flips_orientation(s, kind);
}

/// The shoelace sum over the first `k + 1` segments.
proof fn lemma_shoelace_take(s: Seq<Sg>, k: int)
    requires
        0 <= k < s.len(),
    ensures
        shoelace(s.take(k + 1)) == shoelace(s.take(k)) + shoelace_term(s[k]),
{
    assert(s.take(k + 1).drop_last() =~= s.take(k));
}

/// Computes the sign of `shoelace(segs@)`: its positive and negative terms
/// are summed apart, each sum staying below 2^128.
fn shoelace_sign(segs: &Vec<Sg>) -> (r: i8)
    ensures
        r == crate::frac::sign(shoelace(segs@)),
{
    let mut pos: u128 = 0;
    let mut neg: u128 = 0;
    let mut k: usize = 0;
    while k < segs.len()
        invariant
            k <= segs@.len(),
            pos - neg == shoelace(segs@.take(k as int)),
            pos <= (k as int) * 0xffff_ffff_0000_0000,
            neg <= (k as int) * 0xffff_ffff_0000_0000,
        decreases segs@.len() - k,
    {
        let g = segs[k];
        let dx = g.f.x as i128 - g.i.x as i128;
        let sy = g.f.y as i128 + g.i.y as i128;
        proof {
            lemma_shoelace_take(segs@, k as int);
            assert(-0xffff_ffff_0000_0000 <= dx * sy <= 0xffff_ffff_0000_0000) by (nonlinear_arith)
                requires -0xffff_ffff <= dx <= 0xffff_ffff, -0x1_0000_0000 <= sy <= 0xffff_fffe;
            assert((k as int) * 0xffff_ffff_0000_0000 + 0xffff_ffff_0000_0000 <= 0xffff_ffff_ffff_ffff * 0xffff_ffff_0000_0000) by (nonlinear_arith)
                requires k < 0xffff_ffff_ffff_ffff;
        }
        let t = dx * sy;
        if t >= 0 {
            pos = pos + t as u128;
        } else {
            neg = neg + (-t) as u128;
        }
        k = k + 1;
    }
    proof {
        assert(segs@.take(segs@.len() as int) =~= segs@);
    }
    if pos > neg {
        1
    } else if pos < neg {
        -1
    } else {
        0
    }
}

/// The points of `s` in reverse order.
fn reversed(s: &Vec<Pt>) -> (r: Vec<Pt>)
    ensures
        r@ == s@.reverse(),
{
    let mut out: Vec<Pt> = Vec::new();
    let n = s.len();
    let mut k: usize = 0;
    while k < n
        invariant
            n == s@.len(),
            k <= n,
            out@.len() == k,
            forall|j: int| 0 <= j < k ==> #[trigger] out@[j] == s@[n - 1 - j],
        decreases n - k,
    {
        out.push(s[n - 1 - k]);
        k = k + 1;
    }
    proof {
        assert(out@ =~= s@.reverse());
    }
    out
}

impl Pg {
    /// Returns the segments of the polygon or multiline, in order: each point
    /// joined to the next, and for a closed polygon the last point joined back
    /// to the first.
    pub fn to_segments(&self) -> (r: Vec<Sg>)
        ensures
            r@ == segs_of(self.pts@, self.kind),
    {
        let n = self.pts.len();
        let mut out: Vec<Sg> = Vec::new();
        match self.kind {
            PolygonKind::Closed => {
                let mut k: usize = 0;
                while k < n
                    invariant
                        n == self.pts@.len(),
                        self.kind == PolygonKind::Closed,
                        k <= n,
                        out@.len() == k,
                        forall|j: int| 0 <= j < k ==> #[trigger] out@[j] == ring_edge(self.pts@, j),
                    decreases n - k,
                {
                    let next = if k + 1 == n {
                        0
                    } else {
                        k + 1
                    };
                    proof {
                        if k + 1 == n {
                            vstd::arithmetic::div_mod::lemma_mod_self_0(n as int);
                        } else {
                            vstd::arithmetic::div_mod::lemma_small_mod((k + 1) as nat, n as nat);
                        }
                    }
                    out.push(Sg { i: self.pts[k], f: self.pts[next] });
                    k = k + 1;
                }
                proof {
                    assert(out@ =~= segs_of(self.pts@, self.kind));
                }
            },
            PolygonKind::Open => {
                if n > 0 {
                    let mut k: usize = 0;
                    while k + 1 < n
                        invariant
                            n == self.pts@.len(),
                            n > 0,
                            k + 1 <= n,
                            out@.len() == k,
                            forall|j: int| 0 <= j < k ==> #[trigger] out@[j] == (Sg {
                                i: self.pts@[j],
                                f: self.pts@[j + 1],
                            }),
                        decreases n - k,
                    {
                        out.push(Sg { i: self.pts[k], f: self.pts[k + 1] });
                        k = k + 1;
                    }
                }
                proof {
                    assert(out@ =~= segs_of(self.pts@, self.kind));
                }
            },
        }
        out
    }

    /// Which orientation the polygon has: whether its points are stored in
    /// clockwise (negative) or counterclockwise (positive) order, by the sign
    /// of the shoelace sum over its segments. If there is no enclosed area,
    /// returns None.
    pub fn get_curve_orientation(&self) -> (r: Option<CurveOrientation>)
        ensures
            r == orientation_of(self.pts@, self.kind),
    {
        let segs = self.to_segments();
        let o = shoelace_sign(&segs);
        if o == 0 {
            None
        } else if o > 0 {
            Some(CurveOrientation::Negative)
        } else {
            Some(CurveOrientation::Positive)
        }
    }

    /// Orients the polygon in place so that it is not negatively oriented:
    /// a negatively oriented point list is reversed.
    pub fn orient_curve_positively(&mut self)
        ensures
            final(self).kind == old(self).kind,
            final(self).pts@ == oriented_pts(old(self).pts@, old(self).kind),
            orientation_of(final(self).pts@, final(self).kind) != Some(CurveOrientation::Negative),
    {
        if let Some(CurveOrientation::Negative) = self.get_curve_orientation() {
            self.pts = reversed(&self.pts);
        }
        proof {
            lemma_oriented_is_not_negative(old(self).pts@, old(self).kind);
        }
    }
}

/// Builds a polygon. Polygons must have inner area, so they must have three or
/// more points. A last point equal to the first is dropped; what is left must
/// still hold three or more points, else this is an error. A negatively
/// oriented polygon is reversed.
#[allow(non_snake_case)]
pub fn Pg(a: Vec<Pt>) -> (r: Result<Pg, PolygonConstructorError>)
    ensures
        closed_pts(a@).len() <= 2 ==> r == Err::<Pg, PolygonConstructorError>(PolygonConstructorError::TwoOrFewerPoints),
        closed_pts(a@).len() > 2 ==> r is Ok,
        r matches Ok(p) ==> p.kind == PolygonKind::Closed && p.pts@ == polygon_pts(a@) && p.pts@.len() >= 3,
        r matches Ok(p) ==> orientation_of(p.pts@, p.kind) != Some(CurveOrientation::Negative),
{
    let mut pts = a;
    if pts.len() > 0 && pts[pts.len() - 1] == pts[0] {
        let _ = pts.pop();
    }
    if pts.len() <= 2 {
        return Err(PolygonConstructorError::TwoOrFewerPoints);
    }
    let mut p = Pg { pts, kind: PolygonKind::Closed };
    p.orient_curve_positively();
    Ok(p)
}

/// Builds a multiline. Multilines must have at least one line, so they must
/// have two or more points; from one or fewer points this is an error. A
/// negatively oriented multiline is reversed.
#[allow(non_snake_case)]
pub fn Multiline(a: Vec<Pt>) -> (r: Result<Pg, MultilineConstructorError>)
    ensures
        a@.len() <= 1 ==> r == Err::<Pg, MultilineConstructorError>(MultilineConstructorError::OneOrFewerPoints),
        a@.len() > 1 ==> r is Ok,
        r matches Ok(p) ==> p.kind == PolygonKind::Open && p.pts@ == oriented_pts(a@, PolygonKind::Open),
        r matches Ok(p) ==> orientation_of(p.pts@, p.kind) != Some(CurveOrientation::Negative),
{
    if a.len() <= 1 {
        return Err(MultilineConstructorError::OneOrFewerPoints);
    }
    let mut p = Pg { pts: a, kind: PolygonKind::Open };
    p.orient_curve_positively();
    Ok(p)
}

/// Builds the rectangle with corner `tl`, width `w` and height `h`, through
/// the corners `tl`, `tl + (w, 0)`, `tl + (w, h)` and `tl + (0, h)`.
#[allow(non_snake_case)]
pub fn Rect(tl: Pt, wh: (i32, i32)) -> (r: Result<Pg, PolygonConstructorError>)
    requires
        crate::pt::fits_i32(tl.x + wh.0),
        crate::pt::fits_i32(tl.y + wh.1),
    ensures
        r matches Ok(p) && p.kind == PolygonKind::Closed && p.pts@ == polygon_pts(
            seq![
                tl,
                Pt { x: (tl.x + wh.0) as i32, y: tl.y },
                Pt { x: (tl.x + wh.0) as i32, y: (tl.y + wh.1) as i32 },
                Pt { x: tl.x, y: (tl.y + wh.1) as i32 },
            ],
        ),
{
    let (w, h) = wh;
    let v = vec![tl, Pt { x: tl.x + w, y: tl.y }, Pt { x: tl.x + w, y: tl.y + h }, Pt { x: tl.x, y: tl.y + h }];
    proof {
        assert(v@ =~= seq![
            tl,
            Pt { x: (tl.x + wh.0) as i32, y: tl.y },
            Pt { x: (tl.x + wh.0) as i32, y: (tl.y + wh.1) as i32 },
            Pt { x: tl.x, y: (tl.y + wh.1) as i32 },
        ]);
    }
    Pg(v)
}

/// The winding contribution of the edge from `u` to `v` about `p`: +1 where
/// the edge crosses the horizontal through `p` upward with `p` on its left,
/// -1 where it crosses downward with `p` on its right, 0 otherwise.
pub open spec fn wn_term(u: Pt, v: Pt, p: Pt) -> int {
    if u.y <= p.y {
        if v.y > p.y && cross(u, v, p) > 0 {
            1
        } else {
            0
        }
    } else {
        if v.y <= p.y && cross(u, v, p) < 0 {
            -1
        } else {
            0
        }
    }
}

/// The winding number about `p` of the first `k` edges of the ring through `s`.
pub open spec fn winding_upto(s: Seq<Pt>, p: Pt, k: int) -> int
    decreases k,
{
    if k <= 0 {
        0
    } else {
        winding_upto(s, p, k - 1) + wn_term(ring_edge(s, k - 1).i, ring_edge(s, k - 1).f, p)
    }
}

/// How many times the closed ring through `s` winds around `p`.
pub open spec fn winding_number(s: Seq<Pt>, p: Pt) -> int {
    winding_upto(s, p, s.len() as int)
}

/// `p` is one of the points of `s`.
pub open spec fn is_vertex(s: Seq<Pt>, p: Pt) -> bool {
    exists|k: int| 0 <= k < s.len() && s[k] == p
}

/// `k` is the first index at which `p` occurs in `s`.
pub open spec fn is_first_vertex(s: Seq<Pt>, p: Pt, k: int) -> bool {
    0 <= k < s.len() && s[k] == p && forall|j: int| 0 <= j < k ==> s[j] != p
}

/// `p` lies on one of the segments of `g`.
pub open spec fn on_some_segment(g: Seq<Sg>, p: Pt) -> bool {
    exists|k: int| 0 <= k < g.len() && on_segment(g[k], p)
}

/// `k` is the first index of a segment of `g` on which `p` lies.
pub open spec fn is_first_segment(g: Seq<Sg>, p: Pt, k: int) -> bool {
    0 <= k < g.len() && on_segment(g[k], p) && forall|j: int| 0 <= j < k ==> !on_segment(g[j], p)
}

/// Where `p` lies relative to the polygon with points `s`: on its first
/// vertex equal to `p`; else on its first segment through `p`; else inside
/// when the ring through `s` winds around `p`, outside when it does not.
pub open spec fn point_loc(s: Seq<Pt>, kind: PolygonKind, p: Pt) -> PointLoc {
    if is_vertex(s, p) {
        PointLoc::OnPoint((choose|k: int| is_first_vertex(s, p, k)) as usize)
    } else if on_some_segment(segs_of(s, kind), p) {
        PointLoc::OnSegment((choose|k: int| is_first_segment(segs_of(s, kind), p, k)) as usize)
    } else if winding_number(s, p) != 0 {
        PointLoc::Inside
    } else {
        PointLoc::Outside
    }
}

/// The point `p` lies outside the polygon with points `s`.
pub open spec fn is_outside(s: Seq<Pt>, kind: PolygonKind, p: Pt) -> bool {
    point_loc(s, kind, p) is Outside
}

/// The point `p` lies inside the area of the polygon with points `s`.
pub open spec fn is_inside(s: Seq<Pt>, kind: PolygonKind, p: Pt) -> bool {
    point_loc(s, kind, p) is Inside
}

/// Computes the winding number of the ring through `s` about `p`.
fn winding_number_exec(s: &Vec<Pt>, p: &Pt) -> (r: i128)
    ensures
        r == winding_number(s@, *p),
{
    let n = s.len();
    let mut acc: i128 = 0;
    let mut k: usize = 0;
    while k < n
        invariant
            n == s@.len(),
            k <= n,
            acc == winding_upto(s@, *p, k as int),
            -(k as int) <= acc <= k as int,
        decreases n - k,
    {
        let next = if k + 1 == n {
            0
        } else {
            k + 1
        };
        proof {
            if k + 1 == n {
                vstd::arithmetic::div_mod::lemma_mod_self_0(n as int);
            } else {
                vstd::arithmetic::div_mod::lemma_small_mod((k + 1) as nat, n as nat);
            }
        }
        let u = s[k];
        let v = s[next];
        if u.y <= p.y {
            if v.y > p.y && cross_i128(u, v, *p) > 0 {
                acc = acc + 1;
            }
        } else {
            if v.y <= p.y && cross_i128(u, v, *p) < 0 {
                acc = acc - 1;
            }
        }
        k = k + 1;
    }
    acc
}

impl Pg {
    /// Where a point lies relative to this polygon: on one of its vertices,
    /// else on one of its segments, else inside or outside by the winding
    /// number of its ring about the point (nonzero winding is inside).
    pub fn contains_pt(&self, other: &Pt) -> (r: PointLoc)
        ensures
            r == point_loc(self.pts@, self.kind, *other),
    {
        let n = self.pts.len();
        let mut k: usize = 0;
        while k < n
            invariant
                n == self.pts@.len(),
                k <= n,
                forall|j: int| 0 <= j < k ==> self.pts@[j] != *other,
            decreases n - k,
        {
            if self.pts[k] == *other {
                proof {
                    let c = choose|c: int| is_first_vertex(self.pts@, *other, c);
                    assert(is_first_vertex(self.pts@, *other, k as int));
                    if c < k {
                    } else if c > k {
                    }
                    assert(c == k);
                }
                return PointLoc::OnPoint(k);
            }
            k = k + 1;
        }
        let segs = self.to_segments();
        let ghost g = segs_of(self.pts@, self.kind);
        let mut j: usize = 0;
        while j < segs.len()
            invariant
                segs@ == g,
                g == segs_of(self.pts@, self.kind),
                j <= segs@.len(),
                !is_vertex(self.pts@, *other),
                forall|i: int| 0 <= i < j ==> !on_segment(g[i], *other),
            decreases segs@.len() - j,
        {
            proof {
                let n = self.pts@.len() as int;
                match self.kind {
                    PolygonKind::Closed => {
                        let nx = (j + 1) % n;
                        vstd::arithmetic::div_mod::lemma_mod_bound(j + 1, n);
                        assert(g[j as int].i == self.pts@[j as int]);
                        assert(g[j as int].f == self.pts@[nx]);
                    },
                    PolygonKind::Open => {
                        assert(g[j as int].i == self.pts@[j as int]);
                        assert(g[j as int].f == self.pts@[j + 1]);
                    },
                }
            }
            if let Some(Contains::Within) = segs[j].line_segment_contains_pt(other) {
                proof {
                    let c = choose|c: int| is_first_segment(g, *other, c);
                    assert(is_first_segment(g, *other, j as int));
                    if c < j {
                    } else if c > j {
                    }
                    assert(c == j);
                }
                return PointLoc::OnSegment(j);
            }
            j = j + 1;
        }
        if winding_number_exec(&self.pts, other) != 0 {
            PointLoc::Inside
        } else {
            PointLoc::Outside
        }
    }

    /// True if the area or the points and edges of this polygon contain a point.
    pub fn point_is_inside_or_on_border(&self, other: &Pt) -> (r: bool)
        ensures
            r == !is_outside(self.pts@, self.kind, *other),
    {
        !matches!(self.contains_pt(other), PointLoc::Outside)
    }

    /// True if the area of this polygon contains a point.
    pub fn point_is_inside(&self, other: &Pt) -> (r: bool)
        ensures
            r == is_inside(self.pts@, self.kind, *other),
    {
        matches!(self.contains_pt(other), PointLoc::Inside)
    }

    /// True if the point is totally outside the polygon.
    pub fn point_is_outside(&self, pt: &Pt) -> (r: bool)
        ensures
            r == is_outside(self.pts@, self.kind, *pt),
    {
        matches!(self.contains_pt(pt), PointLoc::Outside)
    }

    /// Whether no point of `other` lies outside this polygon.
    pub fn totally_contains(&self, other: &Pg) -> (r: bool)
        ensures
            r == forall|k: int| 0 <= k < other.pts@.len() ==> !is_outside(self.pts@, self.kind, #[trigger] other.pts@[k]),
    {
        let mut k: usize = 0;
        while k < other.pts.len()
            invariant
                k <= other.pts@.len(),
                forall|j: int| 0 <= j < k ==> !is_outside(self.pts@, self.kind, #[trigger] other.pts@[j]),
            decreases other.pts@.len() - k,
        {
            if self.point_is_outside(&other.pts[k]) {
                return false;
            }
            k = k + 1;
        }
        true
    }

    /// Whether every point of `other` lies outside this polygon.
    pub fn contains_not_at_all(&self, other: &Pg) -> (r: bool)
        ensures
            r == forall|k: int| 0 <= k < other.pts@.len() ==> is_outside(self.pts@, self.kind, #[trigger] other.pts@[k]),
    {
        let mut k: usize = 0;
        while k < other.pts.len()
            invariant
                k <= other.pts@.len(),
                forall|j: int| 0 <= j < k ==> is_outside(self.pts@, self.kind, #[trigger] other.pts@[j]),
            decreases other.pts@.len() - k,
        {
            if !self.point_is_outside(&other.pts[k]) {
                return false;
            }
            k = k + 1;
        }
        true
    }
}

/// An intersection outcome together with the indices of the two segments
/// (one of each polygon) that produced it.
#[derive(Debug, Clone, Copy, PartialEq)]
pub struct AnnotatedIsxnResult {
    /// What intersecting the two segments yields.
    pub isxn_result: IntersectionResult,
    /// The index of the segment of the first polygon.
    pub a_segment_idx: usize,
    /// The index of the segment of the second polygon.
    pub b_segment_idx: usize,
}

/// The intersection outcomes of `g` against each of the first `m` segments of
/// `b`, in order, leaving out the pairs that do not meet.
pub open spec fn hits_row(g: Sg, b: Seq<Sg>, m: int) -> Seq<IntersectionResult>
    decreases m,
{
    if m <= 0 {
        Seq::empty()
    } else {
        hits_row(g, b, m - 1) + match intersect_spec(g, b[m - 1]) {
            Some(x) => seq![x],
            None => Seq::empty(),
        }
    }
}

/// The intersection outcomes of each of the first `n` segments of `a` against
/// each segment of `b`, row by row, leaving out the pairs that do not meet.
pub open spec fn hits_all(a: Seq<Sg>, b: Seq<Sg>, n: int) -> Seq<IntersectionResult>
    decreases n,
{
    if n <= 0 {
        Seq::empty()
    } else {
        hits_all(a, b, n - 1) + hits_row(a[n - 1], b, b.len() as int)
    }
}

/// The intersection outcomes of the first `n` segments of `a` against `g`,
/// in order, leaving out the segments that do not meet `g`.
pub open spec fn hits_against(a: Seq<Sg>, g: Sg, n: int) -> Seq<IntersectionResult>
    decreases n,
{
    if n <= 0 {
        Seq::empty()
    } else {
        hits_against(a, g, n - 1) + match intersect_spec(a[n - 1], g) {
            Some(x) => seq![x],
            None => Seq::empty(),
        }
    }
}

/// Like `hits_row`, with each outcome annotated by its pair of indices; `i`
/// is the index of `g` among its polygon's segments.
pub open spec fn annotated_row(g: Sg, i: int, b: Seq<Sg>, m: int) -> Seq<AnnotatedIsxnResult>
    decreases m,
{
    if m <= 0 {
        Seq::empty()
    } else {
        annotated_row(g, i, b, m - 1) + match intersect_spec(g, b[m - 1]) {
            Some(x) => seq![AnnotatedIsxnResult { isxn_result: x, a_segment_idx: i as usize, b_segment_idx: (m - 1) as usize }],
            None => Seq::empty(),
        }
    }
}

/// Like `hits_all`, with each outcome annotated by its pair of indices.
pub open spec fn annotated_all(a: Seq<Sg>, b: Seq<Sg>, n: int) -> Seq<AnnotatedIsxnResult>
    decreases n,
{
    if n <= 0 {
        Seq::empty()
    } else {
        annotated_all(a, b, n - 1) + annotated_row(a[n - 1], n - 1, b, b.len() as int)
    }
}

/// Some segment of `a` meets some segment of `b`.
pub open spec fn any_pair_meets(a: Seq<Sg>, b: Seq<Sg>) -> bool {
    exists|i: int, j: int| 0 <= i < a.len() && 0 <= j < b.len() && (#[trigger] intersect_spec(a[i], b[j])) is Some
}

/// The sum of the x-coordinates of the first `k` points.
pub open spec fn sum_x(s: Seq<Pt>, k: int) -> int
    decreases k,
{
    if k <= 0 {
        0
    } else {
        sum_x(s, k - 1) + s[k - 1].x
    }
}

/// The sum of the y-coordinates of the first `k` points.
pub open spec fn sum_y(s: Seq<Pt>, k: int) -> int
    decreases k,
{
    if k <= 0 {
        0
    } else {
        sum_y(s, k - 1) + s[k - 1].y
    }
}

/// The index of the last greatest of the first `k` points, in the order of
/// `pt_le`.
pub open spec fn last_max_upto(s: Seq<Pt>, k: int) -> int
    decreases k,
{
    if k <= 1 {
        0
    } else {
        let m = last_max_upto(s, k - 1);
        if crate::pt::pt_le(s[m], s[k - 1]) {
            k - 1
        } else {
            m
        }
    }
}

/// The points rotated so that the last greatest point comes first.
pub open spec fn rotated_to_max(s: Seq<Pt>) -> Seq<Pt> {
    let m = last_max_upto(s, s.len() as int);
    s.subrange(m, s.len() as int) + s.subrange(0, m)
}

proof fn lemma_last_max_range(s: Seq<Pt>, k: int)
    requires
        1 <= k <= s.len(),
    ensures
        0 <= last_max_upto(s, k) < k,
    decreases k,
{
    if k > 1 {
        lemma_last_max_range(s, k - 1);
    }
}

/// A point of the plane with rational coordinates, in lattice steps: it lies
/// at (`x_num / den`, `y_num / den`).
#[derive(Debug, Clone, Copy, PartialEq, Eq, Structural)]
pub struct RatPt {
    /// Numerator of the x-coordinate.
    pub x_num: i128,
    /// Numerator of the y-coordinate.
    pub y_num: i128,
    /// The common denominator.
    pub den: i128,
}

impl RatPt {
    /// Whether this point is the lattice point `p`.
    pub fn is_at(&self, p: &Pt) -> (r: bool)
        requires
            self.den > 0,
            -0x1_0000_0000_0000_0000 <= self.den <= 0x1_0000_0000_0000_0000,
        ensures
            r == (self.x_num == p.x * self.den && self.y_num == p.y * self.den),
    {
        proof {
            assert(-0x8000_0000 * 0x1_0000_0000_0000_0000 <= p.x * self.den <= 0x8000_0000 * 0x1_0000_0000_0000_0000) by (nonlinear_arith)
                requires i32::MIN <= p.x <= i32::MAX, 0 < self.den <= 0x1_0000_0000_0000_0000;
            assert(-0x8000_0000 * 0x1_0000_0000_0000_0000 <= p.y * self.den <= 0x8000_0000 * 0x1_0000_0000_0000_0000) by (nonlinear_arith)
                requires i32::MIN <= p.y <= i32::MAX, 0 < self.den <= 0x1_0000_0000_0000_0000;
        }
        self.x_num == (p.x as i128) * self.den && self.y_num == (p.y as i128) * self.den
    }
}

impl Pg {
    /// Returns true if any segment of this polygon meets any segment of the
    /// other polygon.
    pub fn intersects(&self, other: &Pg) -> (r: bool)
        ensures
            r == any_pair_meets(segs_of(self.pts@, self.kind), segs_of(other.pts@, other.kind)),
    {
        segs_meet(&self.to_segments(), &other.to_segments())
    }

    /// The intersection outcomes of each segment of this polygon against each
    /// segment of the other, row by row, leaving out the pairs that do not meet.
    pub fn intersects_detailed(&self, other: &Pg) -> (r: Vec<IntersectionResult>)
        ensures
            r@ == hits_all(segs_of(self.pts@, self.kind), segs_of(other.pts@, other.kind), segs_of(self.pts@, self.kind).len() as int),
    {
        segs_hits_all(&self.to_segments(), &other.to_segments())
    }

    /// The intersection outcomes of each segment of this polygon against the
    /// other polygon's segments, each annotated by the indices of its pair of
    /// segments, row by row, leaving out the pairs that do not meet. It is
    /// empty exactly when no pair meets.
    pub fn annotated_intersects_detailed(&self, other: &Pg) -> (r: Vec<AnnotatedIsxnResult>)
        ensures
            r@ == annotated_all(segs_of(self.pts@, self.kind), segs_of(other.pts@, other.kind), segs_of(self.pts@, self.kind).len() as int),
            r@.len() == 0 <==> !any_pair_meets(segs_of(self.pts@, self.kind), segs_of(other.pts@, other.kind)),
    {
        let a = self.to_segments();
        let b = other.to_segments();
        let mut out: Vec<AnnotatedIsxnResult> = Vec::new();
        let mut i: usize = 0;
        while i < a.len()
            invariant
                i <= a@.len(),
                out@ == annotated_all(a@, b@, i as int),
                out@.len() == 0 <==> forall|x: int, y: int| 0 <= x < i && 0 <= y < b@.len() ==> (#[trigger] intersect_spec(a@[x], b@[y])) is None,
            decreases a@.len() - i,
        {
            let ghost before = out@;
            let mut j: usize = 0;
            while j < b.len()
                invariant
                    i < a@.len(),
                    j <= b@.len(),
                    out@ == before + annotated_row(a@[i as int], i as int, b@, j as int),
                    before.len() == 0 <==> forall|x: int, y: int| 0 <= x < i && 0 <= y < b@.len() ==> (#[trigger] intersect_spec(a@[x], b@[y])) is None,
                    out@.len() == 0 <==> (before.len() == 0 && forall|y: int| 0 <= y < j ==> (#[trigger] intersect_spec(a@[i as int], b@[y])) is None),
                decreases b@.len() - j,
            {
                match a[i].intersects(&b[j]) {
                    Some(x) => {
                        out.push(AnnotatedIsxnResult { isxn_result: x, a_segment_idx: i, b_segment_idx: j });
                        proof {
                            assert(out@ =~= before + annotated_row(a@[i as int], i as int, b@, j + 1));
                        }
                    },
                    None => {
                        proof {
                            assert(out@ =~= before + annotated_row(a@[i as int], i as int, b@, j + 1));
                        }
                    },
                }
                j = j + 1;
            }
            proof {
                if out@.len() == 0 {
                    assert forall|x: int, y: int| 0 <= x < i + 1 && 0 <= y < b@.len() implies (#[trigger] intersect_spec(a@[x], b@[y])) is None by {
                        if x < i {
                        } else {
                        }
                    }
                }
            }
            i = i + 1;
        }
        out
    }

    /// Returns true if any segment of this polygon meets the segment `other`.
    pub fn intersects_segment(&self, other: &Sg) -> (r: bool)
        ensures
            r == exists|k: int| 0 <= k < segs_of(self.pts@, self.kind).len() && (#[trigger] intersect_spec(segs_of(self.pts@, self.kind)[k], *other)) is Some,
    {
        segs_meet_segment(&self.to_segments(), other)
    }

    /// The intersection outcomes of each segment of this polygon against the
    /// segment `other`, in order, leaving out the segments that do not meet it.
    pub fn intersects_segment_detailed(&self, other: &Sg) -> (r: Vec<IntersectionResult>)
        ensures
            r@ == hits_against(segs_of(self.pts@, self.kind), *other, segs_of(self.pts@, self.kind).len() as int),
    {
        segs_hits_against(&self.to_segments(), other)
    }

    /// The average of all the points of the polygon, exactly: the sums of
    /// their coordinates over their number. (Not the centroid.) A polygon
    /// with no points has no average.
    pub fn average(&self) -> (r: Option<RatPt>)
        ensures
            self.pts@.len() == 0 <==> r is None,
            r matches Some(m) ==> m.x_num == sum_x(self.pts@, self.pts@.len() as int)
                && m.y_num == sum_y(self.pts@, self.pts@.len() as int)
                && m.den == self.pts@.len(),
    {
        let n = self.pts.len();
        if n == 0 {
            return None;
        }
        let mut sx: i128 = 0;
        let mut sy: i128 = 0;
        let mut k: usize = 0;
        while k < n
            invariant
                n == self.pts@.len(),
                k <= n,
                sx == sum_x(self.pts@, k as int),
                sy == sum_y(self.pts@, k as int),
                (k as int) * (i32::MIN as int) <= sx <= (k as int) * (i32::MAX as int),
                (k as int) * (i32::MIN as int) <= sy <= (k as int) * (i32::MAX as int),
            decreases n - k,
        {
            proof {
                assert((k as int) * (i32::MIN as int) >= -0x1_0000_0000_0000_0000 * 0x8000_0000) by (nonlinear_arith)
                    requires k < 0x1_0000_0000_0000_0000;
                assert((k as int) * (i32::MAX as int) <= 0x1_0000_0000_0000_0000 * 0x8000_0000) by (nonlinear_arith)
                    requires k < 0x1_0000_0000_0000_0000;
            }
            sx = sx + self.pts[k].x as i128;
            sy = sy + self.pts[k].y as i128;
            k = k + 1;
        }
        Some(RatPt { x_num: sx, y_num: sy, den: n as i128 })
    }

    /// The bounding box of the points; none for a polygon with no points.
    pub fn bounds(&self) -> (r: Option<Bounds>)
        ensures
            self.pts@.len() == 0 <==> r is None,
            r matches Some(b) ==> is_bounds_of(b, self.pts@),
    {
        if self.pts.len() == 0 {
            None
        } else {
            Some(bounds_of(&self.pts))
        }
    }

    /// The kind of object this is.
    pub fn objtype(&self) -> (r: ObjType)
        ensures
            r == ObjType::Polygon,
    {
        ObjType::Polygon
    }

    /// Whether the polygon has no points.
    pub fn is_empty(&self) -> (r: bool)
        ensures
            r == (self.pts@.len() == 0),
    {
        self.pts.len() == 0
    }

    /// The points, in order, to read in place.
    pub fn iter(&self) -> (r: std::slice::Iter<'_, Pt>)
        ensures
            vstd::std_specs::slice::into_iter_elts(r) == self.pts@,
    {
        let sl = self.pts.as_slice();
        let it = sl.iter();
        proof {
            broadcast use vstd::std_specs::slice::axiom_spec_slice_iter;
            assert(vstd::std_specs::iter::IteratorSpec::remaining(&it).unref() =~= sl@);
        }
        it
    }

    /// The points, in order, to change in place.
    pub fn iter_mut(&mut self) -> (r: &mut [Pt])
        ensures
            r@ == old(self).pts@,
            final(self).pts@ == final(r)@,
            final(self).kind == old(self).kind,
    {
        self.pts.as_mut_slice()
    }

    /// The points, in order, taken out of the polygon.
    pub fn into_iter(self) -> (r: std::vec::IntoIter<Pt>)
        ensures
            vstd::std_specs::vec::into_iter_elts(r) == self.pts@,
    {
        let it = self.pts.into_iter();
        proof {
            broadcast use vstd::std_specs::vec::axiom_spec_into_iter;
            assert(vstd::std_specs::iter::IteratorSpec::remaining(&it) =~= self.pts@);
        }
        it
    }
}

impl PartialEq for Pg {
    fn eq(&self, other: &Pg) -> (r: bool) {
        let n = self.pts.len();
        proof {
            if self.pts@.len() > 0 {
                lemma_last_max_range(self.pts@, self.pts@.len() as int);
            }
            if other.pts@.len() > 0 {
                lemma_last_max_range(other.pts@, other.pts@.len() as int);
            }
            assert(rotated_to_max(self.pts@).len() == self.pts@.len());
            assert(rotated_to_max(other.pts@).len() == other.pts@.len());
        }
        if n != other.pts.len() || self.kind != other.kind {
            return false;
        }
        let ghost s1 = self.pts@;
        let ghost s2 = other.pts@;
        let m1 = last_max_index(&self.pts);
        let m2 = last_max_index(&other.pts);
        let ghost r1 = rotated_to_max(s1);
        let ghost r2 = rotated_to_max(s2);
        let mut k: usize = 0;
        while k < n
            invariant
                n == s1.len() == s2.len(),
                s1 == self.pts@,
                s2 == other.pts@,
                r1 == rotated_to_max(s1),
                r2 == rotated_to_max(s2),
                n > 0 ==> m1 == last_max_upto(s1, n as int) && m1 < n,
                n > 0 ==> m2 == last_max_upto(s2, n as int) && m2 < n,
                r1.len() == n,
                r2.len() == n,
                k <= n,
                forall|j: int| 0 <= j < k ==> r1[j] == r2[j],
            decreases n - k,
        {
            let i1 = if k >= n - m1 { k - (n - m1) } else { m1 + k };
            let i2 = if k >= n - m2 { k - (n - m2) } else { m2 + k };
            proof {
                assert(r1[k as int] == s1[i1 as int]);
                assert(r2[k as int] == s2[i2 as int]);
            }
            if self.pts[i1] != other.pts[i2] {
                proof {
                    assert(r1[k as int] != r2[k as int]);
                    assert(r1 != r2);
                }
                return false;
            }
            k = k + 1;
        }
        proof {
            assert(r1 =~= r2);
        }
        true
    }
}

impl vstd::std_specs::cmp::PartialEqSpecImpl for Pg {
    open spec fn obeys_eq_spec() -> bool {
        true
    }

    open spec fn eq_spec(&self, other: &Pg) -> bool {
        rotated_to_max(self.pts@) == rotated_to_max(other.pts@) && self.kind == other.kind
    }
}

/// The index of the last greatest point, in the order of `pt_le`.
fn last_max_index(s: &Vec<Pt>) -> (r: usize)
    ensures
        s@.len() > 0 ==> r == last_max_upto(s@, s@.len() as int) && r < s@.len(),
        s@.len() == 0 ==> r == 0,
{
    if s.len() == 0 {
        return 0;
    }
    let mut m: usize = 0;
    let mut k: usize = 1;
    while k < s.len()
        invariant
            1 <= k <= s@.len(),
            m == last_max_upto(s@, k as int),
            m < k,
        decreases s@.len() - k,
    {
        let a = s[m];
        let b = s[k];
        if a.x < b.x || (a.x == b.x && a.y <= b.y) {
            m = k;
        }
        k = k + 1;
    }
    m
}

/// Each point of `s` under `pt_add` by `by`.
pub open spec fn pts_add(s: Seq<Pt>, by: Pt) -> Seq<Pt> {
    Seq::new(s.len(), |k: int| pt_add(s[k], by))
}

/// Every point of `s` stays in range under `pt_add` by `by`.
pub open spec fn pts_add_ok(s: Seq<Pt>, by: Pt) -> bool {
    forall|k: int| 0 <= k < s.len() ==> #[trigger] add_fits(s[k], by)
}

/// Computes `pts_add(s@, by)`.
pub(crate) fn map_add(s: &Vec<Pt>, by: Pt) -> (r: Vec<Pt>)
    requires
        pts_add_ok(s@, by),
    ensures
        r@ == pts_add(s@, by),
{
    let mut out: Vec<Pt> = Vec::new();
    let mut k: usize = 0;
    while k < s.len()
        invariant
            pts_add_ok(s@, by),
            k <= s@.len(),
            out@.len() == k,
            forall|j: int| 0 <= j < k ==> #[trigger] out@[j] == pt_add(s@[j], by),
        decreases s@.len() - k,
    {
        proof {
            assert(add_fits(s@[k as int], by));
        }
        out.push(s[k] + by);
        k = k + 1;
    }
    proof {
        assert(out@ =~= pts_add(s@, by));
    }
    out
}

impl core::ops::Add<Pt> for Pg {
    type Output = Pg;

    fn add(self, rhs: Pt) -> (r: Pg)
        ensures
            r.kind == self.kind,
            r.pts@ == pts_add(self.pts@, rhs),
    {
        Pg { pts: map_add(&self.pts, rhs), kind: self.kind }
    }
}

impl vstd::std_specs::ops::AddSpecImpl<Pt> for Pg {
    open spec fn obeys_add_spec() -> bool {
        false
    }

    open spec fn add_req(self, rhs: Pt) -> bool {
        pts_add_ok(self.pts@, rhs)
    }

    open spec fn add_spec(self, rhs: Pt) -> Pg {
        arbitrary()
    }
}

/// Each point of `s` under `pt_sub` by `by`.
pub open spec fn pts_sub(s: Seq<Pt>, by: Pt) -> Seq<Pt> {
    Seq::new(s.len(), |k: int| pt_sub(s[k], by))
}

/// Every point of `s` stays in range under `pt_sub` by `by`.
pub open spec fn pts_sub_ok(s: Seq<Pt>, by: Pt) -> bool {
    forall|k: int| 0 <= k < s.len() ==> #[trigger] sub_fits(s[k], by)
}

/// Computes `pts_sub(s@, by)`.
pub(crate) fn map_sub(s: &Vec<Pt>, by: Pt) -> (r: Vec<Pt>)
    requires
        pts_sub_ok(s@, by),
    ensures
        r@ == pts_sub(s@, by),
{
    let mut out: Vec<Pt> = Vec::new();
    let mut k: usize = 0;
    while k < s.len()
        invariant
            pts_sub_ok(s@, by),
            k <= s@.len(),
            out@.len() == k,
            forall|j: int| 0 <= j < k ==> #[trigger] out@[j] == pt_sub(s@[j], by),
        decreases s@.len() - k,
    {
        proof {
            assert(sub_fits(s@[k as int], by));
        }
        out.push(s[k] - by);
        k = k + 1;
    }
    proof {
        assert(out@ =~= pts_sub(s@, by));
    }
    out
}

impl core::ops::Sub<Pt> for Pg {
    type Output = Pg;

    fn sub(self, rhs: Pt) -> (r: Pg)
        ensures
            r.kind == self.kind,
            r.pts@ == pts_sub(self.pts@, rhs),
    {
        Pg { pts: map_sub(&self.pts, rhs), kind: self.kind }
    }
}

impl vstd::std_specs::ops::SubSpecImpl<Pt> for Pg {
    open spec fn obeys_sub_spec() -> bool {
        false
    }

    open spec fn sub_req(self, rhs: Pt) -> bool {
        pts_sub_ok(self.pts@, rhs)
    }

    open spec fn sub_spec(self, rhs: Pt) -> Pg {
        arbitrary()
    }
}

/// Each point of `s` under `pt_scale` by `by`.
pub open spec fn pts_scale(s: Seq<Pt>, by: i32) -> Seq<Pt> {
    Seq::new(s.len(), |k: int| pt_scale(s[k], by))
}

/// Every point of `s` stays in range under `pt_scale` by `by`.
pub open spec fn pts_scale_ok(s: Seq<Pt>, by: i32) -> bool {
    forall|k: int| 0 <= k < s.len() ==> #[trigger] scale_fits(s[k], by)
}

/// Computes `pts_scale(s@, by)`.
pub(crate) fn map_scale(s: &Vec<Pt>, by: i32) -> (r: Vec<Pt>)
    requires
        pts_scale_ok(s@, by),
    ensures
        r@ == pts_scale(s@, by),
{
    let mut out: Vec<Pt> = Vec::new();
    let mut k: usize = 0;
    while k < s.len()
        invariant
            pts_scale_ok(s@, by),
            k <= s@.len(),
            out@.len() == k,
            forall|j: int| 0 <= j < k ==> #[trigger] out@[j] == pt_scale(s@[j], by),
        decreases s@.len() - k,
    {
        proof {
            assert(scale_fits(s@[k as int], by));
        }
        out.push(s[k] * by);
        k = k + 1;
    }
    proof {
        assert(out@ =~= pts_scale(s@, by));
    }
    out
}

impl core::ops::Mul<i32> for Pg {
    type Output = Pg;

    fn mul(self, rhs: i32) -> (r: Pg)
        ensures
            r.kind == self.kind,
            r.pts@ == pts_scale(self.pts@, rhs),
    {
        Pg { pts: map_scale(&self.pts, rhs), kind: self.kind }
    }
}

impl vstd::std_specs::ops::MulSpecImpl<i32> for Pg {
    open spec fn obeys_mul_spec() -> bool {
        false
    }

    open spec fn mul_req(self, rhs: i32) -> bool {
        pts_scale_ok(self.pts@, rhs)
    }

    open spec fn mul_spec(self, rhs: i32) -> Pg {
        arbitrary()
    }
}

/// Each point of `s` under `pt_div` by `by`.
pub open spec fn pts_div(s: Seq<Pt>, by: i32) -> Seq<Pt> {
    Seq::new(s.len(), |k: int| pt_div(s[k], by))
}

/// Every point of `s` stays in range under `pt_div` by `by`.
pub open spec fn pts_div_ok(s: Seq<Pt>, by: i32) -> bool {
    forall|k: int| 0 <= k < s.len() ==> #[trigger] div_ok(s[k], by)
}

/// Computes `pts_div(s@, by)`.
pub(crate) fn map_div(s: &Vec<Pt>, by: i32) -> (r: Vec<Pt>)
    requires
        pts_div_ok(s@, by),
    ensures
        r@ == pts_div(s@, by),
{
    let mut out: Vec<Pt> = Vec::new();
    let mut k: usize = 0;
    while k < s.len()
        invariant
            pts_div_ok(s@, by),
            k <= s@.len(),
            out@.len() == k,
            forall|j: int| 0 <= j < k ==> #[trigger] out@[j] == pt_div(s@[j], by),
        decreases s@.len() - k,
    {
        proof {
            assert(div_ok(s@[k as int], by));
        }
        out.push(s[k] / by);
        k = k + 1;
    }
    proof {
        assert(out@ =~= pts_div(s@, by));
    }
    out
}

impl core::ops::Div<i32> for Pg {
    type Output = Pg;

    fn div(self, rhs: i32) -> (r: Pg)
        ensures
            r.kind == self.kind,
            r.pts@ == pts_div(self.pts@, rhs),
    {
        Pg { pts: map_div(&self.pts, rhs), kind: self.kind }
    }
}

impl vstd::std_specs::ops::DivSpecImpl<i32> for Pg {
    open spec fn obeys_div_spec() -> bool {
        false
    }

    open spec fn div_req(self, rhs: i32) -> bool {
        pts_div_ok(self.pts@, rhs)
    }

    open spec fn div_spec(self, rhs: i32) -> Pg {
        arbitrary()
    }
}

impl Pg {
    /// Translates every point in place by `by`.
    pub fn add_assign(&mut self, by: Pt)
        requires
            pts_add_ok(old(self).pts@, by),
        ensures
            final(self).kind == old(self).kind,
            final(self).pts@ == pts_add(old(self).pts@, by),
    {
        self.pts = map_add(&self.pts, by);
    }

    /// Translates every point in place by minus `by`.
    pub fn sub_assign(&mut self, by: Pt)
        requires
            pts_sub_ok(old(self).pts@, by),
        ensures
            final(self).kind == old(self).kind,
            final(self).pts@ == pts_sub(old(self).pts@, by),
    {
        self.pts = map_sub(&self.pts, by);
    }

    /// Scales every point in place by `f`.
    pub fn mul_assign(&mut self, f: i32)
        requires
            pts_scale_ok(old(self).pts@, f),
        ensures
            final(self).kind == old(self).kind,
            final(self).pts@ == pts_scale(old(self).pts@, f),
    {
        self.pts = map_scale(&self.pts, f);
    }

    /// Divides every point in place by `f`, rounding toward zero.
    pub fn div_assign(&mut self, f: i32)
        requires
            pts_div_ok(old(self).pts@, f),
        ensures
            final(self).kind == old(self).kind,
            final(self).pts@ == pts_div(old(self).pts@, f),
    {
        self.pts = map_div(&self.pts, f);
    }
}

/// A vertex of a polygon lies neither outside it nor inside its area.
pub proof fn lemma_vertex_is_on_border(s: Seq<Pt>, kind: PolygonKind, p: Pt)
    requires
        is_vertex(s, p),
    ensures
        !is_outside(s, kind, p),
        !is_inside(s, kind, p),
{
}

/// The points of the rotated list are the points of the list.
pub proof fn lemma_rotated_same_points(s: Seq<Pt>)
    ensures
        rotated_to_max(s).len() == s.len(),
        forall|j: int| 0 <= j < s.len() ==> is_vertex(s, #[trigger] rotated_to_max(s)[j]),
        forall|k: int| 0 <= k < s.len() ==> is_vertex(rotated_to_max(s), #[trigger] s[k]),
{
    let n = s.len() as int;
    if n > 0 {
        lemma_last_max_range(s, n);
        let m = last_max_upto(s, n);
        let r = rotated_to_max(s);
        assert forall|j: int| 0 <= j < n implies is_vertex(s, #[trigger] r[j]) by {
            if j < n - m {
                assert(r[j] == s[m + j]);
            } else {
                assert(r[j] == s[j - (n - m)]);
            }
        }
        assert forall|k: int| 0 <= k < n implies is_vertex(r, #[trigger] s[k]) by {
            if k >= m {
                assert(r[k - m] == s[k]);
            } else {
                assert(r[k + (n - m)] == s[k]);
            }
        }
    }
}

/// Polygons equal under `==` have the same points.
pub proof fn lemma_equal_polygons_share_points(a: Seq<Pt>, b: Seq<Pt>)
    requires
        rotated_to_max(a) == rotated_to_max(b),
    ensures
        forall|k: int| 0 <= k < a.len() ==> is_vertex(b, #[trigger] a[k]),
{
    lemma_rotated_same_points(a);
    lemma_rotated_same_points(b);
    assert forall|k: int| 0 <= k < a.len() implies is_vertex(b, #[trigger] a[k]) by {
        assert(is_vertex(rotated_to_max(a), a[k]));
        let j = choose|j: int| 0 <= j < rotated_to_max(a).len() && rotated_to_max(a)[j] == a[k];
        assert(is_vertex(b, rotated_to_max(b)[j]));
    }
}

/// Every point of the polygon that `Pg` builds from `s` is a point of `s`.
pub proof fn lemma_polygon_pts_from(s: Seq<Pt>)
    ensures
        forall|k: int| 0 <= k < polygon_pts(s).len() ==> is_vertex(s, #[trigger] polygon_pts(s)[k]),
{
    let c = closed_pts(s);
    assert forall|k: int| 0 <= k < c.len() implies is_vertex(s, #[trigger] c[k]) by {
        assert(c[k] == s[k]);
    }
    let o = polygon_pts(s);
    assert forall|k: int| 0 <= k < o.len() implies is_vertex(s, #[trigger] o[k]) by {
        if orientation_of(c, PolygonKind::Closed) == Some(CurveOrientation::Negative) {
            assert(o[k] == c[c.len() - 1 - k]);
            assert(is_vertex(s, c[c.len() - 1 - k]));
        } else {
            assert(is_vertex(s, c[k]));
        }
    }
}

/// Whether some segment of `a` meets some segment of `b`.
pub(crate) fn segs_meet(a: &Vec<Sg>, b: &Vec<Sg>) -> (r: bool)
    ensures
        r == any_pair_meets(a@, b@),
{
    let mut i: usize = 0;
    while i < a.len()
        invariant
            i <= a@.len(),
            forall|x: int, y: int| 0 <= x < i && 0 <= y < b@.len() ==> (#[trigger] intersect_spec(a@[x], b@[y])) is None,
        decreases a@.len() - i,
    {
        let mut j: usize = 0;
        while j < b.len()
            invariant
                i < a@.len(),
                j <= b@.len(),
                forall|x: int, y: int| 0 <= x < i && 0 <= y < b@.len() ==> (#[trigger] intersect_spec(a@[x], b@[y])) is None,
                forall|y: int| 0 <= y < j ==> (#[trigger] intersect_spec(a@[i as int], b@[y])) is None,
            decreases b@.len() - j,
        {
            if a[i].intersects(&b[j]).is_some() {
                proof {
                    assert(intersect_spec(a@[i as int], b@[j as int]) is Some);
                    assert(any_pair_meets(a@, b@));
                }
                return true;
            }
            j = j + 1;
        }
        i = i + 1;
    }
    false
}

/// The outcomes of each segment of `a` against each segment of `b`, row by
/// row, leaving out the pairs that do not meet.
pub(crate) fn segs_hits_all(a: &Vec<Sg>, b: &Vec<Sg>) -> (r: Vec<IntersectionResult>)
    ensures
        r@ == hits_all(a@, b@, a@.len() as int),
{
    let mut out: Vec<IntersectionResult> = Vec::new();
    let mut i: usize = 0;
    while i < a.len()
        invariant
            i <= a@.len(),
            out@ == hits_all(a@, b@, i as int),
        decreases a@.len() - i,
    {
        let ghost before = out@;
        let mut j: usize = 0;
        while j < b.len()
            invariant
                i < a@.len(),
                j <= b@.len(),
                out@ == before + hits_row(a@[i as int], b@, j as int),
            decreases b@.len() - j,
        {
            match a[i].intersects(&b[j]) {
                Some(x) => {
                    out.push(x);
                    proof {
                        assert(out@ =~= before + hits_row(a@[i as int], b@, j + 1));
                    }
                },
                None => {
                    proof {
                        assert(out@ =~= before + hits_row(a@[i as int], b@, j + 1));
                    }
                },
            }
            j = j + 1;
        }
        i = i + 1;
    }
    out
}

/// Whether some segment of `a` meets `other`.
pub(crate) fn segs_meet_segment(a: &Vec<Sg>, other: &Sg) -> (r: bool)
    ensures
        r == exists|k: int| 0 <= k < a@.len() && (#[trigger] intersect_spec(a@[k], *other)) is Some,
{
    let mut k: usize = 0;
    while k < a.len()
        invariant
            k <= a@.len(),
            forall|j: int| 0 <= j < k ==> (#[trigger] intersect_spec(a@[j], *other)) is None,
        decreases a@.len() - k,
    {
        if a[k].intersects(other).is_some() {
            proof {
                assert(intersect_spec(a@[k as int], *other) is Some);
                assert(exists|j: int| 0 <= j < a@.len() && (#[trigger] intersect_spec(a@[j], *other)) is Some);
            }
            return true;
        }
        k = k + 1;
    }
    false
}

/// The outcomes of each segment of `a` against `other`, in order, leaving
/// out the segments that do not meet it.
pub(crate) fn segs_hits_against(a: &Vec<Sg>, other: &Sg) -> (r: Vec<IntersectionResult>)
    ensures
        r@ == hits_against(a@, *other, a@.len() as int),
{
    let mut out: Vec<IntersectionResult> = Vec::new();
    let mut k: usize = 0;
    while k < a.len()
        invariant
            k <= a@.len(),
            out@ == hits_against(a@, *other, k as int),
        decreases a@.len() - k,
    {
        match a[k].intersects(other) {
            Some(x) => {
                out.push(x);
                proof {
                    assert(out@ =~= hits_against(a@, *other, k + 1));
                }
            },
            None => {
                proof {
                    assert(out@ =~= hits_against(a@, *other, k + 1));
                }
            },
        }
        k = k + 1;
    }
    out
}

/// The segments joining consecutive points of `pts`.
pub(crate) fn open_segments(pts: &Vec<Pt>) -> (r: Vec<Sg>)
    ensures
        r@ == segs_of(pts@, PolygonKind::Open),
{
    let n = pts.len();
    let mut out: Vec<Sg> = Vec::new();
    if n > 0 {
        let mut k: usize = 0;
        while k + 1 < n
            invariant
                n == pts@.len(),
                n > 0,
                k + 1 <= n,
                out@.len() == k,
                forall|j: int| 0 <= j < k ==> #[trigger] out@[j] == (Sg { i: pts@[j], f: pts@[j + 1] }),
            decreases n - k,
        {
            out.push(Sg { i: pts[k], f: pts[k + 1] });
            k = k + 1;
        }
    }
    proof {
        assert(out@ =~= segs_of(pts@, PolygonKind::Open));
    }
    out
}

/// Translating by `by` and then by minus `by` gives back the same points.
pub proof fn lemma_translate_round_trip(s: Seq<Pt>, by: Pt)
    requires
        pts_add_ok(s, by),
    ensures
        pts_sub_ok(pts_add(s, by), by),
        pts_sub(pts_add(s, by), by) == s,
{
    let t = pts_add(s, by);
    assert forall|k: int| 0 <= k < s.len() implies sub_fits(#[trigger] t[k], by) by {
        assert(add_fits(s[k], by));
    }
    let u = pts_sub(t, by);
    assert forall|k: int| 0 <= k < s.len() implies #[trigger] u[k] == s[k] by {
        assert(add_fits(s[k], by));
        assert(t[k] == pt_add(s[k], by));
    }
    assert(u =~= s);
}

/// Scaling by a nonzero `f` and then dividing by `f` gives back the same
/// points.
pub proof fn lemma_scale_round_trip(s: Seq<Pt>, f: i32)
    requires
        f != 0,
        pts_scale_ok(s, f),
    ensures
        pts_div_ok(pts_scale(s, f), f),
        pts_div(pts_scale(s, f), f) == s,
{
    assert forall|k: int| 0 <= k < s.len() implies #[trigger] pts_scale(s, f)[k] == pt_scale(s[k], f)
        && div_ok(pt_scale(s[k], f), f) && pt_div(pt_scale(s[k], f), f) == s[k] by {
        assert(scale_fits(s[k], f));
        lemma_tdiv_of_multiple(s[k].x as int, f as int);
        lemma_tdiv_of_multiple(s[k].y as int, f as int);
        if f == -1 {
            assert(s[k].x * f == -s[k].x);
            assert(s[k].y * f == -s[k].y);
        }
    }
    assert(pts_div(pts_scale(s, f), f) =~= s);
}

/// Dividing `x * f` by `f`, rounding toward zero, gives `x`.
proof fn lemma_tdiv_of_multiple(x: int, f: int)
    requires
        f != 0,
    ensures
        crate::pt::tdiv(x * f, f) == x,
{
    if f > 0 {
        if x >= 0 {
            assert(x * f >= 0) by (nonlinear_arith) requires x >= 0, f > 0;
            vstd::arithmetic::div_mod::lemma_div_multiples_vanish(x, f);
            assert(f * x == x * f) by (nonlinear_arith);
        } else {
            assert(-(x * f) == (-x) * f) by (nonlinear_arith);
            assert((-x) * f > 0) by (nonlinear_arith) requires x < 0, f > 0;
            vstd::arithmetic::div_mod::lemma_div_multiples_vanish(-x, f);
            assert(f * (-x) == (-x) * f) by (nonlinear_arith);
        }
    } else {
        if x >= 0 {
            assert(x * f <= 0) by (nonlinear_arith) requires x >= 0, f < 0;
            assert(-(x * f) == x * (-f)) by (nonlinear_arith);
            vstd::arithmetic::div_mod::lemma_div_multiples_vanish(x, -f);
            assert((-f) * x == x * (-f)) by (nonlinear_arith);
            if x * f == 0 {
                assert(x == 0) by (nonlinear_arith) requires x * f == 0, f < 0;
            }
        } else {
            assert(x * f > 0) by (nonlinear_arith) requires x < 0, f < 0;
            assert(x * f == (-x) * (-f)) by (nonlinear_arith);
            vstd::arithmetic::div_mod::lemma_div_multiples_vanish(-x, -f);
            assert((-f) * (-x) == (-x) * (-f)) by (nonlinear_arith);
        }
    }
}

/// The points of `s` starting from index `j`, wrapping around.
pub open spec fn rotate_by(s: Seq<Pt>, j: int) -> Seq<Pt> {
    s.subrange(j, s.len() as int) + s.subrange(0, j)
}

/// Some point of `s` is greater than every other, in the order of `pt_le`.
pub open spec fn has_unique_greatest(s: Seq<Pt>) -> bool {
    exists|m: int| 0 <= m < s.len() && forall|i: int| 0 <= i < s.len() && i != m ==> !crate::pt::pt_le(#[trigger] s[m], s[i])
}

/// The last greatest of the first `k` points is at least each of them, and
/// greater than each after it.
proof fn lemma_last_max_props(s: Seq<Pt>, k: int)
    requires
        1 <= k <= s.len(),
    ensures
        0 <= last_max_upto(s, k) < k,
        forall|i: int| 0 <= i < k ==> crate::pt::pt_le(#[trigger] s[i], s[last_max_upto(s, k)]),
        forall|i: int| last_max_upto(s, k) < i < k ==> !crate::pt::pt_le(s[last_max_upto(s, k)], #[trigger] s[i]),
    decreases k,
{
    if k > 1 {
        lemma_last_max_props(s, k - 1);
    }
}

/// An index of a point at least as great as the first `k` points, and greater
/// than each after it, is the last greatest.
proof fn lemma_last_max_unique(s: Seq<Pt>, k: int, m: int)
    requires
        1 <= k <= s.len(),
        0 <= m < k,
        forall|i: int| 0 <= i < k ==> crate::pt::pt_le(#[trigger] s[i], s[m]),
        forall|i: int| m < i < k ==> !crate::pt::pt_le(s[m], #[trigger] s[i]),
    ensures
        last_max_upto(s, k) == m,
{
    lemma_last_max_props(s, k);
    let l = last_max_upto(s, k);
    if l < m {
        assert(!crate::pt::pt_le(s[l], s[m]));
        assert(crate::pt::pt_le(s[l], s[m]));
    } else if l > m {
        assert(!crate::pt::pt_le(s[m], s[l]));
        assert(crate::pt::pt_le(s[m], s[l]));
    }
}

/// Polygons are compared regardless of the point they start from: a list
/// whose greatest point is greater than all others is equal, as a polygon,
/// to the same list started from any other index.
pub proof fn lemma_eq_ignores_start(s: Seq<Pt>, j: int)
    requires
        0 <= j <= s.len(),
        has_unique_greatest(s),
    ensures
        rotated_to_max(rotate_by(s, j)) == rotated_to_max(s),
{
    let n = s.len() as int;
    let m = choose|m: int| 0 <= m < n && forall|i: int| 0 <= i < n && i != m ==> !crate::pt::pt_le(#[trigger] s[m], s[i]);
    assert forall|i: int| 0 <= i < n implies crate::pt::pt_le(#[trigger] s[i], s[m]) by {
        if i != m {
            assert(!crate::pt::pt_le(s[m], s[i]));
        }
    }
    lemma_last_max_unique(s, n, m);
    let t = rotate_by(s, j);
    assert(t.len() == n);
    let mt = if m >= j { m - j } else { m + n - j };
    assert forall|i: int| 0 <= i < n implies #[trigger] t[i] == s[if i + j < n { i + j } else { i + j - n }] by {
    }
    assert(t[mt] == s[m]);
    assert forall|i: int| 0 <= i < n implies crate::pt::pt_le(#[trigger] t[i], t[mt]) by {
        let si = if i + j < n { i + j } else { i + j - n };
        assert(t[i] == s[si]);
    }
    assert forall|i: int| mt < i < n implies !crate::pt::pt_le(t[mt], #[trigger] t[i]) by {
        let si = if i + j < n { i + j } else { i + j - n };
        assert(t[i] == s[si]);
        assert(si != m);
    }
    lemma_last_max_unique(t, n, mt);
    let rt = rotated_to_max(t);
    let rs = rotated_to_max(s);
    assert forall|i: int| 0 <= i < n implies #[trigger] rt[i] == rs[i] by {
        let ti = if i + mt < n { i + mt } else { i + mt - n };
        assert(rt[i] == t[ti]);
        let si = if ti + j < n { ti + j } else { ti + j - n };
        assert(t[ti] == s[si]);
        let ri = if i + m < n { i + m } else { i + m - n };
        assert(rs[i] == s[ri]);
        assert(si == ri);
    }
    assert(rt =~= rs);
}

/// Whether two polygons meet does not depend on which is asked: some segment
/// of `a` meets some segment of `b` exactly when some segment of `b` meets
/// some segment of `a`.
pub proof fn lemma_polygons_meet_symmetric(a: Seq<Sg>, b: Seq<Sg>)
    ensures
        any_pair_meets(a, b) == any_pair_meets(b, a),
{
    if any_pair_meets(a, b) {
        let (i, j) = choose|i: int, j: int| 0 <= i < a.len() && 0 <= j < b.len() && (#[trigger] intersect_spec(a[i], b[j])) is Some;
        crate::sg::lemma_intersects_symmetric(a[i], b[j]);
        assert(intersect_spec(b[j], a[i]) is Some);
    }
    if any_pair_meets(b, a) {
        let (i, j) = choose|i: int, j: int| 0 <= i < b.len() && 0 <= j < a.len() && (#[trigger] intersect_spec(b[i], a[j])) is Some;
        crate::sg::lemma_intersects_symmetric(b[i], a[j]);
        assert(intersect_spec(a[j], b[i]) is Some);
    }
}

} // verus!
