//! Cropping segments to polygons.

use vstd::prelude::*;
use crate::pt::Pt;
use crate::frac::Frac;
use crate::sg::{Sg, intersect_spec, pt_along, pt_along_exec};
use crate::intersection::IntersectionResult;
use crate::pg::{Pg, PointLoc, PolygonKind, segs_of, is_outside, is_inside};

verus! {

/// Whether a crop keeps what lies inside the frame or what lies outside it.
#[derive(Debug, Clone, Copy, PartialEq, Eq, Structural)]
pub enum CropType {
    /// Keep what lies inside the frame.
    Inclusive,
    /// Keep what lies outside the frame.
    Exclusive,
}

/// `a` is smaller than `b` (both with positive denominators) and `b` smaller
/// than `c`: then `a` is smaller than `c`; likewise with "at most".
pub proof fn lemma_frac_order_trans(a: Frac, b: Frac, c: Frac)
    requires
        a.den > 0,
        b.den > 0,
        c.den > 0,
    ensures
        a.lt_value(b) && b.le_value(c) ==> a.lt_value(c),
        a.le_value(b) && b.lt_value(c) ==> a.lt_value(c),
        a.le_value(b) && b.le_value(c) ==> a.le_value(c),
{
    let (a1, a2, b1, b2, c1, c2) = (a.num as int, a.den as int, b.num as int, b.den as int, c.num as int, c.den as int);
    assert(a1 * b2 < b1 * a2 && b1 * c2 <= c1 * b2 ==> a1 * c2 < c1 * a2) by (nonlinear_arith)
        requires a2 > 0, b2 > 0, c2 > 0;
    assert(a1 * b2 <= b1 * a2 && b1 * c2 < c1 * b2 ==> a1 * c2 < c1 * a2) by (nonlinear_arith)
        requires a2 > 0, b2 > 0, c2 > 0;
    assert(a1 * b2 <= b1 * a2 && b1 * c2 <= c1 * b2 ==> a1 * c2 <= c1 * a2) by (nonlinear_arith)
        requires a2 > 0, b2 > 0, c2 > 0;
}

/// The fractions along `s` at which it meets the first `n` segments of `fs`
/// at a single point, in the order of `fs`.
pub open spec fn crossing_fracs(s: Sg, fs: Seq<Sg>, n: int) -> Seq<Frac>
    decreases n,
{
    if n <= 0 {
        Seq::empty()
    } else {
        crossing_fracs(s, fs, n - 1) + match intersect_spec(s, fs[n - 1]) {
            Some(IntersectionResult::OneIntersection(x)) => seq![x.a_pct],
            _ => Seq::empty(),
        }
    }
}

/// Every fraction in `ts` has a positive denominator.
pub open spec fn all_positive_dens(ts: Seq<Frac>) -> bool {
    forall|i: int| 0 <= i < ts.len() ==> (#[trigger] ts[i]).den > 0
}

/// `ts[j]` is the first of the smallest fractions of `ts` beyond `ct`.
pub open spec fn is_next_frac(ts: Seq<Frac>, ct: Frac, n: int, j: int) -> bool {
    &&& 0 <= j < n
    &&& ct.lt_value(ts[j])
    &&& forall|i: int| 0 <= i < n && ct.lt_value(#[trigger] ts[i]) ==> ts[j].le_value(ts[i])
    &&& forall|i: int| 0 <= i < j && ct.lt_value(#[trigger] ts[i]) ==> ts[j].lt_value(ts[i])
}

/// Some fraction among the first `n` of `ts` lies beyond `ct`.
pub open spec fn has_frac_after(ts: Seq<Frac>, ct: Frac, n: int) -> bool {
    exists|j: int| 0 <= j < n && ct.lt_value(#[trigger] ts[j])
}

/// How many of the first `n` fractions of `ts` lie beyond `ct`.
pub open spec fn count_after(ts: Seq<Frac>, ct: Frac, n: int) -> nat
    decreases n,
{
    if n <= 0 {
        0
    } else {
        count_after(ts, ct, n - 1) + if ct.lt_value(ts[n - 1]) { 1nat } else { 0nat }
    }
}

/// When some fraction lies beyond `ct`, a first smallest one does.
pub proof fn lemma_next_frac_exists(ts: Seq<Frac>, ct: Frac, n: int)
    requires
        0 <= n <= ts.len(),
        all_positive_dens(ts),
        ct.den > 0,
        has_frac_after(ts, ct, n),
    ensures
        exists|j: int| #[trigger] is_next_frac(ts, ct, n, j),
    decreases n,
{
    let last = n - 1;
    if has_frac_after(ts, ct, n - 1) {
        let m = n - 1;
        lemma_next_frac_exists(ts, ct, m);
        let j0 = choose|j: int| #[trigger] is_next_frac(ts, ct, m, j);
        assert(ts[j0].den > 0 && ts[last].den > 0);
        if ct.lt_value(ts[last]) && ts[last].lt_value(ts[j0]) {
            assert forall|i: int| 0 <= i < n && ct.lt_value(#[trigger] ts[i]) implies ts[last].le_value(ts[i]) by {
                assert(ts[i].den > 0);
                if i < last {
                    lemma_frac_order_trans(ts[last], ts[j0], ts[i]);
                }
            }
            assert forall|i: int| 0 <= i < last && ct.lt_value(#[trigger] ts[i]) implies ts[last].lt_value(ts[i]) by {
                assert(ts[i].den > 0);
                lemma_frac_order_trans(ts[last], ts[j0], ts[i]);
            }
            assert(is_next_frac(ts, ct, n, last));
        } else {
            assert(is_next_frac(ts, ct, n, j0));
        }
    } else {
        assert(ct.lt_value(ts[last]));
        assert(is_next_frac(ts, ct, n, last));
    }
}

/// Stepping from `ct` to the next fraction `ts[j]` leaves fewer fractions
/// beyond.
pub proof fn lemma_count_after_drops(ts: Seq<Frac>, ct: Frac, j: int, n: int)
    requires
        0 <= n <= ts.len(),
        all_positive_dens(ts),
        ct.den > 0,
        0 <= j < ts.len(),
        ct.lt_value(ts[j]),
    ensures
        count_after(ts, ts[j], n) <= count_after(ts, ct, n),
        j < n ==> count_after(ts, ts[j], n) < count_after(ts, ct, n),
    decreases n,
{
    if n > 0 {
        lemma_count_after_drops(ts, ct, j, n - 1);
        assert(ts[n - 1].den > 0);
        lemma_frac_order_trans(ct, ts[j], ts[n - 1]);
        assert(!ts[j].lt_value(ts[j]));
    }
}

/// The first smallest fraction of `ts` beyond `ct`.
pub open spec fn next_frac_index(ts: Seq<Frac>, ct: Frac) -> int {
    let n = ts.len() as int;
    choose|j: int| #[trigger] is_next_frac(ts, ct, n, j)
}

/// The pieces of `s` that the walk along it collects: standing at `curr`
/// (a fraction `ct` along `s`) with the pen down or up, step to the point
/// at the next crossing fraction beyond `ct`, draw the step when the pen is
/// down and the new point is not outside the frame, and lift or lower the
/// pen. The walk ends at the end of `s`, when no crossing lies beyond, or
/// when a step does not move.
pub open spec fn crop_walk(s: Sg, frame: Seq<Pt>, kind: PolygonKind, ts: Seq<Frac>, curr: Pt, ct: Frac, pen: bool) -> Seq<Sg>
    decreases count_after(ts, ct, ts.len() as int),
{
    if curr == s.f || !all_positive_dens(ts) || ct.den <= 0 || !has_frac_after(ts, ct, ts.len() as int) {
        Seq::empty()
    } else {
        let j = next_frac_index(ts, ct);
        proof {
            lemma_next_frac_exists(ts, ct, ts.len() as int);
            lemma_count_after_drops(ts, ct, j, ts.len() as int);
        }
        let np = pt_along(s, ts[j].num as int, ts[j].den as int);
        if np == curr {
            Seq::empty()
        } else {
            (if pen && !is_outside(frame, kind, np) {
                seq![Sg { i: curr, f: np }]
            } else {
                Seq::empty()
            }) + crop_walk(s, frame, kind, ts, np, ts[j], !pen)
        }
    }
}

/// What cropping `s` to the frame with points `frame` keeps: `s` itself when
/// both its ends lie inside the frame, followed by the pieces of the walk
/// from the start of `s` along the fractions at which it crosses the frame's
/// segments, the pen starting down when the start is not outside the frame.
pub open spec fn seg_crop_spec(s: Sg, frame: Seq<Pt>, kind: PolygonKind) -> Seq<Sg> {
    let fs = segs_of(frame, kind);
    (if is_inside(frame, kind, s.i) && is_inside(frame, kind, s.f) {
        seq![s]
    } else {
        Seq::empty()
    }) + crop_walk(s, frame, kind, crossing_fracs(s, fs, fs.len() as int), s.i, Frac { num: 0, den: 1 }, !is_outside(frame, kind, s.i))
}

/// The fractions along `s` at which it meets the segments `fs` at a single
/// point, in the order of `fs`.
fn crossing_fracs_exec(s: &Sg, fs: &Vec<Sg>) -> (r: Vec<Frac>)
    ensures
        r@ == crossing_fracs(*s, fs@, fs@.len() as int),
        forall|i: int| 0 <= i < r@.len() ==> (#[trigger] r@[i]).wf() && r@[i].den <= 0x4_0000_0000_0000_0000,
{
    let mut out: Vec<Frac> = Vec::new();
    let mut k: usize = 0;
    while k < fs.len()
        invariant
            k <= fs@.len(),
            out@ == crossing_fracs(*s, fs@, k as int),
            forall|i: int| 0 <= i < out@.len() ==> (#[trigger] out@[i]).wf() && out@[i].den <= 0x4_0000_0000_0000_0000,
        decreases fs@.len() - k,
    {
        proof {
            crate::sg::lemma_crossing_fields(*s, fs@[k as int]);
            crate::sg::lemma_isxn_bounds(*s, fs@[k as int]);
        }
        match s.intersects(&fs[k]) {
            Some(IntersectionResult::OneIntersection(x)) => {
                out.push(x.a_pct);
            },
            _ => {},
        }
        proof {
            assert(out@ =~= crossing_fracs(*s, fs@, k + 1));
        }
        k = k + 1;
    }
    out
}

/// The first smallest fraction of `ts` beyond `ct`, if any.
fn next_frac_exec(ts: &Vec<Frac>, ct: &Frac) -> (r: Option<usize>)
    requires
        forall|i: int| 0 <= i < ts@.len() ==> (#[trigger] ts@[i]).wf(),
        ct.wf(),
    ensures
        r is None <==> !has_frac_after(ts@, *ct, ts@.len() as int),
        r matches Some(j) ==> is_next_frac(ts@, *ct, ts@.len() as int, j as int),
{
    let mut best: Option<usize> = None;
    let mut k: usize = 0;
    while k < ts.len()
        invariant
            forall|i: int| 0 <= i < ts@.len() ==> (#[trigger] ts@[i]).wf(),
            ct.wf(),
            k <= ts@.len(),
            best is None <==> !has_frac_after(ts@, *ct, k as int),
            best matches Some(j) ==> is_next_frac(ts@, *ct, k as int, j as int),
        decreases ts@.len() - k,
    {
        let t = ts[k];
        if ct.lt(&t) {
            match best {
                None => {
                    best = Some(k);
                    proof {
                        assert(is_next_frac(ts@, *ct, k + 1, k as int));
                    }
                },
                Some(j) => {
                    if t.lt(&ts[j]) {
                        proof {
                            assert forall|i: int| 0 <= i < k + 1 && ct.lt_value(#[trigger] ts@[i]) implies t.le_value(ts@[i]) by {
                                if i < k {
                                    lemma_frac_order_trans(t, ts@[j as int], ts@[i]);
                                }
                            }
                            assert forall|i: int| 0 <= i < k && ct.lt_value(#[trigger] ts@[i]) implies t.lt_value(ts@[i]) by {
                                lemma_frac_order_trans(t, ts@[j as int], ts@[i]);
                            }
                        }
                        best = Some(k);
                    }
                },
            }
        }
        proof {
            if !has_frac_after(ts@, *ct, k + 1) {
            }
            if has_frac_after(ts@, *ct, k as int) {
                let w = choose|w: int| 0 <= w < k && ct.lt_value(#[trigger] ts@[w]);
                assert(0 <= w < k + 1 && ct.lt_value(ts@[w]));
            }
        }
        k = k + 1;
    }
    best
}

impl Sg {
    /// Crops this segment to the frame, keeping what lies inside it. Only
    /// the inclusive crop is defined for segments.
    ///
    /// Walks from the start of the segment through the points where it
    /// crosses the frame's segments, nearest first, alternately lowering and
    /// lifting the pen; see `seg_crop_spec`. Each crossing point is rounded
    /// onto the lattice of `Pt` (thousandths of a unit) toward the start of
    /// the segment (`pt_along`).
    pub fn crop(&self, frame: &Pg, crop_type: CropType) -> (r: Vec<Sg>)
        requires
            crop_type == CropType::Inclusive,
        ensures
            r@ == seg_crop_spec(*self, frame.pts@, frame.kind),
    {
        let fs = frame.to_segments();
        let ts = crossing_fracs_exec(self, &fs);
        let mut out: Vec<Sg> = Vec::new();
        let start_loc = frame.contains_pt(&self.i);
        let end_loc = frame.contains_pt(&self.f);
        let mut pen = !matches!(start_loc, PointLoc::Outside);
        if matches!(start_loc, PointLoc::Inside) && matches!(end_loc, PointLoc::Inside) {
            out.push(*self);
        }
        let ghost head = out@;
        let ghost frame_pts = frame.pts@;
        let ghost kind = frame.kind;
        let mut curr = self.i;
        let mut ct = Frac { num: 0, den: 1 };
        let ghost whole = crop_walk(*self, frame_pts, kind, ts@, curr, ct, pen);
        proof {
            assert(all_positive_dens(ts@));
        }
        loop
            invariant
                frame_pts == frame.pts@,
                kind == frame.kind,
                forall|i: int| 0 <= i < ts@.len() ==> (#[trigger] ts@[i]).wf() && ts@[i].den <= 0x4_0000_0000_0000_0000,
                all_positive_dens(ts@),
                ct.wf(),
                out@ + crop_walk(*self, frame_pts, kind, ts@, curr, ct, pen) == head + whole,
            ensures
                out@ == head + whole,
            decreases count_after(ts@, ct, ts@.len() as int),
        {
            if curr == self.f {
                proof {
                    assert(crop_walk(*self, frame_pts, kind, ts@, curr, ct, pen) == Seq::<Sg>::empty());
                    assert(out@ + Seq::<Sg>::empty() =~= out@);
                }
                break;
            }
            match next_frac_exec(&ts, &ct) {
                None => {
                    proof {
                        assert(crop_walk(*self, frame_pts, kind, ts@, curr, ct, pen) == Seq::<Sg>::empty());
                        assert(out@ + Seq::<Sg>::empty() =~= out@);
                    }
                    break;
                },
                Some(j) => {
                    let t = ts[j];
                    proof {
                        lemma_next_frac_exists(ts@, ct, ts@.len() as int);
                        let c = next_frac_index(ts@, ct);
                        // the first smallest fraction beyond `ct` is unique
                        if c != j as int {
                            if c < j {
                                assert(ts@[c].den > 0);
                            } else {
                                assert(ts@[j as int].den > 0);
                            }
                        }
                        assert(c == j);
                        lemma_count_after_drops(ts@, ct, j as int, ts@.len() as int);
                    }
                    let np = pt_along_exec(self, t.num, t.den);
                    if np == curr {
                        proof {
                            assert(crop_walk(*self, frame_pts, kind, ts@, curr, ct, pen) == Seq::<Sg>::empty());
                            assert(out@ + Seq::<Sg>::empty() =~= out@);
                        }
                        break;
                    }
                    let ghost before = out@;
                    if pen && !frame.point_is_outside(&np) {
                        out.push(Sg { i: curr, f: np });
                    }
                    proof {
                        let piece = if pen && !is_outside(frame_pts, kind, np) {
                            seq![Sg { i: curr, f: np }]
                        } else {
                            Seq::<Sg>::empty()
                        };
                        assert(out@ =~= before + piece);
                        assert(crop_walk(*self, frame_pts, kind, ts@, curr, ct, pen) == piece + crop_walk(*self, frame_pts, kind, ts@, np, t, !pen));
                        assert(before + (piece + crop_walk(*self, frame_pts, kind, ts@, np, t, !pen)) =~= out@ + crop_walk(*self, frame_pts, kind, ts@, np, t, !pen));
                    }
                    curr = np;
                    ct = t;
                    pen = !pen;
                },
            }
        }
        out
    }

    /// Crops this segment to the frame, keeping what lies inside it.
    pub fn crop_to(&self, frame: &Pg) -> (r: Vec<Sg>)
        ensures
            r@ == seg_crop_spec(*self, frame.pts@, frame.kind),
    {
        self.crop(frame, CropType::Inclusive)
    }
}

/// Every piece that the walk draws ends at a point that is not outside the
/// frame.
pub proof fn lemma_crop_walk_ends_not_outside(s: Sg, frame: Seq<Pt>, kind: PolygonKind, ts: Seq<Frac>, curr: Pt, ct: Frac, pen: bool)
    ensures
        forall|k: int| 0 <= k < crop_walk(s, frame, kind, ts, curr, ct, pen).len()
            ==> !is_outside(frame, kind, (#[trigger] crop_walk(s, frame, kind, ts, curr, ct, pen)[k]).f),
    decreases count_after(ts, ct, ts.len() as int),
{
    if !(curr == s.f || !all_positive_dens(ts) || ct.den <= 0 || !has_frac_after(ts, ct, ts.len() as int)) {
        let j = next_frac_index(ts, ct);
        lemma_next_frac_exists(ts, ct, ts.len() as int);
        lemma_count_after_drops(ts, ct, j, ts.len() as int);
        let np = pt_along(s, ts[j].num as int, ts[j].den as int);
        if np != curr {
            lemma_crop_walk_ends_not_outside(s, frame, kind, ts, np, ts[j], !pen);
            let head = if pen && !is_outside(frame, kind, np) {
                seq![Sg { i: curr, f: np }]
            } else {
                Seq::<Sg>::empty()
            };
            let rest = crop_walk(s, frame, kind, ts, np, ts[j], !pen);
            let w = crop_walk(s, frame, kind, ts, curr, ct, pen);
            assert(w == head + rest);
            assert forall|k: int| 0 <= k < w.len() implies !is_outside(frame, kind, (#[trigger] w[k]).f) by {
                if k < head.len() {
                    assert(w[k] == head[k]);
                } else {
                    assert(w[k] == rest[k - head.len()]);
                }
            }
        }
    }
}

/// Every piece of a segment cropped to a frame ends at a point that is not
/// outside the frame.
pub proof fn lemma_seg_crop_ends_not_outside(s: Sg, frame: Seq<Pt>, kind: PolygonKind)
    ensures
        forall|k: int| 0 <= k < seg_crop_spec(s, frame, kind).len()
            ==> !is_outside(frame, kind, (#[trigger] seg_crop_spec(s, frame, kind)[k]).f),
{
    let fs = segs_of(frame, kind);
    let ts = crossing_fracs(s, fs, fs.len() as int);
    let zero = Frac { num: 0, den: 1 };
    let pen = !is_outside(frame, kind, s.i);
    lemma_crop_walk_ends_not_outside(s, frame, kind, ts, s.i, zero, pen);
    let head = if is_inside(frame, kind, s.i) && is_inside(frame, kind, s.f) {
        seq![s]
    } else {
        Seq::<Sg>::empty()
    };
    let rest = crop_walk(s, frame, kind, ts, s.i, zero, pen);
    let w = seg_crop_spec(s, frame, kind);
    assert(w == head + rest);
    assert forall|k: int| 0 <= k < w.len() implies !is_outside(frame, kind, (#[trigger] w[k]).f) by {
        if k < head.len() {
            assert(w[k] == s);
        } else {
            assert(w[k] == rest[k - head.len()]);
        }
    }
}

/// The lattice point at fraction `t` along `s` (`pt_along`).
pub open spec fn at_frac(s: Sg, t: Frac) -> Pt {
    pt_along(s, t.num as int, t.den as int)
}

/// The pieces `pieces` run forward along `s`, in order: piece `k` runs from
/// the point at fraction `fs[k].0` to the point at the larger fraction
/// `fs[k].1`; it starts at `from` or at a crossing fraction of `ts`, no
/// earlier than `from`, and ends at a crossing fraction of `ts`; and each
/// piece starts no earlier along `s` than the one before it ends.
pub open spec fn pieces_in_order(s: Sg, ts: Seq<Frac>, from: Frac, pieces: Seq<Sg>, fs: Seq<(Frac, Frac)>) -> bool {
    &&& fs.len() == pieces.len()
    &&& forall|k: int| 0 <= k < fs.len() ==> {
        &&& from.le_value((#[trigger] fs[k]).0)
        &&& fs[k].0.lt_value(fs[k].1)
        &&& fs[k].0.den > 0 && fs[k].1.den > 0
        &&& (fs[k].0 == from || ts.contains(fs[k].0))
        &&& ts.contains(fs[k].1)
        &&& pieces[k].i == at_frac(s, fs[k].0)
        &&& pieces[k].f == at_frac(s, fs[k].1)
    }
    &&& forall|k: int| 0 <= k < fs.len() - 1 ==> (#[trigger] fs[k]).1.le_value(fs[k + 1].0)
}

/// The walk along `s` from the point at fraction `ct` draws its pieces
/// forward along `s`, in order, each between the start or a crossing and a
/// later crossing.
pub proof fn lemma_crop_walk_in_order(s: Sg, frame: Seq<Pt>, kind: PolygonKind, ts: Seq<Frac>, curr: Pt, ct: Frac, pen: bool)
    requires
        curr == at_frac(s, ct),
        ct.den > 0,
    ensures
        exists|fs: Seq<(Frac, Frac)>| #[trigger] pieces_in_order(s, ts, ct, crop_walk(s, frame, kind, ts, curr, ct, pen), fs),
    decreases count_after(ts, ct, ts.len() as int),
{
    let w = crop_walk(s, frame, kind, ts, curr, ct, pen);
    if curr == s.f || !all_positive_dens(ts) || ct.den <= 0 || !has_frac_after(ts, ct, ts.len() as int) {
        assert(pieces_in_order(s, ts, ct, w, Seq::empty()));
    } else {
        let j = next_frac_index(ts, ct);
        lemma_next_frac_exists(ts, ct, ts.len() as int);
        lemma_count_after_drops(ts, ct, j, ts.len() as int);
        let t = ts[j];
        assert(t.den > 0);
        let np = pt_along(s, t.num as int, t.den as int);
        if np == curr {
            assert(pieces_in_order(s, ts, ct, w, Seq::empty()));
        } else {
            lemma_crop_walk_in_order(s, frame, kind, ts, np, t, !pen);
            let rest = crop_walk(s, frame, kind, ts, np, t, !pen);
            let fr = choose|fs: Seq<(Frac, Frac)>| #[trigger] pieces_in_order(s, ts, t, rest, fs);
            let drawn = pen && !is_outside(frame, kind, np);
            let head = if drawn { seq![Sg { i: curr, f: np }] } else { Seq::<Sg>::empty() };
            assert(w == head + rest);
            assert(ts.contains(t));
            assert forall|k: int| 0 <= k < fr.len() implies ct.le_value((#[trigger] fr[k]).0) by {
                lemma_frac_order_trans(ct, t, fr[k].0);
            }
            if drawn {
                let fs = seq![(ct, t)] + fr;
                assert forall|k: int| 0 <= k < fs.len() implies {
                    &&& ct.le_value((#[trigger] fs[k]).0)
                    &&& fs[k].0.lt_value(fs[k].1)
                    &&& fs[k].0.den > 0 && fs[k].1.den > 0
                    &&& (fs[k].0 == ct || ts.contains(fs[k].0))
                    &&& ts.contains(fs[k].1)
                    &&& w[k].i == at_frac(s, fs[k].0)
                    &&& w[k].f == at_frac(s, fs[k].1)
                } by {
                    if k > 0 {
                        assert(fs[k] == fr[k - 1]);
                        assert(w[k] == rest[k - 1]);
                        assert(fr[k - 1].0 == t || ts.contains(fr[k - 1].0));
                    }
                }
                assert forall|k: int| 0 <= k < fs.len() - 1 implies (#[trigger] fs[k]).1.le_value(fs[k + 1].0) by {
                    if k > 0 {
                        assert(fs[k] == fr[k - 1] && fs[k + 1] == fr[k]);
                    } else {
                        assert(fs[1] == fr[0]);
                    }
                }
                assert(pieces_in_order(s, ts, ct, w, fs));
            } else {
                assert(w =~= rest);
                assert forall|k: int| 0 <= k < fr.len() implies (fr[k].0 == ct || ts.contains((#[trigger] fr[k]).0)) by {
                }
                assert(pieces_in_order(s, ts, ct, w, fr));
            }
        }
    }
}

/// The fractions along `s` at which it crosses the segments of the frame.
pub open spec fn frame_crossings(s: Sg, frame: Seq<Pt>, kind: PolygonKind) -> Seq<Frac> {
    crossing_fracs(s, segs_of(frame, kind), segs_of(frame, kind).len() as int)
}

/// The pieces of a segment cropped to a frame but the whole segment that
/// comes first when both its ends lie inside the frame.
pub open spec fn walked_crop_pieces(s: Sg, frame: Seq<Pt>, kind: PolygonKind) -> Seq<Sg> {
    let w = seg_crop_spec(s, frame, kind);
    if is_inside(frame, kind, s.i) && is_inside(frame, kind, s.f) {
        w.subrange(1, w.len() as int)
    } else {
        w
    }
}

/// Cropping a segment to a frame gives the whole segment first when both
/// its ends lie inside the frame; the other pieces run forward along the
/// segment, in order, each from its start or a crossing with the frame's
/// segments to a later crossing; and every piece ends at a point that is not
/// outside the frame.
pub proof fn lemma_seg_crop_in_order(s: Sg, frame: Seq<Pt>, kind: PolygonKind)
    ensures
        is_inside(frame, kind, s.i) && is_inside(frame, kind, s.f) ==> seg_crop_spec(s, frame, kind)[0] == s,
        exists|fs: Seq<(Frac, Frac)>| #[trigger] pieces_in_order(s, frame_crossings(s, frame, kind), Frac { num: 0, den: 1 },
            walked_crop_pieces(s, frame, kind), fs),
        forall|k: int| 0 <= k < seg_crop_spec(s, frame, kind).len()
            ==> !is_outside(frame, kind, (#[trigger] seg_crop_spec(s, frame, kind)[k]).f),
{
    let ts = frame_crossings(s, frame, kind);
    let zero = Frac { num: 0, den: 1 };
    let pen = !is_outside(frame, kind, s.i);
    let both = is_inside(frame, kind, s.i) && is_inside(frame, kind, s.f);
    let w = seg_crop_spec(s, frame, kind);
    let rest = crop_walk(s, frame, kind, ts, s.i, zero, pen);
    assert(at_frac(s, zero) == s.i);
    lemma_crop_walk_in_order(s, frame, kind, ts, s.i, zero, pen);
    let head = if both { seq![s] } else { Seq::<Sg>::empty() };
    assert(w == head + rest);
    assert(walked_crop_pieces(s, frame, kind) =~= rest);
    if both {
        assert(w[0] == head[0]);
    }
    lemma_seg_crop_ends_not_outside(s, frame, kind);
}

/// Every fraction at which a segment crosses segments lies in [0, 1] and
/// has a positive denominator.
pub proof fn lemma_crossing_fracs_wf(s: Sg, fs: Seq<Sg>, n: int)
    requires
        0 <= n <= fs.len(),
    ensures
        forall|i: int| 0 <= i < crossing_fracs(s, fs, n).len() ==> (#[trigger] crossing_fracs(s, fs, n)[i]).wf(),
    decreases n,
{
    if n > 0 {
        lemma_crossing_fracs_wf(s, fs, n - 1);
        crate::sg::lemma_crossing_wf(s, fs[n - 1]);
        let prev = crossing_fracs(s, fs, n - 1);
        let c = crossing_fracs(s, fs, n);
        assert forall|i: int| 0 <= i < c.len() implies (#[trigger] c[i]).wf() by {
            if i < prev.len() {
                assert(c[i] == prev[i]);
            }
        }
    }
}

/// There is one first smallest fraction beyond `ct`.
pub proof fn lemma_next_frac_unique(ts: Seq<Frac>, ct: Frac, n: int, j1: int, j2: int)
    requires
        all_positive_dens(ts),
        n <= ts.len(),
        is_next_frac(ts, ct, n, j1),
        is_next_frac(ts, ct, n, j2),
    ensures
        j1 == j2,
{
    if j1 < j2 {
        assert(ts[j1].den > 0 && ts[j2].den > 0);
        assert(ts[j2].lt_value(ts[j1]));
        assert(ts[j1].le_value(ts[j2]));
    } else if j2 < j1 {
        assert(ts[j1].den > 0 && ts[j2].den > 0);
        assert(ts[j1].lt_value(ts[j2]));
        assert(ts[j2].le_value(ts[j1]));
    }
}

/// Cropping a segment keeps the stretch from its start to its first
/// crossing with the frame when the start is not outside the frame (inside
/// it or on its border): the first piece walked runs from the start of the
/// segment to the point at the first crossing fraction `ts[j]`, provided
/// that point, rounded onto the lattice, is not outside the frame and is not
/// the start itself.
pub proof fn lemma_seg_crop_keeps_first_stretch(s: Sg, frame: Seq<Pt>, kind: PolygonKind, j: int)
    requires
        !is_outside(frame, kind, s.i),
        s.i != s.f,
        is_next_frac(frame_crossings(s, frame, kind), Frac { num: 0, den: 1 }, frame_crossings(s, frame, kind).len() as int, j),
        at_frac(s, frame_crossings(s, frame, kind)[j]) != s.i,
        !is_outside(frame, kind, at_frac(s, frame_crossings(s, frame, kind)[j])),
    ensures
        walked_crop_pieces(s, frame, kind).len() >= 1,
        walked_crop_pieces(s, frame, kind)[0] == (Sg { i: s.i, f: at_frac(s, frame_crossings(s, frame, kind)[j]) }),
{
    let fs0 = segs_of(frame, kind);
    let ts = frame_crossings(s, frame, kind);
    let zero = Frac { num: 0, den: 1 };
    lemma_crossing_fracs_wf(s, fs0, fs0.len() as int);
    assert(all_positive_dens(ts));
    assert(has_frac_after(ts, zero, ts.len() as int));
    lemma_next_frac_exists(ts, zero, ts.len() as int);
    let c = next_frac_index(ts, zero);
    lemma_next_frac_unique(ts, zero, ts.len() as int, c, j);
    let np = at_frac(s, ts[j]);
    let w = crop_walk(s, frame, kind, ts, s.i, zero, true);
    assert(w == seq![Sg { i: s.i, f: np }] + crop_walk(s, frame, kind, ts, np, ts[j], false));
    assert(w[0] == Sg { i: s.i, f: np });
    let both = is_inside(frame, kind, s.i) && is_inside(frame, kind, s.f);
    let head = if both { seq![s] } else { Seq::<Sg>::empty() };
    assert(seg_crop_spec(s, frame, kind) == head + w);
    assert(walked_crop_pieces(s, frame, kind) =~= w);
}

} // verus!
