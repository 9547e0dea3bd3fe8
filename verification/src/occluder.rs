//! Layering flat figures front to back: each figure laid is cut by the
//! figures already laid in front of it.

use vstd::prelude::*;
use crate::sg::Sg;
use crate::pg::Pg;
use crate::crop::CropType;
use crate::crop_graph::{CropError, crop_outcome, same_polygon, none_outside, lemma_exclusive_crop_of_held_polygon, lemma_exclusive_crop_cavity_only_when_held};
use crate::pg::{PolygonKind, any_pair_meets, segs_of};

verus! {

/// A flat figure that can be layered: a polygon or a segment.
#[derive(Debug, Clone)]
pub enum Obj2 {
    /// A polygon.
    Polygon(Pg),
    /// A segment.
    Segment(Sg),
}

/// Hiding `x` behind `e` gives the figures `out`: for a polygon behind a
/// polygon, one polygon figure for each piece that the exclusive crop gives,
/// in order; behind a segment, `x` itself.
pub open spec fn hide_gives(x: Obj2, e: Obj2, out: Seq<Obj2>) -> bool {
    match (x, e) {
        (Obj2::Polygon(a), Obj2::Polygon(b)) => exists|v: Vec<Pg>|
            #[trigger] crop_outcome(a, b, CropType::Exclusive, Ok::<Vec<Pg>, CropError>(v)) && out.len() == v@.len()
            && forall|i: int| 0 <= i < v@.len() ==> out[i] == Obj2::Polygon(#[trigger] v@[i]),
        (_, Obj2::Segment(_)) => out == seq![x],
        _ => false,
    }
}

/// Hiding `x` behind `e` fails with `err`: the exclusive crop of a polygon
/// behind a polygon fails with it.
pub open spec fn hide_fails(x: Obj2, e: Obj2, err: CropError) -> bool {
    match (x, e) {
        (Obj2::Polygon(a), Obj2::Polygon(b)) => crop_outcome(a, b, CropType::Exclusive, Err::<Vec<Pg>, CropError>(err)),
        _ => false,
    }
}

/// Hiding `x` behind `e` is defined: a segment cannot be hidden behind a
/// polygon.
pub open spec fn can_hide(x: Obj2, e: Obj2) -> bool {
    !(x is Segment && e is Polygon)
}

/// Hides `incoming` behind `existing`: a polygon behind a polygon keeps the
/// parts outside it; anything behind a segment stays whole.
pub fn hide_a_behind_b(incoming: Obj2, existing: &Obj2) -> (r: Result<Vec<Obj2>, CropError>)
    requires
        can_hide(incoming, *existing),
    ensures
        r matches Ok(u) ==> hide_gives(incoming, *existing, u@),
        r matches Err(err) ==> hide_fails(incoming, *existing, err),
{
    let ghost x0 = incoming;
    match existing {
        Obj2::Segment(_) => {
            let ghost x = incoming;
            let mut v: Vec<Obj2> = Vec::new();
            v.push(incoming);
            proof {
                assert(v@ =~= seq![x]);
            }
            Ok(v)
        },
        Obj2::Polygon(b) => {
            let a = match incoming {
                Obj2::Polygon(a) => a,
                Obj2::Segment(_) => {
                    proof {
                        assert(false);
                    }
                    return Err(CropError::CavityNotSupported);
                },
            };
            let q = a.crop_excluding(b);
            let ghost q0 = q;
            proof {
                assert(x0 == Obj2::Polygon(a));
            }
            match q {
                Err(e) => Err(e),
                Ok(v) => {
                    let ghost vs = v@;
                    let mut u: Vec<Obj2> = Vec::new();
                    let mut v = v;
                    let mut k: usize = 0;
                    let n = v.len();
                    proof {
                        assert(vs.subrange(0, vs.len() as int) =~= vs);
                    }
                    while v.len() > 0
                        invariant
                            k + v@.len() == vs.len(),
                            vs.len() == n,
                            v@ == vs.subrange(k as int, vs.len() as int),
                            u@.len() == k,
                            forall|i: int| 0 <= i < k ==> u@[i] == Obj2::Polygon(#[trigger] vs[i]),
                        decreases v@.len(),
                    {
                        let p = v.remove(0);
                        proof {
                            assert(p == vs[k as int]);
                        }
                        u.push(Obj2::Polygon(p));
                        k = k + 1;
                        proof {
                            assert(v@ =~= vs.subrange(k as int, vs.len() as int));
                        }
                    }
                    proof {
                        let v0 = q0->Ok_0;
                        assert(v0@ == vs);
                        assert(crop_outcome(a, *b, CropType::Exclusive, Ok::<Vec<Pg>, CropError>(v0)));
                    }
                    Ok(u)
                },
            }
        },
    }
}

/// The figures of the lists `parts`, one list after another.
pub open spec fn flat(parts: Seq<Seq<Obj2>>) -> Seq<Obj2>
    decreases parts.len(),
{
    if parts.len() == 0 {
        Seq::empty()
    } else {
        flat(parts.drop_last()) + parts.last()
    }
}

/// Round `j` of layering: hiding each figure of `stages[j]` behind `es[j]`
/// gives the list `partss[j][i]`; together, in order, they make
/// `stages[j + 1]`.
pub open spec fn stage_ok(es: Seq<Obj2>, stages: Seq<Seq<Obj2>>, partss: Seq<Seq<Seq<Obj2>>>, j: int) -> bool {
    &&& partss[j].len() == stages[j].len()
    &&& forall|i: int| 0 <= i < stages[j].len() ==> hide_gives(#[trigger] stages[j][i], es[j], partss[j][i])
    &&& stages[j + 1] == flat(partss[j])
}

/// Laying `x` behind the figures `es`, front first, leaves the figures
/// `stages[es.len()]`: `x` is hidden behind each figure in turn, what is
/// left of it after the first `j` being `stages[j]`.
pub open spec fn layered(x: Obj2, es: Seq<Obj2>, stages: Seq<Seq<Obj2>>, partss: Seq<Seq<Seq<Obj2>>>) -> bool {
    &&& stages.len() == es.len() + 1
    &&& partss.len() == es.len()
    &&& stages[0] == seq![x]
    &&& forall|j: int| 0 <= j < es.len() ==> #[trigger] stage_ok(es, stages, partss, j)
}

/// The figures of the layered objects, front first.
pub open spec fn figures_of<S>(objs: Seq<(Obj2, S)>) -> Seq<Obj2> {
    objs.map_values(|o: (Obj2, S)| o.0)
}

/// Layers figures, each with a style, front to back, cutting from each what
/// the figures already laid in front of it cover.
#[derive(Debug, Clone)]
pub struct Occluder<S> {
    /// The figures laid so far, front first, with their styles.
    pub objects: Vec<(Obj2, S)>,
}

impl<S: Copy> Occluder<S> {
    /// An occluder with nothing laid.
    pub fn new() -> (r: Occluder<S>)
        ensures
            r.objects@.len() == 0,
    {
        Occluder { objects: Vec::new() }
    }

    /// Lays `incoming` behind the figures laid so far: it is hidden behind
    /// each in turn, front first, and what is left of it is laid, in its
    /// style. A segment cannot be hidden behind a polygon. When a crop
    /// fails, nothing is laid.
    pub fn add(&mut self, incoming: (Obj2, S)) -> (r: Result<(), CropError>)
        requires
            incoming.0 is Segment ==> forall|j: int| 0 <= j < old(self).objects@.len() ==> (#[trigger] old(self).objects@[j]).0 is Segment,
        ensures
            r is Ok ==> exists|stages: Seq<Seq<Obj2>>, partss: Seq<Seq<Seq<Obj2>>>|
                #[trigger] layered(incoming.0, figures_of(old(self).objects@), stages, partss)
                && final(self).objects@ == old(self).objects@ + stages[stages.len() - 1].map_values(|o: Obj2| (o, incoming.1)),
            r matches Err(err) ==> final(self).objects@ == old(self).objects@ && exists|j: int, x: Obj2|
                0 <= j < old(self).objects@.len() && #[trigger] hide_fails(x, old(self).objects@[j].0, err),
    {
        let ghost es = figures_of(self.objects@);
        let ghost x0 = incoming.0;
        let (obj, style) = incoming;
        let mut pieces: Vec<Obj2> = Vec::new();
        pieces.push(obj);
        let ghost mut stages: Seq<Seq<Obj2>> = seq![seq![x0]];
        let ghost mut partss: Seq<Seq<Seq<Obj2>>> = Seq::empty();
        proof {
            assert(pieces@ =~= seq![x0]);
        }
        let mut j: usize = 0;
        while j < self.objects.len()
            invariant
                j <= self.objects@.len(),
                self.objects@ == old(self).objects@,
                es == figures_of(self.objects@),
                es.len() == self.objects@.len(),
                x0 is Segment ==> forall|k: int| 0 <= k < old(self).objects@.len() ==> (#[trigger] old(self).objects@[k]).0 is Segment,
                x0 is Polygon ==> forall|k: int| 0 <= k < pieces@.len() ==> (#[trigger] pieces@[k]) is Polygon,
                x0 is Segment ==> pieces@ == seq![x0],
                stages.len() == j + 1,
                partss.len() == j,
                stages[0] == seq![x0],
                stages[j as int] == pieces@,
                forall|jj: int| 0 <= jj < j ==> #[trigger] stage_ok(es, stages, partss, jj),
            decreases self.objects@.len() - j,
        {
            let ghost stage = pieces@;
            let mut next: Vec<Obj2> = Vec::new();
            let ghost mut parts: Seq<Seq<Obj2>> = Seq::empty();
            let mut done: usize = 0;
            let n = pieces.len();
            proof {
                assert(stage.subrange(0, stage.len() as int) =~= stage);
                assert(es[j as int] == self.objects@[j as int].0);
            }
            while pieces.len() > 0
                invariant
                    j < self.objects@.len(),
                    self.objects@ == old(self).objects@,
                    es == figures_of(self.objects@),
                    es.len() == self.objects@.len(),
                    es[j as int] == self.objects@[j as int].0,
                    n == stage.len(),
                    done + pieces@.len() == n,
                    pieces@ == stage.subrange(done as int, n as int),
                    parts.len() == done,
                    next@ == flat(parts),
                    forall|i: int| 0 <= i < done ==> hide_gives(#[trigger] stage[i], es[j as int], parts[i]),
                    x0 is Segment ==> forall|k: int| 0 <= k < old(self).objects@.len() ==> (#[trigger] old(self).objects@[k]).0 is Segment,
                    x0 is Polygon ==> forall|k: int| 0 <= k < stage.len() ==> (#[trigger] stage[k]) is Polygon,
                    x0 is Polygon ==> forall|k: int| 0 <= k < next@.len() ==> (#[trigger] next@[k]) is Polygon,
                    x0 is Segment ==> stage == seq![x0],
                    x0 is Segment ==> next@ == stage.subrange(0, done as int),
                decreases pieces@.len(),
            {
                let p = pieces.remove(0);
                proof {
                    assert(p == stage[done as int]);
                    if x0 is Segment {
                        assert(self.objects@[j as int].0 is Segment);
                    }
                }
                match hide_a_behind_b(p, &self.objects[j].0) {
                    Err(e) => {
                        proof {
                            assert(hide_fails(p, old(self).objects@[j as int].0, e));
                        }
                        return Err(e);
                    },
                    Ok(u) => {
                        let ghost uu = u@;
                        let ghost next_before = next@;
                        let mut u = u;
                        next.append(&mut u);
                        proof {
                            let parts0 = parts;
                            parts = parts.push(uu);
                            assert(parts.drop_last() =~= parts0);
                            assert(next@ == flat(parts));
                            if x0 is Polygon {
                                let a = p->Polygon_0;
                                match self.objects@[j as int].0 {
                                    Obj2::Polygon(b) => {
                                        let v = choose|v: Vec<Pg>| #[trigger] crop_outcome(a, b, CropType::Exclusive, Ok::<Vec<Pg>, CropError>(v))
                                            && uu.len() == v@.len() && forall|i: int| 0 <= i < v@.len() ==> uu[i] == Obj2::Polygon(#[trigger] v@[i]);
                                        assert forall|k: int| 0 <= k < next@.len() implies (#[trigger] next@[k]) is Polygon by {
                                            if k >= next_before.len() {
                                                assert(next@[k] == uu[k - next_before.len()]);
                                                assert(uu[k - next_before.len()] == Obj2::Polygon(v@[k - next_before.len()]));
                                            } else {
                                                assert(next@[k] == next_before[k]);
                                            }
                                        }
                                    },
                                    Obj2::Segment(_) => {
                                        assert(uu == seq![p]);
                                        assert forall|k: int| 0 <= k < next@.len() implies (#[trigger] next@[k]) is Polygon by {
                                            if k >= next_before.len() {
                                                assert(next@[k] == uu[k - next_before.len()]);
                                            } else {
                                                assert(next@[k] == next_before[k]);
                                            }
                                        }
                                    },
                                }
                            } else {
                                assert(uu == seq![p]);
                                assert(next@ =~= stage.subrange(0, done + 1));
                            }
                        }
                        done = done + 1;
                        proof {
                            assert(pieces@ =~= stage.subrange(done as int, n as int));
                        }
                    },
                }
            }
            proof {
                let stages0 = stages;
                let partss0 = partss;
                stages = stages.push(next@);
                partss = partss.push(parts);
                assert(stage_ok(es, stages, partss, j as int)) by {
                    assert(stages[j as int] == stage);
                    assert(partss[j as int] == parts);
                }
                assert forall|jj: int| 0 <= jj < j + 1 implies #[trigger] stage_ok(es, stages, partss, jj) by {
                    if jj < j {
                        assert(stage_ok(es, stages0, partss0, jj));
                        assert(stages[jj] == stages0[jj] && stages[jj + 1] == stages0[jj + 1] && partss[jj] == partss0[jj]);
                    }
                }
                if x0 is Segment {
                    assert(next@ =~= stage);
                }
            }
            pieces = next;
            j = j + 1;
        }
        proof {
            assert(layered(x0, es, stages, partss));
        }
        let ghost objs0 = self.objects@;
        let ghost last = pieces@;
        let mut k: usize = 0;
        let n = pieces.len();
        proof {
            assert(last.subrange(0, n as int) =~= last);
            assert(objs0 + last.subrange(0, 0).map_values(|o: Obj2| (o, style)) =~= objs0);
        }
        while pieces.len() > 0
            invariant
                n == last.len(),
                k + pieces@.len() == n,
                pieces@ == last.subrange(k as int, n as int),
                self.objects@ == objs0 + last.subrange(0, k as int).map_values(|o: Obj2| (o, style)),
            decreases pieces@.len(),
        {
            let o = pieces.remove(0);
            proof {
                assert(o == last[k as int]);
            }
            self.objects.push((o, style));
            k = k + 1;
            proof {
                assert(pieces@ =~= last.subrange(k as int, n as int));
                assert(self.objects@ =~= objs0 + last.subrange(0, k as int).map_values(|o: Obj2| (o, style)));
            }
        }
        proof {
            assert(last.subrange(0, n as int) =~= last);
            assert(stages[stages.len() - 1] == last);
        }
        Ok(())
    }

    /// The figures laid, back first, ready to draw.
    pub fn export(self) -> (r: Vec<(Obj2, S)>)
        ensures
            r@ == self.objects@.reverse(),
    {
        let ghost orig = self.objects@;
        let mut objs = self.objects;
        let mut out: Vec<(Obj2, S)> = Vec::new();
        while objs.len() > 0
            invariant
                out@.len() + objs@.len() == orig.len(),
                objs@ == orig.subrange(0, objs@.len() as int),
                forall|i: int| 0 <= i < out@.len() ==> out@[i] == #[trigger] orig.reverse()[i],
            decreases objs@.len(),
        {
            let ghost before = objs@;
            match objs.pop() {
                Some(o) => {
                    proof {
                        assert(o == orig[before.len() - 1]);
                        assert(orig.reverse()[out@.len() as int] == orig[orig.len() - 1 - out@.len()]);
                    }
                    out.push(o);
                    proof {
                        assert(objs@ =~= orig.subrange(0, objs@.len() as int));
                    }
                },
                None => {},
            }
        }
        proof {
            assert(out@ =~= orig.reverse());
        }
        out
    }
}

/// A polygon laid behind a polygon that holds it is hidden whole: when
/// their edges do not meet, no point of `a` lies outside `b`, some point of
/// `b` lies outside `a` and they differ, hiding `a` behind `b` leaves
/// nothing.
pub proof fn lemma_hidden_whole_behind_holder(a: Pg, b: Pg, out: Seq<Obj2>)
    requires
        hide_gives(Obj2::Polygon(a), Obj2::Polygon(b), out),
        a.kind == PolygonKind::Closed,
        b.kind == PolygonKind::Closed,
        !same_polygon(a, b),
        !any_pair_meets(segs_of(a.pts@, a.kind), segs_of(b.pts@, b.kind)),
        none_outside(b.pts@, b.kind, a.pts@),
        !none_outside(a.pts@, a.kind, b.pts@),
    ensures
        out.len() == 0,
{
    let v = choose|v: Vec<Pg>| #[trigger] crop_outcome(a, b, CropType::Exclusive, Ok::<Vec<Pg>, CropError>(v))
        && out.len() == v@.len() && forall|i: int| 0 <= i < v@.len() ==> out[i] == Obj2::Polygon(#[trigger] v@[i]);
    lemma_exclusive_crop_of_held_polygon(a, b, Ok::<Vec<Pg>, CropError>(v));
}

/// Hiding a polygon behind another fails for want of cavities only where the
/// polygon behind holds the one in front, their edges not meeting.
pub proof fn lemma_hiding_needs_cavity_only_when_holding(a: Pg, b: Pg)
    requires
        hide_fails(Obj2::Polygon(a), Obj2::Polygon(b), CropError::CavityNotSupported),
    ensures
        !any_pair_meets(segs_of(a.pts@, a.kind), segs_of(b.pts@, b.kind)),
        none_outside(a.pts@, a.kind, b.pts@),
{
    lemma_exclusive_crop_cavity_only_when_held(a, b, Err::<Vec<Pg>, CropError>(CropError::CavityNotSupported));
}

/// Nothing hides behind segments: a figure laid behind figures that are all
/// segments is left whole, as the one figure `x`, after any number `j` of
/// them.
pub proof fn lemma_nothing_hides_behind_segments(x: Obj2, es: Seq<Obj2>, stages: Seq<Seq<Obj2>>, partss: Seq<Seq<Seq<Obj2>>>, j: int)
    requires
        layered(x, es, stages, partss),
        forall|k: int| 0 <= k < es.len() ==> (#[trigger] es[k]) is Segment,
        0 <= j <= es.len(),
    ensures
        stages[j] == seq![x],
    decreases j,
{
    if j > 0 {
        let i = j - 1;
        lemma_nothing_hides_behind_segments(x, es, stages, partss, i);
        assert(stage_ok(es, stages, partss, i));
        assert(stages[i][0] == x);
        assert(hide_gives(stages[i][0], es[i], partss[i][0]));
        assert(partss[i][0] == seq![x]);
        assert(partss[i] =~= seq![seq![x]]);
        assert(partss[i].drop_last() =~= Seq::<Seq<Obj2>>::empty());
        assert(flat(Seq::<Seq<Obj2>>::empty()) =~= Seq::<Obj2>::empty());
        assert(flat(partss[i]) == flat(partss[i].drop_last()) + partss[i].last());
        assert(flat(partss[i]) =~= seq![x]);
    }
}

} // verus!
