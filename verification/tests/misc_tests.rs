use plotz::pt::{Pt, Pt2, Point, UNIT, is_colinear_3, is_colinear_n, half_sum};
use plotz::sg::{Sg, Ry, _Orientation};
use plotz::frac::Frac;
use plotz::intersection::{Intersection, IntersectionResult, MultipleIntersections};
use plotz::utils::{Which, Pair};
use plotz::ml::{Ml, MlError};
use plotz::pg::{Pg, PolygonKind};
use plotz::pgc::{Pgc, PgcError};
use plotz::traits::Nullable;
use plotz::geometry3d::{Point3, Origin, Group, Occlusion, ObjType3d};
use plotz::physics::{Mobility, Visibility};
use plotz::crop::CropType;
use plotz::crop_graph::CropError;

fn p(x: f64, y: f64) -> Pt {
    Pt { x: (x * UNIT as f64).round() as i32, y: (y * UNIT as f64).round() as i32 }
}

fn frac(num: i128, den: i128) -> Frac {
    Frac::new(num, den).unwrap()
}

fn one_isxn(pt: Pt, a: (i128, i128), b: (i128, i128)) -> Option<IntersectionResult> {
    Some(IntersectionResult::OneIntersection(Intersection::new(pt, frac(a.0, a.1), frac(b.0, b.1)).unwrap()))
}

#[test]
fn segment_intersections_on_grid() {
    let a = p(0.0, 2.0);
    let b = p(1.0, 2.0);
    let c = p(2.0, 2.0);
    let e = p(1.0, 1.0);
    let g = p(0.0, 0.0);
    let i = p(2.0, 0.0);
    let multi = |m| Some(IntersectionResult::MultipleIntersections(m));

    assert_eq!(Sg(a, c).intersects(&Sg(a, c)), multi(MultipleIntersections::LineSegmentsAreTheSame));
    assert_eq!(Sg(a, c).intersects(&Sg(c, a)), multi(MultipleIntersections::LineSegmentsAreTheSameButReversed));
    assert_eq!(Sg(a, b).intersects(&Sg(b, c)), multi(MultipleIntersections::LineSegmentsAreColinear));
    assert_eq!(Sg(a, b).intersects(&Sg(c, b)), multi(MultipleIntersections::LineSegmentsAreColinear));
    assert_eq!(Sg(b, a).intersects(&Sg(b, c)), multi(MultipleIntersections::LineSegmentsAreColinear));
    assert_eq!(Sg(b, a).intersects(&Sg(c, b)), multi(MultipleIntersections::LineSegmentsAreColinear));

    assert_eq!(Sg(e, i).intersects(&Sg(c, g)), one_isxn(e, (0, 1), (1, 2)));
    assert_eq!(Sg(a, e).intersects(&Sg(c, g)), one_isxn(e, (1, 1), (1, 2)));
    assert_eq!(Sg(c, g).intersects(&Sg(e, i)), one_isxn(e, (1, 2), (0, 1)));
    assert_eq!(Sg(c, g).intersects(&Sg(a, e)), one_isxn(e, (1, 2), (1, 1)));

    assert_eq!(Sg(a, c).intersects(&Sg(c, i)), one_isxn(c, (1, 1), (0, 1)));
    assert_eq!(Sg(a, c).intersects(&Sg(i, c)), one_isxn(c, (1, 1), (1, 1)));
    assert_eq!(Sg(a, c).intersects(&Sg(g, a)), one_isxn(a, (0, 1), (1, 1)));
    assert_eq!(Sg(a, c).intersects(&Sg(a, g)), one_isxn(a, (0, 1), (0, 1)));

    assert_eq!(Sg(a, i).intersects(&Sg(c, g)), one_isxn(e, (1, 2), (1, 2)));
    // parallel segments apart never meet
    assert_eq!(Sg(a, c).intersects(&Sg(g, i)), None);
}

#[test]
fn intersecting_either_way_swaps_the_fractions() {
    let x = Sg(p(0.0, 0.0), p(4.0, 4.0));
    let y = Sg(p(0.0, 3.0), p(3.0, 0.0));
    match (x.intersects(&y), y.intersects(&x)) {
        (Some(IntersectionResult::OneIntersection(i)), Some(IntersectionResult::OneIntersection(j))) => {
            assert_eq!(i.pt, j.pt);
            assert_eq!(i.percent_along_a(), j.percent_along_b());
            assert_eq!(i.percent_along_b(), j.percent_along_a());
            assert_eq!(i.flip_pcts(), j);
            assert_eq!(i.percent_along(Which::A), i.percent_along_a());
            assert_eq!(i.pt, p(1.5, 1.5));
        }
        other => panic!("expected one crossing each way, got {:?}", other),
    }
}

#[test]
fn segment_helpers() {
    let s = Sg(p(0.0, 0.0), p(2.0, 2.0));
    assert_eq!(s.flip(), Sg(p(2.0, 2.0), p(0.0, 0.0)));
    assert_eq!(s.midpoint(), p(1.0, 1.0));
    assert_eq!(Sg(p(0.0, 0.0), Pt { x: 1, y: 1 }).midpoint(), Pt { x: 0, y: 0 });
    let r = s.ray_perpendicular();
    assert_eq!(r, Ry { pt: p(1.0, 1.0), dx: -2000, dy: 2000 });
    let (r0, r1) = s.rays_perpendicular_both();
    assert_eq!(r1, r);
    assert_eq!(r0, Ry { pt: p(1.0, 1.0), dx: 2000, dy: -2000 });
    assert_eq!(s._ccw(&p(0.0, 1.0)), _Orientation::_Clockwise);
    assert_eq!(s._ccw(&p(1.0, 0.0)), _Orientation::_CounterClockwise);
    assert_eq!(s._ccw(&p(3.0, 3.0)), _Orientation::_Colinear);
    assert!(s.slope_eq(&Sg(p(5.0, 5.0), p(6.0, 6.0))));
    assert!(s.slope_eq(&Sg(p(6.0, 6.0), p(5.0, 5.0))));
    assert!(!s.slope_eq(&Sg(p(0.0, 0.0), p(1.0, 2.0))));
    assert_eq!(s.cross_z(&Sg(p(0.0, 0.0), p(1.0, 0.0))), -2 * (UNIT as i128) * (UNIT as i128));
}

#[test]
fn segments_join_end_to_end() {
    let a = Sg(p(0.0, 0.0), p(1.0, 0.0));
    let b = Sg(p(1.0, 0.0), p(3.0, 0.0));
    assert_eq!(a.try_add(&b), Some(Sg(p(0.0, 0.0), p(3.0, 0.0))));
    // overlapping pieces are not merged
    let c = Sg(p(1.0, 0.0), p(0.5, 0.0));
    assert_eq!(a.try_add(&c), None);
    // not parallel
    let d = Sg(p(1.0, 0.0), p(1.0, 1.0));
    assert_eq!(a.try_add(&d), None);
    // tail to tail
    let e = Sg(p(2.0, 0.0), p(1.0, 0.0));
    assert_eq!(a.try_add(&e), Some(Sg(p(0.0, 0.0), p(2.0, 0.0))));
}

#[test]
fn segment_crop_pieces_end_inside() {
    let frame = Pg(vec![p(0.0, 0.0), p(4.0, 0.0), p(4.0, 4.0), p(0.0, 4.0)]).unwrap();
    let s = Sg(p(-1.0, 2.0), p(5.0, 2.0));
    let pieces = s.crop(&frame, CropType::Inclusive);
    assert_eq!(pieces, vec![Sg(p(0.0, 2.0), p(4.0, 2.0))]);
    for piece in &pieces {
        assert!(!frame.point_is_outside(&piece.f));
    }
    // a segment wholly inside is kept whole
    let inner = Sg(p(1.0, 1.0), p(3.0, 3.0));
    assert_eq!(inner.crop_to(&frame), vec![inner]);
}

#[test]
fn fractions() {
    assert_eq!(Frac::new(1, 2), Some(Frac { num: 1, den: 2 }));
    assert_eq!(Frac::new(-1, -2), Some(Frac { num: 1, den: 2 }));
    assert_eq!(Frac::new(3, 2), None);
    assert_eq!(Frac::new(1, 0), None);
    assert_eq!(frac(1, 2), frac(2, 4));
    assert_ne!(frac(1, 2), frac(1, 3));
    assert!(frac(1, 3).lt(&frac(1, 2)));
    assert!(frac(1, 2).le(&frac(2, 4)));
    assert_eq!(frac(1, 3).compare(&frac(1, 2)), -1);
    assert_eq!(frac(2, 3).compare(&frac(1, 2)), 1);
    assert!(Frac::zero().is_at_boundary());
    assert!(Frac::one().is_at_boundary());
    assert!(!frac(1, 2).is_at_boundary());
    assert!(Intersection::new(p(0.0, 0.0), Frac { num: 2, den: 1 }, Frac::one()).is_none());
}

#[test]
fn points() {
    let mut q = Pt(1, 2);
    assert_eq!(Pt2(1, 2), q);
    assert_eq!(Point(1, 2), q);
    q.add_assign(Pt(1, 1));
    assert_eq!(q, Pt(2, 3));
    q.sub_assign(Pt(2, 2));
    assert_eq!(q, Pt(0, 1));
    q.mul_assign(4);
    assert_eq!(q, Pt(0, 4));
    q.div_assign(3);
    assert_eq!(q, Pt(0, 1));
    q.flip_x();
    q.flip_y();
    assert_eq!(q, Pt(0, -1));
    assert_eq!(Pt(1, 2).dot(&Pt(3, 4)), 11);
    assert_eq!(Pt(1, 1).avg(&Pt(2, 2)), Pt(1, 1));
    assert_eq!(half_sum(-3, 0), -1);
    assert_eq!(Pt(-7, 7) / 2, Pt(-3, 3));
    assert_eq!(Pt(1, 2) + Pt(3, 4), Pt(4, 6));
    assert_eq!(Pt(1, 2) - Pt(3, 4), Pt(-2, -2));
    assert_eq!(Pt(1, 2) * 3, Pt(3, 6));
    assert!(is_colinear_3(Pt(0, 0), Pt(1, 1), Pt(5, 5)));
    assert!(!is_colinear_3(Pt(0, 0), Pt(1, 1), Pt(5, 4)));
    assert!(is_colinear_n(&vec![Pt(0, 0), Pt(1, 2), Pt(2, 4), Pt(-1, -2)]));
    assert!(!is_colinear_n(&vec![Pt(0, 0), Pt(1, 2)]));
}

#[test]
fn which_and_pair() {
    assert_eq!(Which::A.flip(), Which::B);
    assert_eq!(Which::B.flip(), Which::A);
    let x = 1;
    let y = 2;
    let pair = Pair { a: &x, b: &y };
    assert_eq!(*pair.get(Which::A), 1);
    assert_eq!(*pair.get(Which::B), 2);
}

#[test]
fn multilines() {
    assert_eq!(Ml::try_from_pts(vec![]).unwrap_err(), MlError::Empty);
    assert_eq!(Ml::try_from_pts(vec![p(0.0, 0.0), p(1.0, 0.0), p(0.0, 0.0)]).unwrap_err(), MlError::Cycle);
    let m = Ml::try_from_pts(vec![p(0.0, 0.0), p(1.0, 0.0), p(1.0, 1.0)]).unwrap();
    assert_eq!(m, Ml(vec![p(0.0, 0.0), p(1.0, 0.0), p(1.0, 1.0)]));
    assert_eq!(m.to_segments(), vec![Sg(p(0.0, 0.0), p(1.0, 0.0)), Sg(p(1.0, 0.0), p(1.0, 1.0))]);

    assert_eq!(Ml::try_from_sgs(vec![]).unwrap_err(), MlError::Empty);
    assert_eq!(
        Ml::try_from_sgs(vec![Sg(p(0.0, 0.0), p(1.0, 0.0)), Sg(p(1.0, 0.0), p(0.0, 0.0))]).unwrap_err(),
        MlError::Cycle
    );
    assert_eq!(
        Ml::try_from_sgs(vec![Sg(p(0.0, 0.0), p(1.0, 0.0)), Sg(p(2.0, 0.0), p(3.0, 0.0))]).unwrap_err(),
        MlError::NotAChain
    );
    let chained = Ml::try_from_sgs(m.to_segments()).unwrap();
    assert_eq!(chained, m);

    let other = Ml(vec![p(0.5, -1.0), p(0.5, 1.0)]);
    assert!(m.intersects(&other));
    assert_eq!(m.intersects_detailed(&other).len(), 1);
    assert!(m.intersects_segment(&Sg(p(0.5, -1.0), p(0.5, 1.0))));
    assert_eq!(m.intersects_segment_detailed(&Sg(p(5.0, -1.0), p(5.0, 1.0))), vec![]);
    let b = m.bounds().unwrap();
    assert_eq!((b.l(), b.r(), b.b(), b.t()), (0, UNIT, 0, UNIT));
    assert!(!Nullable::is_empty(&m));
    let moved = m.clone() + p(1.0, 1.0);
    assert_eq!(moved.clone() - p(1.0, 1.0), m);
    assert_eq!((m.clone() * 2) / 2, m);
    let mut n = m.clone();
    n.add_assign(p(1.0, 0.0));
    n.sub_assign(p(1.0, 0.0));
    n.mul_assign(3);
    n.div_assign(3);
    assert_eq!(n, m);
    let collected: Vec<Pt> = m.clone().into_iter().collect();
    assert_eq!(collected, m.pts);
    assert_eq!(m.iter().count(), 3);
}

#[test]
fn polygons_with_cavities() {
    let outer = Pg(vec![p(0.0, 0.0), p(4.0, 0.0), p(4.0, 4.0), p(0.0, 4.0)]).unwrap();
    let hole = Pg(vec![p(1.0, 1.0), p(2.0, 1.0), p(2.0, 2.0)]).unwrap();
    let far = Pg(vec![p(5.0, 5.0), p(6.0, 5.0), p(6.0, 6.0)]).unwrap();
    assert_eq!(Pgc(outer.clone(), vec![far]).unwrap_err(), PgcError::InnerPointOutside);
    let pgc = Pgc(outer.clone(), vec![hole.clone()]).unwrap();
    assert_eq!(pgc.iter().len(), 7);
    assert_eq!(pgc.iter()[4], hole.pts[0]);
    assert!(!pgc.is_empty());
    assert_eq!(pgc.bounds(), outer.bounds());
    assert_eq!(pgc.objtype(), plotz::pg::ObjType::PolygonWithCavities);
}

#[test]
fn orientation_turns_around_when_reversed() {
    let mut q = Pg(vec![p(0.0, 0.0), p(1.0, 0.0), p(1.0, 1.0)]).unwrap();
    let before = q.get_curve_orientation();
    q.pts.reverse();
    let after = q.get_curve_orientation();
    assert_ne!(before, after);
    assert!(before.is_some() && after.is_some());
}

#[test]
fn equality_ignores_rotation_with_unique_greatest_point() {
    let pts = vec![p(0.0, 0.0), p(3.0, 0.0), p(3.0, 1.0), p(0.0, 2.0)];
    let base = Pg { pts: pts.clone(), kind: PolygonKind::Closed };
    for j in 0..pts.len() {
        let mut rotated = pts[j..].to_vec();
        rotated.extend_from_slice(&pts[..j]);
        assert_eq!(Pg { pts: rotated, kind: PolygonKind::Closed }, base);
    }
}

#[test]
fn translating_and_scaling_round_trip() {
    let q = Pg(vec![p(0.0, 0.0), p(1.0, 0.0), p(1.0, 1.0)]).unwrap();
    assert_eq!((q.clone() + p(2.0, 3.0)) - p(2.0, 3.0), q);
    assert_eq!((q.clone() * -3) / -3, q);
    let mut r = q.clone();
    r.mul_assign(2);
    assert_eq!(r, q.clone() * 2);
    r.div_assign(2);
    assert_eq!(r, q);
}

#[test]
fn three_d_and_physics() {
    assert_eq!(Point3(1, 2, 3), Point3 { x: 1, y: 2, z: 3 });
    assert_eq!(Origin(), Point3(0, 0, 0));
    let g = Group(vec![Point3(1, 1, 1), Origin()]);
    assert_eq!(g.items.len(), 2);
    assert_eq!(Occlusion::default(), Occlusion::True);
    assert_ne!(ObjType3d::Point3d, ObjType3d::Group3d);
    assert_ne!(Mobility::Fixed, Mobility::Mobile);
    assert_ne!(Visibility::Visible, Visibility::Invisible);
}

#[test]
fn polygons_meet_either_way() {
    let x = Pg(vec![p(0.0, 0.0), p(2.0, 0.0), p(2.0, 2.0)]).unwrap();
    let y = Pg(vec![p(1.0, -1.0), p(3.0, -1.0), p(1.0, 1.0)]).unwrap();
    let z = Pg(vec![p(5.0, 5.0), p(6.0, 5.0), p(6.0, 6.0)]).unwrap();
    assert!(x.intersects(&y) && y.intersects(&x));
    assert!(!x.intersects(&z) && !z.intersects(&x));
}

#[test]
fn crops_need_closed_polygons() {
    let open = plotz::pg::Multiline(vec![p(0.0, 0.0), p(1.0, 0.0), p(1.0, 1.0)]).unwrap();
    let closed = Pg(vec![p(0.0, 0.0), p(4.0, 0.0), p(4.0, 4.0)]).unwrap();
    assert_eq!(open.crop_to(&closed), Err(CropError::ThisPolygonNotClosed));
    assert_eq!(closed.crop_to(&open), Err(CropError::ThatPolygonNotClosed));
}

#[test]
fn particles_report_mobility_and_visibility() {
    assert!(plotz::physics::is_fixed(Mobility::Fixed));
    assert!(!plotz::physics::is_fixed(Mobility::Mobile));
    assert!(plotz::physics::is_visible(Visibility::Visible));
    assert!(!plotz::physics::is_visible(Visibility::Invisible));
}
