use plotz::pg::{RatPt, Pg, PointLoc, CurveOrientation, PolygonConstructorError, PolygonKind, Multiline, MultilineConstructorError, Rect, ObjType};
use plotz::pt::{Pt, UNIT};
use plotz::sg::Sg;
use plotz::crop_graph::CropError;

/// The point of the plane at (x, y) in plotting units, on the lattice of `Pt`.
fn p(x: f64, y: f64) -> Pt {
    Pt { x: (x * UNIT as f64).round() as i32, y: (y * UNIT as f64).round() as i32 }
}

fn pg(v: &[(f64, f64)]) -> Pg {
    Pg(v.iter().map(|&(x, y)| p(x, y)).collect()).unwrap()
}

fn sg(a: (f64, f64), b: (f64, f64)) -> Sg {
    Sg(p(a.0, a.1), p(b.0, b.1))
}

#[test]
fn mod_test_polygon_to_segments() {
    assert!(Pg(vec![p(0.0, 0.0), p(0.0, 1.0)]).is_err());

    assert_eq!(
        pg(&[(0.0, 0.0), (0.0, 1.0), (0.0, 2.0)]).to_segments(),
        vec![sg((0.0, 0.0), (0.0, 1.0)), sg((0.0, 1.0), (0.0, 2.0)), sg((0.0, 2.0), (0.0, 0.0))]
    );

    assert_eq!(
        pg(&[(0.0, 0.0), (0.0, 1.0), (0.0, 2.0), (0.0, 3.0)]).to_segments(),
        vec![
            sg((0.0, 0.0), (0.0, 1.0)),
            sg((0.0, 1.0), (0.0, 2.0)),
            sg((0.0, 2.0), (0.0, 3.0)),
            sg((0.0, 3.0), (0.0, 0.0)),
        ]
    );
}

#[test]
fn mod_test_intersects() {
    let a = p(0.0, 2.0);
    let b = p(1.0, 2.0);
    let c = p(2.0, 2.0);
    let d = p(0.0, 1.0);
    let e = p(1.0, 1.0);
    let f = p(2.0, 1.0);
    let g = p(0.0, 0.0);
    let h = p(1.0, 0.0);
    let i = p(2.0, 0.0);
    let mk = |v: Vec<Pt>| Pg(v).unwrap();

    // Positive area intersection.
    assert!(mk(vec![a, c, i, g]).intersects(&mk(vec![b, f, h, d])));
    assert!(mk(vec![a, c, i, g]).intersects(&mk(vec![a, b, e, d])));
    assert!(mk(vec![a, c, i, g]).intersects(&mk(vec![e, f, i, h])));

    // Shares a corner.
    assert!(mk(vec![a, b, e, d]).intersects(&mk(vec![e, f, i, h])));
    assert!(mk(vec![a, b, e, d]).intersects(&mk(vec![b, c, f, e])));

    // No intersection.
    assert!(!mk(vec![a, b, d]).intersects(&mk(vec![e, f, h])));
    assert!(!mk(vec![a, b, d]).intersects(&mk(vec![f, h, i])));
}

#[test]
fn mod_test_crop_to_polygon_inner_equals_frame() {
    let inner = pg(&[(1.0, 1.0), (3.0, 1.0), (3.0, 3.0), (1.0, 3.0)]);
    let frame = pg(&[(1.0, 1.0), (3.0, 1.0), (3.0, 3.0), (1.0, 3.0)]);
    assert_eq!(inner, frame);
    let crops = inner.crop_to(&frame).unwrap();
    assert_eq!(crops, vec![inner]);
}

#[test]
fn mod_test_crop_to_polygon_inner_colinear_to_frame() {
    let inner = pg(&[(1.0, 1.0), (3.0, 1.0), (3.0, 3.0), (1.0, 3.0)]);
    let frame = pg(&[(0.0, 0.0), (3.0, 0.0), (3.0, 3.0), (0.0, 3.0)]);
    assert_eq!(inner.crop_to(&frame).unwrap()[0], inner);
    assert_eq!(inner.crop_to(&(frame.clone() + p(1.0, 0.0))).unwrap()[0], inner);
    assert_eq!(inner.crop_to(&(frame.clone() + p(0.0, 1.0))).unwrap()[0], inner);
    assert_eq!(inner.crop_to(&(frame.clone() + p(1.0, 1.0))).unwrap()[0], inner);
}

#[test]
fn mod_test_crop_to_polygon_inner_totally_within_frame() {
    let inner = pg(&[(1.0, 1.0), (3.0, 1.0), (3.0, 3.0), (1.0, 3.0)]);
    let frame = pg(&[(0.0, 0.0), (4.0, 0.0), (4.0, 4.0), (0.0, 4.0)]);
    let crops = inner.crop_to(&frame).unwrap();
    assert_eq!(crops, vec![inner.clone()]);
}

#[test]
fn mod_test_crop_to_polygon_two_pivots() {
    let inner = pg(&[(1.0, 1.0), (4.0, 1.0), (4.0, 4.0), (1.0, 4.0)]);
    let frame = pg(&[(0.0, 0.0), (3.0, 0.0), (3.0, 3.0), (0.0, 3.0)]);
    let expected = pg(&[(1.0, 1.0), (3.0, 1.0), (3.0, 3.0), (1.0, 3.0)]);
    let crops = inner.crop_to(&frame).unwrap();
    assert_eq!(crops, vec![expected.clone()]);
}

#[test]
fn mod_test_crop_to_polygon_two_pivots_02() {
    let inner = pg(&[(1.0, 0.0), (4.0, 0.0), (4.0, 3.0), (1.0, 3.0)]);
    let frame = pg(&[(0.0, 1.0), (3.0, 1.0), (3.0, 4.0), (0.0, 4.0)]);
    let expected = pg(&[(1.0, 1.0), (3.0, 1.0), (3.0, 3.0), (1.0, 3.0)]);
    let crops = inner.crop_to(&frame).unwrap();
    assert_eq!(crops, vec![expected.clone()]);
}

#[test]
fn mod_test_crop_to_polygon_many_pivots_01() {
    let inner = pg(&[
        (1.0, 0.0),
        (2.0, 0.0),
        (2.0, 2.0),
        (3.0, 2.0),
        (3.0, 0.0),
        (4.0, 0.0),
        (4.0, 5.0),
        (3.0, 5.0),
        (3.0, 3.0),
        (2.0, 3.0),
        (2.0, 5.0),
        (1.0, 5.0),
    ]);
    let frame = pg(&[(0.0, 1.0), (5.0, 1.0), (5.0, 4.0), (0.0, 4.0)]);
    let expected = pg(&[
        (1.0, 1.0),
        (2.0, 1.0),
        (2.0, 2.0),
        (3.0, 2.0),
        (3.0, 1.0),
        (4.0, 1.0),
        (4.0, 4.0),
        (3.0, 4.0),
        (3.0, 3.0),
        (2.0, 3.0),
        (2.0, 4.0),
        (1.0, 4.0),
    ]);
    let crops = inner.crop_to(&frame).unwrap();
    assert_eq!(crops, vec![expected.clone()]);
}

#[test]
fn mod_test_crop_to_polygon_many_pivots_02() {
    let inner = pg(&[
        (1.0, 1.0),
        (2.0, 1.0),
        (2.0, 2.0),
        (3.0, 2.0),
        (3.0, 1.0),
        (4.0, 1.0),
        (4.0, 4.0),
        (3.0, 4.0),
        (3.0, 3.0),
        (2.0, 3.0),
        (2.0, 4.0),
        (1.0, 4.0),
    ]);
    let frame = pg(&[(0.0, 1.0), (5.0, 1.0), (5.0, 4.0), (0.0, 4.0)]);
    let expected = inner.clone();
    let crops = inner.crop_to(&frame).unwrap();
    assert_eq!(crops, vec![expected.clone()]);
}

#[test]
fn mod_test_crop_to_polygon_many_pivots_03() {
    let inner = pg(&[
        (1.0, 1.0),
        (2.0, 1.0),
        (2.0, 2.0),
        (3.0, 2.0),
        (3.0, 1.0),
        (4.0, 1.0),
        (4.0, 4.0),
        (3.0, 4.0),
        (3.0, 3.0),
        (2.0, 3.0),
        (2.0, 4.0),
        (1.0, 4.0),
    ]);
    let frame = pg(&[(1.0, 1.0), (4.0, 1.0), (4.0, 4.0), (1.0, 4.0)]);
    let expected = inner.clone();
    let crops = inner.crop_to(&frame).unwrap();
    assert_eq!(crops, vec![expected.clone()]);
}

#[test]
fn mod_test_add() {
    assert_eq!(
        pg(&[(0.0, 0.0), (1.0, 1.0), (2.0, 2.0)]) + p(1.0, 0.0),
        pg(&[(1.0, 0.0), (2.0, 1.0), (3.0, 2.0)])
    );
}

#[test]
fn mod_test_sub() {
    assert_eq!(
        pg(&[(0.0, 0.0), (1.0, 1.0), (2.0, 2.0)]) - p(1.0, 0.0),
        pg(&[(-1.0, 0.0), (0.0, 1.0), (1.0, 2.0)])
    );
}

#[test]
fn mod_test_bounded() {
    let h = p(1.0, 0.0);
    let f = p(2.0, 1.0);
    let b = p(1.0, 2.0);
    let d = p(0.0, 1.0);
    let poly = Pg(vec![h, f, b, d]).unwrap();
    let bounds = poly.bounds().unwrap();
    assert_eq!(bounds.t(), 2000);
    assert_eq!(bounds.b(), 0);
    assert_eq!(bounds.l(), 0);
    assert_eq!(bounds.r(), 2000);
    assert_eq!(bounds.tl(), p(0.0, 2.0));
    assert_eq!(bounds.bl(), p(0.0, 0.0));
    assert_eq!(bounds.tr(), p(2.0, 2.0));
    assert_eq!(bounds.br(), p(2.0, 0.0));
}

#[test]
fn mod_test_frame_to_segment_many_outputs() {
    let frame = pg(&[
        (0.0, 0.0),
        (1.0, 0.0),
        (1.0, 3.0),
        (2.0, 3.0),
        (2.0, 0.0),
        (5.0, 0.0),
        (5.0, 4.0),
        (4.0, 4.0),
        (4.0, 1.0),
        (3.0, 1.0),
        (3.0, 5.0),
        (0.0, 5.0),
    ]);
    let segment = sg((0.0, 2.0), (5.0, 2.0));
    assert_eq!(
        segment.crop_to(&frame),
        vec![sg((0.0, 2.0), (1.0, 2.0)), sg((2.0, 2.0), (3.0, 2.0)), sg((4.0, 2.0), (5.0, 2.0))]
    );
}

#[test]
fn mod_test_frame_to_segment_crop() {
    let frame = pg(&[(1.0, 0.0), (2.0, 1.0), (1.0, 2.0), (0.0, 1.0)]);
    assert_eq!(sg((0.0, 2.0), (2.0, 0.0)).crop_to(&frame), vec![sg((0.5, 1.5), (1.5, 0.5))]);
}

#[test]
fn mod_test_frame_to_segment_crop_02() {
    let frame = pg(&[(1.0, 0.0), (2.0, 1.0), (1.0, 2.0), (0.0, 1.0)]);
    assert_eq!(sg((0.0, 0.0), (2.0, 2.0)).crop_to(&frame), vec![sg((0.5, 0.5), (1.5, 1.5))]);
}

#[test]
fn mod_test_frame_to_segment_crop_empty() {
    let frame = pg(&[(1.0, 0.0), (2.0, 1.0), (1.0, 2.0), (0.0, 1.0)]);
    assert_eq!(sg((0.0, 2.0), (2.0, 2.0)).crop_to(&frame), vec![]);
}

#[test]
fn mod_test_frame_to_segment_crop_unchanged() {
    let frame = pg(&[(1.0, 0.0), (2.0, 1.0), (1.0, 2.0), (0.0, 1.0)]);
    assert_eq!(sg((0.0, 1.0), (2.0, 1.0)).crop_to(&frame), vec![sg((0.0, 1.0), (2.0, 1.0))]);
}

#[test]
fn mod_test_into_iter() {
    let frame = pg(&[(1.0, 0.0), (2.0, 1.0), (1.0, 2.0), (0.0, 1.0)]);
    let pts: Vec<Pt> = frame.into_iter().collect();
    assert_eq!(pts, vec![p(1.0, 0.0), p(2.0, 1.0), p(1.0, 2.0), p(0.0, 1.0)]);
}

#[test]
fn mod_test_iter() {
    let src = vec![p(1.0, 0.0), p(2.0, 1.0), p(1.0, 2.0), p(0.0, 1.0)];
    let frame = Pg(src.clone()).unwrap();
    for (idx, q) in frame.iter().enumerate() {
        assert_eq!(src[idx], *q);
    }
}

#[test]
fn contains_pt_on_grid() {
    let a = p(0.0, 2.0);
    let b = p(1.0, 2.0);
    let c = p(2.0, 2.0);
    let d = p(0.0, 1.0);
    let e = p(1.0, 1.0);
    let f = p(2.0, 1.0);
    let g = p(0.0, 0.0);
    let h = p(1.0, 0.0);
    let i = p(2.0, 0.0);

    let frame1 = Pg(vec![a, c, i, g]).unwrap();
    assert_eq!(frame1.contains_pt(&e), PointLoc::Inside);
    assert_eq!(frame1.contains_pt(&a), PointLoc::OnPoint(3));
    assert_eq!(frame1.contains_pt(&c), PointLoc::OnPoint(2));
    assert_eq!(frame1.contains_pt(&i), PointLoc::OnPoint(1));
    assert_eq!(frame1.contains_pt(&g), PointLoc::OnPoint(0));
    assert_eq!(frame1.contains_pt(&d), PointLoc::OnSegment(3));
    assert_eq!(frame1.contains_pt(&b), PointLoc::OnSegment(2));
    assert_eq!(frame1.contains_pt(&f), PointLoc::OnSegment(1));
    assert_eq!(frame1.contains_pt(&h), PointLoc::OnSegment(0));

    let frame2 = Pg(vec![a, b, e, d]).unwrap();
    assert_eq!(frame2.contains_pt(&a), PointLoc::OnPoint(3));
    assert_eq!(frame2.contains_pt(&b), PointLoc::OnPoint(2));
    assert_eq!(frame2.contains_pt(&e), PointLoc::OnPoint(1));
    assert_eq!(frame2.contains_pt(&d), PointLoc::OnPoint(0));
    for q in [c, f, i, h, g] {
        assert_eq!(frame2.contains_pt(&q), PointLoc::Outside);
    }

    let frame3 = Pg(vec![b, f, h, d]).unwrap();
    assert_eq!(frame3.contains_pt(&b), PointLoc::OnPoint(3));
    assert_eq!(frame3.contains_pt(&f), PointLoc::OnPoint(2));
    assert_eq!(frame3.contains_pt(&h), PointLoc::OnPoint(1));
    assert_eq!(frame3.contains_pt(&d), PointLoc::OnPoint(0));
    assert_eq!(frame3.contains_pt(&e), PointLoc::Inside);
    for q in [a, c, g, i] {
        assert_eq!(frame3.contains_pt(&q), PointLoc::Outside);
    }
}

#[test]
fn contains_pt_regression() {
    let frame = pg(&[
        (228.17, 202.35),
        (231.21, 212.64),
        (232.45, 228.76),
        (231.67, 257.09),
        (230.63, 265.17),
        (263.66, 335.37),
        (261.85, 336.27),
        (295.65, 404.87),
        (298.24, 409.14),
        (302.39, 413.67),
        (305.92, 412.20),
        (309.33, 417.90),
        (311.03, 417.06),
        (312.99, 420.06),
        (318.55, 420.99),
        (322.66, 420.45),
        (325.57, 419.13),
        (343.70, 406.83),
        (336.17, 404.87),
        (230.61, 185.93),
        (228.83, 189.47),
        (227.19, 195.84),
        (228.17, 202.35),
    ]);
    assert_eq!(frame.contains_pt(&p(228.0, 400.0)), PointLoc::Outside);
    assert!(frame.point_is_outside(&p(228.0, 400.0)));
    assert!(!frame.point_is_inside(&p(228.0, 400.0)));
}

#[test]
fn orientation_is_positive_after_construction() {
    let a = p(0.0, 2.0);
    let c = p(2.0, 2.0);
    let g = p(0.0, 0.0);
    let i = p(2.0, 0.0);
    assert_eq!(Pg(vec![a, c, i, g]).unwrap().get_curve_orientation(), Some(CurveOrientation::Positive));
    assert_eq!(Pg(vec![a, g, i, c]).unwrap().get_curve_orientation(), Some(CurveOrientation::Positive));
    // clockwise input is stored reversed
    assert_eq!(Pg(vec![a, c, i, g]).unwrap().pts, vec![g, i, c, a]);
    // no area, no orientation
    assert_eq!(pg(&[(0.0, 0.0), (1.0, 1.0), (2.0, 2.0)]).get_curve_orientation(), None);
}

#[test]
fn orient_curve_positively_reverses_clockwise_points() {
    let mut q = Pg(vec![p(0.0, 2.0), p(2.0, 2.0), p(2.0, 0.0), p(0.0, 0.0)]).unwrap();
    q.pts.reverse();
    assert_eq!(q.get_curve_orientation(), Some(CurveOrientation::Negative));
    q.orient_curve_positively();
    assert_eq!(q.get_curve_orientation(), Some(CurveOrientation::Positive));
}

#[test]
fn constructor_drops_repeated_last_point_and_rejects_short_lists() {
    let q = pg(&[(0.0, 0.0), (1.0, 0.0), (1.0, 1.0), (0.0, 0.0)]);
    assert_eq!(q.pts.len(), 3);
    assert_eq!(q.kind, PolygonKind::Closed);
    assert_eq!(Pg(vec![]).unwrap_err(), PolygonConstructorError::TwoOrFewerPoints);
    assert_eq!(Pg(vec![p(0.0, 0.0)]).unwrap_err(), PolygonConstructorError::TwoOrFewerPoints);
}

#[test]
fn multiline_is_open() {
    assert_eq!(Multiline(vec![p(0.0, 0.0)]).unwrap_err(), MultilineConstructorError::OneOrFewerPoints);
    let m = Multiline(vec![p(0.0, 0.0), p(1.0, 0.0), p(1.0, 1.0)]).unwrap();
    assert_eq!(m.kind, PolygonKind::Open);
    assert_eq!(m.to_segments().len(), 2);
}

#[test]
fn rect_has_four_corners() {
    let r = Rect(p(1.0, 1.0), (2000, 3000)).unwrap();
    assert_eq!(r, pg(&[(1.0, 1.0), (3.0, 1.0), (3.0, 4.0), (1.0, 4.0)]));
}

#[test]
fn equality_ignores_starting_point() {
    let x = pg(&[(0.0, 0.0), (1.0, 0.0), (1.0, 1.0)]);
    let y = pg(&[(1.0, 0.0), (1.0, 1.0), (0.0, 0.0)]);
    let z = pg(&[(0.0, 0.0), (2.0, 0.0), (1.0, 1.0)]);
    assert_eq!(x, y);
    assert_ne!(x, z);
}

#[test]
fn average_and_misc() {
    let q = pg(&[(0.0, 0.0), (2.0, 0.0), (2.0, 2.0), (0.0, 2.0)]);
    assert!(q.average().unwrap().is_at(&p(1.0, 1.0)));
    assert_eq!(q.objtype(), ObjType::Polygon);
    assert!(!q.is_empty());
    assert!(q.point_is_inside_or_on_border(&p(0.0, 1.0)));
    assert!(q.totally_contains(&pg(&[(0.5, 0.5), (1.0, 0.5), (1.0, 1.0)])));
    assert!(q.contains_not_at_all(&pg(&[(5.0, 5.0), (6.0, 5.0), (6.0, 6.0)])));
}

#[test]
fn crop_laws_on_examples() {
    let inner = pg(&[(1.0, 1.0), (4.0, 1.0), (4.0, 4.0), (1.0, 4.0)]);
    let frame = pg(&[(0.0, 0.0), (3.0, 0.0), (3.0, 3.0), (0.0, 3.0)]);
    for piece in inner.crop_to(&frame).unwrap() {
        for q in piece.iter() {
            assert!(!inner.point_is_outside(q));
            assert!(!frame.point_is_outside(q));
        }
    }
    // disjoint polygons crop to nothing
    let far = pg(&[(10.0, 10.0), (11.0, 10.0), (11.0, 11.0)]);
    assert_eq!(inner.crop_to(&far).unwrap(), vec![]);
    // cutting out a polygon inside would leave a cavity
    let small = pg(&[(2.0, 2.0), (3.0, 2.0), (3.0, 3.0)]);
    assert_eq!(inner.crop_excluding(&small), Err(CropError::CavityNotSupported));
    // excluding a far polygon keeps everything
    assert_eq!(inner.crop_excluding(&far).unwrap(), vec![inner.clone()]);
}

#[test]
fn average_is_exact() {
    let q = pg(&[(0.0, 0.0), (2.0, 0.0), (4.0, 0.0), (0.0, 4.0)]);
    let m = q.average().unwrap();
    assert_eq!(m, RatPt { x_num: 6 * UNIT as i128, y_num: 4 * UNIT as i128, den: 4 });
    assert!(m.is_at(&p(1.5, 1.0)));
}

#[test]
fn polygon_needs_three_points_after_closing() {
    assert_eq!(Pg(vec![p(0.0, 0.0), p(1.0, 1.0), p(0.0, 0.0)]).unwrap_err(), PolygonConstructorError::TwoOrFewerPoints);
    assert_eq!(Pg(vec![p(0.0, 0.0), p(1.0, 0.0), p(1.0, 1.0), p(0.0, 0.0)]).unwrap().pts.len(), 3);
}
