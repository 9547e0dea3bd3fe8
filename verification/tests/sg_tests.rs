use plotz::sg::{Sg, Contains};
use plotz::pt::{Pt, UNIT};

fn p(x: f64, y: f64) -> Pt {
    Pt { x: (x * UNIT as f64).round() as i32, y: (y * UNIT as f64).round() as i32 }
}

fn sg(a: (f64, f64), b: (f64, f64)) -> Sg {
    Sg(p(a.0, a.1), p(b.0, b.1))
}

#[test]
fn sg_test_equality() {
    let a = p(0.0, 2.0);
    let b = p(1.0, 2.0);
    assert!(Sg(a, b) == Sg(a, b));
    assert!(Sg(a, b) != Sg(b, a));
}

#[test]
fn sg_test_segment() {
    assert_eq!(Sg { i: p(0.0, 0.0), f: p(0.0, 1.0) }, sg((0.0, 0.0), (0.0, 1.0)));
}

#[test]
fn sg_test_add() {
    assert_eq!(sg((0.0, 0.0), (1.0, 1.0)) + p(1.0, 0.0), sg((1.0, 0.0), (2.0, 1.0)));
}

#[test]
fn sg_test_add_assign() {
    let mut s = sg((0.0, 0.0), (1.0, 1.0));
    s.add_assign(p(1.0, 0.0));
    assert_eq!(s, sg((1.0, 0.0), (2.0, 1.0)));
}

#[test]
fn sg_test_div() {
    assert_eq!(sg((0.0, 0.0), (1.0, 1.0)) / 2, sg((0.0, 0.0), (0.5, 0.5)));
}

#[test]
fn sg_test_div_assign() {
    let mut s = sg((0.0, 0.0), (1.0, 1.0));
    s.div_assign(2);
    assert_eq!(s, sg((0.0, 0.0), (0.5, 0.5)));
}

#[test]
fn sg_test_mul() {
    assert_eq!(sg((0.0, 0.0), (1.0, 1.0)) * 2, sg((0.0, 0.0), (2.0, 2.0)));
}

#[test]
fn sg_test_mul_assign() {
    let mut s = sg((0.0, 0.0), (1.0, 1.0));
    s.mul_assign(2);
    assert_eq!(s, sg((0.0, 0.0), (2.0, 2.0)));
}

#[test]
fn sg_test_sub() {
    assert_eq!(sg((0.0, 0.0), (1.0, 1.0)) - p(1.0, 2.0), sg((-1.0, -2.0), (0.0, -1.0)));
}

#[test]
fn sg_test_sub_assign() {
    let mut s = sg((0.0, 0.0), (1.0, 1.0));
    s.sub_assign(p(1.0, 2.0));
    assert_eq!(s, sg((-1.0, -2.0), (0.0, -1.0)));
}

#[test]
fn sg_test_bounded_segment() {
    let s = sg((0.0, 1.0), (1.0, 2.0));
    let b = s.bounds();
    assert_eq!(b.b(), UNIT);
    assert_eq!(b.t(), 2000);
    assert_eq!(b.l(), 0);
    assert_eq!(b.r(), UNIT);
    assert_eq!(b.bl(), p(0.0, 1.0));
    assert_eq!(b.tl(), p(0.0, 2.0));
    assert_eq!(b.br(), p(1.0, 1.0));
    assert_eq!(b.tr(), p(1.0, 2.0));
}

#[test]
fn sg_line_segment_contains_pt() {
    let a = p(0.0, 2.0);
    let b = p(1.0, 2.0);
    let c = p(2.0, 2.0);
    assert_eq!(Sg(a, c).line_segment_contains_pt(&a), Some(Contains::AtStart));
    assert_eq!(Sg(a, c).line_segment_contains_pt(&c), Some(Contains::AtEnd));
    assert_eq!(Sg(a, c).line_segment_contains_pt(&b), Some(Contains::Within));
    assert_eq!(Sg(a, c).line_segment_contains_pt(&p(3.0, 2.0)), None);
}
