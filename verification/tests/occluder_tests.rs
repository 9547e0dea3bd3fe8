use plotz::occluder::{hide_a_behind_b, Obj2, Occluder};
use plotz::pg::Pg;
use plotz::pt::{Pt, UNIT};
use plotz::sg::Sg;

fn p(x: i32, y: i32) -> Pt {
    Pt { x: x * UNIT, y: y * UNIT }
}

fn square(x: i32, y: i32, s: i32) -> Pg {
    Pg(vec![p(x, y), p(x + s, y), p(x + s, y + s), p(x, y + s)]).unwrap()
}

fn pts_of(o: &Obj2) -> Vec<Pt> {
    match o {
        Obj2::Polygon(pg) => pg.pts.clone(),
        Obj2::Segment(sg) => vec![sg.i, sg.f],
    }
}

#[test]
fn occluder_keeps_what_is_not_covered() {
    let mut occ: Occluder<u8> = Occluder::new();
    occ.add((Obj2::Polygon(square(0, 0, 2)), 1)).unwrap();
    occ.add((Obj2::Polygon(square(5, 5, 2)), 2)).unwrap();
    let out = occ.export();
    assert_eq!(out.len(), 2);
    assert_eq!(out[0].1, 2);
    assert_eq!(pts_of(&out[0].0), square(5, 5, 2).pts);
    assert_eq!(out[1].1, 1);
}

#[test]
fn occluder_cuts_a_polygon_behind_a_polygon() {
    let mut occ: Occluder<u8> = Occluder::new();
    occ.add((Obj2::Polygon(square(0, 0, 2)), 1)).unwrap();
    occ.add((Obj2::Polygon(square(1, 1, 2)), 2)).unwrap();
    let front = square(0, 0, 2);
    let out = occ.export();
    assert!(out.len() >= 2);
    for (o, style) in &out[..out.len() - 1] {
        assert_eq!(*style, 2);
        for q in pts_of(o) {
            assert!(!front.point_is_inside(&q));
        }
    }
}

#[test]
fn nothing_hides_behind_a_segment() {
    let seg = Obj2::Segment(Sg(p(0, 0), p(1, 1)));
    let pg = Obj2::Polygon(square(0, 0, 2));
    let r = hide_a_behind_b(pg, &seg).unwrap();
    assert_eq!(r.len(), 1);
    assert_eq!(pts_of(&r[0]), square(0, 0, 2).pts);
}
