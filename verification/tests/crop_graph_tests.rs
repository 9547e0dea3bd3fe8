use plotz::crop::CropType;
use plotz::crop_graph::CropGraph;
use plotz::pg::{Pg, Rect};
use plotz::pt::{Pt, UNIT};

fn p(x: i32, y: i32) -> Pt {
    Pt { x: x * UNIT, y: y * UNIT }
}

fn u_shape() -> Pg {
    let (a, b, c, d) = (p(60, 60), p(70, 60), p(80, 60), p(90, 60));
    let (e, f, g, h) = (p(70, 75), p(80, 75), p(60, 90), p(90, 90));
    Pg(vec![a, b, e, f, c, d, h, g, a]).unwrap()
}

fn h_shape() -> Pg {
    Pg(vec![
        p(60, 40), p(70, 40), p(70, 70), p(80, 70), p(80, 40), p(90, 40),
        p(90, 110), p(80, 110), p(80, 80), p(70, 80), p(70, 110), p(60, 110), p(60, 40),
    ])
    .unwrap()
}

/// The point at `k` tenths of the way from `a` to `b`.
fn along(a: Pt, b: Pt, k: i32) -> Pt {
    Pt { x: a.x + (b.x - a.x) / 10 * k, y: a.y + (b.y - a.y) / 10 * k }
}

fn check_all_crops(shape: Pg, crop_type: CropType) {
    let boundary = Rect(p(50, 50), (50 * UNIT, 50 * UNIT)).unwrap();
    for i in 0..=5 {
        for j in 0..=4 {
            let offset = p((i - 3) * 10, (j - 3) * 10);
            let inner = shape.clone() + offset;
            let (_pieces, graph) = CropGraph::run(&inner, &boundary, crop_type).unwrap();
            let keeps = |q: &Pt| match crop_type {
                CropType::Inclusive => boundary.point_is_inside_or_on_border(q),
                CropType::Exclusive => !boundary.point_is_inside(q),
            };
            for (x, y) in graph.nodes() {
                assert!(keeps(&Pt { x, y }));
            }
            for (s, t, _) in graph.all_edges() {
                for k in 0..=10 {
                    assert!(keeps(&along(Pt { x: s.0, y: s.1 }, Pt { x: t.0, y: t.1 }, k)));
                }
            }
        }
    }
}

#[test]
fn test_all_crops_u_shape_exclusive() {
    check_all_crops(u_shape(), CropType::Exclusive);
}

#[test]
fn test_all_crops_u_shape_inclusive() {
    check_all_crops(u_shape(), CropType::Inclusive);
}

#[test]
fn test_all_crops_h_shape_exclusive() {
    check_all_crops(h_shape(), CropType::Exclusive);
}

#[test]
fn test_all_crops_h_shape_inclusive() {
    check_all_crops(h_shape(), CropType::Inclusive);
}
