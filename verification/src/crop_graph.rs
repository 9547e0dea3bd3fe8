//! Cropping one polygon to another by walking a directed graph made of the
//! pieces of their edges.

use vstd::prelude::*;
use petgraph::graphmap::GraphMap;
use petgraph::Directed;
use std::hash::RandomState;
use crate::pt::{Pt, tdiv};
use crate::frac::Frac;
use crate::sg::{Sg, intersect_spec, lemma_crossing_wf};
use crate::intersection::{Intersection, IntersectionResult};
use crate::utils::{Which, Pair};
use crate::graph::{
    graph_nodes, graph_edges, EdgeDir, neighbors_spec, graph_new, graph_add_node, graph_add_edge,
    graph_remove_node, graph_remove_edge, graph_contains_edge, graph_nodes_vec, graph_edges_vec,
    graph_neighbors, graph_node_count, graph_clone,
};
use crate::pg::{
    closed_pts, Pg, PolygonKind, PolygonConstructorError, is_outside, is_inside, is_vertex, polygon_pts, segs_of, any_pair_meets,
    rotated_to_max, lemma_vertex_is_on_border, lemma_equal_polygons_share_points, lemma_polygon_pts_from,
};
use crate::crop::{CropType, lemma_frac_order_trans};

verus! {

/// Why cropping a polygon failed.
#[derive(Debug, Clone, Copy, PartialEq, Eq, Structural)]
pub enum CropError {
    /// The polygons' edges do not meet, and yet neither polygon holds the
    /// other and they do not lie apart.
    NoCrossingsButNotApart,
    /// Cutting away a polygon that lies wholly inside would leave a polygon
    /// with a cavity, which is not supported.
    CavityNotSupported,
    /// The walk around a piece reached a node with no way on, or with more
    /// than three ways on.
    SearchAborted,
    /// The walk around a piece gave a point list that is not a polygon.
    NotAPolygon(PolygonConstructorError),
    /// The polygon being cropped is not closed.
    ThisPolygonNotClosed,
    /// The polygon cropped to is not closed.
    ThatPolygonNotClosed,
}

/// The node that stands for a point.
pub open spec fn key_of(p: Pt) -> (i32, i32) {
    (p.x, p.y)
}

/// The point that a node stands for.
pub open spec fn pt_of(k: (i32, i32)) -> Pt {
    Pt { x: k.0, y: k.1 }
}

/// A graph whose node and edge sets are finite and whose edges join nodes.
pub open spec fn graph_wf(g: GraphMap<(i32, i32), (), Directed, RandomState>) -> bool {
    &&& graph_nodes(g).finite()
    &&& graph_edges(g).finite()
    &&& forall|e: ((i32, i32), (i32, i32))| #[trigger] graph_edges(g).contains(e) ==> graph_nodes(g).contains(e.0) && graph_nodes(g).contains(e.1)
}

/// The edges of `edges` that join two nodes of `nodes`.
pub open spec fn restrict(edges: Set<((i32, i32), (i32, i32))>, nodes: Set<(i32, i32)>) -> Set<((i32, i32), (i32, i32))> {
    edges.filter(|e: ((i32, i32), (i32, i32))| nodes.contains(e.0) && nodes.contains(e.1))
}

/// The fraction by which a crossing is ordered along the segment of `which`.
pub open spec fn pct_of(x: Intersection, which: Which) -> Frac {
    match which {
        Which::A => x.a_pct,
        Which::B => x.b_pct,
    }
}

/// Adds the nodes of `from` and `to`, and the edge between them unless
/// `skip_same` is set and they are the same point.
fn link(g: &mut GraphMap<(i32, i32), (), Directed, RandomState>, from: Pt, to: Pt, skip_same: bool)
    requires
        graph_wf(*old(g)),
    ensures
        graph_wf(*final(g)),
        graph_nodes(*final(g)) == graph_nodes(*old(g)).insert(key_of(from)).insert(key_of(to)),
        graph_edges(*final(g)) == (if skip_same && from == to {
            graph_edges(*old(g))
        } else {
            graph_edges(*old(g)).insert((key_of(from), key_of(to)))
        }),
{
    let f = graph_add_node(g, (from.x, from.y));
    let t = graph_add_node(g, (to.x, to.y));
    if !skip_same || f.0 != t.0 || f.1 != t.1 {
        let _ = graph_add_edge(g, f, t);
    }
    proof {
        assert(graph_nodes(*g) =~= graph_nodes(*old(g)).insert(key_of(from)).insert(key_of(to)));
    }
}

/// The index at which `x`, of fraction `key`, goes into `s`, looking from
/// index `i` on: before the first crossing of larger fraction, else at the
/// end.
pub open spec fn pos_from(s: Seq<Intersection>, key: Frac, which: Which, i: int) -> int
    decreases s.len() - i,
{
    if i >= s.len() {
        s.len() as int
    } else if key.lt_value(pct_of(s[i], which)) {
        i
    } else {
        pos_from(s, key, which, i + 1)
    }
}

/// The crossings sorted by their fraction along the segment of `which`,
/// each put in after those of equal fraction that come before it.
pub open spec fn sorted_by_pct(v: Seq<Intersection>, which: Which) -> Seq<Intersection>
    decreases v.len(),
{
    if v.len() == 0 {
        Seq::empty()
    } else {
        let s = sorted_by_pct(v.drop_last(), which);
        let x = v.last();
        s.insert(pos_from(s, pct_of(x, which), which, 0), x)
    }
}

/// The insertion index found by a scan that stops at `p`.
proof fn lemma_pos_from(s: Seq<Intersection>, key: Frac, which: Which, i: int, p: int)
    requires
        0 <= i <= p <= s.len(),
        forall|j: int| i <= j < p ==> !key.lt_value(pct_of(#[trigger] s[j], which)),
        p < s.len() ==> key.lt_value(pct_of(s[p], which)),
    ensures
        pos_from(s, key, which, i) == p,
    decreases p - i,
{
    if i < p {
        lemma_pos_from(s, key, which, i + 1, p);
    }
}

/// The crossings in order of their fraction along the segment of `which`;
/// crossings at equal fractions keep their order.
fn sort_by_pct(v: Vec<Intersection>, which: Which) -> (r: Vec<Intersection>)
    requires
        forall|i: int| 0 <= i < v@.len() ==> pct_of(#[trigger] v@[i], which).wf(),
    ensures
        r@ == sorted_by_pct(v@, which),
        r@.to_multiset() == v@.to_multiset(),
        r@.len() == v@.len(),
        forall|i: int| 0 <= i < r@.len() ==> pct_of(#[trigger] r@[i], which).wf(),
        forall|i: int, j: int| 0 <= i < j < r@.len() ==> pct_of(#[trigger] r@[i], which).le_value(pct_of(#[trigger] r@[j], which)),
{
    broadcast use vstd::seq_lib::group_to_multiset_ensures;
    let mut out: Vec<Intersection> = Vec::new();
    proof {
        assert(v@.take(0) =~= Seq::<Intersection>::empty());
        assert(out@ =~= Seq::<Intersection>::empty());
    }
    let mut k: usize = 0;
    while k < v.len()
        invariant
            k <= v@.len(),
            forall|i: int| 0 <= i < v@.len() ==> pct_of(#[trigger] v@[i], which).wf(),
            out@ == sorted_by_pct(v@.take(k as int), which),
            out@.to_multiset() == v@.take(k as int).to_multiset(),
            out@.len() == k,
            forall|i: int| 0 <= i < out@.len() ==> pct_of(#[trigger] out@[i], which).wf(),
            forall|i: int, j: int| 0 <= i < j < out@.len() ==> pct_of(#[trigger] out@[i], which).le_value(pct_of(#[trigger] out@[j], which)),
        decreases v@.len() - k,
    {
        let x = v[k];
        let key = x.percent_along(which);
        proof {
            assert(pct_of(v@[k as int], which).wf());
        }
        let mut p: usize = 0;
        while p < out.len()
            invariant
                p <= out@.len(),
                key.wf(),
                key == pct_of(x, which),
                forall|i: int| 0 <= i < out@.len() ==> pct_of(#[trigger] out@[i], which).wf(),
                forall|i: int| 0 <= i < p ==> pct_of(#[trigger] out@[i], which).le_value(key),
            ensures
                p <= out@.len(),
                forall|i: int| 0 <= i < p ==> pct_of(#[trigger] out@[i], which).le_value(key),
                p < out@.len() ==> key.lt_value(pct_of(out@[p as int], which)),
            decreases out@.len() - p,
        {
            let other = out[p].percent_along(which);
            if key.lt(&other) {
                break;
            }
            p = p + 1;
        }
        let ghost before = out@;
        proof {
            assert forall|j: int| 0 <= j < p implies !key.lt_value(pct_of(#[trigger] before[j], which)) by {
                assert(pct_of(before[j], which).le_value(key));
            }
            lemma_pos_from(before, key, which, 0, p as int);
            let vk = v@.take(k + 1);
            assert(vk.drop_last() =~= v@.take(k as int));
            assert(vk.last() == x);
        }
        out.insert(p, x);
        proof {
            assert(v@.take(k + 1) =~= v@.take(k as int).push(x));
            vstd::seq_lib::to_multiset_build(v@.take(k as int), x);
            vstd::seq_lib::to_multiset_insert(before, p as int, x);
            assert(out@ == before.insert(p as int, x));
            assert forall|i: int, j: int| 0 <= i < j < out@.len() implies pct_of(#[trigger] out@[i], which).le_value(pct_of(#[trigger] out@[j], which)) by {
                let fi = pct_of(out@[i], which);
                let fj = pct_of(out@[j], which);
                if j < p {
                    assert(out@[i] == before[i] && out@[j] == before[j]);
                } else if j == p {
                    assert(out@[i] == before[i]);
                    assert(fj == key);
                } else {
                    assert(out@[j] == before[j - 1]);
                    let fp = pct_of(before[p as int], which);
                    assert(key.lt_value(fp));
                    if j - 1 > p {
                        assert(fp.le_value(fj));
                    }
                    lemma_frac_order_trans(key, fp, fj);
                    assert(key.le_value(fj));
                    if i < p {
                        assert(out@[i] == before[i]);
                        lemma_frac_order_trans(fi, key, fj);
                    } else if i == p {
                        assert(fi == key);
                    } else {
                        assert(out@[i] == before[i - 1]);
                    }
                }
            }
        }
        k = k + 1;
    }
    proof {
        assert(v@.take(v@.len() as int) =~= v@);
    }
    out
}

/// The crossing seen with the two segments swapped.
pub open spec fn flipped(x: Intersection) -> Intersection {
    Intersection { pt: x.pt, a_pct: x.b_pct, b_pct: x.a_pct }
}

/// The single crossings of the first `m` segments of `that` with `sg`, in
/// order, each seen from `sg` when `which` is `A`.
pub open spec fn seg_crossings(that: Seq<Sg>, sg: Sg, which: Which, m: int) -> Seq<Intersection>
    decreases m,
{
    if m <= 0 {
        Seq::empty()
    } else {
        seg_crossings(that, sg, which, m - 1) + match intersect_spec(that[m - 1], sg) {
            Some(IntersectionResult::OneIntersection(x)) => seq![if which == Which::A { flipped(x) } else { x }],
            _ => Seq::empty(),
        }
    }
}

/// Computes `seg_crossings(that@, sg, which, that@.len())`.
fn seg_crossings_exec(that: &Vec<Sg>, sg: Sg, which: Which) -> (r: Vec<Intersection>)
    ensures
        r@ == seg_crossings(that@, sg, which, that@.len() as int),
        forall|i: int| 0 <= i < r@.len() ==> pct_of(#[trigger] r@[i], which).wf(),
{
    let mut out: Vec<Intersection> = Vec::new();
    let mut m: usize = 0;
    while m < that.len()
        invariant
            m <= that@.len(),
            out@ == seg_crossings(that@, sg, which, m as int),
            forall|i: int| 0 <= i < out@.len() ==> pct_of(#[trigger] out@[i], which).wf(),
        decreases that@.len() - m,
    {
        proof {
            lemma_crossing_wf(that@[m as int], sg);
        }
        match that[m].intersects(&sg) {
            Some(IntersectionResult::OneIntersection(x)) => {
                let y = if which == Which::A {
                    x.flip_pcts()
                } else {
                    x
                };
                out.push(y);
            },
            _ => {},
        }
        proof {
            assert(out@ =~= seg_crossings(that@, sg, which, m + 1));
        }
        m = m + 1;
    }
    out
}

/// The nodes that the pieces of `sg` cut at the crossings `cps` add: its
/// two ends and the crossing points.
pub open spec fn chain_nodes(sg: Sg, cps: Seq<Intersection>) -> Set<(i32, i32)> {
    set![key_of(sg.i), key_of(sg.f)] + Set::new(|n: (i32, i32)| exists|q: int| 0 <= q < cps.len() && n == key_of(cps[q].pt))
}

/// The edge from crossing `q` of `cps` to crossing `q + 1`.
pub open spec fn mid_edge(cps: Seq<Intersection>, q: int) -> ((i32, i32), (i32, i32)) {
    (key_of(cps[q].pt), key_of(cps[q + 1].pt))
}

/// The edges between consecutive crossing points of `cps`, the first
/// `upto` of them.
pub open spec fn middle_edges(cps: Seq<Intersection>, upto: int) -> Set<((i32, i32), (i32, i32))> {
    Set::new(|e: ((i32, i32), (i32, i32))| exists|q: int| 0 <= q < upto && e == #[trigger] mid_edge(cps, q))
}

/// The edges that the pieces of `sg` cut at the crossings `cps` add: from
/// its start to the first crossing (unless they are the same point), from
/// crossing to crossing, and from the last crossing to its end (unless they
/// are the same point); a segment with no crossings is one edge.
pub open spec fn chain_edges(sg: Sg, cps: Seq<Intersection>) -> Set<((i32, i32), (i32, i32))> {
    if cps.len() == 0 {
        set![(key_of(sg.i), key_of(sg.f))]
    } else {
        (if sg.i == cps[0].pt {
            Set::empty()
        } else {
            set![(key_of(sg.i), key_of(cps[0].pt))]
        }) + middle_edges(cps, cps.len() - 1) + (if cps.last().pt == sg.f {
            Set::empty()
        } else {
            set![(key_of(cps.last().pt), key_of(sg.f))]
        })
    }
}

/// Adds the pieces of `sg` cut at the crossings `cps`, in order.
fn add_chain(g: &mut GraphMap<(i32, i32), (), Directed, RandomState>, sg: Sg, cps: &Vec<Intersection>)
    requires
        graph_wf(*old(g)),
    ensures
        graph_wf(*final(g)),
        graph_nodes(*final(g)) == graph_nodes(*old(g)) + chain_nodes(sg, cps@),
        graph_edges(*final(g)) == graph_edges(*old(g)) + chain_edges(sg, cps@),
{
    let ghost n0 = graph_nodes(*g);
    let ghost e0 = graph_edges(*g);
    if cps.len() == 0 {
        link(g, sg.i, sg.f, false);
        proof {
            assert(graph_nodes(*g) =~= n0 + chain_nodes(sg, cps@));
            assert(graph_edges(*g) =~= e0 + chain_edges(sg, cps@));
        }
    } else {
        let ghost cs = cps@;
        let ghost first_edges = if sg.i == cs[0].pt {
            Set::<((i32, i32), (i32, i32))>::empty()
        } else {
            set![(key_of(sg.i), key_of(cs[0].pt))]
        };
        link(g, sg.i, cps[0].pt, true);
        proof {
            assert(graph_edges(*g) =~= e0 + first_edges + middle_edges(cs, 0));
        }
        let mut q: usize = 0;
        while q < cps.len() - 1
            invariant
                cs == cps@,
                cs.len() > 0,
                q <= cs.len() - 1,
                graph_wf(*g),
                graph_nodes(*g) == n0 + set![key_of(sg.i)] + Set::new(|n: (i32, i32)| exists|j: int| 0 <= j <= q && n == key_of(cs[j].pt)),
                graph_edges(*g) == e0 + first_edges + middle_edges(cs, q as int),
            decreases cs.len() - q,
        {
            let ghost e_before = graph_edges(*g);
            link(g, cps[q].pt, cps[q + 1].pt, false);
            proof {
                assert(graph_nodes(*g) =~= n0 + set![key_of(sg.i)] + Set::new(|n: (i32, i32)| exists|j: int| 0 <= j <= q + 1 && n == key_of(cs[j].pt)));
                let new_edge = mid_edge(cs, q as int);
                assert(graph_edges(*g) == e_before.insert(new_edge));
                assert forall|e: ((i32, i32), (i32, i32))| #[trigger] middle_edges(cs, q + 1).contains(e) implies middle_edges(cs, q as int).contains(e) || e == new_edge by {
                    let w = choose|w: int| 0 <= w < q + 1 && e == #[trigger] mid_edge(cs, w);
                    if w < q {
                        assert(middle_edges(cs, q as int).contains(e));
                    }
                }
                assert(middle_edges(cs, q + 1).contains(new_edge));
                assert forall|e: ((i32, i32), (i32, i32))| #[trigger] middle_edges(cs, q as int).contains(e) implies middle_edges(cs, q + 1).contains(e) by {
                    let w = choose|w: int| 0 <= w < q && e == #[trigger] mid_edge(cs, w);
                }
                assert(graph_edges(*g) =~= e0 + first_edges + middle_edges(cs, q + 1));
            }
            q = q + 1;
        }
        link(g, cps[cps.len() - 1].pt, sg.f, true);
        proof {
            assert(graph_nodes(*g) =~= n0 + chain_nodes(sg, cs));
            assert(graph_edges(*g) =~= e0 + chain_edges(sg, cs));
        }
    }
}

/// The `k`-th segment of a polygon as a piece of the crop graph sees it:
/// run backwards for the second polygon of an exclusive crop.
pub open spec fn piece_seg(segs: Seq<Sg>, k: int, which: Which, crop_type: CropType) -> Sg {
    if which == Which::B && crop_type == CropType::Exclusive {
        Sg { i: segs[k].f, f: segs[k].i }
    } else {
        segs[k]
    }
}

/// The sorted crossings of the `k`-th piece of `this` with `that`.
pub open spec fn piece_crossings(this: Seq<Sg>, that: Seq<Sg>, which: Which, crop_type: CropType, k: int) -> Seq<Intersection> {
    sorted_by_pct(seg_crossings(that, piece_seg(this, k, which, crop_type), which, that.len() as int), which)
}

/// The nodes added for the first `k` segments of `this`, cut by `that`.
pub open spec fn round_nodes(this: Seq<Sg>, that: Seq<Sg>, which: Which, crop_type: CropType, k: int) -> Set<(i32, i32)>
    decreases k,
{
    if k <= 0 {
        Set::empty()
    } else {
        round_nodes(this, that, which, crop_type, k - 1) + chain_nodes(piece_seg(this, k - 1, which, crop_type), piece_crossings(this, that, which, crop_type, k - 1))
    }
}

/// The edges added for the first `k` segments of `this`, cut by `that`.
pub open spec fn round_edges(this: Seq<Sg>, that: Seq<Sg>, which: Which, crop_type: CropType, k: int) -> Set<((i32, i32), (i32, i32))>
    decreases k,
{
    if k <= 0 {
        Set::empty()
    } else {
        round_edges(this, that, which, crop_type, k - 1) + chain_edges(piece_seg(this, k - 1, which, crop_type), piece_crossings(this, that, which, crop_type, k - 1))
    }
}

/// Adds the pieces of each segment of `this` cut by the segments of `that`.
fn build_round(g: &mut GraphMap<(i32, i32), (), Directed, RandomState>, this: &Pg, that: &Pg, which: Which, crop_type: CropType)
    requires
        graph_wf(*old(g)),
    ensures
        graph_wf(*final(g)),
        graph_nodes(*final(g)) == graph_nodes(*old(g)) + round_nodes(segs_of(this.pts@, this.kind), segs_of(that.pts@, that.kind), which, crop_type, segs_of(this.pts@, this.kind).len() as int),
        graph_edges(*final(g)) == graph_edges(*old(g)) + round_edges(segs_of(this.pts@, this.kind), segs_of(that.pts@, that.kind), which, crop_type, segs_of(this.pts@, this.kind).len() as int),
{
    let segs = this.to_segments();
    let that_segs = that.to_segments();
    let ghost n0 = graph_nodes(*g);
    let ghost e0 = graph_edges(*g);
    proof {
        assert(graph_nodes(*g) =~= n0 + round_nodes(segs@, that_segs@, which, crop_type, 0));
        assert(graph_edges(*g) =~= e0 + round_edges(segs@, that_segs@, which, crop_type, 0));
    }
    let mut k: usize = 0;
    while k < segs.len()
        invariant
            k <= segs@.len(),
            graph_wf(*g),
            graph_nodes(*g) == n0 + round_nodes(segs@, that_segs@, which, crop_type, k as int),
            graph_edges(*g) == e0 + round_edges(segs@, that_segs@, which, crop_type, k as int),
        decreases segs@.len() - k,
    {
        let sg = if which == Which::B && crop_type == CropType::Exclusive {
            segs[k].flip()
        } else {
            segs[k]
        };
        let isxns = seg_crossings_exec(&that_segs, sg, which);
        let sorted = sort_by_pct(isxns, which);
        add_chain(g, sg, &sorted);
        proof {
            assert(sg == piece_seg(segs@, k as int, which, crop_type));
            assert(sorted@ == piece_crossings(segs@, that_segs@, which, crop_type, k as int));
            assert(graph_nodes(*g) =~= n0 + round_nodes(segs@, that_segs@, which, crop_type, k + 1));
            assert(graph_edges(*g) =~= e0 + round_edges(segs@, that_segs@, which, crop_type, k + 1));
        }
        k = k + 1;
    }
}

/// Adds to the graph, for each segment of `a` and then of `b`, the pieces
/// into which the other polygon's segments cut it: from its start to the
/// first crossing, from crossing to crossing in order along it, and from the
/// last crossing to its end (a segment that nothing crosses is one piece).
/// For an exclusive crop the segments of `b` are run backwards.
fn build_from_polygons(g: &mut GraphMap<(i32, i32), (), Directed, RandomState>, a: &Pg, b: &Pg, crop_type: CropType)
    requires
        graph_wf(*old(g)),
    ensures
        graph_wf(*final(g)),
        graph_nodes(*final(g)) == graph_nodes(*old(g))
            + round_nodes(segs_of(a.pts@, a.kind), segs_of(b.pts@, b.kind), Which::A, crop_type, segs_of(a.pts@, a.kind).len() as int)
            + round_nodes(segs_of(b.pts@, b.kind), segs_of(a.pts@, a.kind), Which::B, crop_type, segs_of(b.pts@, b.kind).len() as int),
        graph_edges(*final(g)) == graph_edges(*old(g))
            + round_edges(segs_of(a.pts@, a.kind), segs_of(b.pts@, b.kind), Which::A, crop_type, segs_of(a.pts@, a.kind).len() as int)
            + round_edges(segs_of(b.pts@, b.kind), segs_of(a.pts@, a.kind), Which::B, crop_type, segs_of(b.pts@, b.kind).len() as int),
{
    let pair = Pair { a, b };
    let this = pair.get(Which::A);
    let that = pair.get(Which::A.flip());
    build_round(g, this, that, Which::A, crop_type);
    let this = pair.get(Which::B);
    let that = pair.get(Which::B.flip());
    build_round(g, this, that, Which::B, crop_type);
}

/// The point `p` is dropped by a node filter: it lies inside the polygon
/// (when `drop_inside`) or outside it (otherwise).
pub open spec fn dropped_pt(s: Seq<Pt>, kind: PolygonKind, drop_inside: bool, p: Pt) -> bool {
    if drop_inside {
        is_inside(s, kind, p)
    } else {
        is_outside(s, kind, p)
    }
}

/// Whether `pg`'s filter drops `p`.
fn drops(pg: &Pg, drop_inside: bool, p: &Pt) -> (r: bool)
    ensures
        r == dropped_pt(pg.pts@, pg.kind, drop_inside, *p),
{
    if drop_inside {
        pg.point_is_inside(p)
    } else {
        pg.point_is_outside(p)
    }
}

/// Removing node `n` from a graph whose edges are those of `edges0` between
/// its nodes leaves the edges of `edges0` between the remaining nodes.
proof fn lemma_restrict_remove(edges: Set<((i32, i32), (i32, i32))>, edges0: Set<((i32, i32), (i32, i32))>, nodes: Set<(i32, i32)>, n: (i32, i32))
    requires
        edges == restrict(edges0, nodes),
    ensures
        edges.filter(|e: ((i32, i32), (i32, i32))| e.0 != n && e.1 != n) == restrict(edges0, nodes.remove(n)),
{
    assert(edges.filter(|e: ((i32, i32), (i32, i32))| e.0 != n && e.1 != n) =~= restrict(edges0, nodes.remove(n)));
}

/// Removing node `n` keeps a graph well formed and shrinks its node set.
proof fn lemma_remove_node_wf(g0: GraphMap<(i32, i32), (), Directed, RandomState>, g1: GraphMap<(i32, i32), (), Directed, RandomState>, n: (i32, i32))
    requires
        graph_wf(g0),
        graph_nodes(g0).contains(n),
        graph_nodes(g1) == graph_nodes(g0).remove(n),
        graph_edges(g1) == graph_edges(g0).filter(|e: ((i32, i32), (i32, i32))| e.0 != n && e.1 != n),
    ensures
        graph_wf(g1),
        graph_nodes(g1).len() < graph_nodes(g0).len(),
{
    assert forall|e: ((i32, i32), (i32, i32))| #[trigger] graph_edges(g1).contains(e) implies graph_nodes(g1).contains(e.0) && graph_nodes(g1).contains(e.1) by {
        assert(graph_edges(g0).contains(e));
    }
}

/// Removes every node that the filter drops, with its edges.
fn prune_nodes(g: &mut GraphMap<(i32, i32), (), Directed, RandomState>, pg: &Pg, drop_inside: bool)
    requires
        graph_wf(*old(g)),
    ensures
        graph_wf(*final(g)),
        graph_nodes(*final(g)) == graph_nodes(*old(g)).filter(|n: (i32, i32)| !dropped_pt(pg.pts@, pg.kind, drop_inside, pt_of(n))),
        graph_edges(*final(g)) == restrict(graph_edges(*old(g)), graph_nodes(*final(g))),
{
    let ghost nodes0 = graph_nodes(*g);
    let ghost edges0 = graph_edges(*g);
    proof {
        assert(edges0 =~= restrict(edges0, nodes0));
    }
    loop
        invariant
            graph_wf(*g),
            graph_nodes(*g).subset_of(nodes0),
            forall|n: (i32, i32)| #[trigger] nodes0.contains(n) && !dropped_pt(pg.pts@, pg.kind, drop_inside, pt_of(n)) ==> graph_nodes(*g).contains(n),
            graph_edges(*g) == restrict(edges0, graph_nodes(*g)),
        ensures
            graph_wf(*g),
            graph_nodes(*g) == nodes0.filter(|n: (i32, i32)| !dropped_pt(pg.pts@, pg.kind, drop_inside, pt_of(n))),
            graph_edges(*g) == restrict(edges0, graph_nodes(*g)),
        decreases graph_nodes(*g).len(),
    {
        let ns = graph_nodes_vec(g);
        let mut found: Option<(i32, i32)> = None;
        let mut i: usize = 0;
        while i < ns.len()
            invariant_except_break
                found is None,
            invariant
                i <= ns@.len(),
                forall|j: int| 0 <= j < i ==> !dropped_pt(pg.pts@, pg.kind, drop_inside, pt_of(#[trigger] ns@[j])),
            ensures
                found matches Some(n) ==> ns@.contains(n) && dropped_pt(pg.pts@, pg.kind, drop_inside, pt_of(n)),
                found is None ==> forall|j: int| 0 <= j < ns@.len() ==> !dropped_pt(pg.pts@, pg.kind, drop_inside, pt_of(#[trigger] ns@[j])),
            decreases ns@.len() - i,
        {
            let n = ns[i];
            if drops(pg, drop_inside, &Pt { x: n.0, y: n.1 }) {
                found = Some(n);
                proof {
                    assert(ns@[i as int] == n);
                }
                break;
            }
            i = i + 1;
        }
        match found {
            None => {
                proof {
                    assert forall|n: (i32, i32)| #[trigger] graph_nodes(*g).contains(n) implies !dropped_pt(pg.pts@, pg.kind, drop_inside, pt_of(n)) by {
                        assert(ns@.to_set().contains(n));
                        let j = choose|j: int| 0 <= j < ns@.len() && ns@[j] == n;
                    }
                    assert(graph_nodes(*g) =~= nodes0.filter(|n: (i32, i32)| !dropped_pt(pg.pts@, pg.kind, drop_inside, pt_of(n))));
                }
                break;
            },
            Some(n) => {
                let ghost g0 = *g;
                proof {
                    assert(ns@.to_set().contains(n));
                }
                let _ = graph_remove_node(g, n);
                proof {
                    lemma_remove_node_wf(g0, *g, n);
                    lemma_restrict_remove(graph_edges(g0), edges0, graph_nodes(g0), n);
                }
            },
        }
    }
}

/// The midpoint of an edge, each coordinate rounded toward zero.
pub open spec fn edge_midpoint(e: ((i32, i32), (i32, i32))) -> Pt {
    Pt { x: tdiv(e.0.0 + e.1.0, 2) as i32, y: tdiv(e.0.1 + e.1.1, 2) as i32 }
}

/// Removes every edge whose midpoint the filter drops; the nodes stay.
fn prune_edges(g: &mut GraphMap<(i32, i32), (), Directed, RandomState>, pg: &Pg, drop_inside: bool)
    requires
        graph_wf(*old(g)),
    ensures
        graph_wf(*final(g)),
        graph_nodes(*final(g)) == graph_nodes(*old(g)),
        graph_edges(*final(g)) == graph_edges(*old(g)).filter(|e: ((i32, i32), (i32, i32))| !dropped_pt(pg.pts@, pg.kind, drop_inside, edge_midpoint(e))),
{
    let ghost edges0 = graph_edges(*g);
    let ghost nodes0 = graph_nodes(*g);
    loop
        invariant
            graph_wf(*g),
            graph_nodes(*g) == nodes0,
            graph_edges(*g).subset_of(edges0),
            forall|e: ((i32, i32), (i32, i32))| #[trigger] edges0.contains(e) && !dropped_pt(pg.pts@, pg.kind, drop_inside, edge_midpoint(e)) ==> graph_edges(*g).contains(e),
        ensures
            graph_wf(*g),
            graph_nodes(*g) == nodes0,
            graph_edges(*g) == edges0.filter(|e: ((i32, i32), (i32, i32))| !dropped_pt(pg.pts@, pg.kind, drop_inside, edge_midpoint(e))),
        decreases graph_edges(*g).len(),
    {
        let es = graph_edges_vec(g);
        let mut found: Option<((i32, i32), (i32, i32))> = None;
        let mut i: usize = 0;
        while i < es.len()
            invariant_except_break
                found is None,
            invariant
                i <= es@.len(),
                forall|j: int| 0 <= j < i ==> !dropped_pt(pg.pts@, pg.kind, drop_inside, edge_midpoint(#[trigger] es@[j])),
            ensures
                found matches Some(e) ==> es@.contains(e) && dropped_pt(pg.pts@, pg.kind, drop_inside, edge_midpoint(e)),
                found is None ==> forall|j: int| 0 <= j < es@.len() ==> !dropped_pt(pg.pts@, pg.kind, drop_inside, edge_midpoint(#[trigger] es@[j])),
            decreases es@.len() - i,
        {
            let e = es[i];
            let mid = Pt { x: e.0.0, y: e.0.1 }.avg(&Pt { x: e.1.0, y: e.1.1 });
            if drops(pg, drop_inside, &mid) {
                found = Some(e);
                proof {
                    assert(es@[i as int] == e);
                }
                break;
            }
            i = i + 1;
        }
        match found {
            None => {
                proof {
                    assert forall|e: ((i32, i32), (i32, i32))| #[trigger] graph_edges(*g).contains(e) implies !dropped_pt(pg.pts@, pg.kind, drop_inside, edge_midpoint(e)) by {
                        assert(es@.to_set().contains(e));
                        let j = choose|j: int| 0 <= j < es@.len() && es@[j] == e;
                    }
                    assert(graph_edges(*g) =~= edges0.filter(|e: ((i32, i32), (i32, i32))| !dropped_pt(pg.pts@, pg.kind, drop_inside, edge_midpoint(e))));
                }
                break;
            },
            Some(e) => {
                proof {
                    assert(es@.to_set().contains(e));
                }
                let _ = graph_remove_edge(g, e.0, e.1);
                proof {
                    assert forall|x: ((i32, i32), (i32, i32))| #[trigger] graph_edges(*g).contains(x) implies graph_nodes(*g).contains(x.0) && graph_nodes(*g).contains(x.1) by {
                    }
                }
            },
        }
    }
}

/// One edge leads from `n` to `m` in direction `dir`: from `n` to `m` when
/// outgoing, from `m` to `n` when incoming.
pub open spec fn steps_to(edges: Set<((i32, i32), (i32, i32))>, n: (i32, i32), m: (i32, i32), dir: EdgeDir) -> bool {
    match dir {
        EdgeDir::Outgoing => edges.contains((n, m)),
        EdgeDir::Incoming => edges.contains((m, n)),
    }
}

/// Node `n` has a neighbour in direction `dir`.
pub open spec fn has_neighbor(edges: Set<((i32, i32), (i32, i32))>, n: (i32, i32), dir: EdgeDir) -> bool {
    exists|m: (i32, i32)| #[trigger] neighbors_spec(edges, n, dir).contains(m)
}

/// Every node of `s` has a neighbour in `s` in direction `dir`.
#[verifier::opaque]
pub open spec fn closed_under(s: Set<(i32, i32)>, edges: Set<((i32, i32), (i32, i32))>, dir: EdgeDir) -> bool {
    forall|n: (i32, i32)| #[trigger] s.contains(n) ==> exists|m: (i32, i32)| s.contains(m) && steps_to(edges, n, m, dir)
}

/// Removes, one at a time, nodes with no neighbour in direction `dir`, with
/// their edges, until every node left has one. What is left is the largest
/// set of the nodes in which every node has a neighbour in that direction.
fn remove_nodes_with_no_neighbors_of_kind(g: &mut GraphMap<(i32, i32), (), Directed, RandomState>, dir: EdgeDir)
    requires
        graph_wf(*old(g)),
    ensures
        graph_wf(*final(g)),
        graph_nodes(*final(g)).subset_of(graph_nodes(*old(g))),
        graph_edges(*final(g)) == restrict(graph_edges(*old(g)), graph_nodes(*final(g))),
        closed_under(graph_nodes(*final(g)), graph_edges(*old(g)), dir),
        forall|s: Set<(i32, i32)>| #[trigger] closed_under(s, graph_edges(*old(g)), dir) && s.subset_of(graph_nodes(*old(g)))
            ==> s.subset_of(graph_nodes(*final(g))),
{
    let ghost nodes0 = graph_nodes(*g);
    let ghost edges0 = graph_edges(*g);
    proof {
        assert(edges0 =~= restrict(edges0, nodes0));
    }
    loop
        invariant
            graph_wf(*g),
            graph_nodes(*g).subset_of(nodes0),
            graph_edges(*g) == restrict(edges0, graph_nodes(*g)),
            forall|s: Set<(i32, i32)>| #[trigger] closed_under(s, edges0, dir) && s.subset_of(nodes0) ==> s.subset_of(graph_nodes(*g)),
        ensures
            graph_wf(*g),
            graph_nodes(*g).subset_of(nodes0),
            graph_edges(*g) == restrict(edges0, graph_nodes(*g)),
            forall|s: Set<(i32, i32)>| #[trigger] closed_under(s, edges0, dir) && s.subset_of(nodes0) ==> s.subset_of(graph_nodes(*g)),
            closed_under(graph_nodes(*g), edges0, dir),
        decreases graph_nodes(*g).len(),
    {
        let ns = graph_nodes_vec(g);
        let mut found: Option<(i32, i32)> = None;
        let mut i: usize = 0;
        while i < ns.len()
            invariant_except_break
                found is None,
            invariant
                i <= ns@.len(),
                forall|j: int| 0 <= j < i ==> has_neighbor(graph_edges(*g), #[trigger] ns@[j], dir),
            ensures
                found matches Some(n) ==> ns@.contains(n) && neighbors_spec(graph_edges(*g), n, dir) == Set::<(i32, i32)>::empty(),
                found is None ==> forall|j: int| 0 <= j < ns@.len() ==> has_neighbor(graph_edges(*g), #[trigger] ns@[j], dir),
            decreases ns@.len() - i,
        {
            let n = ns[i];
            let nb = graph_neighbors(g, n, dir);
            if nb.len() == 0 {
                found = Some(n);
                proof {
                    assert(ns@[i as int] == n);
                    assert(nb@ =~= Seq::<(i32, i32)>::empty());
                    assert(nb@.to_set() =~= Set::<(i32, i32)>::empty());
                }
                break;
            }
            proof {
                assert(nb@.to_set().contains(nb@[0]));
                assert(neighbors_spec(graph_edges(*g), ns@[i as int], dir).contains(nb@[0]));
            }
            i = i + 1;
        }
        match found {
            None => {
                proof {
                    reveal(closed_under);
                    assert forall|n: (i32, i32)| #[trigger] graph_nodes(*g).contains(n) implies exists|m: (i32, i32)| graph_nodes(*g).contains(m) && steps_to(edges0, n, m, dir) by {
                        assert(ns@.to_set().contains(n));
                        let j = choose|j: int| 0 <= j < ns@.len() && ns@[j] == n;
                        assert(has_neighbor(graph_edges(*g), ns@[j], dir));
                        let m = choose|m: (i32, i32)| #[trigger] neighbors_spec(graph_edges(*g), n, dir).contains(m);
                        match dir {
                            EdgeDir::Outgoing => assert(graph_edges(*g).contains((n, m))),
                            EdgeDir::Incoming => assert(graph_edges(*g).contains((m, n))),
                        }
                    }
                }
                break;
            },
            Some(n) => {
                let ghost g0 = *g;
                proof {
                    assert(ns@.to_set().contains(n));
                }
                let _ = graph_remove_node(g, n);
                proof {
                    lemma_remove_node_wf(g0, *g, n);
                    lemma_restrict_remove(graph_edges(g0), edges0, graph_nodes(g0), n);
                    reveal(closed_under);
                    assert forall|s: Set<(i32, i32)>| #[trigger] closed_under(s, edges0, dir) && s.subset_of(nodes0) implies s.subset_of(graph_nodes(*g)) by {
                        assert(s.subset_of(graph_nodes(g0)));
                        if s.contains(n) {
                            let m = choose|m: (i32, i32)| s.contains(m) && steps_to(edges0, n, m, dir);
                            match dir {
                                EdgeDir::Outgoing => {
                                    assert(graph_edges(g0).contains((n, m)));
                                    assert(neighbors_spec(graph_edges(g0), n, dir).contains(m));
                                },
                                EdgeDir::Incoming => {
                                    assert(graph_edges(g0).contains((m, n)));
                                    assert(neighbors_spec(graph_edges(g0), n, dir).contains(m));
                                },
                            }
                        }
                    }
                }
            },
        }
    }
}

/// The edges kept by `restrict` are among the edges.
proof fn lemma_restrict_subset(edges: Set<((i32, i32), (i32, i32))>, nodes: Set<(i32, i32)>)
    ensures
        restrict(edges, nodes).subset_of(edges),
{
}

/// Every node of `s` has a neighbour in `s` along the edges and one against
/// them.
#[verifier::opaque]
pub open spec fn closed_both(s: Set<(i32, i32)>, edges: Set<((i32, i32), (i32, i32))>) -> bool {
    closed_under(s, edges, EdgeDir::Outgoing) && closed_under(s, edges, EdgeDir::Incoming)
}

/// Closure under a set of edges carries over to a larger set of edges.
proof fn lemma_closed_more_edges(s: Set<(i32, i32)>, small: Set<((i32, i32), (i32, i32))>, big: Set<((i32, i32), (i32, i32))>, dir: EdgeDir)
    requires
        closed_under(s, small, dir),
        small.subset_of(big),
    ensures
        closed_under(s, big, dir),
{
    reveal(closed_under);
    assert forall|n: (i32, i32)| #[trigger] s.contains(n) implies exists|m: (i32, i32)| s.contains(m) && steps_to(big, n, m, dir) by {
        let m = choose|m: (i32, i32)| s.contains(m) && steps_to(small, n, m, dir);
        assert(steps_to(big, n, m, dir));
    }
}

/// Closure of `s` under the edges carries over to the edges that join nodes
/// of any set holding `s`.
proof fn lemma_closed_restrict(s: Set<(i32, i32)>, t: Set<(i32, i32)>, edges: Set<((i32, i32), (i32, i32))>, dir: EdgeDir)
    requires
        closed_under(s, edges, dir),
        s.subset_of(t),
    ensures
        closed_under(s, restrict(edges, t), dir),
{
    reveal(closed_under);
    assert forall|n: (i32, i32)| #[trigger] s.contains(n) implies exists|m: (i32, i32)| s.contains(m) && steps_to(restrict(edges, t), n, m, dir) by {
        let m = choose|m: (i32, i32)| s.contains(m) && steps_to(edges, n, m, dir);
        match dir {
            EdgeDir::Outgoing => assert(restrict(edges, t).contains((n, m))),
            EdgeDir::Incoming => assert(restrict(edges, t).contains((m, n))),
        }
    }
}

/// Restricting to `a` and then to a part `b` of it is restricting to `b`.
proof fn lemma_restrict_twice(edges: Set<((i32, i32), (i32, i32))>, a: Set<(i32, i32)>, b: Set<(i32, i32)>)
    requires
        b.subset_of(a),
    ensures
        restrict(restrict(edges, a), b) == restrict(edges, b),
{
    assert(restrict(restrict(edges, a), b) =~= restrict(edges, b));
}

/// After the nodes without an incoming edge are removed from what the
/// removal of nodes without an outgoing edge left, every node left still
/// has an outgoing edge to a node left.
proof fn lemma_out_closed_after_in(s1: Set<(i32, i32)>, s2: Set<(i32, i32)>, edges0: Set<((i32, i32), (i32, i32))>)
    requires
        closed_under(s1, edges0, EdgeDir::Outgoing),
        s2.subset_of(s1),
        closed_under(s2, restrict(edges0, s1), EdgeDir::Incoming),
        forall|s: Set<(i32, i32)>| #[trigger] closed_under(s, restrict(edges0, s1), EdgeDir::Incoming) && s.subset_of(s1)
            ==> s.subset_of(s2),
    ensures
        closed_under(s2, edges0, EdgeDir::Outgoing),
{
    reveal(closed_under);
    let e1 = restrict(edges0, s1);
    assert forall|n: (i32, i32)| #[trigger] s2.contains(n) implies exists|m: (i32, i32)| s2.contains(m) && steps_to(edges0, n, m, EdgeDir::Outgoing) by {
        let m = choose|m: (i32, i32)| s1.contains(m) && steps_to(edges0, n, m, EdgeDir::Outgoing);
        let t = s2.insert(m);
        assert forall|x: (i32, i32)| #[trigger] t.contains(x) implies exists|y: (i32, i32)| t.contains(y) && steps_to(e1, x, y, EdgeDir::Incoming) by {
            if x == m {
                assert(e1.contains((n, m)));
                assert(t.contains(n) && steps_to(e1, x, n, EdgeDir::Incoming));
            } else {
                let y = choose|y: (i32, i32)| s2.contains(y) && steps_to(e1, x, y, EdgeDir::Incoming);
                assert(t.contains(y));
            }
        }
        assert(closed_under(t, e1, EdgeDir::Incoming));
        assert(t.subset_of(s2));
        assert(s2.contains(m));
    }
}

/// Removes nodes with no outgoing edge, then nodes with no incoming edge.
/// What is left is the largest set of the nodes in which every node has an
/// outgoing edge and an incoming edge to and from nodes of the set, with the
/// edges between its nodes.
fn remove_nodes_with_no_neighbors_of_any_kind(g: &mut GraphMap<(i32, i32), (), Directed, RandomState>)
    requires
        graph_wf(*old(g)),
    ensures
        graph_wf(*final(g)),
        graph_nodes(*final(g)).subset_of(graph_nodes(*old(g))),
        graph_edges(*final(g)) == restrict(graph_edges(*old(g)), graph_nodes(*final(g))),
        closed_both(graph_nodes(*final(g)), graph_edges(*old(g))),
        forall|s: Set<(i32, i32)>| #[trigger] closed_both(s, graph_edges(*old(g))) && s.subset_of(graph_nodes(*old(g)))
            ==> s.subset_of(graph_nodes(*final(g))),
{
    let ghost g0 = *g;
    remove_nodes_with_no_neighbors_of_kind(g, EdgeDir::Outgoing);
    let ghost g1 = *g;
    remove_nodes_with_no_neighbors_of_kind(g, EdgeDir::Incoming);
    proof {
        reveal(closed_both);
        let e0 = graph_edges(g0);
        let s1 = graph_nodes(g1);
        let s2 = graph_nodes(*g);
        lemma_restrict_subset(e0, s1);
        lemma_restrict_twice(e0, s1, s2);
        lemma_closed_more_edges(s2, graph_edges(g1), e0, EdgeDir::Incoming);
        lemma_out_closed_after_in(s1, s2, e0);
        assert forall|s: Set<(i32, i32)>| #[trigger] closed_both(s, e0) && s.subset_of(graph_nodes(g0)) implies s.subset_of(s2) by {
            assert(closed_under(s, e0, EdgeDir::Outgoing));
            assert(s.subset_of(s1));
            lemma_closed_restrict(s, s1, e0, EdgeDir::Incoming);
            assert(closed_under(s, graph_edges(g1), EdgeDir::Incoming));
        }
    }
}

/// Node `n` is a stub: its one incoming edge comes from the node its one
/// outgoing edge goes to.
pub open spec fn is_stub(edges: Set<((i32, i32), (i32, i32))>, n: (i32, i32)) -> bool {
    exists|m: (i32, i32)| #[trigger] neighbors_spec(edges, n, EdgeDir::Incoming) == set![m]
        && neighbors_spec(edges, n, EdgeDir::Outgoing) == set![m]
}

/// A list with no duplicates holds exactly one node `m` when its set is `{m}`.
proof fn lemma_single(v: Seq<(i32, i32)>)
    requires
        v.no_duplicates(),
    ensures
        (v.len() == 1) <==> exists|m: (i32, i32)| v.to_set() == set![m],
        v.len() == 1 ==> v.to_set() == set![v[0]],
{
    v.unique_seq_to_set();
    if v.len() == 1 {
        assert(v.to_set() =~= set![v[0]]);
    }
    if exists|m: (i32, i32)| v.to_set() == set![m] {
        let m = choose|m: (i32, i32)| v.to_set() == set![m];
        assert(set![m].len() == 1);
    }
}

/// Removing the nodes of `order` from `nodes` one at a time, each is, when
/// it goes, a stub of the edges between the nodes left.
pub open spec fn stub_peel(edges: Set<((i32, i32), (i32, i32))>, nodes: Set<(i32, i32)>, order: Seq<(i32, i32)>) -> bool
    decreases order.len(),
{
    if order.len() == 0 {
        true
    } else {
        let rest = nodes.difference(order.drop_last().to_set());
        &&& stub_peel(edges, nodes, order.drop_last())
        &&& rest.contains(order.last())
        &&& is_stub(restrict(edges, rest), order.last())
    }
}

/// Removes stubs, one at a time, with their edges, until none is left.
fn remove_stubs(g: &mut GraphMap<(i32, i32), (), Directed, RandomState>)
    requires
        graph_wf(*old(g)),
    ensures
        graph_wf(*final(g)),
        exists|order: Seq<(i32, i32)>| #[trigger] stub_peel(graph_edges(*old(g)), graph_nodes(*old(g)), order)
            && graph_nodes(*final(g)) == graph_nodes(*old(g)).difference(order.to_set()),
        graph_nodes(*final(g)).subset_of(graph_nodes(*old(g))),
        graph_edges(*final(g)) == restrict(graph_edges(*old(g)), graph_nodes(*final(g))),
        forall|n: (i32, i32)| #[trigger] graph_nodes(*final(g)).contains(n) ==> !is_stub(graph_edges(*final(g)), n),
{
    let ghost nodes0 = graph_nodes(*g);
    let ghost edges0 = graph_edges(*g);
    let ghost mut order: Seq<(i32, i32)> = Seq::empty();
    proof {
        assert(edges0 =~= restrict(edges0, nodes0));
        assert(nodes0.difference(order.to_set()) =~= nodes0);
    }
    loop
        invariant
            graph_wf(*g),
            graph_nodes(*g).subset_of(nodes0),
            graph_edges(*g) == restrict(edges0, graph_nodes(*g)),
            stub_peel(edges0, nodes0, order),
            graph_nodes(*g) == nodes0.difference(order.to_set()),
        ensures
            graph_wf(*g),
            graph_nodes(*g).subset_of(nodes0),
            graph_edges(*g) == restrict(edges0, graph_nodes(*g)),
            forall|n: (i32, i32)| #[trigger] graph_nodes(*g).contains(n) ==> !is_stub(graph_edges(*g), n),
            stub_peel(edges0, nodes0, order),
            graph_nodes(*g) == nodes0.difference(order.to_set()),
        decreases graph_nodes(*g).len(),
    {
        let ns = graph_nodes_vec(g);
        let mut found: Option<(i32, i32)> = None;
        let mut i: usize = 0;
        while i < ns.len()
            invariant_except_break
                found is None,
            invariant
                i <= ns@.len(),
                forall|j: int| 0 <= j < i ==> !is_stub(graph_edges(*g), #[trigger] ns@[j]),
            ensures
                found matches Some(n) ==> ns@.contains(n) && is_stub(graph_edges(*g), n),
                found is None ==> forall|j: int| 0 <= j < ns@.len() ==> !is_stub(graph_edges(*g), #[trigger] ns@[j]),
            decreases ns@.len() - i,
        {
            let n = ns[i];
            let ins = graph_neighbors(g, n, EdgeDir::Incoming);
            let outs = graph_neighbors(g, n, EdgeDir::Outgoing);
            proof {
                lemma_single(ins@);
                lemma_single(outs@);
            }
            if ins.len() == 1 && outs.len() == 1 && ins[0].0 == outs[0].0 && ins[0].1 == outs[0].1 {
                found = Some(n);
                proof {
                    assert(ns@[i as int] == n);
                    assert(ins@[0] == outs@[0]);
                    assert(neighbors_spec(graph_edges(*g), n, EdgeDir::Incoming) == set![ins@[0]]
                        && neighbors_spec(graph_edges(*g), n, EdgeDir::Outgoing) == set![ins@[0]]);
                }
                break;
            }
            proof {
                if is_stub(graph_edges(*g), n) {
                    let m = choose|m: (i32, i32)| #[trigger] neighbors_spec(graph_edges(*g), n, EdgeDir::Incoming) == set![m]
                        && neighbors_spec(graph_edges(*g), n, EdgeDir::Outgoing) == set![m];
                    assert(ins@.to_set() == set![m]);
                    assert(outs@.to_set() == set![m]);
                    assert(ins@.len() == 1 && outs@.len() == 1);
                    assert(set![ins@[0]].contains(m));
                    assert(set![outs@[0]].contains(m));
                    assert(false);
                }
                assert(ns@[i as int] == n);
            }
            i = i + 1;
        }
        match found {
            None => {
                proof {
                    assert forall|n: (i32, i32)| #[trigger] graph_nodes(*g).contains(n) implies !is_stub(graph_edges(*g), n) by {
                        assert(ns@.to_set().contains(n));
                        let j = choose|j: int| 0 <= j < ns@.len() && ns@[j] == n;
                    }
                }
                break;
            },
            Some(n) => {
                let ghost g0 = *g;
                proof {
                    assert(ns@.to_set().contains(n));
                }
                let _ = graph_remove_node(g, n);
                proof {
                    lemma_remove_node_wf(g0, *g, n);
                    lemma_restrict_remove(graph_edges(g0), edges0, graph_nodes(g0), n);
                    let order0 = order;
                    order = order.push(n);
                    assert(order.drop_last() =~= order0);
                    assert(order.last() == n);
                    assert(graph_nodes(*g) =~= nodes0.difference(order.to_set()));
                    assert(stub_peel(edges0, nodes0, order));
                }
            },
        }
    }
}

/// The edge `e` run the other way.
pub open spec fn reversed_edge(e: ((i32, i32), (i32, i32))) -> ((i32, i32), (i32, i32)) {
    (e.1, e.0)
}

/// Removes, a pair at a time, every edge whose reverse is also an edge; the
/// nodes stay.
fn remove_dual_edges(g: &mut GraphMap<(i32, i32), (), Directed, RandomState>)
    requires
        graph_wf(*old(g)),
    ensures
        graph_wf(*final(g)),
        graph_nodes(*final(g)) == graph_nodes(*old(g)),
        graph_edges(*final(g)) == graph_edges(*old(g)).filter(|e: ((i32, i32), (i32, i32))| !graph_edges(*old(g)).contains(reversed_edge(e))),
{
    let ghost nodes0 = graph_nodes(*g);
    let ghost edges0 = graph_edges(*g);
    loop
        invariant
            graph_wf(*g),
            graph_nodes(*g) == nodes0,
            graph_edges(*g).subset_of(edges0),
            forall|e: ((i32, i32), (i32, i32))| #[trigger] edges0.contains(e) && !edges0.contains(reversed_edge(e)) ==> graph_edges(*g).contains(e),
            forall|e: ((i32, i32), (i32, i32))| #[trigger] graph_edges(*g).contains(e) && edges0.contains(reversed_edge(e)) ==> graph_edges(*g).contains(reversed_edge(e)),
        ensures
            graph_wf(*g),
            graph_nodes(*g) == nodes0,
            graph_edges(*g) == edges0.filter(|e: ((i32, i32), (i32, i32))| !edges0.contains(reversed_edge(e))),
        decreases graph_edges(*g).len(),
    {
        let es = graph_edges_vec(g);
        let mut found: Option<((i32, i32), (i32, i32))> = None;
        let mut i: usize = 0;
        while i < es.len()
            invariant_except_break
                found is None,
            invariant
                i <= es@.len(),
                forall|j: int| 0 <= j < i ==> !graph_edges(*g).contains(reversed_edge(#[trigger] es@[j])),
            ensures
                found matches Some(e) ==> es@.contains(e) && graph_edges(*g).contains(reversed_edge(e)),
                found is None ==> forall|j: int| 0 <= j < es@.len() ==> !graph_edges(*g).contains(reversed_edge(#[trigger] es@[j])),
            decreases es@.len() - i,
        {
            let e = es[i];
            if graph_contains_edge(g, e.1, e.0) {
                found = Some(e);
                proof {
                    assert(es@[i as int] == e);
                }
                break;
            }
            i = i + 1;
        }
        match found {
            None => {
                proof {
                    assert forall|e: ((i32, i32), (i32, i32))| #[trigger] graph_edges(*g).contains(e) implies !edges0.contains(reversed_edge(e)) by {
                        assert(es@.to_set().contains(e));
                        let j = choose|j: int| 0 <= j < es@.len() && es@[j] == e;
                        assert(!graph_edges(*g).contains(reversed_edge(es@[j])));
                    }
                    assert(graph_edges(*g) =~= edges0.filter(|e: ((i32, i32), (i32, i32))| !edges0.contains(reversed_edge(e))));
                }
                break;
            },
            Some(e) => {
                let ghost g0 = *g;
                proof {
                    assert(es@.to_set().contains(e));
                }
                let _ = graph_remove_edge(g, e.0, e.1);
                let _ = graph_remove_edge(g, e.1, e.0);
                proof {
                    assert(graph_edges(*g) == graph_edges(g0).remove(e).remove(reversed_edge(e)));
                    assert(edges0.contains(e) && edges0.contains(reversed_edge(e)));
                    assert forall|x: ((i32, i32), (i32, i32))| #[trigger] graph_edges(*g).contains(x) && edges0.contains(reversed_edge(x)) implies graph_edges(*g).contains(reversed_edge(x)) by {
                        assert(graph_edges(g0).contains(x));
                        assert(graph_edges(g0).contains(reversed_edge(x)));
                        assert(reversed_edge(reversed_edge(x)) == x);
                    }
                    assert forall|x: ((i32, i32), (i32, i32))| #[trigger] edges0.contains(x) && !edges0.contains(reversed_edge(x)) implies graph_edges(*g).contains(x) by {
                        assert(graph_edges(g0).contains(x));
                        assert(x != e);
                        assert(reversed_edge(reversed_edge(e)) == e);
                        assert(x != reversed_edge(e));
                    }
                    assert forall|x: ((i32, i32), (i32, i32))| #[trigger] graph_edges(*g).contains(x) implies graph_nodes(*g).contains(x.0) && graph_nodes(*g).contains(x.1) by {
                        assert(graph_edges(g0).contains(x));
                    }
                    assert(graph_edges(g0).contains(e));
                    assert(graph_edges(g0).remove(e).len() < graph_edges(g0).len());
                }
            },
        }
    }
}

/// Whether `p` is one of the points of `v`.
fn vec_contains_pt(v: &Vec<Pt>, p: &Pt) -> (r: bool)
    ensures
        r == v@.contains(*p),
{
    let mut k: usize = 0;
    while k < v.len()
        invariant
            k <= v@.len(),
            forall|j: int| 0 <= j < k ==> v@[j] != *p,
        decreases v@.len() - k,
    {
        if v[k] == *p {
            proof {
                assert(v@[k as int] == *p);
            }
            return true;
        }
        k = k + 1;
    }
    false
}

/// Node `n` has more than one neighbour in direction `dir`.
pub open spec fn branches(edges: Set<((i32, i32), (i32, i32))>, n: (i32, i32), dir: EdgeDir) -> bool {
    neighbors_spec(edges, n, dir).len() > 1
}

/// The first node of `ns` with more than one neighbour in direction `dir`.
fn first_branching(g: &GraphMap<(i32, i32), (), Directed, RandomState>, ns: &Vec<(i32, i32)>, dir: EdgeDir) -> (r: Option<(i32, i32)>)
    ensures
        r is None <==> forall|k: int| 0 <= k < ns@.len() ==> !branches(graph_edges(*g), #[trigger] ns@[k], dir),
        r matches Some(n) ==> exists|k: int| 0 <= k < ns@.len() && ns@[k] == n && branches(graph_edges(*g), n, dir)
            && forall|j: int| 0 <= j < k ==> !branches(graph_edges(*g), #[trigger] ns@[j], dir),
{
    let mut k: usize = 0;
    while k < ns.len()
        invariant
            k <= ns@.len(),
            forall|j: int| 0 <= j < k ==> !branches(graph_edges(*g), #[trigger] ns@[j], dir),
        decreases ns@.len() - k,
    {
        let nb = graph_neighbors(g, ns[k], dir);
        proof {
            nb@.unique_seq_to_set();
        }
        if nb.len() > 1 {
            proof {
                assert(branches(graph_edges(*g), ns@[k as int], dir));
            }
            return Some(ns[k]);
        }
        k = k + 1;
    }
    None
}

/// The point of node `n`.
fn pt_of_exec(n: (i32, i32)) -> (r: Pt)
    ensures
        r == pt_of(n),
{
    Pt { x: n.0, y: n.1 }
}

/// The first index from `i` on at which `outs` holds a node whose point is
/// in `s`; the length of `outs` when there is none.
pub open spec fn first_index_in(outs: Seq<(i32, i32)>, s: Seq<Pt>, i: int) -> int
    decreases outs.len() - i,
{
    if i >= outs.len() {
        outs.len() as int
    } else if s.contains(pt_of(outs[i])) {
        i
    } else {
        first_index_in(outs, s, i + 1)
    }
}

/// How many of the first `k` nodes of `outs` have their point in `s`.
pub open spec fn count_in(outs: Seq<(i32, i32)>, s: Seq<Pt>, k: int) -> nat
    decreases k,
{
    if k <= 0 {
        0
    } else {
        count_in(outs, s, k - 1) + if s.contains(pt_of(outs[k - 1])) { 1nat } else { 0nat }
    }
}

/// Where the walk goes next among `outs`: the node it has been to, when
/// exactly one of them is among `pts`; else the first that is a point of
/// `a_pts`; else nowhere.
pub open spec fn next_step(outs: Seq<(i32, i32)>, pts: Seq<Pt>, a_pts: Seq<Pt>) -> Option<(i32, i32)> {
    if count_in(outs, pts, outs.len() as int) == 1 {
        Some(outs[first_index_in(outs, pts, 0)])
    } else if first_index_in(outs, a_pts, 0) < outs.len() {
        Some(outs[first_index_in(outs, a_pts, 0)])
    } else {
        None
    }
}

/// The nodes of `outs` whose points are among `prefix`.
pub open spec fn back_to(outs: Set<(i32, i32)>, prefix: Seq<Pt>) -> Set<(i32, i32)> {
    outs.filter(|m: (i32, i32)| prefix.contains(pt_of(m)))
}

/// The number of nodes of `outs`, which has no node twice, whose points are
/// in `s` is the number of such nodes in its set.
proof fn lemma_count_in_set(outs: Seq<(i32, i32)>, s: Seq<Pt>, k: int)
    requires
        outs.no_duplicates(),
        0 <= k <= outs.len(),
    ensures
        count_in(outs, s, k) == back_to(outs.take(k).to_set(), s).len(),
        back_to(outs.take(k).to_set(), s).finite(),
    decreases k,
{
    let f = |m: (i32, i32)| s.contains(pt_of(m));
    if k == 0 {
        assert(outs.take(0).to_set().filter(f) =~= Set::<(i32, i32)>::empty());
    } else {
        lemma_count_in_set(outs, s, k - 1);
        let before = outs.take(k - 1).to_set();
        let x = outs[k - 1];
        assert(outs.take(k).to_set() =~= before.insert(x)) by {
            assert(outs.take(k) =~= outs.take(k - 1).push(x));
            outs.take(k - 1).lemma_push_to_set_commute(x);
        }
        assert(!before.contains(x)) by {
            let t = outs.take(k - 1);
            if before.contains(x) {
                let j = choose|j: int| 0 <= j < t.len() && #[trigger] t[j] == x;
                assert(outs[j] == x);
            }
        }
        if f(x) {
            assert(before.insert(x).filter(f) =~= before.filter(f).insert(x));
        } else {
            assert(before.insert(x).filter(f) =~= before.filter(f));
        }
    }
}

/// Where the walk goes next among `outs`, the nodes it can reach: the one
/// it has been to, when exactly one of them is among `pts`; else the first
/// that is a point of `a`; else nowhere.
fn pick_next(outs: &Vec<(i32, i32)>, pts: &Vec<Pt>, a: &Pg) -> (r: Option<(i32, i32)>)
    requires
        2 <= outs@.len() <= 3,
    ensures
        r == next_step(outs@, pts@, a.pts@),
        r matches Some(n) ==> outs@.contains(n),
        count_in(outs@, pts@, outs@.len() as int) == 1 ==> (r matches Some(m) && pts@.contains(pt_of(m))),
        count_in(outs@, pts@, outs@.len() as int) != 1 ==> (r matches Some(m) ==> a.pts@.contains(pt_of(m)))
            && (r is None <==> forall|k: int| 0 <= k < outs@.len() ==> !a.pts@.contains(pt_of(#[trigger] outs@[k]))),
{
    let n = outs.len();
    let mut seen: Option<(i32, i32)> = None;
    let mut seen_count: usize = 0;
    let mut k: usize = 0;
    while k < n
        invariant
            n == outs@.len(),
            k <= n,
            seen_count <= k,
            seen_count == count_in(outs@, pts@, k as int),
            seen is None <==> seen_count == 0,
            seen is None ==> first_index_in(outs@, pts@, 0) == first_index_in(outs@, pts@, k as int),
            seen matches Some(u) ==> 0 <= first_index_in(outs@, pts@, 0) < k
                && u == outs@[first_index_in(outs@, pts@, 0)] && pts@.contains(pt_of(u)),
        decreases n - k,
    {
        if vec_contains_pt(pts, &pt_of_exec(outs[k])) {
            if seen_count == 0 {
                seen = Some(outs[k]);
            }
            seen_count = seen_count + 1;
        }
        k = k + 1;
    }
    if seen_count == 1 {
        proof {
            assert(outs@.contains(outs@[first_index_in(outs@, pts@, 0)]));
        }
        return seen;
    }
    let mut j: usize = 0;
    while j < n
        invariant
            n == outs@.len(),
            j <= n,
            count_in(outs@, pts@, n as int) != 1,
            first_index_in(outs@, a.pts@, 0) == first_index_in(outs@, a.pts@, j as int),
            forall|k: int| 0 <= k < j ==> !a.pts@.contains(pt_of(#[trigger] outs@[k])),
        decreases n - j,
    {
        if vec_contains_pt(&a.pts, &pt_of_exec(outs[j])) {
            proof {
                assert(outs@.contains(outs@[j as int]));
            }
            return Some(outs[j]);
        }
        j = j + 1;
    }
    None
}

/// How many nodes `n` reaches along one edge.
pub open spec fn out_degree(edges: Set<((i32, i32), (i32, i32))>, n: (i32, i32)) -> nat {
    neighbors_spec(edges, n, EdgeDir::Outgoing).len()
}

/// Some two nodes are joined by edges both ways; a node with an edge to
/// itself counts.
pub open spec fn has_pair(edges: Set<((i32, i32), (i32, i32))>) -> bool {
    exists|x: (i32, i32), y: (i32, i32)| #[trigger] edges.contains((x, y)) && edges.contains((y, x))
}

/// Closure both ways under the edges carries over to the edges between the
/// nodes of the set.
proof fn lemma_closed_both_restrict(s: Set<(i32, i32)>, edges: Set<((i32, i32), (i32, i32))>)
    requires
        closed_both(s, edges),
    ensures
        closed_both(s, restrict(edges, s)),
{
    reveal(closed_both);
    lemma_closed_restrict(s, s, edges, EdgeDir::Outgoing);
    lemma_closed_restrict(s, s, edges, EdgeDir::Incoming);
}

/// The nodes of a well-formed graph reached from `n` along one edge are
/// nodes of the graph, so there are finitely many.
proof fn lemma_neighbors_finite(g: GraphMap<(i32, i32), (), Directed, RandomState>, n: (i32, i32), dir: EdgeDir)
    requires
        graph_wf(g),
    ensures
        neighbors_spec(graph_edges(g), n, dir).subset_of(graph_nodes(g)),
        neighbors_spec(graph_edges(g), n, dir).finite(),
{
    assert forall|m: (i32, i32)| #[trigger] neighbors_spec(graph_edges(g), n, dir).contains(m) implies graph_nodes(g).contains(m) by {
        match dir {
            EdgeDir::Outgoing => assert(graph_edges(g).contains((n, m))),
            EdgeDir::Incoming => assert(graph_edges(g).contains((m, n))),
        }
    }
    vstd::set_lib::lemma_len_subset(neighbors_spec(graph_edges(g), n, dir), graph_nodes(g));
}

/// The walk has no way on from `n`: two or three edges leave `n`, and none
/// of them leads to a point of `a_pts`.
pub open spec fn dead_end(edges: Set<((i32, i32), (i32, i32))>, a_pts: Seq<Pt>, n: (i32, i32)) -> bool {
    &&& 2 <= out_degree(edges, n) <= 3
    &&& forall|m: (i32, i32)| #[trigger] neighbors_spec(edges, n, EdgeDir::Outgoing).contains(m) ==> !a_pts.contains(pt_of(m))
}

/// The edge that step `k` of the point list `w` takes, from its `k`-th
/// point to the next.
pub open spec fn step_edge(w: Seq<Pt>, k: int) -> ((i32, i32), (i32, i32)) {
    (key_of(w[k]), key_of(w[k + 1]))
}

/// Step `k` of `w` is one along an edge: any step but a last one back to the
/// first point, which only closes the list.
pub open spec fn proper_step(w: Seq<Pt>, k: int) -> bool {
    0 <= k < w.len() - 1 && !(k == w.len() - 2 && w[k + 1] == w[0])
}

/// `w` is a walk along `edges`: every step of it, save a last one back to
/// its first point, follows an edge.
pub open spec fn is_walk(edges: Set<((i32, i32), (i32, i32))>, w: Seq<Pt>) -> bool {
    w.len() >= 1 && forall|k: int| #[trigger] proper_step(w, k) ==> edges.contains(step_edge(w, k))
}

/// No edge that a step of `w` follows is among `edges`.
pub open spec fn walk_gone(edges: Set<((i32, i32), (i32, i32))>, w: Seq<Pt>) -> bool {
    forall|k: int| #[trigger] proper_step(w, k) ==> !edges.contains(step_edge(w, k))
}

/// `rm` is what the walk `w` took: the edges of its steps and, when it ends
/// by coming back to one of its points, the edge by which it came back.
pub open spec fn walk_took(w: Seq<Pt>, rm: Set<((i32, i32), (i32, i32))>) -> bool {
    &&& forall|k: int| #[trigger] proper_step(w, k) ==> rm.contains(step_edge(w, k))
    &&& forall|e: ((i32, i32), (i32, i32))| #[trigger] rm.contains(e) ==>
        (exists|k: int| #[trigger] proper_step(w, k) && e == step_edge(w, k))
        || ((w.len() == 1 || w[w.len() - 1] != w[0]) && e.0 == key_of(w[w.len() - 1])
            && exists|j: int| 0 <= j < w.len() && #[trigger] key_of(w[j]) == e.1)
}

/// `cn` and `ce` are what is left of the graph with nodes `ns` and edges
/// `es` once nodes without edges in or out are removed: the largest set of
/// its nodes in which every node has an edge out to and an edge in from a
/// node of the set, with the edges between them.
pub open spec fn is_core(ns: Set<(i32, i32)>, es: Set<((i32, i32), (i32, i32))>, cn: Set<(i32, i32)>, ce: Set<((i32, i32), (i32, i32))>) -> bool {
    &&& cn.subset_of(ns)
    &&& ce == restrict(es, cn)
    &&& closed_both(cn, es)
    &&& forall|s: Set<(i32, i32)>| #[trigger] closed_both(s, es) && s.subset_of(ns) ==> s.subset_of(cn)
}

/// The walk `w` along `edges` ended as the walk of a crop ends: it came back
/// to one of its points, by an edge it took (`rm`) from its last point; or
/// it found no way on from its last point and was closed back to its first.
pub open spec fn walk_ends(edges: Set<((i32, i32), (i32, i32))>, a_pts: Seq<Pt>, w: Seq<Pt>, rm: Set<((i32, i32), (i32, i32))>) -> bool {
    ||| w.no_duplicates() && exists|j: int| 0 <= j < w.len() && #[trigger] rm.contains((key_of(w[w.len() - 1]), key_of(w[j])))
    ||| w.len() >= 2 && w[w.len() - 1] == w[0] && w.drop_last().no_duplicates()
        && dead_end(edges, a_pts, key_of(w[w.len() - 2]))
}

/// From the points `prefix` the walk goes on to `next` as the walk of a crop
/// goes on from the last of them: to a point it has been to when exactly
/// one edge from there leads back among `prefix`; else to a point of
/// `a_pts` when an edge from there leads to one.
pub open spec fn goes_on_to(edges: Set<((i32, i32), (i32, i32))>, a_pts: Seq<Pt>, prefix: Seq<Pt>, next: Pt) -> bool {
    let outs = neighbors_spec(edges, key_of(prefix[prefix.len() - 1]), EdgeDir::Outgoing);
    &&& back_to(outs, prefix).len() == 1 ==> prefix.contains(next)
    &&& back_to(outs, prefix).len() != 1 && (exists|m: (i32, i32)| #[trigger] outs.contains(m) && a_pts.contains(pt_of(m)))
        ==> a_pts.contains(next)
}

/// Step `k` of `w` goes on as the walk of a crop goes on.
pub open spec fn rule_at(edges: Set<((i32, i32), (i32, i32))>, a_pts: Seq<Pt>, w: Seq<Pt>, k: int) -> bool {
    goes_on_to(edges, a_pts, w.take(k + 1), w[k + 1])
}

/// The walk `w` starts where the walk of a crop starts: at a node with more
/// than one outgoing edge when the graph has one, else at a node with more
/// than one incoming edge when it has one.
pub open spec fn starts_well(edges: Set<((i32, i32), (i32, i32))>, nodes: Set<(i32, i32)>, w: Seq<Pt>) -> bool {
    &&& nodes.contains(key_of(w[0]))
    &&& (exists|n: (i32, i32)| #[trigger] nodes.contains(n) && branches(edges, n, EdgeDir::Outgoing))
        ==> branches(edges, key_of(w[0]), EdgeDir::Outgoing)
    &&& (exists|n: (i32, i32)| #[trigger] nodes.contains(n) && branches(edges, n, EdgeDir::Incoming))
        && !(exists|n: (i32, i32)| #[trigger] nodes.contains(n) && branches(edges, n, EdgeDir::Outgoing))
        ==> branches(edges, key_of(w[0]), EdgeDir::Incoming)
}

/// `w` is how the walk of a crop begins on the graph with nodes `nodes` and
/// edges `edges`: at a point where it starts, going on along an edge from
/// each of its points but the last as the rule says, and never coming back
/// to a point.
pub open spec fn walk_prefix_ok(edges: Set<((i32, i32), (i32, i32))>, nodes: Set<(i32, i32)>, a_pts: Seq<Pt>, w: Seq<Pt>) -> bool {
    &&& w.len() >= 1
    &&& w.no_duplicates()
    &&& starts_well(edges, nodes, w)
    &&& forall|k: int| 0 <= k < w.len() - 1 ==> edges.contains(#[trigger] step_edge(w, k)) && rule_at(edges, a_pts, w, k)
}

/// The walk `w` along `edges`, which took the edges `rm` and ended as the
/// walk of a crop of a polygon with points `a_pts` ends, left the graph with
/// nodes `cn` and edges `ce`: what is left of the graph without `rm` once
/// nodes without edges in or out are removed.
pub open spec fn walked_out(edges: Set<((i32, i32), (i32, i32))>, nodes: Set<(i32, i32)>, a_pts: Seq<Pt>, w: Seq<Pt>, rm: Set<((i32, i32), (i32, i32))>, cn: Set<(i32, i32)>, ce: Set<((i32, i32), (i32, i32))>) -> bool {
    &&& is_walk(edges, w)
    &&& starts_well(edges, nodes, w)
    &&& forall|k: int| #[trigger] proper_step(w, k) ==> rule_at(edges, a_pts, w, k)
    &&& walk_ends(edges, a_pts, w, rm)
    &&& rm.subset_of(edges)
    &&& walk_took(w, rm)
    &&& is_core(nodes, edges.difference(rm), cn, ce)
}

/// When no candidate from index `i` on has its point in `s`, the search
/// returns the length.
proof fn lemma_first_index_none(outs: Seq<(i32, i32)>, s: Seq<Pt>, i: int)
    requires
        0 <= i,
        first_index_in(outs, s, i) >= outs.len(),
    ensures
        forall|k: int| i <= k < outs.len() ==> !s.contains(pt_of(#[trigger] outs[k])),
    decreases outs.len() - i,
{
    if i < outs.len() {
        lemma_first_index_none(outs, s, i + 1);
    }
}

/// A graph in which every node has edges in and out within it is what the
/// removal of nodes without them leaves unchanged.
proof fn lemma_any_kind_keeps(g0: GraphMap<(i32, i32), (), Directed, RandomState>, g: GraphMap<(i32, i32), (), Directed, RandomState>)
    requires
        graph_wf(g0),
        closed_both(graph_nodes(g0), graph_edges(g0)),
        graph_nodes(g).subset_of(graph_nodes(g0)),
        graph_edges(g) == restrict(graph_edges(g0), graph_nodes(g)),
        forall|s: Set<(i32, i32)>| #[trigger] closed_both(s, graph_edges(g0)) && s.subset_of(graph_nodes(g0))
            ==> s.subset_of(graph_nodes(g)),
    ensures
        graph_nodes(g) == graph_nodes(g0),
        graph_edges(g) == graph_edges(g0),
{
    assert(graph_nodes(g0).subset_of(graph_nodes(g)));
    assert(graph_nodes(g) =~= graph_nodes(g0));
    assert(restrict(graph_edges(g0), graph_nodes(g0)) =~= graph_edges(g0));
}

/// Going on from the points `pts`, whose last is node `curr`, to the node
/// `nx` that the walk picks among the nodes `outs` that `curr` reaches, is
/// going on as the walk of a crop goes on.
proof fn lemma_goes_on(edges: Set<((i32, i32), (i32, i32))>, a_pts: Seq<Pt>, pts: Seq<Pt>, curr: (i32, i32), outs: Seq<(i32, i32)>, nx: (i32, i32))
    requires
        pts.len() >= 1,
        key_of(pts[pts.len() - 1]) == curr,
        outs.no_duplicates(),
        outs.to_set() == neighbors_spec(edges, curr, EdgeDir::Outgoing),
        1 <= outs.len() <= 3,
        outs.len() == 1 ==> nx == outs[0],
        outs.len() >= 2 ==> Some(nx) == next_step(outs, pts, a_pts),
        count_in(outs, pts, outs.len() as int) == 1 && outs.len() >= 2 ==> pts.contains(pt_of(nx)),
        count_in(outs, pts, outs.len() as int) != 1 && outs.len() >= 2 ==> a_pts.contains(pt_of(nx))
            || forall|k: int| 0 <= k < outs.len() ==> !a_pts.contains(pt_of(#[trigger] outs[k])),
    ensures
        goes_on_to(edges, a_pts, pts, pt_of(nx)),
{
    let os = neighbors_spec(edges, curr, EdgeDir::Outgoing);
    lemma_count_in_set(outs, pts, outs.len() as int);
    assert(outs.take(outs.len() as int) =~= outs);
    let back = back_to(os, pts);
    if outs.len() == 1 {
        lemma_single(outs);
        if back.len() == 1 {
            vstd::set::axiom_set_choose_len(back);
            assert(os.contains(back.choose()));
        }
        if exists|m: (i32, i32)| #[trigger] os.contains(m) && a_pts.contains(pt_of(m)) {
            let m = choose|m: (i32, i32)| #[trigger] os.contains(m) && a_pts.contains(pt_of(m));
            assert(set![outs[0]].contains(m));
        }
    } else {
        if back.len() != 1 && exists|m: (i32, i32)| #[trigger] os.contains(m) && a_pts.contains(pt_of(m)) {
            let m = choose|m: (i32, i32)| #[trigger] os.contains(m) && a_pts.contains(pt_of(m));
            assert(outs.to_set().contains(m));
            let k = choose|k: int| 0 <= k < outs.len() && #[trigger] outs[k] == m;
            assert(a_pts.contains(pt_of(outs[k])));
        }
    }
}

/// Walks one closed piece out of the graph: from a node where paths branch
/// (else any node), along outgoing edges, removing each edge it takes, until
/// it comes back to a point it has been to or has nowhere to go (then it
/// closes the piece). Nodes left with no edges in or out are then removed.
/// A walk that yields two equal points gives no polygon; a walk that reaches
/// a node with no way on, or more than three, fails.
fn extract_polygon(g: &mut GraphMap<(i32, i32), (), Directed, RandomState>, a: &Pg) -> (r: Result<Option<Pg>, CropError>)
    requires
        graph_wf(*old(g)),
    ensures
        graph_wf(*final(g)),
        graph_nodes(*final(g)).subset_of(graph_nodes(*old(g))),
        graph_edges(*final(g)).subset_of(graph_edges(*old(g))),
        r matches Ok(Some(p)) ==> p.kind == PolygonKind::Closed
            && (forall|k: int| 0 <= k < p.pts@.len() ==> graph_nodes(*old(g)).contains(key_of(#[trigger] p.pts@[k])))
            && graph_edges(*final(g)).len() < graph_edges(*old(g)).len(),
        r matches Ok(Some(p)) ==> exists|w: Seq<Pt>| #[trigger] polygon_pts(w) == p.pts@
            && is_walk(graph_edges(*old(g)), w) && walk_gone(graph_edges(*final(g)), w),
        r matches Ok(Some(p)) ==> exists|w: Seq<Pt>, rm: Set<((i32, i32), (i32, i32))>|
            #[trigger] walked_out(graph_edges(*old(g)), graph_nodes(*old(g)), a.pts@, w, rm, graph_nodes(*final(g)), graph_edges(*final(g)))
            && polygon_pts(w) == p.pts@,
        r == Ok::<Option<Pg>, CropError>(None) ==> is_core(graph_nodes(*old(g)), graph_edges(*old(g)), graph_nodes(*final(g)), graph_edges(*final(g))),
        graph_nodes(*old(g)).len() == 0 ==> r == Ok::<Option<Pg>, CropError>(None),
        graph_nodes(*old(g)).len() > 0 && r == Ok::<Option<Pg>, CropError>(None) ==> exists|n: (i32, i32)|
            #[trigger] graph_nodes(*old(g)).contains(n) && dead_end(graph_edges(*old(g)), a.pts@, n),
        r == Ok::<Option<Pg>, CropError>(None) && closed_both(graph_nodes(*old(g)), graph_edges(*old(g)))
            ==> graph_nodes(*final(g)) == graph_nodes(*old(g)) && graph_edges(*final(g)) == graph_edges(*old(g)),
        r == Err::<Option<Pg>, CropError>(CropError::SearchAborted) ==> exists|w: Seq<Pt>|
            #[trigger] walk_prefix_ok(graph_edges(*old(g)), graph_nodes(*old(g)), a.pts@, w)
            && graph_nodes(*old(g)).contains(key_of(w[w.len() - 1]))
            && (out_degree(graph_edges(*old(g)), key_of(w[w.len() - 1])) == 0 || out_degree(graph_edges(*old(g)), key_of(w[w.len() - 1])) > 3),
        r matches Err(CropError::NotAPolygon(_)) ==> has_pair(graph_edges(*old(g))) || exists|w: Seq<Pt>|
            #[trigger] walk_prefix_ok(graph_edges(*old(g)), graph_nodes(*old(g)), a.pts@, w)
            && w.len() == 2 && dead_end(graph_edges(*old(g)), a.pts@, key_of(w[1])),
        graph_nodes(*old(g)).len() > 0 && r == Ok::<Option<Pg>, CropError>(None) ==> exists|w: Seq<Pt>|
            #[trigger] walk_prefix_ok(graph_edges(*old(g)), graph_nodes(*old(g)), a.pts@, w)
            && w.len() == 1 && dead_end(graph_edges(*old(g)), a.pts@, key_of(w[0])),
        r matches Err(e) ==> e == CropError::SearchAborted || e is NotAPolygon,
        r is Ok ==> closed_both(graph_nodes(*final(g)), graph_edges(*final(g))),
        graph_nodes(*old(g)).len() > 0 && !has_pair(graph_edges(*old(g)))
            && (forall|n: (i32, i32)| #[trigger] graph_nodes(*old(g)).contains(n) ==> 1 <= out_degree(graph_edges(*old(g)), n) <= 3
                && !dead_end(graph_edges(*old(g)), a.pts@, n))
            ==> r matches Ok(Some(_)),
{
    let ghost nodes0 = graph_nodes(*g);
    let ghost edges0 = graph_edges(*g);
    if graph_node_count(g) == 0 {
        proof {
            reveal(closed_both);
            reveal(closed_under);
            nodes0.lemma_len0_is_empty();
            assert forall|e: ((i32, i32), (i32, i32))| !edges0.contains(e) by {
                if edges0.contains(e) {
                    assert(nodes0.contains(e.0));
                }
            }
            assert(restrict(edges0, nodes0) =~= edges0);
        }
        return Ok(None);
    }
    let ns = graph_nodes_vec(g);
    proof {
        ns@.unique_seq_to_set();
    }
    let start = match first_branching(g, &ns, EdgeDir::Outgoing) {
        Some(n) => n,
        None => match first_branching(g, &ns, EdgeDir::Incoming) {
            Some(n) => n,
            None => ns[0],
        },
    };
    proof {
        assert(ns@.to_set().contains(start));
        if exists|n: (i32, i32)| #[trigger] nodes0.contains(n) && branches(edges0, n, EdgeDir::Outgoing) {
            let n = choose|n: (i32, i32)| #[trigger] nodes0.contains(n) && branches(edges0, n, EdgeDir::Outgoing);
            assert(ns@.to_set().contains(n));
            let k = choose|k: int| 0 <= k < ns@.len() && ns@[k] == n;
            assert(branches(graph_edges(*g), ns@[k], EdgeDir::Outgoing));
        } else if exists|n: (i32, i32)| #[trigger] nodes0.contains(n) && branches(edges0, n, EdgeDir::Incoming) {
            let n = choose|n: (i32, i32)| #[trigger] nodes0.contains(n) && branches(edges0, n, EdgeDir::Incoming);
            assert(ns@.to_set().contains(n));
            let k = choose|k: int| 0 <= k < ns@.len() && ns@[k] == n;
            assert(branches(graph_edges(*g), ns@[k], EdgeDir::Incoming));
            assert forall|k: int| 0 <= k < ns@.len() implies !branches(graph_edges(*g), #[trigger] ns@[k], EdgeDir::Outgoing) by {
                assert(ns@.to_set().contains(ns@[k]));
            }
        }
        assert(starts_well(edges0, nodes0, seq![pt_of(start)]));
    }
    let mut pts: Vec<Pt> = Vec::new();
    let mut curr = start;
    let ghost mut seen: Set<(i32, i32)> = Set::empty();
    let ghost mut removed_any = false;
    let ghost mut ended_dead = false;
    let ghost mut dead_node: (i32, i32) = start;
    loop
        invariant_except_break
            seen.len() == pts@.len(),
            forall|n: (i32, i32)| #[trigger] seen.contains(n) ==> pts@.contains(pt_of(n)),
            removed_any == (pts@.len() > 0),
            !ended_dead,
            pts@.no_duplicates(),
            pts@.len() >= 1 ==> edges0.contains((key_of(pts@[pts@.len() - 1]), curr))
                && !graph_edges(*g).contains((key_of(pts@[pts@.len() - 1]), curr)),
            forall|e: ((i32, i32), (i32, i32))| #[trigger] edges0.contains(e) && !graph_edges(*g).contains(e) ==>
                (exists|k: int| 0 <= k < pts@.len() - 1 && e == #[trigger] step_edge(pts@, k))
                || (pts@.len() >= 1 && e == (key_of(pts@[pts@.len() - 1]), curr)),
            forall|k: int| 0 <= k < pts@.len() - 1 ==> #[trigger] rule_at(edges0, a.pts@, pts@, k),
            pts@.len() >= 1 ==> goes_on_to(edges0, a.pts@, pts@, pt_of(curr)),
        invariant
            nodes0 == graph_nodes(*old(g)),
            edges0 == graph_edges(*old(g)),
            starts_well(edges0, nodes0, seq![pt_of(start)]),
            pts@.len() >= 1 ==> pts@[0] == pt_of(start),
            pts@.len() == 0 ==> curr == start,
            graph_wf(*g),
            graph_nodes(*g) == nodes0,
            graph_edges(*g).subset_of(edges0),
            edges0.finite(),
            nodes0.finite(),
            nodes0.contains(curr),
            seen.finite(),
            seen.subset_of(nodes0),
            forall|k: int| 0 <= k < pts@.len() ==> seen.contains(key_of(#[trigger] pts@[k])),
            forall|e: ((i32, i32), (i32, i32))| #[trigger] edges0.contains(e) && !graph_edges(*g).contains(e) ==> seen.contains(e.0),
            removed_any ==> graph_edges(*g).len() < edges0.len(),
            !removed_any ==> graph_edges(*g) == edges0,
            forall|k: int| 0 <= k < pts@.len() - 1 - (if ended_dead { 1int } else { 0int })
                ==> edges0.contains(#[trigger] step_edge(pts@, k)) && !graph_edges(*g).contains(step_edge(pts@, k)),
        ensures
            graph_wf(*g),
            graph_nodes(*g) == nodes0,
            graph_edges(*g).subset_of(edges0),
            forall|k: int| 0 <= k < pts@.len() ==> nodes0.contains(key_of(#[trigger] pts@[k])),
            removed_any ==> graph_edges(*g).len() < edges0.len(),
            !removed_any ==> graph_edges(*g) == edges0,
            !removed_any ==> pts@.len() <= 2,
            pts@.len() >= 1,
            forall|k: int| 0 <= k < pts@.len() - 1 - (if ended_dead { 1int } else { 0int })
                ==> edges0.contains(#[trigger] step_edge(pts@, k)) && !graph_edges(*g).contains(step_edge(pts@, k)),
            !ended_dead ==> pts@.no_duplicates() && (pts@.len() <= 2 ==> has_pair(edges0)),
            ended_dead ==> pts@.len() >= 2 && pts@[pts@.len() - 1] == pts@[0] && nodes0.contains(dead_node)
                && dead_end(edges0, a.pts@, dead_node) && (pts@.len() == 2 ==> !removed_any),
            ended_dead ==> dead_node == key_of(pts@[pts@.len() - 2]) && pts@.drop_last().no_duplicates(),
            forall|k: int| #[trigger] proper_step(pts@, k) ==> rule_at(edges0, a.pts@, pts@, k),
            !ended_dead ==> edges0.contains((key_of(pts@[pts@.len() - 1]), curr))
                && !graph_edges(*g).contains((key_of(pts@[pts@.len() - 1]), curr))
                && exists|j: int| 0 <= j < pts@.len() && key_of(pts@[j]) == curr,
            forall|e: ((i32, i32), (i32, i32))| #[trigger] edges0.contains(e) && !graph_edges(*g).contains(e) ==>
                (exists|k: int| #[trigger] proper_step(pts@, k) && e == step_edge(pts@, k))
                || ((pts@.len() == 1 || pts@[pts@.len() - 1] != pts@[0]) && e.0 == key_of(pts@[pts@.len() - 1])
                    && exists|j: int| 0 <= j < pts@.len() && #[trigger] key_of(pts@[j]) == e.1),
        decreases nodes0.len() - pts@.len(),
    {
        let cp = pt_of_exec(curr);
        if vec_contains_pt(&pts, &cp) {
            proof {
                let j = choose|j: int| 0 <= j < pts@.len() && pts@[j] == cp;
                assert(key_of(pts@[j]) == curr);
                if pts@.len() == 1 {
                    assert(edges0.contains((curr, curr)));
                } else if pts@.len() == 2 {
                    let k0 = key_of(pts@[0]);
                    let k1 = key_of(pts@[1]);
                    assert(edges0.contains(step_edge(pts@, 0)));
                    assert(edges0.contains((k1, curr)));
                    if j == 0 {
                        assert(edges0.contains((k1, k0)));
                    } else {
                        assert(edges0.contains((k1, k1)));
                    }
                }
                if pts@.len() >= 2 {
                    assert(pts@[pts@.len() - 1] != pts@[0]);
                }
                assert forall|e: ((i32, i32), (i32, i32))| #[trigger] edges0.contains(e) && !graph_edges(*g).contains(e) implies
                    (exists|k: int| #[trigger] proper_step(pts@, k) && e == step_edge(pts@, k))
                    || ((pts@.len() == 1 || pts@[pts@.len() - 1] != pts@[0]) && e.0 == key_of(pts@[pts@.len() - 1])
                        && exists|j: int| 0 <= j < pts@.len() && #[trigger] key_of(pts@[j]) == e.1) by {
                    if exists|k: int| 0 <= k < pts@.len() - 1 && e == #[trigger] step_edge(pts@, k) {
                        let k = choose|k: int| 0 <= k < pts@.len() - 1 && e == #[trigger] step_edge(pts@, k);
                        assert(proper_step(pts@, k));
                    } else {
                        assert(key_of(pts@[j]) == e.1);
                    }
                }
            }
            break;
        }
        let ghost seen_before = seen;
        proof {
            assert(!seen.contains(curr)) by {
                if seen.contains(curr) {
                    assert(pts@.contains(pt_of(curr)));
                }
            }
            vstd::set_lib::lemma_len_subset(seen.insert(curr), nodes0);
            seen = seen.insert(curr);
        }
        let ghost pts_before = pts@;
        pts.push(cp);
        proof {
            assert forall|n: (i32, i32)| #[trigger] seen.contains(n) implies pts@.contains(pt_of(n)) by {
                if n == curr {
                    assert(pts@[pts@.len() - 1] == pt_of(n));
                } else {
                    assert(pts_before.contains(pt_of(n)));
                    let j = choose|j: int| 0 <= j < pts_before.len() && pts_before[j] == pt_of(n);
                    assert(pts@[j] == pt_of(n));
                }
            }
            assert forall|k: int| 0 <= k < pts@.len() implies seen.contains(key_of(#[trigger] pts@[k])) by {
                if k < pts_before.len() {
                    assert(pts@[k] == pts_before[k]);
                }
            }
            assert(pts@.no_duplicates()) by {
                assert forall|i: int, j: int| 0 <= i < pts@.len() && 0 <= j < pts@.len() && i != j implies pts@[i] != pts@[j] by {
                    if i < pts_before.len() && j < pts_before.len() {
                        assert(pts@[i] == pts_before[i] && pts@[j] == pts_before[j]);
                    } else if i < pts_before.len() {
                        assert(pts@[i] == pts_before[i]);
                        assert(pts_before.contains(pts@[i]));
                    } else {
                        assert(pts@[j] == pts_before[j]);
                        assert(pts_before.contains(pts@[j]));
                    }
                }
            }
            assert forall|k: int| 0 <= k < pts@.len() - 1
                implies edges0.contains(#[trigger] step_edge(pts@, k)) && !graph_edges(*g).contains(step_edge(pts@, k)) by {
                assert(pts@[k] == pts_before[k]);
                if k < pts_before.len() - 1 {
                    assert(pts@[k + 1] == pts_before[k + 1]);
                    assert(step_edge(pts@, k) == step_edge(pts_before, k));
                } else {
                    assert(pts@[k + 1] == cp);
                    assert(key_of(cp) == curr);
                }
            }
        }
        proof {
            assert forall|k: int| 0 <= k < pts@.len() - 1 implies #[trigger] rule_at(edges0, a.pts@, pts@, k) by {
                assert(pts@.take(k + 1) =~= pts_before.take(k + 1));
                if k < pts_before.len() - 1 {
                    assert(pts@[k + 1] == pts_before[k + 1]);
                    assert(rule_at(edges0, a.pts@, pts_before, k));
                } else {
                    assert(pts_before.take(k + 1) =~= pts_before);
                    assert(pts@[k + 1] == cp);
                }
            }
            assert(key_of(pts@[0]) == key_of(seq![pt_of(start)][0]));
            assert(walk_prefix_ok(edges0, nodes0, a.pts@, pts@));
        }
        let outs = graph_neighbors(g, curr, EdgeDir::Outgoing);
        proof {
            outs@.unique_seq_to_set();
            assert(neighbors_spec(graph_edges(*g), curr, EdgeDir::Outgoing) =~= neighbors_spec(edges0, curr, EdgeDir::Outgoing)) by {
                assert forall|m: (i32, i32)| #[trigger] edges0.contains((curr, m)) implies graph_edges(*g).contains((curr, m)) by {
                    if !graph_edges(*g).contains((curr, m)) {
                        assert(seen_before.contains(curr));
                    }
                }
            }
        }
        let next: Option<(i32, i32)> = if outs.len() == 1 {
            Some(outs[0])
        } else if outs.len() == 2 || outs.len() == 3 {
            pick_next(&outs, &pts, a)
        } else {
            return Err(CropError::SearchAborted);
        };
        match next {
            Some(nx) => {
                proof {
                    assert(key_of(pts@[pts@.len() - 1]) == curr);
                    lemma_goes_on(edges0, a.pts@, pts@, curr, outs@, nx);
                    assert(outs@.to_set().contains(nx));
                    assert(graph_edges(*g).contains((curr, nx)));
                    vstd::set_lib::lemma_len_subset(graph_edges(*g), edges0);
                }
                let ghost g_before = *g;
                let _ = graph_remove_edge(g, curr, nx);
                proof {
                    removed_any = true;
                    assert forall|x: ((i32, i32), (i32, i32))| #[trigger] graph_edges(*g).contains(x) implies graph_nodes(*g).contains(x.0) && graph_nodes(*g).contains(x.1) by {
                    }
                    assert(key_of(pts@[pts@.len() - 1]) == curr);
                    assert forall|k: int| 0 <= k < pts@.len() - 1
                        implies edges0.contains(#[trigger] step_edge(pts@, k)) && !graph_edges(*g).contains(step_edge(pts@, k)) by {
                        assert(!graph_edges(g_before).contains(step_edge(pts@, k)));
                    }
                    assert forall|e: ((i32, i32), (i32, i32))| #[trigger] edges0.contains(e) && !graph_edges(*g).contains(e) implies
                        (exists|k: int| 0 <= k < pts@.len() - 1 && e == #[trigger] step_edge(pts@, k))
                        || (pts@.len() >= 1 && e == (key_of(pts@[pts@.len() - 1]), nx)) by {
                        if e != (curr, nx) {
                            assert(!graph_edges(g_before).contains(e));
                            if exists|k: int| 0 <= k < pts_before.len() - 1 && e == #[trigger] step_edge(pts_before, k) {
                                let k = choose|k: int| 0 <= k < pts_before.len() - 1 && e == #[trigger] step_edge(pts_before, k);
                                assert(pts@[k] == pts_before[k] && pts@[k + 1] == pts_before[k + 1]);
                                assert(e == step_edge(pts@, k));
                            } else {
                                let k = pts_before.len() - 1;
                                assert(pts@[k] == pts_before[k] && pts@[k + 1] == cp);
                                assert(e == step_edge(pts@, k));
                            }
                        }
                    }
                }
                curr = nx;
            },
            None => {
                proof {
                    assert(outs@.len() == 2 || outs@.len() == 3);
                    lemma_first_index_none(outs@, a.pts@, 0);
                    assert forall|m: (i32, i32)| #[trigger] neighbors_spec(edges0, curr, EdgeDir::Outgoing).contains(m) implies !a.pts@.contains(pt_of(m)) by {
                        assert(outs@.to_set().contains(m));
                        let k = choose|k: int| 0 <= k < outs@.len() && outs@[k] == m;
                    }
                    assert(dead_end(edges0, a.pts@, curr));
                    dead_node = curr;
                }
                let ghost pts_mid = pts@;
                let first = pts[0];
                pts.push(first);
                proof {
                    assert forall|k: int| 0 <= k < pts_mid.len() - 1 implies #[trigger] rule_at(edges0, a.pts@, pts_mid, k) by {
                        assert(pts_mid.take(k + 1) =~= pts_before.take(k + 1));
                        if k < pts_before.len() - 1 {
                            assert(pts_mid[k + 1] == pts_before[k + 1]);
                            assert(rule_at(edges0, a.pts@, pts_before, k));
                        } else {
                            assert(pts_before.take(k + 1) =~= pts_before);
                            assert(pts_mid[k + 1] == cp);
                        }
                    }
                    ended_dead = true;
                    assert forall|k: int| #[trigger] proper_step(pts@, k) implies rule_at(edges0, a.pts@, pts@, k) by {
                        assert(k < pts_mid.len() - 1);
                        assert(pts@.take(k + 1) =~= pts_mid.take(k + 1));
                        assert(pts@[k + 1] == pts_mid[k + 1]);
                        assert(rule_at(edges0, a.pts@, pts_mid, k));
                    }
                    assert(pts@[0] == pts_mid[0]);
                    assert(pts@.drop_last() =~= pts_mid);
                    assert(pts@[pts@.len() - 2] == cp);
                    assert forall|k: int| 0 <= k < pts@.len() - 1 - 1
                        implies edges0.contains(#[trigger] step_edge(pts@, k)) && !graph_edges(*g).contains(step_edge(pts@, k)) by {
                        assert(pts@[k] == pts_mid[k]);
                        assert(pts@[k + 1] == pts_mid[k + 1]);
                        assert(step_edge(pts@, k) == step_edge(pts_mid, k));
                    }
                    assert forall|k: int| 0 <= k < pts@.len() implies nodes0.contains(key_of(#[trigger] pts@[k])) by {
                        if k < pts_mid.len() {
                            assert(pts@[k] == pts_mid[k]);
                        } else {
                            assert(pts@[k] == pts_mid[0]);
                        }
                    }
                    assert forall|e: ((i32, i32), (i32, i32))| #[trigger] edges0.contains(e) && !graph_edges(*g).contains(e) implies
                        (exists|k: int| #[trigger] proper_step(pts@, k) && e == step_edge(pts@, k))
                        || ((pts@.len() == 1 || pts@[pts@.len() - 1] != pts@[0]) && e.0 == key_of(pts@[pts@.len() - 1])
                            && exists|j: int| 0 <= j < pts@.len() && #[trigger] key_of(pts@[j]) == e.1) by {
                        if exists|k: int| 0 <= k < pts_before.len() - 1 && e == #[trigger] step_edge(pts_before, k) {
                            let k = choose|k: int| 0 <= k < pts_before.len() - 1 && e == #[trigger] step_edge(pts_before, k);
                            assert(pts@[k] == pts_before[k] && pts@[k + 1] == pts_before[k + 1]);
                            assert(e == step_edge(pts@, k));
                            assert(proper_step(pts@, k));
                        } else {
                            let k = pts_before.len() - 1;
                            assert(pts@[k] == pts_before[k] && pts@[k + 1] == cp);
                            assert(e == step_edge(pts@, k));
                            assert(proper_step(pts@, k));
                        }
                    }
                }
                break;
            },
        }
    }
    let ghost g_mid = *g;
    let ghost walked = pts@;
    proof {
        assert forall|k: int| #[trigger] proper_step(walked, k) implies edges0.contains(step_edge(walked, k)) && !graph_edges(g_mid).contains(step_edge(walked, k)) by {
            if ended_dead {
                assert(k < walked.len() - 2);
            } else {
                assert(k < walked.len() - 1);
            }
        }
    }
    remove_nodes_with_no_neighbors_of_any_kind(g);
    proof {
        vstd::set_lib::lemma_len_subset(graph_edges(*g), graph_edges(g_mid));
        lemma_closed_both_restrict(graph_nodes(*g), graph_edges(g_mid));
        lemma_restrict_subset(graph_edges(g_mid), graph_nodes(*g));
        assert(is_walk(edges0, walked));
        assert(walk_gone(graph_edges(*g), walked));
        let rm = edges0.difference(graph_edges(g_mid));
        assert(graph_edges(g_mid) =~= edges0.difference(rm));
        assert(walk_took(walked, rm));
        if !ended_dead {
            let j = choose|j: int| 0 <= j < walked.len() && key_of(walked[j]) == curr;
            assert(rm.contains((key_of(walked[walked.len() - 1]), key_of(walked[j]))));
        }
        assert(walk_ends(edges0, a.pts@, walked, rm));
        assert(key_of(walked[0]) == key_of(seq![pt_of(start)][0]));
        assert(starts_well(edges0, nodes0, walked));
        assert(walked_out(edges0, nodes0, a.pts@, walked, rm, graph_nodes(*g), graph_edges(*g)));
    }
    if pts.len() == 2 && pts[0] == pts[1] {
        proof {
            if !ended_dead {
                assert(walked[0] == walked[1]);
            }
            if closed_both(nodes0, edges0) {
                lemma_any_kind_keeps(g_mid, *g);
            }
            let w = walked.take(1);
            assert(w[0] == walked[0]);
            assert(w.no_duplicates());
            assert(walk_prefix_ok(edges0, nodes0, a.pts@, w));
        }
        return Ok(None);
    }
    match crate::pg::Pg(pts) {
        Ok(p) => {
            proof {
                lemma_polygon_pts_from(walked);
                assert forall|k: int| 0 <= k < p.pts@.len() implies nodes0.contains(key_of(#[trigger] p.pts@[k])) by {
                    assert(is_vertex(walked, p.pts@[k]));
                    let j = choose|j: int| 0 <= j < walked.len() && walked[j] == p.pts@[k];
                }
                assert(polygon_pts(walked) == p.pts@);
                let rm = edges0.difference(graph_edges(g_mid));
                assert(walked_out(edges0, nodes0, a.pts@, walked, rm, graph_nodes(*g), graph_edges(*g)));
            }
            Ok(Some(p))
        },
        Err(e) => {
            proof {
                if !ended_dead && walked.len() >= 2 {
                    assert(walked[walked.len() - 1] != walked[0]);
                }
                if ended_dead {
                    let w = walked.drop_last();
                    assert(closed_pts(walked) == w);
                    assert(w.len() == 2);
                    assert(proper_step(walked, 0));
                    assert(step_edge(w, 0) == step_edge(walked, 0));
                    assert(w.take(1) =~= walked.take(1));
                    assert(w[1] == walked[1]);
                    assert(rule_at(edges0, a.pts@, walked, 0));
                    assert(edges0.contains(step_edge(walked, 0)));
                    assert(walk_prefix_ok(edges0, nodes0, a.pts@, w));
                }
            }
            Err(CropError::NotAPolygon(e))
        },
    }
}

/// More than two points, all on the line through the first two (what
/// `is_colinear_n` tests).
pub open spec fn all_colinear(s: Seq<Pt>) -> bool {
    s.len() > 2 && forall|k: int| 2 <= k < s.len() ==> crate::pt::colinear3(s[0], s[1], #[trigger] s[k])
}

/// In a well-formed graph in which every node has an edge out to a node,
/// every node has at least one outgoing edge.
proof fn lemma_closed_has_out(g: GraphMap<(i32, i32), (), Directed, RandomState>, n: (i32, i32))
    requires
        graph_wf(g),
        closed_under(graph_nodes(g), graph_edges(g), EdgeDir::Outgoing),
        graph_nodes(g).contains(n),
    ensures
        out_degree(graph_edges(g), n) > 0,
{
    reveal(closed_under);
    lemma_neighbors_finite(g, n, EdgeDir::Outgoing);
    let m = choose|m: (i32, i32)| graph_nodes(g).contains(m) && steps_to(graph_edges(g), n, m, EdgeDir::Outgoing);
    assert(neighbors_spec(graph_edges(g), n, EdgeDir::Outgoing).contains(m));
}

/// Closure both ways includes closure along the edges.
proof fn lemma_closed_both_out(s: Set<(i32, i32)>, edges: Set<((i32, i32), (i32, i32))>)
    requires
        closed_both(s, edges),
    ensures
        closed_under(s, edges, EdgeDir::Outgoing),
{
    reveal(closed_both);
}

/// Two nodes joined both ways stay so in a larger set of edges.
proof fn lemma_pair_in_larger(small: Set<((i32, i32), (i32, i32))>, big: Set<((i32, i32), (i32, i32))>)
    requires
        has_pair(small),
        small.subset_of(big),
    ensures
        has_pair(big),
{
    let (x, y) = choose|x: (i32, i32), y: (i32, i32)| #[trigger] small.contains((x, y)) && small.contains((y, x));
    assert(big.contains((x, y)));
}

/// No edge is followed by a step of both walks.
pub open spec fn walks_disjoint(u: Seq<Pt>, w: Seq<Pt>) -> bool {
    forall|k1: int, k2: int| #![trigger proper_step(u, k1), proper_step(w, k2)]
        proper_step(u, k1) && proper_step(w, k2) ==> step_edge(u, k1) != step_edge(w, k2)
}

/// The pieces `v` are the polygons of the walks `ws` along `edges`, one
/// walk each, no two walks along the same edge, and no edge of a walk left
/// in `left`.
pub open spec fn walked_pieces(v: Seq<Pg>, ws: Seq<Seq<Pt>>, edges: Set<((i32, i32), (i32, i32))>, left: Set<((i32, i32), (i32, i32))>) -> bool {
    &&& ws.len() == v.len()
    &&& forall|i: int| 0 <= i < ws.len() ==> polygon_pts(#[trigger] ws[i]) == v[i].pts@
        && is_walk(edges, ws[i]) && walk_gone(left, ws[i])
    &&& forall|i: int, j: int| 0 <= i < j < ws.len() ==> walks_disjoint(#[trigger] ws[i], #[trigger] ws[j])
}

/// Step `i` of a run of walks: walk `ws[i]`, which took the edges `rms[i]`,
/// left of the graph `cns[i]`, `ces[i]` the graph `cns[i + 1]`, `ces[i + 1]`.
pub open spec fn chain_step(a_pts: Seq<Pt>, cns: Seq<Set<(i32, i32)>>, ces: Seq<Set<((i32, i32), (i32, i32))>>, ws: Seq<Seq<Pt>>, rms: Seq<Set<((i32, i32), (i32, i32))>>, i: int) -> bool {
    walked_out(ces[i], cns[i], a_pts, ws[i], rms[i], cns[i + 1], ces[i + 1])
}

/// The polygons of the walks `ws`, in order, but those whose points all lie
/// on one line.
pub open spec fn kept_polys(ws: Seq<Seq<Pt>>) -> Seq<Seq<Pt>>
    decreases ws.len(),
{
    if ws.len() == 0 {
        Seq::empty()
    } else {
        let rest = kept_polys(ws.drop_last());
        let p = polygon_pts(ws.last());
        if all_colinear(p) {
            rest
        } else {
            rest.push(p)
        }
    }
}

/// The walks `ws` were walked out, one after another, of the graph with
/// nodes `nodes` and edges `edges`: `cns[i]`, `ces[i]` is the graph before
/// walk `i`, and `cns[ws.len()]`, `ces[ws.len()]` the graph after the last.
pub open spec fn chain_ok(nodes: Set<(i32, i32)>, edges: Set<((i32, i32), (i32, i32))>, a_pts: Seq<Pt>, cns: Seq<Set<(i32, i32)>>, ces: Seq<Set<((i32, i32), (i32, i32))>>, ws: Seq<Seq<Pt>>, rms: Seq<Set<((i32, i32), (i32, i32))>>) -> bool {
    &&& cns.len() == ws.len() + 1
    &&& ces.len() == ws.len() + 1
    &&& rms.len() == ws.len()
    &&& cns[0] == nodes
    &&& ces[0] == edges
    &&& forall|i: int| 0 <= i < ws.len() ==> #[trigger] chain_step(a_pts, cns, ces, ws, rms, i)
}

/// The walks `ws` were walked out, one after another, of the graph with
/// nodes `nodes` and edges `edges` (`chain_ok`). The pieces `v` are the
/// polygons of the walks whose points do not all lie on one line. The walks
/// stopped because the graph left has no nodes, or because the next walk
/// found no way on from its first point.
pub open spec fn trimmed(nodes: Set<(i32, i32)>, edges: Set<((i32, i32), (i32, i32))>, a_pts: Seq<Pt>, v: Seq<Pg>, cns: Seq<Set<(i32, i32)>>, ces: Seq<Set<((i32, i32), (i32, i32))>>, ws: Seq<Seq<Pt>>, rms: Seq<Set<((i32, i32), (i32, i32))>>) -> bool {
    &&& chain_ok(nodes, edges, a_pts, cns, ces, ws, rms)
    &&& v.map_values(|q: Pg| q.pts@) == kept_polys(ws)
    &&& cns[ws.len() as int].len() == 0 || exists|w: Seq<Pt>|
        #[trigger] walk_prefix_ok(ces[ws.len() as int], cns[ws.len() as int], a_pts, w)
        && w.len() == 1 && dead_end(ces[ws.len() as int], a_pts, key_of(w[0]))
}

/// The walk `w` begun on the graph with nodes `nodes` and edges `edges`
/// fails with `e`: `SearchAborted` where its last point has no way on or
/// more than three; `NotAPolygon` where, after two points, it finds no way
/// on. No other error comes of a walk.
pub open spec fn walk_fails(edges: Set<((i32, i32), (i32, i32))>, nodes: Set<(i32, i32)>, a_pts: Seq<Pt>, w: Seq<Pt>, e: CropError) -> bool {
    &&& walk_prefix_ok(edges, nodes, a_pts, w)
    &&& match e {
        CropError::SearchAborted => nodes.contains(key_of(w[w.len() - 1]))
            && (out_degree(edges, key_of(w[w.len() - 1])) == 0 || out_degree(edges, key_of(w[w.len() - 1])) > 3),
        CropError::NotAPolygon(_) => w.len() == 2 && dead_end(edges, a_pts, key_of(w[1])),
        _ => false,
    }
}

/// After the walks `ws` (`chain_ok`), the walk `w` on the graph they left
/// fails with `e` (`walk_fails`).
pub open spec fn trim_failed(nodes: Set<(i32, i32)>, edges: Set<((i32, i32), (i32, i32))>, a_pts: Seq<Pt>, e: CropError, cns: Seq<Set<(i32, i32)>>, ces: Seq<Set<((i32, i32), (i32, i32))>>, ws: Seq<Seq<Pt>>, rms: Seq<Set<((i32, i32), (i32, i32))>>, w: Seq<Pt>) -> bool {
    &&& chain_ok(nodes, edges, a_pts, cns, ces, ws, rms)
    &&& walk_fails(ces[ws.len() as int], cns[ws.len() as int], a_pts, w, e)
}

/// A walk along some edges is a walk along any larger set of edges.
proof fn lemma_walk_more_edges(small: Set<((i32, i32), (i32, i32))>, big: Set<((i32, i32), (i32, i32))>, w: Seq<Pt>)
    requires
        is_walk(small, w),
        small.subset_of(big),
    ensures
        is_walk(big, w),
{
}

/// The edges of a walk that are gone from a set of edges are gone from any
/// part of it.
proof fn lemma_gone_fewer_edges(small: Set<((i32, i32), (i32, i32))>, big: Set<((i32, i32), (i32, i32))>, w: Seq<Pt>)
    requires
        walk_gone(big, w),
        small.subset_of(big),
    ensures
        walk_gone(small, w),
{
}

/// A walk whose edges are gone from a set of edges shares no edge with a
/// walk along that set.
proof fn lemma_gone_disjoint(edges: Set<((i32, i32), (i32, i32))>, u: Seq<Pt>, w: Seq<Pt>)
    requires
        walk_gone(edges, u),
        is_walk(edges, w),
    ensures
        walks_disjoint(u, w),
{
}

/// Walks pieces out of the graph until none is left, keeping those whose
/// points are not all on one line. Each piece kept is a walk along the
/// graph's edges, no two of them along the same edge; the walks end when
/// the graph is empty or, on a graph whose nodes all have edges in and out,
/// when one walk finds no way on from its first node.
fn trim_and_create_resultant_polygons(g: &mut GraphMap<(i32, i32), (), Directed, RandomState>, a: &Pg) -> (r: Result<Vec<Pg>, CropError>)
    requires
        graph_wf(*old(g)),
    ensures
        graph_wf(*final(g)),
        graph_nodes(*final(g)).subset_of(graph_nodes(*old(g))),
        graph_edges(*final(g)).subset_of(graph_edges(*old(g))),
        r matches Ok(v) ==> forall|i: int, k: int| 0 <= i < v@.len() && 0 <= k < v@[i].pts@.len()
            ==> graph_nodes(*old(g)).contains(key_of(#[trigger] v@[i].pts@[k])),
        r matches Ok(v) ==> forall|i: int| 0 <= i < v@.len() ==> (#[trigger] v@[i]).kind == PolygonKind::Closed,
        r matches Ok(v) ==> forall|i: int| 0 <= i < v@.len() ==> !all_colinear((#[trigger] v@[i]).pts@),
        r matches Ok(v) ==> exists|ws: Seq<Seq<Pt>>| #[trigger] walked_pieces(v@, ws, graph_edges(*old(g)), graph_edges(*final(g))),
        r matches Ok(v) ==> exists|cns: Seq<Set<(i32, i32)>>, ces: Seq<Set<((i32, i32), (i32, i32))>>, ws: Seq<Seq<Pt>>, rms: Seq<Set<((i32, i32), (i32, i32))>>|
            #[trigger] trimmed(graph_nodes(*old(g)), graph_edges(*old(g)), a.pts@, v@, cns, ces, ws, rms),
        r is Ok && closed_both(graph_nodes(*old(g)), graph_edges(*old(g))) ==> graph_nodes(*final(g)).len() == 0
            || exists|n: (i32, i32)| #[trigger] graph_nodes(*final(g)).contains(n) && dead_end(graph_edges(*final(g)), a.pts@, n),
        r matches Err(e) ==> e == CropError::SearchAborted || e is NotAPolygon,
        r matches Err(e) ==> (e is NotAPolygon && has_pair(graph_edges(*old(g)))) || exists|cns: Seq<Set<(i32, i32)>>,
            ces: Seq<Set<((i32, i32), (i32, i32))>>, ws: Seq<Seq<Pt>>, rms: Seq<Set<((i32, i32), (i32, i32))>>, w: Seq<Pt>|
            #[trigger] trim_failed(graph_nodes(*old(g)), graph_edges(*old(g)), a.pts@, e, cns, ces, ws, rms, w)
            && (closed_both(graph_nodes(*old(g)), graph_edges(*old(g))) && e == CropError::SearchAborted
                ==> out_degree(ces[ws.len() as int], key_of(w[w.len() - 1])) > 3),
{
    let ghost g0 = *g;
    let ghost nodes0 = graph_nodes(*g);
    let ghost edges0 = graph_edges(*g);
    let ghost both0 = closed_both(nodes0, edges0);
    let ghost mut ws: Seq<Seq<Pt>> = Seq::empty();
    let ghost mut cns: Seq<Set<(i32, i32)>> = seq![nodes0];
    let ghost mut ces: Seq<Set<((i32, i32), (i32, i32))>> = seq![edges0];
    let ghost mut all_ws: Seq<Seq<Pt>> = Seq::empty();
    let ghost mut rms: Seq<Set<((i32, i32), (i32, i32))>> = Seq::empty();
    let mut out: Vec<Pg> = Vec::new();
    proof {
        assert(out@.map_values(|q: Pg| q.pts@) =~= kept_polys(all_ws));
    }
    loop
        invariant_except_break
            cns[all_ws.len() as int] == graph_nodes(*g),
            ces[all_ws.len() as int] == graph_edges(*g),
        invariant
            g0 == *old(g),
            nodes0 == graph_nodes(g0),
            edges0 == graph_edges(g0),
            both0 == closed_both(nodes0, edges0),
            graph_wf(g0),
            graph_wf(*g),
            graph_nodes(*g).subset_of(nodes0),
            graph_edges(*g).subset_of(edges0),
            both0 ==> closed_both(graph_nodes(*g), graph_edges(*g)),
            forall|i: int, k: int| 0 <= i < out@.len() && 0 <= k < out@[i].pts@.len()
                ==> nodes0.contains(key_of(#[trigger] out@[i].pts@[k])),
            forall|i: int| 0 <= i < out@.len() ==> (#[trigger] out@[i]).kind == PolygonKind::Closed,
            forall|i: int| 0 <= i < out@.len() ==> !all_colinear((#[trigger] out@[i]).pts@),
            ws.len() == out@.len(),
            forall|i: int| 0 <= i < ws.len() ==> polygon_pts(#[trigger] ws[i]) == out@[i].pts@
                && is_walk(edges0, ws[i]) && walk_gone(graph_edges(*g), ws[i]),
            forall|i: int, j: int| 0 <= i < j < ws.len() ==> walks_disjoint(#[trigger] ws[i], #[trigger] ws[j]),
            cns.len() == all_ws.len() + 1,
            ces.len() == all_ws.len() + 1,
            rms.len() == all_ws.len(),
            cns[0] == nodes0,
            ces[0] == edges0,
            forall|i: int| 0 <= i < all_ws.len() ==> #[trigger] chain_step(a.pts@, cns, ces, all_ws, rms, i),
            out@.map_values(|q: Pg| q.pts@) == kept_polys(all_ws),
        ensures
            graph_wf(*g),
            graph_nodes(*g).subset_of(nodes0),
            graph_edges(*g).subset_of(edges0),
            forall|i: int, k: int| 0 <= i < out@.len() && 0 <= k < out@[i].pts@.len()
                ==> nodes0.contains(key_of(#[trigger] out@[i].pts@[k])),
            forall|i: int| 0 <= i < out@.len() ==> (#[trigger] out@[i]).kind == PolygonKind::Closed,
            forall|i: int| 0 <= i < out@.len() ==> !all_colinear((#[trigger] out@[i]).pts@),
            ws.len() == out@.len(),
            forall|i: int| 0 <= i < ws.len() ==> polygon_pts(#[trigger] ws[i]) == out@[i].pts@
                && is_walk(edges0, ws[i]) && walk_gone(graph_edges(*g), ws[i]),
            forall|i: int, j: int| 0 <= i < j < ws.len() ==> walks_disjoint(#[trigger] ws[i], #[trigger] ws[j]),
            both0 ==> graph_nodes(*g).len() == 0
                || exists|n: (i32, i32)| #[trigger] graph_nodes(*g).contains(n) && dead_end(graph_edges(*g), a.pts@, n),
            trimmed(nodes0, edges0, a.pts@, out@, cns, ces, all_ws, rms),
            is_core(cns[all_ws.len() as int], ces[all_ws.len() as int], graph_nodes(*g), graph_edges(*g)),
        decreases graph_edges(*g).len(),
    {
        let ghost g_before = *g;
        match extract_polygon(g, a) {
            Err(e) => {
                proof {
                    if e is NotAPolygon && has_pair(graph_edges(g_before)) {
                        lemma_pair_in_larger(graph_edges(g_before), edges0);
                    } else {
                        let w = choose|w: Seq<Pt>| #[trigger] walk_prefix_ok(graph_edges(g_before), graph_nodes(g_before), a.pts@, w)
                            && walk_fails(graph_edges(g_before), graph_nodes(g_before), a.pts@, w, e);
                        assert(chain_ok(nodes0, edges0, a.pts@, cns, ces, all_ws, rms));
                        assert(trim_failed(nodes0, edges0, a.pts@, e, cns, ces, all_ws, rms, w));
                        if both0 && e == CropError::SearchAborted {
                            lemma_closed_both_out(graph_nodes(g_before), graph_edges(g_before));
                            lemma_closed_has_out(g_before, key_of(w[w.len() - 1]));
                        }
                    }
                }
                return Err(e);
            },
            Ok(None) => {
                proof {
                    if cns[all_ws.len() as int].len() > 0 {
                        let n = choose|n: (i32, i32)| #[trigger] graph_nodes(g_before).contains(n) && dead_end(graph_edges(g_before), a.pts@, n);
                        assert(cns[all_ws.len() as int].contains(n));
                    }
                    assert(trimmed(nodes0, edges0, a.pts@, out@, cns, ces, all_ws, rms));
                    lemma_closed_both_out(graph_nodes(*g), graph_edges(*g));
                    assert forall|i: int| 0 <= i < ws.len() implies polygon_pts(#[trigger] ws[i]) == out@[i].pts@
                        && is_walk(edges0, ws[i]) && walk_gone(graph_edges(*g), ws[i]) by {
                        lemma_gone_fewer_edges(graph_edges(*g), graph_edges(g_before), ws[i]);
                    }
                }
                break;
            },
            Ok(Some(pg)) => {
                let ghost w = choose|w: Seq<Pt>| #[trigger] polygon_pts(w) == pg.pts@
                    && is_walk(graph_edges(g_before), w) && walk_gone(graph_edges(*g), w);
                let ghost (w2, rm2) = choose|w2: Seq<Pt>, rm2: Set<((i32, i32), (i32, i32))>|
                    #[trigger] walked_out(graph_edges(g_before), graph_nodes(g_before), a.pts@, w2, rm2, graph_nodes(*g), graph_edges(*g))
                    && polygon_pts(w2) == pg.pts@;
                let ghost out_prev = out@;
                let ghost all_prev = all_ws;
                proof {
                    let cns0 = cns;
                    let ces0 = ces;
                    let rms0 = rms;
                    cns = cns.push(graph_nodes(*g));
                    ces = ces.push(graph_edges(*g));
                    all_ws = all_ws.push(w2);
                    rms = rms.push(rm2);
                    assert forall|i: int| 0 <= i < all_ws.len() implies #[trigger] chain_step(a.pts@, cns, ces, all_ws, rms, i) by {
                        if i < all_prev.len() {
                            assert(chain_step(a.pts@, cns0, ces0, all_prev, rms0, i));
                            assert(cns[i] == cns0[i] && cns[i + 1] == cns0[i + 1] && ces[i] == ces0[i] && ces[i + 1] == ces0[i + 1]);
                            assert(all_ws[i] == all_prev[i] && rms[i] == rms0[i]);
                        }
                    }
                    assert(all_ws.drop_last() =~= all_prev);
                }
                proof {
                    lemma_closed_both_out(graph_nodes(*g), graph_edges(*g));
                    lemma_walk_more_edges(graph_edges(g_before), edges0, w);
                    assert forall|i: int| 0 <= i < ws.len() implies polygon_pts(#[trigger] ws[i]) == out@[i].pts@
                        && is_walk(edges0, ws[i]) && walk_gone(graph_edges(*g), ws[i]) by {
                        lemma_gone_fewer_edges(graph_edges(*g), graph_edges(g_before), ws[i]);
                    }
                    assert forall|i: int| 0 <= i < ws.len() implies walks_disjoint(#[trigger] ws[i], w) by {
                        lemma_gone_disjoint(graph_edges(g_before), ws[i], w);
                    }
                }
                let colinear = crate::pt::is_colinear_n(&pg.pts);
                if !colinear {
                    let ghost ws_before = ws;
                    let ghost out_before = out@;
                    out.push(pg);
                    proof {
                        ws = ws.push(w);
                        assert forall|i: int, j: int| 0 <= i < j < ws.len() implies walks_disjoint(#[trigger] ws[i], #[trigger] ws[j]) by {
                            if j < ws_before.len() {
                                assert(ws[i] == ws_before[i] && ws[j] == ws_before[j]);
                            } else {
                                assert(ws[i] == ws_before[i] && ws[j] == w);
                            }
                        }
                        assert forall|i: int| 0 <= i < ws.len() implies polygon_pts(#[trigger] ws[i]) == out@[i].pts@
                            && is_walk(edges0, ws[i]) && walk_gone(graph_edges(*g), ws[i]) by {
                            if i < ws_before.len() {
                                assert(ws[i] == ws_before[i] && out@[i] == out_before[i]);
                            }
                        }
                        assert forall|i: int, k: int| 0 <= i < out@.len() && 0 <= k < out@[i].pts@.len()
                            implies nodes0.contains(key_of(#[trigger] out@[i].pts@[k])) by {
                            if i < out_before.len() {
                                assert(out@[i] == out_before[i]);
                            }
                        }
                    }
                }
                proof {
                    assert(all_colinear(polygon_pts(w2)) == colinear);
                    if colinear {
                        assert(out@ == out_prev);
                    } else {
                        assert(out@ == out_prev.push(pg));
                        assert(out@.map_values(|q: Pg| q.pts@) =~= out_prev.map_values(|q: Pg| q.pts@).push(pg.pts@));
                    }
                }
            },
        }
    }
    proof {
        assert(walked_pieces(out@, ws, edges0, graph_edges(*g)));
        assert(trimmed(nodes0, edges0, a.pts@, out@, cns, ces, all_ws, rms));
    }
    Ok(out)
}

/// The point `p` may stand in a crop of `a` to `b`: not outside `a`, and
/// not outside `b` for an inclusive crop, not inside `b` for an exclusive one.
pub open spec fn crop_keeps(a: Pg, b: Pg, crop_type: CropType, p: Pt) -> bool {
    &&& !is_outside(a.pts@, a.kind, p)
    &&& match crop_type {
        CropType::Inclusive => !is_outside(b.pts@, b.kind, p),
        CropType::Exclusive => !is_inside(b.pts@, b.kind, p),
    }
}

/// The edges of the graph built from the pieces of the edges of `a` and
/// `b`, before any of them is removed.
pub open spec fn built_edges(a: Pg, b: Pg, crop_type: CropType) -> Set<((i32, i32), (i32, i32))> {
    round_edges(segs_of(a.pts@, a.kind), segs_of(b.pts@, b.kind), Which::A, crop_type, segs_of(a.pts@, a.kind).len() as int)
        + round_edges(segs_of(b.pts@, b.kind), segs_of(a.pts@, a.kind), Which::B, crop_type, segs_of(b.pts@, b.kind).len() as int)
}

/// The nodes of the graph built from the pieces of the edges of `a` and
/// `b`, before any of them is removed.
pub open spec fn built_nodes(a: Pg, b: Pg, crop_type: CropType) -> Set<(i32, i32)> {
    round_nodes(segs_of(a.pts@, a.kind), segs_of(b.pts@, b.kind), Which::A, crop_type, segs_of(a.pts@, a.kind).len() as int)
        + round_nodes(segs_of(b.pts@, b.kind), segs_of(a.pts@, a.kind), Which::B, crop_type, segs_of(b.pts@, b.kind).len() as int)
}

/// The built nodes that are not outside `a`, and not outside `b` for an
/// inclusive crop, not inside `b` for an exclusive one.
pub open spec fn pruned_nodes(a: Pg, b: Pg, crop_type: CropType) -> Set<(i32, i32)> {
    built_nodes(a, b, crop_type)
        .filter(|n: (i32, i32)| !dropped_pt(a.pts@, a.kind, false, pt_of(n)))
        .filter(|n: (i32, i32)| !dropped_pt(b.pts@, b.kind, crop_type == CropType::Exclusive, pt_of(n)))
}

/// The built edges between pruned nodes whose midpoints are, for an
/// inclusive crop, not outside `a`; for an exclusive crop, not inside `b`.
pub open spec fn pruned_edges(a: Pg, b: Pg, crop_type: CropType) -> Set<((i32, i32), (i32, i32))> {
    restrict(built_edges(a, b, crop_type), pruned_nodes(a, b, crop_type)).filter(|e: ((i32, i32), (i32, i32))| match crop_type {
        CropType::Inclusive => !dropped_pt(a.pts@, a.kind, false, edge_midpoint(e)),
        CropType::Exclusive => !dropped_pt(b.pts@, b.kind, true, edge_midpoint(e)),
    })
}

/// The graph with nodes `ns` and edges `es` is what the crop of `a` to `b`
/// walks: the pruned graph, less the stubs removed one at a time in the
/// order `order` until none is left, less every edge whose reverse is an
/// edge, less the nodes without edges in or out.
pub open spec fn cropped_graph(a: Pg, b: Pg, crop_type: CropType, order: Seq<(i32, i32)>, ns: Set<(i32, i32)>, es: Set<((i32, i32), (i32, i32))>) -> bool {
    let n4 = pruned_nodes(a, b, crop_type).difference(order.to_set());
    let e4 = restrict(pruned_edges(a, b, crop_type), n4);
    &&& stub_peel(pruned_edges(a, b, crop_type), pruned_nodes(a, b, crop_type), order)
    &&& forall|n: (i32, i32)| #[trigger] n4.contains(n) ==> !is_stub(e4, n)
    &&& is_core(n4, e4.filter(|e: ((i32, i32), (i32, i32))| !e4.contains(reversed_edge(e))), ns, es)
}

/// The crop of `a` to `b` failed with `e` on the graph it walks: with the
/// stub order `order` that graph has nodes `ns` and edges `es`
/// (`cropped_graph`); after the walks `ws`, the next walk `w` failed with
/// `e` (`trim_failed`), an aborted walk at a point with more than three ways
/// on.
pub open spec fn crop_failed(a: Pg, b: Pg, crop_type: CropType, e: CropError, order: Seq<(i32, i32)>, ns: Set<(i32, i32)>, es: Set<((i32, i32), (i32, i32))>,
    cns: Seq<Set<(i32, i32)>>, ces: Seq<Set<((i32, i32), (i32, i32))>>, ws: Seq<Seq<Pt>>, rms: Seq<Set<((i32, i32), (i32, i32))>>, w: Seq<Pt>) -> bool {
    &&& cropped_graph(a, b, crop_type, order, ns, es)
    &&& trim_failed(ns, es, a.pts@, e, cns, ces, ws, rms, w)
    &&& e == CropError::SearchAborted ==> out_degree(ces[ws.len() as int], key_of(w[w.len() - 1])) > 3
}

/// How a crop through the graph comes out: the pieces are those walked out
/// of the graph that the crop walks; it fails only where a walk on that
/// graph, or on what earlier walks left of it, fails (`crop_failed`).
pub open spec fn graph_crop_outcome(a: Pg, b: Pg, crop_type: CropType, r: Result<Vec<Pg>, CropError>) -> bool {
    &&& r matches Ok(v) ==> exists|order: Seq<(i32, i32)>, ns: Set<(i32, i32)>, es: Set<((i32, i32), (i32, i32))>,
        cns: Seq<Set<(i32, i32)>>, ces: Seq<Set<((i32, i32), (i32, i32))>>, ws: Seq<Seq<Pt>>, rms: Seq<Set<((i32, i32), (i32, i32))>>|
        #[trigger] cropped_graph(a, b, crop_type, order, ns, es) && #[trigger] trimmed(ns, es, a.pts@, v@, cns, ces, ws, rms)
    &&& r matches Err(e) ==> exists|order: Seq<(i32, i32)>, ns: Set<(i32, i32)>, es: Set<((i32, i32), (i32, i32))>,
        cns: Seq<Set<(i32, i32)>>, ces: Seq<Set<((i32, i32), (i32, i32))>>, ws: Seq<Seq<Pt>>, rms: Seq<Set<((i32, i32), (i32, i32))>>, w: Seq<Pt>|
        #[trigger] crop_failed(a, b, crop_type, e, order, ns, es, cns, ces, ws, rms, w)
}

/// Once every edge whose reverse is an edge is gone, no two nodes are
/// joined both ways, in what is left or in any part of it.
proof fn lemma_no_pair_after_duals(edges: Set<((i32, i32), (i32, i32))>, part: Set<((i32, i32), (i32, i32))>)
    requires
        part.subset_of(edges.filter(|e: ((i32, i32), (i32, i32))| !edges.contains(reversed_edge(e)))),
    ensures
        !has_pair(part),
{
    if has_pair(part) {
        let (x, y) = choose|x: (i32, i32), y: (i32, i32)| #[trigger] part.contains((x, y)) && part.contains((y, x));
        assert(edges.filter(|e: ((i32, i32), (i32, i32))| !edges.contains(reversed_edge(e))).contains((x, y)));
        assert(edges.filter(|e: ((i32, i32), (i32, i32))| !edges.contains(reversed_edge(e))).contains((y, x)));
        assert(reversed_edge((x, y)) == (y, x));
    }
}

/// The crop of one polygon to another through the directed graph made of
/// the pieces of their edges.
pub struct CropGraph {}

impl CropGraph {
    /// Crops `a` to `b` through the graph of their cut edges: builds the
    /// graph, removes the nodes outside `a`, then for an inclusive crop the
    /// nodes outside `b` and the edges whose midpoints lie outside `a`, for
    /// an exclusive crop the nodes inside `b` and the edges whose midpoints
    /// lie inside `b`; then stubs, pairs of opposite edges and nodes without
    /// edges in or out; then walks out the pieces. Returns the pieces and
    /// the graph as it was before the walks.
    pub fn run(a: &Pg, b: &Pg, crop_type: CropType) -> (r: Result<(Vec<Pg>, GraphMap<(i32, i32), (), Directed, RandomState>), CropError>)
        ensures
            r matches Ok((v, gr)) ==> forall|i: int, k: int| 0 <= i < v@.len() && 0 <= k < v@[i].pts@.len()
                ==> crop_keeps(*a, *b, crop_type, #[trigger] v@[i].pts@[k]),
            r matches Ok((v, gr)) ==> forall|i: int| 0 <= i < v@.len() ==> (#[trigger] v@[i]).kind == PolygonKind::Closed,
            r matches Ok((v, gr)) ==> forall|i: int| 0 <= i < v@.len() ==> !all_colinear((#[trigger] v@[i]).pts@),
            r matches Ok((v, gr)) ==> graph_wf(gr)
                && (forall|n: (i32, i32)| #[trigger] graph_nodes(gr).contains(n) ==> crop_keeps(*a, *b, crop_type, pt_of(n)))
                && (forall|e: ((i32, i32), (i32, i32))| #[trigger] graph_edges(gr).contains(e) ==> pruned_edges(*a, *b, crop_type).contains(e)),
            r matches Ok((v, gr)) ==> exists|order: Seq<(i32, i32)>| #[trigger] cropped_graph(*a, *b, crop_type, order, graph_nodes(gr), graph_edges(gr)),
            r matches Ok((v, gr)) ==> exists|cns: Seq<Set<(i32, i32)>>, ces: Seq<Set<((i32, i32), (i32, i32))>>, ws: Seq<Seq<Pt>>, rms: Seq<Set<((i32, i32), (i32, i32))>>|
                #[trigger] trimmed(graph_nodes(gr), graph_edges(gr), a.pts@, v@, cns, ces, ws, rms),
            r matches Err(e) ==> exists|order: Seq<(i32, i32)>, ns: Set<(i32, i32)>, es: Set<((i32, i32), (i32, i32))>,
                cns: Seq<Set<(i32, i32)>>, ces: Seq<Set<((i32, i32), (i32, i32))>>, ws: Seq<Seq<Pt>>, rms: Seq<Set<((i32, i32), (i32, i32))>>, w: Seq<Pt>|
                #[trigger] crop_failed(*a, *b, crop_type, e, order, ns, es, cns, ces, ws, rms, w),
    {
        let mut g = graph_new();
        proof {
            assert(graph_wf(g));
        }
        build_from_polygons(&mut g, a, b, crop_type);
        let ghost g_built = g;
        proof {
            assert(graph_edges(g) =~= built_edges(*a, *b, crop_type));
            assert(graph_nodes(g) =~= built_nodes(*a, *b, crop_type));
        }
        prune_nodes(&mut g, a, false);
        let ghost n1 = graph_nodes(g);
        let ghost e1 = graph_edges(g);
        proof {
            lemma_restrict_subset(graph_edges(g_built), graph_nodes(g));
        }
        match crop_type {
            CropType::Inclusive => {
                prune_nodes(&mut g, b, false);
                proof {
                    lemma_restrict_subset(e1, graph_nodes(g));
                    lemma_restrict_twice(graph_edges(g_built), n1, graph_nodes(g));
                    assert(graph_nodes(g) =~= pruned_nodes(*a, *b, crop_type));
                }
                let ghost e2 = graph_edges(g);
                prune_edges(&mut g, a, false);
                proof {
                    assert(graph_edges(g).subset_of(e2));
                    assert(graph_edges(g) =~= pruned_edges(*a, *b, crop_type));
                }
            },
            CropType::Exclusive => {
                prune_nodes(&mut g, b, true);
                proof {
                    lemma_restrict_subset(e1, graph_nodes(g));
                    lemma_restrict_twice(graph_edges(g_built), n1, graph_nodes(g));
                    assert(graph_nodes(g) =~= pruned_nodes(*a, *b, crop_type));
                }
                let ghost e2 = graph_edges(g);
                prune_edges(&mut g, b, true);
                proof {
                    assert(graph_edges(g).subset_of(e2));
                    assert(graph_edges(g) =~= pruned_edges(*a, *b, crop_type));
                }
            },
        }
        let ghost kept = graph_nodes(g);
        proof {
            assert forall|n: (i32, i32)| #[trigger] kept.contains(n) implies crop_keeps(*a, *b, crop_type, pt_of(n)) by {
            }
        }
        let ghost e3 = graph_edges(g);
        remove_stubs(&mut g);
        let ghost n4 = graph_nodes(g);
        let ghost e_s = graph_edges(g);
        proof {
            lemma_restrict_subset(e3, graph_nodes(g));
        }
        remove_dual_edges(&mut g);
        let ghost e_d = graph_edges(g);
        remove_nodes_with_no_neighbors_of_any_kind(&mut g);
        let ghost before_trim = graph_nodes(g);
        let ghost e_t = graph_edges(g);
        proof {
            lemma_restrict_subset(e_d, before_trim);
            lemma_no_pair_after_duals(e_s, e_t);
            lemma_closed_both_restrict(before_trim, e_d);
            lemma_closed_both_out(before_trim, e_t);
            assert(e_t.subset_of(built_edges(*a, *b, crop_type)));
        }
        let ghost order = choose|order: Seq<(i32, i32)>| #[trigger] stub_peel(e3, kept, order)
            && n4 == kept.difference(order.to_set());
        proof {
            assert(is_core(n4, e_d, before_trim, e_t));
            assert(cropped_graph(*a, *b, crop_type, order, before_trim, e_t));
        }
        let graph = graph_clone(&g);
        let r = trim_and_create_resultant_polygons(&mut g, a);
        proof {
            if r is Ok {
                let v = r->Ok_0;
                assert forall|i: int, k: int| 0 <= i < v@.len() && 0 <= k < v@[i].pts@.len()
                    implies crop_keeps(*a, *b, crop_type, #[trigger] v@[i].pts@[k]) by {
                    let p = v@[i].pts@[k];
                    assert(before_trim.contains(key_of(p)));
                    assert(kept.contains(key_of(p)));
                    assert(pt_of(key_of(p)) == p);
                }
            } else {
                let e = r->Err_0;
                assert(!has_pair(e_t));
                let (cns, ces, ws, rms, w) = choose|cns: Seq<Set<(i32, i32)>>, ces: Seq<Set<((i32, i32), (i32, i32))>>, ws: Seq<Seq<Pt>>,
                    rms: Seq<Set<((i32, i32), (i32, i32))>>, w: Seq<Pt>|
                    #[trigger] trim_failed(before_trim, e_t, a.pts@, e, cns, ces, ws, rms, w)
                    && (closed_both(before_trim, e_t) && e == CropError::SearchAborted
                        ==> out_degree(ces[ws.len() as int], key_of(w[w.len() - 1])) > 3);
                assert(crop_failed(*a, *b, crop_type, e, order, before_trim, e_t, cns, ces, ws, rms, w));
            }
        }
        match r {
            Ok(v) => {
                proof {
                    let (cns, ces, ws, rms) = choose|cns: Seq<Set<(i32, i32)>>, ces: Seq<Set<((i32, i32), (i32, i32))>>, ws: Seq<Seq<Pt>>, rms: Seq<Set<((i32, i32), (i32, i32))>>|
                        #[trigger] trimmed(before_trim, e_t, a.pts@, v@, cns, ces, ws, rms);
                    assert(trimmed(graph_nodes(graph), graph_edges(graph), a.pts@, v@, cns, ces, ws, rms));
                    assert(cropped_graph(*a, *b, crop_type, order, graph_nodes(graph), graph_edges(graph)));
                }
                let ghost gg = graph;
                let ghost vv = v;
                let res: Result<(Vec<Pg>, GraphMap<(i32, i32), (), Directed, RandomState>), CropError> = Ok((v, graph));
                proof {
                    let (v2, gr) = res->Ok_0;
                    assert(gr == gg && v2 == vv);
                    assert(cropped_graph(*a, *b, crop_type, order, graph_nodes(gr), graph_edges(gr)));
                }
                res
            },
            Err(e) => Err(e),
        }
    }
}

/// No point of `t` lies outside the polygon with points `s`.
pub open spec fn none_outside(s: Seq<Pt>, kind: PolygonKind, t: Seq<Pt>) -> bool {
    forall|k: int| 0 <= k < t.len() ==> !is_outside(s, kind, #[trigger] t[k])
}

/// Every point of `t` lies outside the polygon with points `s`.
pub open spec fn all_outside(s: Seq<Pt>, kind: PolygonKind, t: Seq<Pt>) -> bool {
    forall|k: int| 0 <= k < t.len() ==> is_outside(s, kind, #[trigger] t[k])
}

/// `x` and `y` are equal as polygons: the same kind, and the same points in
/// the same cyclic order.
pub open spec fn same_polygon(x: Pg, y: Pg) -> bool {
    rotated_to_max(x.pts@) == rotated_to_max(y.pts@) && x.kind == y.kind
}

/// A copy of the polygon.
fn copy_pg(p: &Pg) -> (r: Pg)
    ensures
        r.pts@ == p.pts@,
        r.kind == p.kind,
{
    let mut pts: Vec<Pt> = Vec::new();
    let mut k: usize = 0;
    while k < p.pts.len()
        invariant
            k <= p.pts@.len(),
            pts@ == p.pts@.take(k as int),
        decreases p.pts@.len() - k,
    {
        pts.push(p.pts[k]);
        proof {
            assert(pts@ =~= p.pts@.take(k + 1));
        }
        k = k + 1;
    }
    proof {
        assert(pts@ =~= p.pts@);
    }
    Pg { pts, kind: p.kind }
}

/// `v` holds one polygon, with the points and the kind of `p`.
pub open spec fn just(v: Seq<Pg>, p: Pg) -> bool {
    v.len() == 1 && v[0].pts@ == p.pts@ && v[0].kind == p.kind
}

/// What cropping `a` to `b` gives. Equal polygons crop to `a`; otherwise
/// both must be closed. When no segments of the two meet, an inclusive crop
/// gives `b` if `a` holds it, `a` if `b` holds it, nothing if they lie
/// apart, and fails otherwise; an exclusive crop fails if `a` holds `b`,
/// gives nothing if `b` holds `a`, and `a` if they lie apart. Otherwise the
/// crop goes through the graph of their cut edges (`graph_crop_outcome`).
/// Whatever the crop gives, every point of every piece may stand in it
/// (`crop_keeps`).
pub open spec fn crop_outcome(a: Pg, b: Pg, crop_type: CropType, r: Result<Vec<Pg>, CropError>) -> bool {
    let apart = !any_pair_meets(segs_of(a.pts@, a.kind), segs_of(b.pts@, b.kind));
    let both_closed = a.kind == PolygonKind::Closed && b.kind == PolygonKind::Closed;
    &&& same_polygon(a, b) ==> (r matches Ok(v) && just(v@, a))
    &&& !same_polygon(a, b) && a.kind != PolygonKind::Closed ==> r == Err::<Vec<Pg>, CropError>(CropError::ThisPolygonNotClosed)
    &&& !same_polygon(a, b) && a.kind == PolygonKind::Closed && b.kind != PolygonKind::Closed
        ==> r == Err::<Vec<Pg>, CropError>(CropError::ThatPolygonNotClosed)
    &&& !same_polygon(a, b) && both_closed && apart && crop_type == CropType::Inclusive ==> (
        if none_outside(a.pts@, a.kind, b.pts@) {
            r matches Ok(v) && just(v@, b)
        } else if none_outside(b.pts@, b.kind, a.pts@) {
            r matches Ok(v) && just(v@, a)
        } else if all_outside(b.pts@, b.kind, a.pts@) {
            r matches Ok(v) && v@.len() == 0
        } else {
            r == Err::<Vec<Pg>, CropError>(CropError::NoCrossingsButNotApart)
        })
    &&& !same_polygon(a, b) && both_closed && apart && crop_type == CropType::Exclusive ==> (
        if none_outside(a.pts@, a.kind, b.pts@) {
            r == Err::<Vec<Pg>, CropError>(CropError::CavityNotSupported)
        } else if none_outside(b.pts@, b.kind, a.pts@) {
            r matches Ok(v) && v@.len() == 0
        } else if all_outside(b.pts@, b.kind, a.pts@) {
            r matches Ok(v) && just(v@, a)
        } else {
            true
        })
    &&& !same_polygon(a, b) && both_closed && (!apart || (crop_type == CropType::Exclusive
        && !none_outside(a.pts@, a.kind, b.pts@) && !none_outside(b.pts@, b.kind, a.pts@) && !all_outside(b.pts@, b.kind, a.pts@)))
        ==> graph_crop_outcome(a, b, crop_type, r)
    &&& r matches Ok(v) ==> forall|i: int, k: int| 0 <= i < v@.len() && 0 <= k < v@[i].pts@.len()
        ==> crop_keeps(a, b, crop_type, #[trigger] v@[i].pts@[k])
}

/// Both polygons of a crop must be closed.
fn crop_check_prerequisites(a: &Pg, b: &Pg) -> (r: Result<(), CropError>)
    ensures
        a.kind != PolygonKind::Closed ==> r == Err::<(), CropError>(CropError::ThisPolygonNotClosed),
        a.kind == PolygonKind::Closed && b.kind != PolygonKind::Closed ==> r == Err::<(), CropError>(CropError::ThatPolygonNotClosed),
        a.kind == PolygonKind::Closed && b.kind == PolygonKind::Closed ==> r == Ok::<(), CropError>(()),
{
    if a.kind != PolygonKind::Closed {
        return Err(CropError::ThisPolygonNotClosed);
    }
    if b.kind != PolygonKind::Closed {
        return Err(CropError::ThatPolygonNotClosed);
    }
    Ok(())
}

impl Pg {
    /// Crops this polygon to `b`: for an inclusive crop, the parts of this
    /// polygon inside `b`; for an exclusive crop, the parts outside `b`.
    ///
    /// Equal polygons crop to themselves. Otherwise both must be closed. When
    /// no segments of the two meet,
    /// an inclusive crop gives `b` if this polygon holds it, this polygon if
    /// `b` holds it, nothing if they lie apart, and fails otherwise; an
    /// exclusive crop fails if this polygon holds `b` (that would leave a
    /// cavity), gives nothing if `b` holds it and this polygon if they lie
    /// apart. Otherwise the pieces are walked out of the graph of cut edges.
    /// Every point of every piece lies in this polygon and, for an inclusive
    /// crop, in `b`; for an exclusive crop, not inside `b`.
    pub fn crop(&self, b: &Pg, crop_type: CropType) -> (r: Result<Vec<Pg>, CropError>)
        ensures
            crop_outcome(*self, *b, crop_type, r),
    {
        if *self == *b {
            let c = copy_pg(self);
            proof {
                lemma_equal_polygons_share_points(self.pts@, b.pts@);
                assert forall|k: int| 0 <= k < c.pts@.len() implies crop_keeps(*self, *b, crop_type, #[trigger] c.pts@[k]) by {
                    assert(is_vertex(self.pts@, c.pts@[k]));
                    lemma_vertex_is_on_border(self.pts@, self.kind, c.pts@[k]);
                    lemma_vertex_is_on_border(b.pts@, b.kind, c.pts@[k]);
                }
            }
            return Ok(vec![c]);
        }
        if let Err(e) = crop_check_prerequisites(self, b) {
            return Err(e);
        }
        if self.annotated_intersects_detailed(b).len() == 0 {
            match crop_type {
                CropType::Inclusive => {
                    if self.totally_contains(b) {
                        let c = copy_pg(b);
                        proof {
                            assert forall|k: int| 0 <= k < c.pts@.len() implies crop_keeps(*self, *b, crop_type, #[trigger] c.pts@[k]) by {
                                assert(is_vertex(b.pts@, c.pts@[k]));
                                lemma_vertex_is_on_border(b.pts@, b.kind, c.pts@[k]);
                            }
                        }
                        return Ok(vec![c]);
                    }
                    if b.totally_contains(self) {
                        let c = copy_pg(self);
                        proof {
                            assert forall|k: int| 0 <= k < c.pts@.len() implies crop_keeps(*self, *b, crop_type, #[trigger] c.pts@[k]) by {
                                assert(is_vertex(self.pts@, c.pts@[k]));
                                lemma_vertex_is_on_border(self.pts@, self.kind, c.pts@[k]);
                            }
                        }
                        return Ok(vec![c]);
                    }
                    if b.contains_not_at_all(self) {
                        return Ok(Vec::new());
                    }
                    return Err(CropError::NoCrossingsButNotApart);
                },
                CropType::Exclusive => {
                    if self.totally_contains(b) {
                        return Err(CropError::CavityNotSupported);
                    }
                    if b.totally_contains(self) {
                        return Ok(Vec::new());
                    }
                    if b.contains_not_at_all(self) {
                        let c = copy_pg(self);
                        proof {
                            assert forall|k: int| 0 <= k < c.pts@.len() implies crop_keeps(*self, *b, crop_type, #[trigger] c.pts@[k]) by {
                                assert(is_vertex(self.pts@, c.pts@[k]));
                                lemma_vertex_is_on_border(self.pts@, self.kind, c.pts@[k]);
                            }
                        }
                        return Ok(vec![c]);
                    }
                },
            }
        }
        match CropGraph::run(self, b, crop_type) {
            Ok((v, graph)) => {
                proof {
                    let order = choose|order: Seq<(i32, i32)>| #[trigger] cropped_graph(*self, *b, crop_type, order, graph_nodes(graph), graph_edges(graph));
                    let (cns, ces, ws, rms) = choose|cns: Seq<Set<(i32, i32)>>, ces: Seq<Set<((i32, i32), (i32, i32))>>, ws: Seq<Seq<Pt>>, rms: Seq<Set<((i32, i32), (i32, i32))>>|
                        #[trigger] trimmed(graph_nodes(graph), graph_edges(graph), self.pts@, v@, cns, ces, ws, rms);
                    assert(cropped_graph(*self, *b, crop_type, order, graph_nodes(graph), graph_edges(graph))
                        && trimmed(graph_nodes(graph), graph_edges(graph), self.pts@, v@, cns, ces, ws, rms));
                }
                Ok(v)
            },
            Err(e) => Err(e),
        }
    }

    /// Crops this polygon to `b`, keeping the parts inside it.
    pub fn crop_to(&self, b: &Pg) -> (r: Result<Vec<Pg>, CropError>)
        ensures
            crop_outcome(*self, *b, CropType::Inclusive, r),
    {
        self.crop(b, CropType::Inclusive)
    }

    /// Crops this polygon to `b`, keeping the parts outside it.
    pub fn crop_excluding(&self, b: &Pg) -> (r: Result<Vec<Pg>, CropError>)
        ensures
            crop_outcome(*self, *b, CropType::Exclusive, r),
    {
        self.crop(b, CropType::Exclusive)
    }
}

/// An inclusive crop keeps all of the frame that lies in the polygon: when
/// the edges of `a` and the frame `b` do not meet and no point of `b` lies
/// outside `a`, whatever the crop gives is one piece, `b` itself.
pub proof fn lemma_inclusive_crop_of_held_frame(a: Pg, b: Pg, r: Result<Vec<Pg>, CropError>)
    requires
        crop_outcome(a, b, CropType::Inclusive, r),
        a.kind == PolygonKind::Closed,
        b.kind == PolygonKind::Closed,
        !any_pair_meets(segs_of(a.pts@, a.kind), segs_of(b.pts@, b.kind)),
        none_outside(a.pts@, a.kind, b.pts@),
    ensures
        r matches Ok(v) && v@.len() == 1 && same_polygon(v@[0], b),
{
}

/// An exclusive crop fails for want of cavities only where the cut would
/// leave one: both polygons closed, their edges not meeting, and no point of
/// `b` outside `a`.
pub proof fn lemma_exclusive_crop_cavity_only_when_held(a: Pg, b: Pg, r: Result<Vec<Pg>, CropError>)
    requires
        crop_outcome(a, b, CropType::Exclusive, r),
        r == Err::<Vec<Pg>, CropError>(CropError::CavityNotSupported),
    ensures
        a.kind == PolygonKind::Closed,
        b.kind == PolygonKind::Closed,
        !any_pair_meets(segs_of(a.pts@, a.kind), segs_of(b.pts@, b.kind)),
        none_outside(a.pts@, a.kind, b.pts@),
{
    let apart = !any_pair_meets(segs_of(a.pts@, a.kind), segs_of(b.pts@, b.kind));
    if a.kind == PolygonKind::Closed && b.kind == PolygonKind::Closed && !same_polygon(a, b)
        && (!apart || !none_outside(a.pts@, a.kind, b.pts@)) {
        if !apart || (!none_outside(b.pts@, b.kind, a.pts@) && !all_outside(b.pts@, b.kind, a.pts@)) {
            assert(graph_crop_outcome(a, b, CropType::Exclusive, r));
            let (order, ns, es, cns, ces, ws, rms, w) = choose|order: Seq<(i32, i32)>, ns: Set<(i32, i32)>, es: Set<((i32, i32), (i32, i32))>,
                cns: Seq<Set<(i32, i32)>>, ces: Seq<Set<((i32, i32), (i32, i32))>>, ws: Seq<Seq<Pt>>, rms: Seq<Set<((i32, i32), (i32, i32))>>, w: Seq<Pt>|
                #[trigger] crop_failed(a, b, CropType::Exclusive, CropError::CavityNotSupported, order, ns, es, cns, ces, ws, rms, w);
            assert(!walk_fails(ces[ws.len() as int], cns[ws.len() as int], a.pts@, w, CropError::CavityNotSupported));
        }
    }
}

/// Cutting `b` away from a polygon `a` that it holds leaves nothing, and
/// the cut succeeds: when the edges do not meet, no point of `a` lies
/// outside `b`, some point of `b` lies outside `a`, and the polygons differ,
/// whatever the exclusive crop gives is the empty list.
pub proof fn lemma_exclusive_crop_of_held_polygon(a: Pg, b: Pg, r: Result<Vec<Pg>, CropError>)
    requires
        crop_outcome(a, b, CropType::Exclusive, r),
        a.kind == PolygonKind::Closed,
        b.kind == PolygonKind::Closed,
        !same_polygon(a, b),
        !any_pair_meets(segs_of(a.pts@, a.kind), segs_of(b.pts@, b.kind)),
        none_outside(b.pts@, b.kind, a.pts@),
        !none_outside(a.pts@, a.kind, b.pts@),
    ensures
        r matches Ok(v) && v@.len() == 0,
{
}

/// An inclusive crop of a polygon that the frame holds keeps the polygon
/// whole: when the edges do not meet, no point of `a` lies outside `b` and
/// some point of `b` lies outside `a`, whatever the crop gives is one piece,
/// `a` itself.
pub proof fn lemma_inclusive_crop_of_held_polygon(a: Pg, b: Pg, r: Result<Vec<Pg>, CropError>)
    requires
        crop_outcome(a, b, CropType::Inclusive, r),
        a.kind == PolygonKind::Closed,
        b.kind == PolygonKind::Closed,
        !any_pair_meets(segs_of(a.pts@, a.kind), segs_of(b.pts@, b.kind)),
        none_outside(b.pts@, b.kind, a.pts@),
        !none_outside(a.pts@, a.kind, b.pts@),
    ensures
        r matches Ok(v) && v@.len() == 1 && same_polygon(v@[0], a),
{
}

/// A crop of a polygon that lies apart from the frame: when the edges do
/// not meet, every point of `a` lies outside `b` and some point of `b` lies
/// outside `a`, the inclusive crop keeps nothing and the exclusive crop keeps
/// `a` whole.
pub proof fn lemma_crop_of_polygon_apart(a: Pg, b: Pg, ri: Result<Vec<Pg>, CropError>, re: Result<Vec<Pg>, CropError>)
    requires
        crop_outcome(a, b, CropType::Inclusive, ri),
        crop_outcome(a, b, CropType::Exclusive, re),
        a.kind == PolygonKind::Closed,
        b.kind == PolygonKind::Closed,
        !any_pair_meets(segs_of(a.pts@, a.kind), segs_of(b.pts@, b.kind)),
        all_outside(b.pts@, b.kind, a.pts@),
        a.pts@.len() > 0,
        !none_outside(a.pts@, a.kind, b.pts@),
    ensures
        ri matches Ok(v) && v@.len() == 0,
        re matches Ok(v) && v@.len() == 1 && same_polygon(v@[0], a),
{
    assert(is_outside(b.pts@, b.kind, a.pts@[0]));
    assert(!none_outside(b.pts@, b.kind, a.pts@));
    if same_polygon(a, b) {
        crate::pg::lemma_equal_polygons_share_points(a.pts@, b.pts@);
        assert(is_vertex(b.pts@, a.pts@[0]));
        lemma_vertex_is_on_border(b.pts@, b.kind, a.pts@[0]);
    }
}

/// An inclusive crop fails for want of crossings only where the polygons'
/// edges do not meet and yet neither holds the other and they do not lie
/// apart.
pub proof fn lemma_inclusive_crop_no_crossings_error(a: Pg, b: Pg, r: Result<Vec<Pg>, CropError>)
    requires
        crop_outcome(a, b, CropType::Inclusive, r),
        r == Err::<Vec<Pg>, CropError>(CropError::NoCrossingsButNotApart),
    ensures
        a.kind == PolygonKind::Closed,
        b.kind == PolygonKind::Closed,
        !any_pair_meets(segs_of(a.pts@, a.kind), segs_of(b.pts@, b.kind)),
        !none_outside(a.pts@, a.kind, b.pts@),
        !none_outside(b.pts@, b.kind, a.pts@),
        !all_outside(b.pts@, b.kind, a.pts@),
{
    let apart = !any_pair_meets(segs_of(a.pts@, a.kind), segs_of(b.pts@, b.kind));
    if a.kind == PolygonKind::Closed && b.kind == PolygonKind::Closed && !same_polygon(a, b) && !apart {
        assert(graph_crop_outcome(a, b, CropType::Inclusive, r));
        let (order, ns, es, cns, ces, ws, rms, w) = choose|order: Seq<(i32, i32)>, ns: Set<(i32, i32)>, es: Set<((i32, i32), (i32, i32))>,
            cns: Seq<Set<(i32, i32)>>, ces: Seq<Set<((i32, i32), (i32, i32))>>, ws: Seq<Seq<Pt>>, rms: Seq<Set<((i32, i32), (i32, i32))>>, w: Seq<Pt>|
            #[trigger] crop_failed(a, b, CropType::Inclusive, CropError::NoCrossingsButNotApart, order, ns, es, cns, ces, ws, rms, w);
        assert(!walk_fails(ces[ws.len() as int], cns[ws.len() as int], a.pts@, w, CropError::NoCrossingsButNotApart));
    }
}

} // verus!
