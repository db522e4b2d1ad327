use vyges_layout::contour::trace_contours;
use vyges_layout::edges::{convex_corners, edges_and, edges_not, ring_corners, ring_edges, separation, Axis, Edge};
use vyges_layout::geom::Rect;

fn r(x0: i32, y0: i32, x1: i32, y1: i32) -> Rect {
    Rect { x0, y0, x1, y1 }
}

fn h(x0: i32, x1: i32, y: i32) -> Edge {
    Edge { a: (x0, y), b: (x1, y) }
}

#[test]
fn rectangle_four_convex_corners() {
    let rings = trace_contours(&[r(0, 0, 10, 6)]);
    let c = ring_corners(&rings[0]);
    assert_eq!(c.len(), 4);
    assert!(c.iter().all(|x| x.convex), "all rectangle corners are convex");
}

#[test]
fn edges_axis_and_length() {
    let rings = trace_contours(&[r(0, 0, 10, 6)]);
    let e = ring_edges(&rings[0]);
    assert_eq!(e.len(), 4);
    let total: i64 = e.iter().map(|x| x.len()).sum();
    assert_eq!(total, 2 * (10 + 6), "perimeter");
    assert_eq!(e.iter().filter(|x| x.axis() == Axis::Horizontal).count(), 2);
    assert_eq!(e.iter().filter(|x| x.axis() == Axis::Vertical).count(), 2);
}

#[test]
fn l_shape_has_one_concave_corner() {
    // vertical bar + foot: an L with exactly one reflex (concave) inner corner
    let rings = trace_contours(&[r(0, 0, 4, 12), r(4, 0, 12, 4)]);
    let c = ring_corners(&rings[0]);
    assert_eq!(c.len(), 6);
    assert_eq!(c.iter().filter(|x| x.convex).count(), 5);
    assert_eq!(c.iter().filter(|x| !x.convex).count(), 1);
}

#[test]
fn hole_corners_are_concave() {
    // a square with a square hole: outer corners convex, hole corners concave
    let rects = [r(0, 0, 30, 10), r(0, 20, 30, 30), r(0, 10, 10, 20), r(20, 10, 30, 20)];
    let rings = trace_contours(&rects);
    assert_eq!(rings.len(), 2);
    for ring in &rings {
        let c = ring_corners(ring);
        assert_eq!(c.len(), 4);
        // area sign tells outer (CCW, +) from hole (CW, -)
        let area2: i64 = {
            let n = ring.len() - 1;
            (0..n).map(|i| ring[i].0 as i64 * ring[i + 1].1 as i64 - ring[i + 1].0 as i64 * ring[i].1 as i64).sum()
        };
        if area2 > 0 {
            assert!(c.iter().all(|x| x.convex), "outer square: all convex");
        } else {
            assert!(c.iter().all(|x| !x.convex), "hole: all concave w.r.t. the solid");
        }
    }
}

#[test]
fn edges_and_keeps_the_overlap() {
    // a: x 0..20 at y=5 ; b: x 8..30 at y=5 -> overlap x 8..20
    let got = edges_and(&[h(0, 20, 5)], &[h(8, 30, 5)]);
    assert_eq!(got, vec![h(8, 20, 5)]);
}

#[test]
fn edges_not_removes_the_overlap() {
    // a minus b -> the two uncovered stubs, keeping a's direction (left→right)
    let got = edges_not(&[h(0, 30, 5)], &[h(8, 20, 5)]);
    assert_eq!(got, vec![h(0, 8, 5), h(20, 30, 5)]);
}

#[test]
fn perpendicular_and_offset_edges_dont_interact() {
    let vertical = Edge { a: (10, 0), b: (10, 20) };
    let other_line = h(0, 20, 9); // same orientation, different y
    let a = [h(0, 20, 5)];
    assert!(edges_and(&a, &[vertical]).is_empty());
    assert!(edges_and(&a, &[other_line]).is_empty());
    assert_eq!(edges_not(&a, &[vertical, other_line]), vec![h(0, 20, 5)]);
}

#[test]
fn antiparallel_coincident_still_matches() {
    // b runs the opposite way on the same line; matching ignores direction, and the
    // result keeps a's (left→right) direction.
    let a = [h(0, 20, 5)];
    let b = [Edge { a: (18, 5), b: (2, 5) }]; // right→left, x 2..18
    assert_eq!(edges_and(&a, &b), vec![h(2, 18, 5)]);
}

#[test]
fn via_edge_coincident_with_metal_boundary() {
    // a via's edges, split into the part on the metal boundary (edges_and) and the part
    // that departs from it (edges_not).
    let via = ring_edges(&trace_contours(&[Rect { x0: 0, y0: 0, x1: 10, y1: 10 }])[0]);
    // metal boundary segment coincident with the via's bottom edge, x 0..6 at y=0
    let metal = [h(0, 6, 0)];
    let on = edges_and(&via, &metal);
    let off = edges_not(&via, &metal);
    // a 6-long coincident stub on the boundary (direction follows the ring)
    assert_eq!(on.iter().map(|e| e.len()).sum::<i64>(), 6);
    // the via still has its full perimeter minus that 6-long coincident stub
    let total: i64 = via.iter().map(|e| e.len()).sum();
    let off_len: i64 = off.iter().map(|e| e.len()).sum();
    assert_eq!(off_len, total - 6);
}

#[test]
fn separation_finds_only_the_facing_gap() {
    let a = ring_edges(&trace_contours(&[Rect { x0: 0, y0: 0, x1: 10, y1: 10 }])[0]);
    // B is 4 dbu to the right of A (A right edge x=10, B left edge x=14)
    let b = ring_edges(&trace_contours(&[Rect { x0: 14, y0: 0, x1: 24, y1: 10 }])[0]);
    let pairs = separation(&a, &b, 5);
    assert_eq!(pairs.len(), 1, "only A's right edge faces B's left edge across the 4-gap");
    // gap == dist is not a violation
    assert!(separation(&a, &b, 4).is_empty());
    // far apart: nothing
    let c = ring_edges(&trace_contours(&[Rect { x0: 100, y0: 0, x1: 110, y1: 10 }])[0]);
    assert!(separation(&a, &c, 5).is_empty());
}

#[test]
fn edge_direction_and_emptiness() {
    let e = Edge { a: (3, 7), b: (3, -2) };
    assert_eq!(e.dir(), (0, -1));
    assert_eq!(e.axis(), Axis::Vertical);
    assert_eq!(e.len(), 9);
    assert!(!e.is_empty());
    assert!(Edge { a: (1, 1), b: (1, 1) }.is_empty());
}

#[test]
fn convex_corners_of_an_l() {
    let rings = trace_contours(&[r(0, 0, 4, 12), r(4, 0, 12, 4)]);
    assert_eq!(convex_corners(&rings[0]).len(), 5);
    assert!(ring_corners(&[(0, 0), (1, 0), (0, 0)]).is_empty());
}

#[test]
fn and_plus_not_restores_each_edge() {
    let a = [h(0, 30, 5), Edge { a: (7, 0), b: (7, 40) }];
    let b = [h(10, 12, 5), h(25, 40, 5), Edge { a: (7, 35), b: (7, 5) }];
    let on: i64 = edges_and(&a, &b).iter().map(|e| e.len()).sum();
    let off: i64 = edges_not(&a, &b).iter().map(|e| e.len()).sum();
    assert_eq!(on, 2 + 5 + 30);
    assert_eq!(on + off, 30 + 40);
}

#[test]
fn pieces_keep_the_direction_of_their_edge() {
    // a runs right→left over x 0..30 at y=5; b covers x 8..20 of the same line
    let a = [Edge { a: (30, 5), b: (0, 5) }];
    let b = [h(8, 20, 5)];
    assert_eq!(edges_and(&a, &b), vec![Edge { a: (20, 5), b: (8, 5) }]);
    assert_eq!(
        edges_not(&a, &b),
        vec![Edge { a: (8, 5), b: (0, 5) }, Edge { a: (30, 5), b: (20, 5) }]
    );
}
