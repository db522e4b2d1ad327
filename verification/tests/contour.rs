use vyges_layout::contour::trace_contours;
use vyges_layout::geom::Rect;

fn r(x0: i32, y0: i32, x1: i32, y1: i32) -> Rect {
    Rect { x0, y0, x1, y1 }
}

/// 2× signed area of a closed ring (CCW > 0).
fn area2(ring: &[(i32, i32)]) -> i64 {
    let n = ring.len() - 1; // last == first
    let mut a = 0i64;
    for i in 0..n {
        let (x1, y1) = ring[i];
        let (x2, y2) = ring[i + 1];
        a += x1 as i64 * y2 as i64 - x2 as i64 * y1 as i64;
    }
    a
}

fn net_area2(rings: &[Vec<(i32, i32)>]) -> i64 {
    rings.iter().map(|r| area2(r)).sum()
}

fn input_area2(rects: &[Rect]) -> i64 {
    rects.iter().map(|r| 2 * r.area()).sum()
}

#[test]
fn single_rect_one_ccw_ring() {
    let rects = [r(0, 0, 10, 6)];
    let rings = trace_contours(&rects);
    assert_eq!(rings.len(), 1);
    assert_eq!(rings[0].len(), 5, "4 corners + close");
    assert!(area2(&rings[0]) > 0, "outer ring is CCW");
    assert_eq!(net_area2(&rings), input_area2(&rects));
}

#[test]
fn two_abutting_rects_merge_to_one_ring() {
    // share the edge x=10 fully -> a single 20x6 rectangle, 4 corners
    let rects = [r(0, 0, 10, 6), r(10, 0, 20, 6)];
    let rings = trace_contours(&rects);
    assert_eq!(rings.len(), 1);
    assert_eq!(rings[0].len(), 5, "collinear join dropped");
    assert_eq!(net_area2(&rings), input_area2(&rects));
}

#[test]
fn l_shape_from_two_rects() {
    // vertical bar + horizontal foot sharing a partial edge (T-junction)
    let rects = [r(0, 0, 4, 12), r(4, 0, 12, 4)];
    let rings = trace_contours(&rects);
    assert_eq!(rings.len(), 1);
    assert_eq!(rings[0].len(), 7, "6 corners + close");
    assert!(area2(&rings[0]) > 0);
    assert_eq!(net_area2(&rings), input_area2(&rects));
}

#[test]
fn donut_outer_ccw_hole_cw() {
    // a ring of rects around a central hole (a 30x30 square minus its 10x10 core)
    let rects = [
        r(0, 0, 30, 10),   // bottom band
        r(0, 20, 30, 30),  // top band
        r(0, 10, 10, 20),  // left band
        r(20, 10, 30, 20), // right band
    ];
    let rings = trace_contours(&rects);
    assert_eq!(rings.len(), 2, "outer boundary + hole");
    let (mut outer, mut hole) = (0i64, 0i64);
    for ring in &rings {
        let a = area2(ring);
        if a > 0 {
            outer = a;
        } else {
            hole = a;
        }
    }
    assert!(outer > 0 && hole < 0, "outer CCW, hole CW");
    assert_eq!(outer + hole, input_area2(&rects), "annulus area preserved");
    assert_eq!(outer, 2 * 30 * 30);
    assert_eq!(hole, -2 * 10 * 10);
}

#[test]
fn corner_touch_gives_two_rings() {
    // two squares meeting only at the point (10,10): must not fuse
    let rects = [r(0, 0, 10, 10), r(10, 10, 20, 20)];
    let rings = trace_contours(&rects);
    assert_eq!(rings.len(), 2, "point-touch stays two rings");
    for ring in &rings {
        assert_eq!(ring.len(), 5);
        assert!(area2(ring) > 0);
    }
    assert_eq!(net_area2(&rings), input_area2(&rects));
}

#[test]
fn staircase_area_preserved() {
    // an irregular staircase of stacked rects of varying width
    let rects = [r(0, 0, 30, 5), r(0, 5, 22, 10), r(0, 10, 14, 15), r(0, 15, 6, 20)];
    let rings = trace_contours(&rects);
    assert_eq!(rings.len(), 1);
    assert_eq!(net_area2(&rings), input_area2(&rects));
    assert!(area2(&rings[0]) > 0);
}

#[test]
fn empty_and_degenerate_input_give_no_rings() {
    assert!(trace_contours(&[]).is_empty());
    assert!(trace_contours(&[r(0, 0, 0, 10), r(5, 5, 9, 5)]).is_empty());
}

#[test]
fn every_ring_is_closed() {
    let rects = [r(0, 0, 10, 10), r(10, 10, 20, 20), r(30, 0, 40, 40)];
    for ring in trace_contours(&rects) {
        assert!(ring.len() >= 4);
        assert_eq!(ring.first(), ring.last());
    }
}

fn winding_at(rings: &[Vec<(i32, i32)>], x: i32, y: i32) -> i32 {
    let mut w = 0;
    for ring in rings {
        for k in 0..ring.len() - 1 {
            let (a, b) = (ring[k], ring[k + 1]);
            if a.0 == b.0 && a.0 <= x && a.1.min(b.1) <= y && y < a.1.max(b.1) {
                w += if b.1 < a.1 { 1 } else { -1 };
            }
        }
    }
    w
}

#[test]
fn traced_rings_wind_once_around_covered_cells() {
    let rects = [
        Rect { x0: 0, y0: 0, x1: 30, y1: 10 },
        Rect { x0: 0, y0: 20, x1: 30, y1: 30 },
        Rect { x0: 0, y0: 10, x1: 10, y1: 20 },
        Rect { x0: 20, y0: 10, x1: 30, y1: 20 },
        Rect { x0: 40, y0: 0, x1: 50, y1: 10 },
        Rect { x0: 50, y0: 10, x1: 60, y1: 20 },
    ];
    let rings = trace_contours(&rects);
    for y in -2..32 {
        for x in -2..62 {
            let covered = rects.iter().any(|r| r.x0 <= x && x < r.x1 && r.y0 <= y && y < r.y1);
            assert_eq!(winding_at(&rings, x, y), if covered { 1 } else { 0 }, "cell ({x}, {y})");
        }
    }
    for ring in &rings {
        let n = ring.len() - 1;
        for k in 0..n {
            let (p, c, q) = (ring[(k + n - 1) % n], ring[k], ring[k + 1]);
            assert!((c.0 == q.0) != (c.1 == q.1), "axis-parallel step between distinct points");
            let cross = (c.0 - p.0) as i64 * (q.1 - c.1) as i64 - (c.1 - p.1) as i64 * (q.0 - c.0) as i64;
            assert!(cross != 0, "every point is a corner");
        }
    }
}
