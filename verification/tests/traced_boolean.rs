use vyges_layout::boolean::{boolean, boolean_poly, Op};
use vyges_layout::contour::trace_contours;
use vyges_layout::geom::Rect;

fn poly(r: Rect) -> Vec<(i32, i32)> {
    r.as_boundary()
}

fn area2(ring: &[(i32, i32)]) -> i64 {
    let n = ring.len() - 1;
    let mut a = 0i64;
    for i in 0..n {
        let (x1, y1) = ring[i];
        let (x2, y2) = ring[i + 1];
        a += x1 as i64 * y2 as i64 - x2 as i64 * y1 as i64;
    }
    a
}

/// Area by counting unit pixels of the op's result set.
fn raster_area(a: &[Rect], b: &[Rect], op: Op, extent: Rect) -> i64 {
    let inside = |rs: &[Rect], x: i32, y: i32| rs.iter().any(|r| x >= r.x0 && x < r.x1 && y >= r.y0 && y < r.y1);
    let mut area = 0i64;
    for y in extent.y0..extent.y1 {
        for x in extent.x0..extent.x1 {
            let ina = inside(a, x, y);
            let inb = inside(b, x, y);
            let hit = match op {
                Op::And => ina && inb,
                Op::Or => ina || inb,
                Op::Not => ina && !inb,
                Op::Xor => ina ^ inb,
            };
            if hit {
                area += 1;
            }
        }
    }
    area
}

/// A reproducible linear congruential generator.
struct Lcg(u64);
impl Lcg {
    fn next(&mut self) -> u64 {
        self.0 = self.0.wrapping_mul(6364136223846793005).wrapping_add(1442695040888963407);
        self.0
    }
    fn range(&mut self, lo: i32, hi: i32) -> i32 {
        lo + (self.next() >> 33) as i32 % (hi - lo)
    }
    fn rects(&mut self, n: usize, bound: i32, max_w: i32) -> Vec<Rect> {
        (0..n)
            .map(|_| {
                let x0 = self.range(0, bound);
                let y0 = self.range(0, bound);
                Rect::new(x0, y0, x0 + self.range(1, max_w + 1), y0 + self.range(1, max_w + 1))
            })
            .collect()
    }
}

#[test]
fn union_of_overlapping_rects_traces_to_one_ring() {
    let a = poly(Rect { x0: 0, y0: 0, x1: 10, y1: 10 });
    let b = poly(Rect { x0: 5, y0: 5, x1: 15, y1: 15 });
    let tiles = boolean_poly(&[a], &[b], Op::Or);
    let union_area2: i64 = tiles.iter().map(|r| 2 * r.area()).sum();
    let rings = trace_contours(&tiles);
    assert_eq!(rings.len(), 1, "the union is one connected merged polygon");
    assert!(area2(&rings[0]) > 0, "outer ring CCW");
    assert_eq!(area2(&rings[0]), union_area2, "merged boundary preserves area");
}

#[test]
fn ring_with_hole_traces_to_outer_plus_hole() {
    let outer = poly(Rect { x0: 0, y0: 0, x1: 30, y1: 30 });
    let bite = poly(Rect { x0: 10, y0: 10, x1: 20, y1: 20 });
    let tiles = boolean_poly(&[outer], &[bite], Op::Not);
    let annulus_area2: i64 = tiles.iter().map(|r| 2 * r.area()).sum();
    let rings = trace_contours(&tiles);
    assert_eq!(rings.len(), 2, "outer boundary + inner hole");
    let net: i64 = rings.iter().map(|r| area2(r)).sum();
    assert_eq!(net, annulus_area2, "outer(+) plus hole(-) equals annulus area");
    assert!(rings.iter().any(|r| area2(r) > 0), "an outer CCW ring");
    assert!(rings.iter().any(|r| area2(r) < 0), "a CW hole ring");
}

#[test]
fn scanline_boolean_matches_the_rasterizer() {
    let a = vec![Rect::new(0, 0, 60, 40), Rect::new(20, 30, 90, 80), Rect::new(70, 0, 100, 50)];
    let b = vec![Rect::new(30, 10, 80, 70), Rect::new(0, 50, 40, 100)];
    let extent = Rect::new(0, 0, 100, 100);
    for op in [Op::And, Op::Or, Op::Not, Op::Xor] {
        let got: i64 = boolean(&a, &b, op).iter().map(|r| r.area()).sum();
        let want = raster_area(&a, &b, op, extent);
        assert_eq!(got, want, "{op:?}: scanline area {got} != rasterized area {want}");
    }
}

#[test]
fn boolean_edge_cases_match() {
    let extent = Rect::new(-10, -10, 60, 60);
    let cases: &[(Vec<Rect>, Vec<Rect>)] = &[
        (vec![], vec![Rect::new(0, 0, 10, 10)]),
        (vec![Rect::new(0, 0, 10, 10)], vec![]),
        (vec![Rect::new(0, 0, 20, 20)], vec![Rect::new(0, 0, 20, 20)]),
        (vec![Rect::new(0, 0, 20, 20)], vec![Rect::new(20, 0, 40, 20)]),
        (vec![Rect::new(0, 0, 30, 30)], vec![Rect::new(10, 10, 20, 20)]),
    ];
    for (a, b) in cases {
        for op in [Op::And, Op::Or, Op::Not, Op::Xor] {
            let got: i64 = boolean(a, b, op).iter().map(|r| r.area()).sum();
            let want = raster_area(a, b, op, extent);
            assert_eq!(got, want, "{op:?} on {a:?} vs {b:?}");
        }
    }
}

#[test]
fn plane_sweep_boolean_matches_rasterizer_on_random_inputs() {
    let mut rng = Lcg(0x9E3779B97F4A7C15);
    let extent = Rect::new(0, 0, 70, 70);
    for trial in 0..200 {
        let (na, nb) = (rng.range(0, 12) as usize, rng.range(0, 12) as usize);
        let a = rng.rects(na, 54, 14);
        let b = rng.rects(nb, 54, 14);
        for op in [Op::And, Op::Or, Op::Not, Op::Xor] {
            let got: i64 = boolean(&a, &b, op).iter().map(|r| r.area()).sum();
            let want = raster_area(&a, &b, op, extent);
            assert_eq!(got, want, "trial {trial} op {op:?}: plane-sweep {got} != raster {want}\nA={a:?}\nB={b:?}");
        }
    }
}

#[test]
fn trace_contours_area_matches_boolean_union_on_random_inputs() {
    let mut rng = Lcg(0xD1B54A32D192ED03);
    for trial in 0..200 {
        let n = rng.range(3, 20) as usize;
        let rects = rng.rects(n, 80, 18);
        let empty: Vec<Rect> = vec![];
        let tiles = boolean(&rects, &empty, Op::Or);
        let tile_area: i64 = tiles.iter().map(|r| r.area()).sum();
        let rings = trace_contours(&tiles);
        let ring_area2: i64 = rings.iter().map(|ring| area2(ring)).sum();
        assert_eq!(ring_area2, 2 * tile_area, "trial {trial}: contour area {ring_area2} != 2x union {}", 2 * tile_area);
    }
}
