use vyges_layout::connect::{components, enclosed, is_rect, pt_in, tile, trace, union_bbox, Cut, Poly};
use vyges_layout::geom::Rect;

fn ring(x0: i32, y0: i32, x1: i32, y1: i32) -> Poly {
    vec![(x0, y0), (x1, y0), (x1, y1), (x0, y1), (x0, y0)]
}

fn area(rs: &[Rect]) -> i64 {
    rs.iter().map(|r| (r.x1 - r.x0) as i64 * (r.y1 - r.y0) as i64).sum()
}

#[test]
fn components_group_meeting_rects_in_order() {
    let rects = vec![
        Rect::new(0, 0, 10, 10),
        Rect::new(100, 100, 110, 110),
        Rect::new(10, 0, 20, 10), // touches the first
        Rect::new(105, 105, 120, 120),
        Rect::new(500, 500, 501, 501),
    ];
    let groups = components(&rects);
    assert_eq!(groups.len(), 3);
    assert_eq!(groups[0], vec![Rect::new(0, 0, 10, 10), Rect::new(10, 0, 20, 10)]);
    assert_eq!(groups[1], vec![Rect::new(100, 100, 110, 110), Rect::new(105, 105, 120, 120)]);
    assert_eq!(groups[2], vec![Rect::new(500, 500, 501, 501)]);
}

#[test]
fn components_of_nothing_is_nothing() {
    assert!(components(&[]).is_empty());
}

#[test]
fn components_follow_chains() {
    // a chain of overlapping rects, given out of order
    let rects = vec![Rect::new(0, 0, 5, 5), Rect::new(8, 0, 12, 5), Rect::new(4, 0, 9, 5)];
    let groups = components(&rects);
    assert_eq!(groups.len(), 1);
    assert_eq!(groups[0].len(), 3);
}

#[test]
fn union_bbox_covers_all() {
    let r = union_bbox(&[Rect::new(0, 5, 10, 10), Rect::new(-3, 7, 2, 30)]);
    assert_eq!(r, Rect::new(-3, 5, 10, 30));
}

#[test]
fn is_rect_recognises_rectangles() {
    assert!(is_rect(&ring(0, 0, 10, 5)));
    assert!(is_rect(&[(0, 0), (10, 0), (10, 5), (0, 5)]));
    let l = vec![(0, 0), (20, 0), (20, 10), (10, 10), (10, 20), (0, 20), (0, 0)];
    assert!(!is_rect(&l));
}

#[test]
fn tile_keeps_true_geometry() {
    assert_eq!(tile(&ring(0, 0, 10, 5)), vec![Rect::new(0, 0, 10, 5)]);
    let l = vec![(0, 0), (20, 0), (20, 10), (10, 10), (10, 20), (0, 20), (0, 0)];
    let t = tile(&l);
    assert_eq!(area(&t), 300); // not the 400 of the bounding box
    assert!(!pt_in(&t, 15, 15));
    assert!(pt_in(&t, 5, 15));
}

#[test]
fn enclosed_needs_full_cover() {
    let via = [Rect::new(2, 2, 4, 4)];
    assert!(enclosed(&via, &[Rect::new(0, 0, 10, 10)]));
    assert!(!enclosed(&via, &[Rect::new(3, 0, 10, 10)]));
    // covered only by two outer pieces together
    assert!(enclosed(&via, &[Rect::new(0, 0, 3, 10), Rect::new(3, 0, 10, 10)]));
    assert!(!enclosed(&[], &[Rect::new(0, 0, 10, 10)]));
}

#[test]
fn trace_joins_layers_through_an_enclosed_via() {
    let m1 = (68i16, 20i16);
    let m2 = (69i16, 20i16);
    let layers = vec![
        (m1, vec![ring(0, 0, 100, 10), ring(0, 50, 100, 60)]),
        (m2, vec![ring(40, 0, 50, 60)]),
    ];
    let cuts = vec![Cut::Enclosed { cut: vec![ring(42, 2, 48, 8)], a: m1, b: m2 }];
    let labels = vec![("VDD".to_string(), 68i16, 5, 5)];
    let t = trace(&layers, &cuts, &labels);
    assert_eq!(t.prims.len(), 3);
    assert_eq!(t.nnets, 2);
    // the lower met1 strip and the met2 strap are one net; the upper strip is alone
    assert_eq!(t.net_id, vec![0, 1, 0]);
    assert_eq!(t.cut_count, vec![1, 0]);
    assert_eq!(t.names[0].as_deref(), Some("VDD"));
    assert_eq!(t.net_name(0), "VDD");
    assert_eq!(t.net_name(1), "n1");
}

#[test]
fn trace_overlap_cut_joins_everything_it_meets() {
    let m1 = (68i16, 20i16);
    let layers = vec![(m1, vec![ring(0, 0, 10, 10), ring(20, 0, 30, 10), ring(50, 0, 60, 10)])];
    let cuts = vec![Cut::Overlap { cut: vec![ring(5, 2, 25, 4)] }];
    let t = trace(&layers, &cuts, &[]);
    assert_eq!(t.nnets, 2);
    assert_eq!(t.net_id, vec![0, 0, 1]);
    assert_eq!(t.cut_count, vec![1, 0]);
    assert_eq!(t.net_name(1), "n1");
}

#[test]
fn trace_label_prefers_its_own_layer() {
    let m1 = (68i16, 20i16);
    let poly = (66i16, 20i16);
    let layers = vec![(poly, vec![ring(0, 0, 10, 10)]), (m1, vec![ring(0, 0, 10, 10)])];
    let labels = vec![("A".to_string(), 68i16, 5, 5), ("B".to_string(), 1i16, 5, 5)];
    let t = trace(&layers, &[], &labels);
    assert_eq!(t.nnets, 2);
    // "A" lands on the met1 prim; "B" has no prim on layer 1 and falls back to the first
    assert_eq!(t.names[1].as_deref(), Some("A"));
    assert_eq!(t.names[0].as_deref(), Some("B"));
}

#[test]
fn trace_enclosed_via_off_metal_joins_nothing() {
    let m1 = (68i16, 20i16);
    let m2 = (69i16, 20i16);
    let layers = vec![(m1, vec![ring(0, 0, 10, 10)]), (m2, vec![ring(0, 0, 10, 10)])];
    // sticks out of both shapes: not enclosed, so no join and no owner
    let cuts = vec![Cut::Enclosed { cut: vec![ring(8, 8, 12, 12)], a: m1, b: m2 }];
    let t = trace(&layers, &cuts, &[]);
    assert_eq!(t.nnets, 2);
    assert_eq!(t.cut_count, vec![0, 0]);
}
