use vyges_layout::boolean::{boolean, Op};
use vyges_layout::geom::Rect;
use vyges_layout::sizing::{grow, shrink, sized};

fn r(x0: i32, y0: i32, x1: i32, y1: i32) -> Rect {
    Rect { x0, y0, x1, y1 }
}

fn area(v: &[Rect]) -> i64 {
    v.iter().map(|x| x.area()).sum()
}

#[test]
fn grow_rect_all_sides() {
    let g = grow(&[r(0, 0, 100, 100)], 10);
    assert_eq!(area(&g), 120 * 120, "grown by 10 on every side");
}

#[test]
fn shrink_rect_all_sides() {
    let s = shrink(&[r(0, 0, 100, 100)], 10);
    assert_eq!(area(&s), 80 * 80);
    assert_eq!(s, vec![r(10, 10, 90, 90)]);
}

#[test]
fn shrink_thin_shape_to_nothing() {
    // a 15-wide bar shrunk by 10 on each side (20 total > 15) vanishes
    let s = shrink(&[r(0, 0, 15, 100)], 10);
    assert!(s.is_empty(), "over-shrink empties the region");
}

#[test]
fn grow_merges_a_gap() {
    // two rects 8 apart: growing by 5 each closes the 8-gap into one region
    let g = grow(&[r(0, 0, 10, 10), r(18, 0, 28, 10)], 5);
    // one connected region spanning x -5..33, y -5..15, with no hole
    assert_eq!(g.iter().map(|t| t.x0).min().unwrap(), -5);
    assert_eq!(g.iter().map(|t| t.x1).max().unwrap(), 33);
    // fully connected: total covered width at mid-height is contiguous 38
    let covered: i64 = 38 * 20;
    assert_eq!(area(&g), covered, "gap closed, one solid region");
}

#[test]
fn grow_then_shrink_restores_convex() {
    let orig = r(0, 0, 100, 60);
    let round = shrink(&grow(&[orig], 7), 7);
    assert_eq!(round, vec![orig], "open/close is identity on a convex shape");
}

#[test]
fn l_shape_grow_area() {
    // L = two rects; grow by 4 and check it stays one merged region of the right area
    let l = boolean(&[r(0, 0, 40, 10), r(0, 0, 10, 40)], &[], Op::Or);
    let g = grow(&l, 4);
    // grown L bounding extent and connectivity: area equals the union of the two
    // inflated rects
    let expect = boolean(&[r(-4, -4, 44, 14), r(-4, -4, 14, 44)], &[], Op::Or);
    assert_eq!(area(&g), area(&expect));
}

#[test]
fn sized_dispatches_on_sign() {
    let t = [r(0, 0, 100, 100)];
    assert_eq!(area(&sized(&t, 10)), 120 * 120);
    assert_eq!(sized(&t, -10), vec![r(10, 10, 90, 90)]);
    assert_eq!(sized(&t, 0), vec![r(0, 0, 100, 100)]);
}

#[test]
fn shrink_of_nothing_is_nothing() {
    assert!(shrink(&[], 5).is_empty());
    assert!(grow(&[], 5).is_empty());
}

#[test]
fn shrink_opens_a_thin_neck() {
    // two 20x20 squares joined by a 4-wide neck: shrinking by 3 severs the neck
    let t = [r(0, 0, 20, 20), r(20, 8, 30, 12), r(30, 0, 50, 20)];
    let s = shrink(&t, 3);
    assert_eq!(area(&s), 2 * 14 * 14);
}

#[test]
fn sized_is_grow_shrink_or_union_exactly() {
    let t = [r(0, 0, 40, 10), r(0, 10, 10, 40), r(30, 25, 60, 35), r(35, 0, 45, 30)];
    assert_eq!(sized(&t, 3), grow(&t, 3));
    assert_eq!(sized(&t, -2), shrink(&t, 2));
    assert_eq!(sized(&t, 0), boolean(&t, &[], Op::Or));
    assert!(!sized(&t, 3).is_empty());
    assert!(!sized(&t, -2).is_empty());
}
