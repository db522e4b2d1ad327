use vyges_layout::boolean::{boolean, boolean_poly, Op};
use vyges_layout::geom::Rect;

fn r(x0: i32, y0: i32, x1: i32, y1: i32) -> Rect {
    Rect { x0, y0, x1, y1 }
}

fn area(v: &[Rect]) -> i64 {
    v.iter().map(|x| x.area()).sum()
}

#[test]
fn or_and_not_xor_rectangles() {
    let a = [r(0, 0, 10, 10)];
    let b = [r(5, 0, 15, 10)];
    assert_eq!(area(&boolean(&a, &b, Op::Or)), 150);
    assert_eq!(boolean(&a, &b, Op::And), vec![r(5, 0, 10, 10)]);
    assert_eq!(area(&boolean(&a, &b, Op::Not)), 50);
    assert_eq!(area(&boolean(&a, &b, Op::Xor)), 100);
}

#[test]
fn l_shape_polygon_intersection() {
    // L-shape (area 75) AND a box covering its lower-right notch
    let l = vec![vec![(0, 0), (10, 0), (10, 5), (5, 5), (5, 10), (0, 10), (0, 0)]];
    let box_ = vec![Rect { x0: 0, y0: 0, x1: 20, y1: 20 }.as_boundary()];
    // AND with a big covering box returns the L exactly (area 75)
    assert_eq!(area(&boolean_poly(&l, &box_, Op::And)), 75);
    // OR of the L with its missing notch (the 5x5 upper-right) fills the 10x10 square
    let notch = vec![Rect { x0: 5, y0: 5, x1: 10, y1: 10 }.as_boundary()];
    assert_eq!(area(&boolean_poly(&l, &notch, Op::Or)), 100);
}

#[test]
fn difference_splits_active_by_gate() {
    // a horizontal active strip minus a vertical gate -> two source/drain regions
    let active = vec![Rect { x0: 0, y0: 0, x1: 30, y1: 10 }.as_boundary()];
    let gate = vec![Rect { x0: 13, y0: -5, x1: 17, y1: 15 }.as_boundary()];
    let sd = boolean_poly(&active, &gate, Op::Not);
    assert_eq!(sd.len(), 2, "gate splits active into source + drain");
    assert_eq!(area(&sd), 30 * 10 - 4 * 10);
}

#[test]
fn op_names_parse_in_any_case() {
    assert_eq!(Op::parse("AND"), Some(Op::And));
    assert_eq!(Op::parse("intersect"), Some(Op::And));
    assert_eq!(Op::parse("Union"), Some(Op::Or));
    assert_eq!(Op::parse("or"), Some(Op::Or));
    assert_eq!(Op::parse("diff"), Some(Op::Not));
    assert_eq!(Op::parse("AndNot"), Some(Op::Not));
    assert_eq!(Op::parse("not"), Some(Op::Not));
    assert_eq!(Op::parse("xor"), Some(Op::Xor));
    assert_eq!(Op::parse("nand"), None);
    assert_eq!(Op::parse(""), None);
}

#[test]
fn xor_of_a_region_with_itself_is_empty() {
    let a = [r(0, 0, 10, 10), r(20, 0, 30, 5)];
    assert!(boolean(&a, &a, Op::Xor).is_empty());
    assert!(boolean(&a, &a, Op::Not).is_empty());
}

#[test]
fn overlapping_inputs_count_once() {
    // two overlapping rectangles OR'ed: the overlap counts once
    let a = [r(0, 0, 10, 10), r(5, 5, 15, 15)];
    assert_eq!(area(&boolean(&a, &[], Op::Or)), 100 + 100 - 25);
}

#[test]
fn reversed_corners_cover_the_same_cells() {
    // a rectangle given with its corners swapped covers the same cells
    let a = [r(10, 10, 0, 0)];
    assert_eq!(boolean(&a, &[], Op::Or), vec![r(0, 0, 10, 10)]);
}

#[test]
fn clockwise_polygon_is_normalized() {
    // a clockwise ring covers the same region as its counter-clockwise twin
    let cw = vec![vec![(0, 0), (0, 10), (10, 10), (10, 0), (0, 0)]];
    assert_eq!(boolean_poly(&cw, &[], Op::Or), vec![r(0, 0, 10, 10)]);
}

#[test]
fn result_rows_are_merged() {
    // side-by-side abutting tiles of equal height merge into one rectangle
    let a = [r(0, 0, 5, 10), r(5, 0, 10, 10)];
    assert_eq!(boolean(&a, &[], Op::Or), vec![r(0, 0, 10, 10)]);
}
