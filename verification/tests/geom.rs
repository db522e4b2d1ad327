use vyges_layout::geom::{bbox, signed_area2, Rect};

#[test]
fn detects_rectangle() {
    let r = Rect::from_boundary(&[(0, 0), (10, 0), (10, 5), (0, 5), (0, 0)]).unwrap();
    assert_eq!((r.x0, r.y0, r.x1, r.y1), (0, 0, 10, 5));
    assert_eq!(r.area(), 50);
    // an L-shape is not a rectangle
    assert!(Rect::from_boundary(&[(0, 0), (10, 0), (10, 5), (5, 5), (5, 10), (0, 10), (0, 0)]).is_none());
}

#[test]
fn bbox_of_an_l_shape() {
    let l = [(0, 0), (10, 0), (10, 5), (5, 5), (5, 10), (0, 10), (0, 0)];
    let b = bbox(&l).unwrap();
    assert_eq!((b.x0, b.y0, b.x1, b.y1), (0, 0, 10, 10));
    assert!(bbox(&[]).is_none());
}

#[test]
fn shoelace_doubles_the_area() {
    let l = [(0, 0), (10, 0), (10, 5), (5, 5), (5, 10), (0, 10), (0, 0)];
    assert_eq!(signed_area2(&l, 6), 150);
    let cw = [(0, 0), (0, 10), (10, 10), (10, 0)];
    assert_eq!(signed_area2(&cw, 4), -200);
}

#[test]
fn new_normalizes_corners() {
    assert_eq!(Rect::new(10, 7, 2, 3), Rect { x0: 2, y0: 3, x1: 10, y1: 7 });
}

#[test]
fn boundary_round_trips() {
    let r = Rect::new(1, 2, 30, 40);
    assert_eq!(Rect::from_boundary(&r.as_boundary()), Some(r));
    // a ring listed from another corner still names the same rectangle
    assert_eq!(Rect::from_boundary(&[(30, 40), (1, 40), (1, 2), (30, 2)]), Some(r));
}

#[test]
fn inflate_and_intersects() {
    let a = Rect::new(0, 0, 10, 10);
    assert_eq!(a.inflate(2), Rect::new(-2, -2, 12, 12));
    assert!(a.intersects(&Rect::new(9, 9, 20, 20)));
    // touching edges share no area
    assert!(!a.intersects(&Rect::new(10, 0, 20, 10)));
}

#[test]
fn from_boundary_refuses_a_crossed_ring() {
    // a bowtie has two x values and two y values but is no rectangle
    assert!(Rect::from_boundary(&[(0, 0), (10, 5), (10, 0), (0, 5), (0, 0)]).is_none());
    // a corner repeated is no rectangle either
    assert!(Rect::from_boundary(&[(0, 0), (10, 0), (10, 5), (10, 0), (0, 0)]).is_none());
}

#[test]
fn area_and_bbox() {
    let l = [(0, 0), (10, 0), (10, 5), (5, 5), (5, 10), (0, 10), (0, 0)];
    // 10x5 + 5x5 = 75, twice that as the exact integer area
    assert_eq!(signed_area2(&l, 6), 150);
    let b = bbox(&l).unwrap();
    assert_eq!((b.x0, b.y0, b.x1, b.y1), (0, 0, 10, 10));
}
