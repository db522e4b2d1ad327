use vyges_layout::geom::Rect;
use vyges_layout::index::RegionIndex;

#[test]
fn empty_index_answers_empty() {
    let idx = RegionIndex::build(&[]);
    assert!(idx.is_empty());
    assert!(idx.query(&Rect::new(0, 0, 10, 10)).is_empty());
    assert!(idx.overlaps(&Rect::new(0, 0, 10, 10)).is_empty());
    assert!(!idx.any_overlap(&Rect::new(0, 0, 10, 10), None));
}

#[test]
fn finds_only_overlapping() {
    let rects = vec![Rect::new(0, 0, 10, 10), Rect::new(100, 100, 110, 110), Rect::new(5, 5, 15, 15)];
    let idx = RegionIndex::build(&rects);
    // region over the lower-left cluster hits 0 and 2, not the far one
    assert_eq!(idx.overlaps(&Rect::new(6, 6, 8, 8)), vec![0, 2]);
    // touching edge is not an overlap
    assert!(idx.overlaps(&Rect::new(10, 10, 20, 20)).iter().all(|&id| id != 0));
    assert_eq!(idx.overlaps(&Rect::new(105, 105, 106, 106)), vec![1]);
}

#[test]
fn any_overlap_excludes_self() {
    let rects = vec![Rect::new(0, 0, 10, 10)];
    let idx = RegionIndex::build(&rects);
    assert!(idx.any_overlap(&rects[0], None));
    assert!(!idx.any_overlap(&rects[0], Some(0))); // only shape, excluded
}

#[test]
fn within_is_a_spacing_halo() {
    let rects = vec![Rect::new(0, 0, 10, 10), Rect::new(15, 0, 25, 10)];
    let idx = RegionIndex::build(&rects);
    // gap between them is 5; shape 0 has no neighbour within 4 but does within 6
    assert!(idx.within(&rects[0], 4, Some(0)).is_empty());
    assert_eq!(idx.within(&rects[0], 6, Some(0)), vec![1]);
}

/// Deterministic grid of rectangles: the index must agree with brute force on many
/// queries.
#[test]
fn matches_brute_force() {
    let mut rects = Vec::new();
    for gy in 0..40 {
        for gx in 0..40 {
            let x = gx * 25;
            let y = gy * 25;
            // varied sizes so some overlap across cells, some don't
            let w = 8 + (gx * 3 + gy) % 20;
            let h = 8 + (gy * 5 + gx) % 18;
            rects.push(Rect::new(x, y, x + w, y + h));
        }
    }
    let idx = RegionIndex::build(&rects);

    let queries = [
        Rect::new(0, 0, 30, 30),
        Rect::new(200, 200, 260, 205),
        Rect::new(-50, -50, 5, 5),
        Rect::new(500, 500, 900, 900),
        Rect::new(12, 37, 800, 62),
    ];
    for q in &queries {
        let mut brute: Vec<u32> = (0..rects.len() as u32).filter(|&i| rects[i as usize].intersects(q)).collect();
        brute.sort_unstable();
        assert_eq!(idx.overlaps(q), brute, "mismatch on {q:?}");
    }
}

#[test]
fn only_the_near_shape_overlaps() {
    let rects = vec![Rect::new(0, 0, 10, 10), Rect::new(100, 100, 110, 110)];
    let idx = RegionIndex::build(&rects);
    assert_eq!(idx.overlaps(&Rect::new(5, 5, 50, 50)), vec![0]);
    assert_eq!(idx.len(), 2);
    // candidates are a superset of the hits
    let q = idx.query(&Rect::new(5, 5, 50, 50));
    assert!(q.contains(&0));
}

#[test]
fn queries_far_outside_the_grid_are_clamped() {
    let rects = vec![Rect::new(0, 0, 10, 10)];
    let idx = RegionIndex::build(&rects);
    assert!(idx.overlaps(&Rect::new(i32::MIN, i32::MIN, -5, -5)).is_empty());
    assert_eq!(idx.overlaps(&Rect::new(i32::MIN, i32::MIN, i32::MAX, i32::MAX)), vec![0]);
}
