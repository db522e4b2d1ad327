use vyges_layout::boolean::Op;
use vyges_layout::engine::{decimal, demo, pick, polys_on, rects_on, run_boolean, RunError};
use vyges_layout::gds::{Cell, Element, Library};
use vyges_layout::geom::Rect;

#[test]
fn demo_runs_the_pipeline() {
    let r = demo();
    assert!(r.contains("area 5000"));
}

#[test]
fn demo_reports_every_line() {
    let r = demo();
    assert!(r.contains("GDS round-trip ok: lib \"DEMO\", 1 cell(s)"));
    assert!(r.contains("layer 1/0: 1 rect   layer 2/0: 1 rect"));
    assert!(r.contains("AND -> 1 rect, area 5000 dbu²"));
}

fn two_layer_lib() -> Library {
    let mut lib = Library::default();
    lib.cells.push(Cell {
        name: "top".into(),
        elements: vec![
            Element::Boundary { layer: 1, datatype: 0, pts: Rect::new(0, 0, 100, 100).as_boundary() },
            Element::Boundary { layer: 2, datatype: 0, pts: Rect::new(50, 0, 150, 100).as_boundary() },
            // a diagonal edge: replaced by its bounding box
            Element::Boundary { layer: 2, datatype: 0, pts: vec![(200, 0), (210, 0), (200, 10), (200, 0)] },
            Element::Box { layer: 1, boxtype: 0, pts: Rect::new(300, 300, 310, 310).as_boundary() },
        ],
    });
    lib
}

#[test]
fn pick_by_name_single_or_error() {
    let mut lib = two_layer_lib();
    assert_eq!(pick(&lib, None).unwrap().name, "top");
    assert_eq!(pick(&lib, Some("top")).unwrap().name, "top");
    assert_eq!(pick(&lib, Some("nope")).err(), Some(RunError::NotFound));
    lib.cells.push(Cell { name: "other".into(), elements: vec![] });
    assert_eq!(pick(&lib, None).err(), Some(RunError::Ambiguous(2)));
    assert_eq!(pick(&lib, Some("other")).unwrap().name, "other");
    assert_eq!(pick(&Library::default(), None).err(), Some(RunError::NoCells));
}

#[test]
fn polys_on_counts_bbox_approximations() {
    let lib = two_layer_lib();
    let (p1, a1) = polys_on(&lib.cells[0], 1, 0);
    assert_eq!((p1.len(), a1), (2, 0));
    let (p2, a2) = polys_on(&lib.cells[0], 2, 0);
    assert_eq!((p2.len(), a2), (2, 1));
    assert_eq!(p2[1], Rect::new(200, 0, 210, 10).as_boundary());
    let (r2, _) = rects_on(&lib.cells[0], 2, 0);
    assert_eq!(r2, vec![Rect::new(50, 0, 150, 100), Rect::new(200, 0, 210, 10)]);
}

#[test]
fn run_boolean_and_of_two_layers() {
    let lib = two_layer_lib();
    let (out, s) = run_boolean(&lib, None, (1, 0), (2, 0), (9, 9), Op::And).unwrap();
    assert_eq!((s.a, s.b, s.out, s.out_area, s.approx), (2, 2, 1, 5000, 1));
    assert_eq!(out.cells.len(), 1);
    assert_eq!(out.cells[0].name, "top_bool");
    match &out.cells[0].elements[0] {
        Element::Boundary { layer, datatype, pts } => {
            assert_eq!((*layer, *datatype), (9, 9));
            assert_eq!(pts, &Rect::new(50, 0, 100, 100).as_boundary());
        }
        _ => panic!("expected boundary"),
    }
}

#[test]
fn run_boolean_reports_a_missing_cell() {
    let lib = two_layer_lib();
    assert_eq!(run_boolean(&lib, Some("x"), (1, 0), (2, 0), (9, 9), Op::Or).err(), Some(RunError::NotFound));
}

#[test]
fn decimal_numerals() {
    assert_eq!(decimal(0), "0");
    assert_eq!(decimal(5000), "5000");
    assert_eq!(decimal(u64::MAX), u64::MAX.to_string());
}
