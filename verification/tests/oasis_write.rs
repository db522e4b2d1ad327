use vyges_layout::gds::{Cell, Element, Library, REAL8_MILLI, REAL8_NANO};
use vyges_layout::geom::Rect;
use vyges_layout::oasis::{distinct_vertices, Real};
use vyges_layout::oasis_read::{parse, Rotation, Shape};
use vyges_layout::oasis_write::{oasis_bytes, PlacementForm};

fn sample() -> Library {
    Library {
        name: "TOP".into(),
        user_unit: REAL8_MILLI,
        db_unit: REAL8_NANO,
        cells: vec![
            Cell {
                name: "leaf".into(),
                elements: vec![
                    Element::Boundary { layer: 68, datatype: 20, pts: Rect::new(0, 0, 100, 50).as_boundary() },
                    Element::Boundary {
                        layer: 69,
                        datatype: 0,
                        pts: vec![(0, 0), (40, 0), (40, 20), (20, 20), (20, 40), (0, 40), (0, 0)],
                    },
                ],
            },
            Cell {
                name: "top".into(),
                elements: vec![Element::Sref { sname: "leaf".into(), x: 1000, y: 2000, reflect: false, mag: 0, angle: 0 }],
            },
        ],
    }
}

#[test]
fn library_round_trips() {
    let lib = sample();
    // 1e-6 m / 1e-9 m = 1000 database units per micron; the reference turned 90°
    let unit = 1000.0f64.to_bits();
    let back = parse(&oasis_bytes(&lib, unit, &[PlacementForm::Quarter { turns: 1 }])).unwrap();
    assert_eq!(back.cells.len(), 2);
    assert_eq!(back.cells[0].name, "leaf");
    assert_eq!(back.cells[1].name, "top");
    assert_eq!(back.units.len(), 1);
    assert_eq!(back.units[0], Real::Double(unit));
    match &back.cells[0].shapes[0] {
        Shape::Boundary { layer, datatype, pts } => {
            assert_eq!((*layer, *datatype), (68, 20));
            assert_eq!(Rect::from_boundary(pts), Some(Rect::new(0, 0, 100, 50)));
        }
        _ => panic!("expected boundary"),
    }
    match &back.cells[0].shapes[1] {
        Shape::Boundary { layer, pts, .. } => {
            assert_eq!(*layer, 69);
            assert_eq!(pts.first(), pts.last());
            assert_eq!(distinct_vertices(pts).len(), 6);
        }
        _ => panic!("expected boundary"),
    }
    match &back.cells[1].shapes[0] {
        Shape::Placement { sname, x, y, rotation, reflect, .. } => {
            assert_eq!(sname, "leaf");
            assert_eq!((*x, *y), (1000, 2000));
            assert_eq!(*rotation, Rotation::Quarter(1));
            assert!(!*reflect);
        }
        _ => panic!("expected placement"),
    }
}

#[test]
fn arrays_expand_row_by_row_and_paths_stroke() {
    let lib = Library {
        name: "A".into(),
        user_unit: REAL8_MILLI,
        db_unit: REAL8_NANO,
        cells: vec![
            Cell { name: "leaf".into(), elements: vec![Element::Path { layer: 1, datatype: 0, width: 10, pts: vec![(0, 0), (100, 0)] }] },
            Cell {
                name: "top".into(),
                elements: vec![
                    Element::Aref {
                        sname: "leaf".into(),
                        cols: 2,
                        rows: 2,
                        pts: vec![(0, 0), (200, 0), (0, 100)],
                        reflect: true,
                        mag: 0,
                        angle: 0,
                    },
                    Element::Text { layer: 1, texttype: 0, x: 0, y: 0, string: "gone".into() },
                    Element::Sref { sname: "missing".into(), x: 0, y: 0, reflect: false, mag: 0, angle: 0 },
                ],
            },
        ],
    };
    let forms = [
        PlacementForm::Explicit { mag_bits: 2.0f64.to_bits(), angle_bits: 45.0f64.to_bits() },
        PlacementForm::Quarter { turns: 0 },
    ];
    let back = parse(&oasis_bytes(&lib, 1000.0f64.to_bits(), &forms)).unwrap();
    match &back.cells[0].shapes[0] {
        Shape::Boundary { pts, .. } => assert_eq!(Rect::from_boundary(pts), Some(Rect::new(0, -5, 100, 5))),
        _ => panic!("expected boundary"),
    }
    // four placements, row by row; the text and the unknown reference write nothing
    assert_eq!(back.cells[1].shapes.len(), 4);
    let at: Vec<(i32, i32)> = back
        .cells[1]
        .shapes
        .iter()
        .map(|s| match s {
            Shape::Placement { x, y, reflect, mag, rotation, .. } => {
                assert!(*reflect);
                assert_eq!(*mag, Some(Real::Double(2.0f64.to_bits())));
                assert_eq!(*rotation, Rotation::Degrees(Real::Double(45.0f64.to_bits())));
                (*x, *y)
            }
            _ => panic!("expected placement"),
        })
        .collect();
    assert_eq!(at, vec![(0, 0), (100, 0), (0, 50), (100, 50)]);
}

#[test]
fn non_ascii_cell_names_come_back() {
    let lib = Library {
        name: "U".into(),
        user_unit: REAL8_MILLI,
        db_unit: REAL8_NANO,
        cells: vec![
            Cell { name: "µzelle".into(), elements: vec![] },
            Cell {
                name: "top→".into(),
                elements: vec![Element::Sref { sname: "µzelle".into(), x: 3, y: 4, reflect: false, mag: 0, angle: 0 }],
            },
        ],
    };
    let back = parse(&oasis_bytes(&lib, 1000.0f64.to_bits(), &[PlacementForm::Quarter { turns: 0 }])).unwrap();
    assert_eq!(back.cells[0].name, "µzelle");
    assert_eq!(back.cells[1].name, "top→");
    match &back.cells[1].shapes[0] {
        Shape::Placement { sname, .. } => assert_eq!(sname, "µzelle"),
        _ => panic!("expected placement"),
    }
}
