use vyges_layout::gds::{Cell, Element, Library, REAL8_MILLI, REAL8_NANO};

#[test]
fn library_round_trip() {
    let mut lib = Library::default();
    lib.name = "TOP".into();
    lib.cells.push(Cell {
        name: "box".into(),
        elements: vec![Element::Boundary {
            layer: 68,
            datatype: 20,
            pts: vec![(0, 0), (100, 0), (100, 50), (0, 50), (0, 0)],
        }],
    });
    let back = Library::parse(&lib.to_bytes()).unwrap();
    assert_eq!(back.name, "TOP");
    assert_eq!(back.cells.len(), 1);
    assert_eq!(back.cells[0].name, "box");
    match &back.cells[0].elements[0] {
        Element::Boundary { layer, pts, .. } => {
            assert_eq!(*layer, 68);
            assert_eq!(pts.len(), 5);
            assert_eq!(pts[2], (100, 50));
        }
        _ => panic!("expected boundary"),
    }
}

#[test]
fn every_element_kind_round_trips() {
    let mut lib = Library::default();
    lib.name = "ALL".into();
    lib.cells.push(Cell {
        name: "leaf".into(),
        elements: vec![
            Element::Path { layer: 3, datatype: 1, width: 40, pts: vec![(0, 0), (0, 500), (-70, 500)] },
            Element::Box { layer: 5, boxtype: 2, pts: vec![(1, 1), (9, 1), (9, 9), (1, 9), (1, 1)] },
            Element::Text { layer: 10, texttype: 0, x: -3, y: 7, string: "VDD".into() },
        ],
    });
    lib.cells.push(Cell {
        name: "top".into(),
        elements: vec![
            Element::Sref { sname: "leaf".into(), x: 1000, y: -2000, reflect: false, mag: 0, angle: 0 },
            Element::Aref {
                sname: "leaf".into(),
                cols: 3,
                rows: 2,
                pts: vec![(0, 0), (300, 0), (0, 200)],
                reflect: false,
                mag: 0,
                angle: 0,
            },
        ],
    });
    let back = Library::parse(&lib.to_bytes()).unwrap();
    assert_eq!(back.name, "ALL");
    assert_eq!(back.user_unit, REAL8_MILLI);
    assert_eq!(back.db_unit, REAL8_NANO);
    assert_eq!(back.cells.len(), 2);
    assert_eq!(back.cells[1].name, "top");
    match &back.cells[0].elements[0] {
        Element::Path { layer, datatype, width, pts } => {
            assert_eq!((*layer, *datatype, *width), (3, 1, 40));
            assert_eq!(pts, &vec![(0, 0), (0, 500), (-70, 500)]);
        }
        _ => panic!("expected path"),
    }
    match &back.cells[0].elements[1] {
        Element::Box { layer, boxtype, pts } => {
            assert_eq!((*layer, *boxtype, pts.len()), (5, 2, 5));
        }
        _ => panic!("expected box"),
    }
    match &back.cells[0].elements[2] {
        Element::Text { layer, x, y, string, .. } => {
            assert_eq!((*layer, *x, *y), (10, -3, 7));
            assert_eq!(string, "VDD");
        }
        _ => panic!("expected text"),
    }
    match &back.cells[1].elements[0] {
        Element::Sref { sname, x, y, .. } => {
            assert_eq!(sname, "leaf");
            assert_eq!((*x, *y), (1000, -2000));
        }
        _ => panic!("expected sref"),
    }
    match &back.cells[1].elements[1] {
        Element::Aref { cols, rows, pts, .. } => {
            assert_eq!((*cols, *rows), (3, 2));
            assert_eq!(pts[1], (300, 0));
        }
        _ => panic!("expected aref"),
    }
}

#[test]
fn odd_length_names_are_padded_and_trimmed_back() {
    // "ABC" is written with a NUL pad byte; the reader stops at the NUL
    let mut lib = Library::default();
    lib.name = "ABC".into();
    let bytes = lib.to_bytes();
    // HEADER (6) + BGNLIB (28), then LIBNAME: length 8 = 4 + "ABC\0"
    assert_eq!(&bytes[34..42], &[0, 8, 0x02, 0x06, b'A', b'B', b'C', 0]);
    assert_eq!(Library::parse(&bytes).unwrap().name, "ABC");
}

#[test]
fn truncated_stream_keeps_what_was_complete() {
    let mut lib = Library::default();
    lib.cells.push(Cell { name: "a".into(), elements: vec![] });
    let mut bytes = lib.to_bytes();
    // drop ENDLIB and half of ENDSTR: the open cell never closes
    bytes.truncate(bytes.len() - 6);
    let back = Library::parse(&bytes).unwrap();
    assert_eq!(back.cells.len(), 0);
    assert_eq!(back.name, "LIB");
}

#[test]
fn transformed_references_round_trip() {
    // 2.0 and 90.0 as GDS 8-byte reals
    let two: u64 = 0x4120_0000_0000_0000;
    let ninety: u64 = 0x425A_0000_0000_0000;
    let mut lib = Library::default();
    lib.name = "XF".into();
    lib.cells.push(Cell {
        name: "top".into(),
        elements: vec![
            Element::Sref { sname: "leaf".into(), x: 5, y: 6, reflect: true, mag: two, angle: ninety },
            Element::Sref { sname: "leaf".into(), x: 7, y: 8, reflect: false, mag: 0, angle: ninety },
            Element::Aref {
                sname: "leaf".into(),
                cols: 2,
                rows: 1,
                pts: vec![(0, 0), (200, 0), (0, 100)],
                reflect: true,
                mag: 0,
                angle: 0,
            },
        ],
    });
    let back = Library::parse(&lib.to_bytes()).unwrap();
    match &back.cells[0].elements[0] {
        Element::Sref { reflect, mag, angle, x, y, .. } => {
            assert_eq!((*reflect, *mag, *angle, *x, *y), (true, two, ninety, 5, 6));
        }
        _ => panic!("expected sref"),
    }
    match &back.cells[0].elements[1] {
        Element::Sref { reflect, mag, angle, .. } => assert_eq!((*reflect, *mag, *angle), (false, 0, ninety)),
        _ => panic!("expected sref"),
    }
    match &back.cells[0].elements[2] {
        Element::Aref { reflect, mag, angle, cols, .. } => assert_eq!((*reflect, *mag, *angle, *cols), (true, 0, 0, 2)),
        _ => panic!("expected aref"),
    }
}

#[test]
fn non_ascii_names_round_trip() {
    let mut lib = Library::default();
    lib.name = "Bibliothèque".into();
    lib.cells.push(Cell {
        name: "µzelle".into(),
        elements: vec![Element::Text { layer: 1, texttype: 0, x: 0, y: 0, string: "Ω→1".into() }],
    });
    let back = Library::parse(&lib.to_bytes()).unwrap();
    assert_eq!(back.name, "Bibliothèque");
    assert_eq!(back.cells[0].name, "µzelle");
    match &back.cells[0].elements[0] {
        Element::Text { string, .. } => assert_eq!(string, "Ω→1"),
        _ => panic!("expected text"),
    }
}

#[test]
fn trailing_unicode_whitespace_is_trimmed() {
    let mut lib = Library::default();
    lib.name = "TOP\u{3000} \t".into();
    let back = Library::parse(&lib.to_bytes()).unwrap();
    assert_eq!(back.name, "TOP");
}
