use vyges_layout::geom::Rect;
use vyges_layout::oasis::{write_polygon, write_rectangle, Real};
use vyges_layout::oasis_read::{inflate_cblock, parse, read_repetition, translate, Rotation, Shape};

const MAGIC: &[u8] = b"%SEMI-OASIS\r\n";

fn file(records: &[u8]) -> Vec<u8> {
    let mut b = MAGIC.to_vec();
    // START "1.0", unit 1000 (a positive integer real), offsets in the END record
    b.extend_from_slice(&[1, 3, b'1', b'.', b'0', 0, 0xE8, 0x07, 1]);
    b.extend_from_slice(records);
    b.push(2); // END
    b
}

#[test]
fn magic_is_checked() {
    assert!(parse(b"not-oasis").is_err());
}

#[test]
fn a_small_file_is_read() {
    let records = [
        3, 4, b'l', b'e', b'a', b'f', // CELLNAME "leaf" (reference number 0)
        14, 3, b't', b'o', b'p', // CELL "top"
        20, 0x7B, 68, 20, 100, 50, 0, 0, // RECTANGLE 68/20, 100x50 at (0,0)
        20, 0x04, 2, 1, 0xC8, 0x01, // the same again, as a row of 3 every 200
        17, 0xF2, 0, 0xD0, 0x0F, 0xA0, 0x1F, // PLACEMENT of cell 0 at (1000,2000), 90°
        19, 0x5B, 3, b'V', b'D', b'D', 10, 0, 10, 12, // TEXT "VDD" on 10/0 at (5,6)
        13, 0, // CELL by reference number 0
        21, 0x3B, 69, 0, 0, 4, 0x50, 0x28, 0x29, 0x28, 0, 0, // POLYGON: the L-shape
    ];
    let l = parse(&file(&records)).unwrap();
    assert_eq!(l.units, vec![Real::PosInt(1000)]);
    assert_eq!(l.cells.len(), 2);
    assert_eq!(l.cells[0].name, "top");
    assert_eq!(l.cells[1].name, "leaf");
    let top = &l.cells[0].shapes;
    assert_eq!(top.len(), 6);
    match &top[0] {
        Shape::Boundary { layer, datatype, pts } => {
            assert_eq!((*layer, *datatype), (68, 20));
            assert_eq!(Rect::from_boundary(pts), Some(Rect::new(0, 0, 100, 50)));
        }
        s => panic!("expected boundary, got {s:?}"),
    }
    for (k, s) in top[1..4].iter().enumerate() {
        match s {
            Shape::Boundary { pts, .. } => {
                let x = 200 * k as i32;
                assert_eq!(Rect::from_boundary(pts), Some(Rect::new(x, 0, x + 100, 50)));
            }
            s => panic!("expected boundary, got {s:?}"),
        }
    }
    match &top[4] {
        Shape::Placement { sname, x, y, reflect, mag, rotation } => {
            assert_eq!(sname, "leaf");
            assert_eq!((*x, *y, *reflect, *mag), (1000, 2000, false, None));
            assert_eq!(*rotation, Rotation::Quarter(1));
        }
        s => panic!("expected placement, got {s:?}"),
    }
    match &top[5] {
        Shape::Text { layer, texttype, x, y, string } => {
            assert_eq!((*layer, *texttype, *x, *y), (10, 0, 5, 6));
            assert_eq!(string, "VDD");
        }
        s => panic!("expected text, got {s:?}"),
    }
    match &l.cells[1].shapes[0] {
        Shape::Boundary { layer, pts, .. } => {
            assert_eq!(*layer, 69);
            assert_eq!(pts, &vec![(0, 0), (40, 0), (40, 20), (20, 20), (20, 40), (0, 40), (0, 0)]);
        }
        s => panic!("expected boundary, got {s:?}"),
    }
}

#[test]
fn records_in_a_cblock_are_read_in_the_same_context() {
    let inner = [14u8, 1, b'c', 20, 0x7B, 1, 0, 10, 10, 0, 0];
    let comp = miniz_oxide::deflate::compress_to_vec(&inner, 6);
    let mut records = vec![34u8, 0, inner.len() as u8, comp.len() as u8];
    records.extend_from_slice(&comp);
    // a rectangle after the block still sees the modal 10x10 box on layer 1
    records.extend_from_slice(&[20, 0x10, 40]);
    let l = parse(&file(&records)).unwrap();
    assert_eq!(l.cells.len(), 1);
    assert_eq!(l.cells[0].name, "c");
    assert_eq!(l.cells[0].shapes.len(), 2);
    match &l.cells[0].shapes[1] {
        Shape::Boundary { layer, pts, .. } => {
            assert_eq!(*layer, 1);
            assert_eq!(Rect::from_boundary(pts), Some(Rect::new(20, 0, 30, 10)));
        }
        s => panic!("expected boundary, got {s:?}"),
    }
}

#[test]
fn inflate_reads_raw_and_zlib_streams() {
    let data = b"hello hello hello".to_vec();
    assert_eq!(inflate_cblock(&miniz_oxide::deflate::compress_to_vec(&data, 6)).unwrap(), data);
    assert_eq!(inflate_cblock(&miniz_oxide::deflate::compress_to_vec_zlib(&data, 6)).unwrap(), data);
    assert!(inflate_cblock(&[0xFF, 0xFF, 0xFF]).is_err());
}

#[test]
fn unknown_records_are_reported() {
    let e = parse(&file(&[32])).err().unwrap();
    assert!(e.0.contains("unsupported OASIS record 32 (XELEMENT) at byte 9"), "{}", e.0);
}

#[test]
fn a_cblock_of_another_compression_is_refused() {
    let e = parse(&file(&[34, 1, 0, 0])).err().unwrap();
    assert!(e.0.contains("compression type 1 unsupported"), "{}", e.0);
}

#[test]
fn repetitions_expand_and_become_modal() {
    let mut modal = Vec::new();
    // grid 2x2 (counts stored as n-2 = 0), pitch (10, 20)
    let mut i = 0;
    let r = read_repetition(&[1, 0, 0, 10, 20], &mut i, &mut modal).unwrap();
    assert_eq!(r, vec![(0, 0), (10, 0), (0, 20), (10, 20)]);
    assert_eq!(modal, r);
    // type 0 reuses it
    let mut j = 0;
    assert_eq!(read_repetition(&[0], &mut j, &mut modal).unwrap(), r);
    // arbitrary x spacings 5, 7 (type 4, n-2 = 1, so 2 spacings)
    let mut k = 0;
    assert_eq!(read_repetition(&[4, 1, 5, 7], &mut k, &mut modal).unwrap(), vec![(0, 0), (5, 0), (12, 0)]);
    // an unknown type is an error
    let mut q = 0;
    assert!(read_repetition(&[12], &mut q, &mut modal).is_err());
}

#[test]
fn translate_moves_every_point() {
    let s = Shape::Boundary { layer: 1, datatype: 2, pts: vec![(0, 0), (1, 1)] };
    match translate(&s, 10, -10) {
        Shape::Boundary { pts, .. } => assert_eq!(pts, vec![(10, -10), (11, -9)]),
        t => panic!("expected boundary, got {t:?}"),
    }
}

#[test]
fn written_shapes_read_back() {
    let mut records = vec![14, 1, b'c']; // CELL "c"
    write_rectangle(&mut records, 68, 20, &Rect::new(-5, 10, 100, 50));
    let l_shape = [(0, 0), (20, 0), (20, 10), (10, 10), (10, 20), (0, 20), (0, 0)];
    write_polygon(&mut records, -3, 7, &l_shape);
    let l = parse(&file(&records)).unwrap();
    let shapes = &l.cells[0].shapes;
    assert_eq!(shapes.len(), 2);
    match &shapes[0] {
        Shape::Boundary { layer, datatype, pts } => {
            assert_eq!((*layer, *datatype), (68, 20));
            assert_eq!(pts, &Rect::new(-5, 10, 100, 50).as_boundary());
        }
        s => panic!("expected a boundary, got {s:?}"),
    }
    match &shapes[1] {
        Shape::Boundary { layer, datatype, pts } => {
            assert_eq!((*layer, *datatype), (-3, 7));
            assert_eq!(pts.as_slice(), &l_shape[..]);
        }
        s => panic!("expected a boundary, got {s:?}"),
    }
}

#[test]
fn a_cblock_inside_a_cblock_is_read() {
    let inner = [14u8, 1, b'c', 20, 0x7B, 1, 0, 10, 10, 0, 0];
    let comp_inner = miniz_oxide::deflate::compress_to_vec(&inner, 6);
    let mut middle = vec![34u8, 0, inner.len() as u8, comp_inner.len() as u8];
    middle.extend_from_slice(&comp_inner);
    let comp_middle = miniz_oxide::deflate::compress_to_vec(&middle, 6);
    let mut records = vec![34u8, 0, middle.len() as u8, comp_middle.len() as u8];
    records.extend_from_slice(&comp_middle);
    let l = parse(&file(&records)).unwrap();
    assert_eq!(l.cells.len(), 1);
    assert_eq!(l.cells[0].name, "c");
    assert_eq!(l.cells[0].shapes.len(), 1);
}

#[test]
fn unknown_repetition_type_is_named_in_the_error() {
    let mut i = 0usize;
    let mut modal: Vec<(i32, i32)> = Vec::new();
    let e = read_repetition(&[12], &mut i, &mut modal).unwrap_err();
    assert_eq!(e.0, "repetition type 12 not supported");
}
