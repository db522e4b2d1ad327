use vyges_layout::geom::Rect;
use vyges_layout::oasis::{
    ctrapezoid_polygon, distinct_vertices, is_oasis_path, read_gdelta, read_interval, read_point_list, read_real,
    record_name, rs, rstr, ru, skip_name_record, skip_prop_value, skip_property, stroke_path, write_end,
    write_gdelta, write_polygon, write_real_bits, write_rectangle, ws, wstr, wu, Real, R_PROPERTY, R_PROPERTY_REPEAT,
};

#[test]
fn end_record_is_256_bytes() {
    let mut o = Vec::new();
    write_end(&mut o);
    assert_eq!(o.len(), 256);
}

#[test]
fn varint_round_trips() {
    for v in [0u64, 1, 127, 128, 255, 16384, 1_000_000, u32::MAX as u64] {
        let mut o = Vec::new();
        wu(&mut o, v);
        let mut i = 0;
        assert_eq!(ru(&o, &mut i).unwrap(), v);
        assert_eq!(i, o.len());
    }
    for v in [0i64, 1, -1, 127, -128, 100_000, -100_000] {
        let mut o = Vec::new();
        ws(&mut o, v);
        let mut i = 0;
        assert_eq!(rs(&o, &mut i).unwrap(), v);
    }
}

#[test]
fn gdelta_round_trips() {
    for (dx, dy) in [(10i64, 0i64), (0, -20), (30, 40), (-5, -6), (0, 0)] {
        let mut o = Vec::new();
        write_gdelta(&mut o, dx, dy);
        let mut i = 0;
        assert_eq!(read_gdelta(&o, &mut i).unwrap(), (dx, dy));
    }
}

#[test]
fn manhattan_polygon_implied_closure() {
    // point-list: type 0 (manhattan, horizontal-first), count 4, stored deltas
    // +40, +20, -20, +20 — the L-shape's edges minus the implied last delta.
    // signed-int encoding: +40=0x50, +20=0x28, -20=0x29.
    let bytes = [0u8, 4, 0x50, 0x28, 0x29, 0x28];

    // closed (POLYGON): the implied (-sum_h, 0) = (-20, 0) is synthesized, so the
    // corner is preserved (area 1200, not the corner-cut 800).
    let mut i = 0;
    let closed = read_point_list(&bytes, &mut i, true).unwrap();
    assert_eq!(closed, [(40, 0), (0, 20), (-20, 0), (0, 20), (-20, 0)]);

    // open (PATH): only the 4 stored deltas, no implied vertex.
    let mut j = 0;
    let open = read_point_list(&bytes, &mut j, false).unwrap();
    assert_eq!(open, [(40, 0), (0, 20), (-20, 0), (0, 20)]);
}

// PROPERTY info-byte is `UUUUVCNS`; value presence is the V bit (3), not S (0).
#[test]
fn property_standard_flag_does_not_hide_values() {
    // info 0x11: UUUU=1 (one value), V=0 (values present), C=0, N=0, S=1.
    // value: type 8 (unsigned-integer) = 42. Trailing 0x63 must survive.
    let buf = [0x11u8, 0x08, 42, 0x63];
    let mut i = 0;
    skip_property(&buf, &mut i, R_PROPERTY).unwrap();
    assert_eq!(i, 3, "info + value-type + value consumed, sentinel left");
    assert_eq!(buf[i], 0x63);
}

// A named property (C=1, name given by reference-number N=1) with one value.
#[test]
fn property_with_name_ref_and_value() {
    // info 0x16: UUUU=1, V=0, C=1, N=1, S=0. name-ref=3; value type 8 = 5.
    let buf = [0x16u8, 3, 0x08, 5, 0x63];
    let mut i = 0;
    skip_property(&buf, &mut i, R_PROPERTY).unwrap();
    assert_eq!(i, 4);
    assert_eq!(buf[i], 0x63);
}

// V=1 means "reuse the modal value-list": UUUU is not a count and no values follow.
#[test]
fn property_reuse_values_consumes_no_value_bytes() {
    // info 0x28: UUUU=2, V=1 (reuse), C=0, N=0, S=0. No value bytes follow.
    let buf = [0x28u8, 0x63];
    let mut i = 0;
    skip_property(&buf, &mut i, R_PROPERTY).unwrap();
    assert_eq!(i, 1, "only the info byte is consumed when V=1");
    assert_eq!(buf[i], 0x63);
}

fn area2(pts: &[(i32, i32)]) -> i64 {
    let n = pts.len() - 1;
    let mut a = 0i64;
    for k in 0..n {
        a += pts[k].0 as i64 * pts[k + 1].1 as i64 - pts[k + 1].0 as i64 * pts[k].1 as i64;
    }
    a.abs()
}

#[test]
fn ctrapezoid_shapes_have_their_areas() {
    // type 16: right triangle, legs 40 → area 800
    assert_eq!(area2(&ctrapezoid_polygon(16, 0, 0, 40, 40).unwrap()), 1600);
    // type 0: 100×40 box, 45° cut of leg h=40 at top-right → 3200
    assert_eq!(area2(&ctrapezoid_polygon(0, 0, 0, 100, 40).unwrap()), 6400);
    // type 8: vertical, 40×100 box, 45° cut of leg w=40 at top-right → 3200
    assert_eq!(area2(&ctrapezoid_polygon(8, 0, 0, 40, 100).unwrap()), 6400);
    // type 24: rectangle 40×40 → 1600
    assert_eq!(area2(&ctrapezoid_polygon(24, 0, 0, 40, 40).unwrap()), 3200);
    // the rare 2× forms (20..23) error rather than emit possibly-wrong geometry
    assert!(ctrapezoid_polygon(20, 0, 0, 40, 40).is_err());
    assert!(ctrapezoid_polygon(99, 0, 0, 40, 40).is_err());
    // the ring comes back closed
    let t = ctrapezoid_polygon(17, 5, 5, 10, 10).unwrap();
    assert_eq!(t, vec![(5, 5), (15, 5), (15, 15), (5, 5)]);
}

#[test]
fn varints_of_every_length_are_exact() {
    // 127 is one byte, 128 two; the largest value takes ten bytes
    let mut o = Vec::new();
    wu(&mut o, 127);
    assert_eq!(o, vec![127]);
    o.clear();
    wu(&mut o, 128);
    assert_eq!(o, vec![0x80, 0x01]);
    o.clear();
    wu(&mut o, u64::MAX);
    assert_eq!(o.len(), 10);
    let mut i = 0;
    assert_eq!(ru(&o, &mut i).unwrap(), u64::MAX);
    // a varint cut off mid-way is an error, as is an empty input
    let mut i = 0;
    assert!(ru(&[0x80], &mut i).is_err());
    let mut i = 0;
    assert!(ru(&[], &mut i).is_err());
    // eleven continuation bytes are refused rather than overflowing
    let mut i = 0;
    assert!(ru(&[0xff; 11], &mut i).is_err());
}

#[test]
fn signed_varints_use_the_low_bit_for_sign() {
    let mut o = Vec::new();
    ws(&mut o, 20);
    assert_eq!(o, vec![0x28]);
    o.clear();
    ws(&mut o, -20);
    assert_eq!(o, vec![0x29]);
    o.clear();
    ws(&mut o, i64::MAX);
    let mut i = 0;
    assert_eq!(rs(&o, &mut i).unwrap(), i64::MAX);
}

#[test]
fn octangular_gdelta_form_is_read() {
    // form 1: direction 4 (north-east), magnitude 3: (3 << 4) | (4 << 1) = 0x38
    let mut i = 0;
    assert_eq!(read_gdelta(&[0x38], &mut i).unwrap(), (3, 3));
    assert_eq!(i, 1);
}

#[test]
fn strings_round_trip_and_are_length_checked() {
    let mut o = Vec::new();
    wstr(&mut o, "leaf");
    assert_eq!(o, vec![4, b'l', b'e', b'a', b'f']);
    let mut i = 0;
    assert_eq!(rstr(&o, &mut i).unwrap(), "leaf");
    assert_eq!(i, 5);
    let mut i = 0;
    assert!(rstr(&[9, b'x'], &mut i).is_err());
}

#[test]
fn intervals_and_name_records_are_skipped() {
    let mut i = 0;
    read_interval(&[4, 1, 2, 0x63], &mut i).unwrap();
    assert_eq!(i, 3);
    let mut i = 0;
    assert!(read_interval(&[7], &mut i).is_err());
    let mut i = 0;
    skip_name_record(&[2, b'a', b'b', 9, 0x63], &mut i, 8).unwrap();
    assert_eq!(i, 4);
}

#[test]
fn property_values_of_every_kind_are_skipped() {
    // a double (type 7) is eight bytes after its tag
    let mut i = 0;
    skip_prop_value(&[7, 0, 0, 0, 0, 0, 0, 0xf0, 0x3f, 0x63], &mut i).unwrap();
    assert_eq!(i, 9);
    // a ratio (type 4) is two varints
    let mut i = 0;
    skip_prop_value(&[4, 1, 3, 0x63], &mut i).unwrap();
    assert_eq!(i, 3);
    // an unknown value type is refused
    let mut i = 0;
    assert!(skip_prop_value(&[16], &mut i).is_err());
    // PROPERTY-REPEAT consumes nothing
    let mut i = 0;
    skip_property(&[0x63], &mut i, R_PROPERTY_REPEAT).unwrap();
    assert_eq!(i, 0);
}

#[test]
fn reals_keep_their_exact_form() {
    let mut o = Vec::new();
    write_real_bits(&mut o, 1.5f64.to_bits());
    let mut i = 0;
    assert_eq!(read_real(&o, &mut i).unwrap(), Real::Double(1.5f64.to_bits()));
    let mut i = 0;
    assert_eq!(read_real(&[4, 1, 3], &mut i).unwrap(), Real::PosRatio(1, 3));
    let mut i = 0;
    assert_eq!(read_real(&[6, 0, 0, 0x80, 0x3f], &mut i).unwrap(), Real::Single(1.0f32.to_bits()));
}

#[test]
fn record_names_and_paths() {
    assert_eq!(record_name(34), "CBLOCK");
    assert_eq!(record_name(24), "TRAPEZOID");
    assert_eq!(record_name(99), "unknown");
    assert!(is_oasis_path("chip.OAS"));
    assert!(is_oasis_path("a/b/top.oasis"));
    assert!(!is_oasis_path("top.gds"));
    assert!(!is_oasis_path("oas"));
}

#[test]
fn rectangles_and_polygons_are_written() {
    let mut o = Vec::new();
    write_rectangle(&mut o, 68, 20, &Rect::new(0, 0, 100, 50));
    assert_eq!(o, vec![20, 0x7b, 68, 20, 100, 50, 0, 0]);
    let mut p = Vec::new();
    write_polygon(&mut p, 1, 0, &[(0, 0), (10, 0), (10, 5), (0, 0)]);
    // id, info, layer, datatype, type 4, count 2, two g-deltas, position
    assert_eq!(p[..6].to_vec(), vec![21, 0x3b, 1, 0, 4, 2]);
    let mut q = Vec::new();
    write_polygon(&mut q, 1, 0, &[(0, 0), (10, 0), (0, 0)]);
    assert!(q.is_empty(), "fewer than three distinct vertices write nothing");
    assert_eq!(distinct_vertices(&[(1, 1), (2, 2), (1, 1), (1, 1)]), vec![(1, 1), (2, 2)]);
}

#[test]
fn paths_stroke_to_flush_rectangles() {
    let rs = stroke_path(4, &[(0, 0), (10, 0), (10, 20)]);
    assert_eq!(rs, vec![Rect::new(0, -2, 10, 2), Rect::new(8, 0, 12, 20)]);
    assert!(stroke_path(0, &[(0, 0), (10, 0)]).is_empty());
}

fn poly_area(pts: &[(i32, i32)]) -> f64 {
    area2(pts) as f64 / 2.0
}

#[test]
fn ctrapezoid_validated_shapes() {
    // type 16: right triangle, legs 40 → area 800
    assert_eq!(poly_area(&ctrapezoid_polygon(16, 0, 0, 40, 40).unwrap()), 800.0);
    // type 0: 100×40 box, 45° cut of leg h=40 at top-right → 3200
    assert_eq!(poly_area(&ctrapezoid_polygon(0, 0, 0, 100, 40).unwrap()), 3200.0);
    // type 8: vertical, 40×100 box, 45° cut of leg w=40 at top-right → 3200
    assert_eq!(poly_area(&ctrapezoid_polygon(8, 0, 0, 40, 100).unwrap()), 3200.0);
    // type 24: rectangle 40×40 → 1600
    assert_eq!(poly_area(&ctrapezoid_polygon(24, 0, 0, 40, 40).unwrap()), 1600.0);
    // the rare 2× forms (20..23) error rather than emit possibly-wrong geometry
    assert!(ctrapezoid_polygon(20, 0, 0, 40, 40).is_err());
    assert!(ctrapezoid_polygon(99, 0, 0, 40, 40).is_err());
}

#[test]
fn refused_types_are_named_in_the_error() {
    let e = ctrapezoid_polygon(21, 0, 0, 10, 10).unwrap_err();
    assert_eq!(e.0, "ctrapezoid type 21 (2x isoceles triangle) not yet supported \u{2014} please report");
    let e = ctrapezoid_polygon(26, 0, 0, 10, 10).unwrap_err();
    assert_eq!(e.0, "ctrapezoid type 26 out of range (0..25)");
    // point-list type 6, count 0
    let b = [6u8, 0u8];
    let mut i = 0usize;
    let e = read_point_list(&b, &mut i, false).unwrap_err();
    assert_eq!(e.0, "point-list type 6 not supported in v0");
}
