use vyges_layout::render::{chunk, crc32, encode, esc, hex, year_of, Anchor};

#[test]
fn years_of_known_instants() {
    assert_eq!(year_of(0), 1970);
    assert_eq!(year_of(-1), 1969);
    assert_eq!(year_of(1_700_000_000), 2023);
    // 2000-02-29 00:00:00 UTC and the last second of that leap year
    assert_eq!(year_of(951_782_400), 2000);
    assert_eq!(year_of(978_307_199), 2000);
    assert_eq!(year_of(978_307_200), 2001);
    // 1900 is not a leap year: 1900-12-31 23:59:59 and 1901-01-01
    assert_eq!(year_of(-2_177_452_801), 1900);
    assert_eq!(year_of(-2_177_452_800), 1901);
    // 2100-01-01 00:00:00 UTC
    assert_eq!(year_of(4_102_444_800), 2100);
    assert_eq!(year_of(4_102_444_799), 2099);
}

#[test]
fn the_clock_year_is_plausible() {
    let secs = std::time::SystemTime::now().duration_since(std::time::UNIX_EPOCH).map(|d| d.as_secs() as i64).unwrap_or(0);
    let y = year_of(secs);
    assert!((2026..2200).contains(&y), "implausible year {y}");
}

#[test]
fn anchors_name_their_svg_values() {
    assert_eq!(Anchor::default(), Anchor::Start);
    assert_eq!(Anchor::Start.svg(), "start");
    assert_eq!(Anchor::Middle.svg(), "middle");
    assert_eq!(Anchor::End.svg(), "end");
}

#[test]
fn colours_are_lower_case_hex() {
    assert_eq!(hex((255, 0, 16)), "#ff0010");
    assert_eq!(hex((160, 160, 168)), "#a0a0a8");
}

#[test]
fn markup_in_a_label_is_escaped() {
    assert_eq!(esc("<a & 'b'>\""), "&lt;a &amp; &apos;b&apos;&gt;&quot;");
    assert_eq!(esc("soc — inst"), "soc — inst");
    assert_eq!(esc(""), "");
}

#[test]
fn crc32_check_values() {
    assert_eq!(crc32(b"123456789"), 0xCBF4_3926);
    assert_eq!(crc32(b""), 0);
    assert_eq!(crc32(b"IEND"), 0xAE42_6082);
}

#[test]
fn an_empty_chunk_is_length_type_crc() {
    let mut out = Vec::new();
    chunk(&mut out, b"IEND", &[]);
    assert_eq!(out, vec![0, 0, 0, 0, b'I', b'E', b'N', b'D', 0xAE, 0x42, 0x60, 0x82]);
}

#[test]
fn a_png_frames_its_scanlines() {
    let px = [255u8, 0, 0, 0, 255, 0];
    let png = encode(&px, 2, 1);
    assert_eq!(&png[..8], &[0x89, b'P', b'N', b'G', 0x0D, 0x0A, 0x1A, 0x0A]);
    assert_eq!(&png[12..16], b"IHDR");
    assert_eq!(&png[16..24], &[0, 0, 0, 2, 0, 0, 0, 1]);
    assert_eq!(&png[png.len() - 12..], &[0, 0, 0, 0, b'I', b'E', b'N', b'D', 0xAE, 0x42, 0x60, 0x82]);
    // the IDAT payload inflates back to the filtered scanline
    let idat_len = u32::from_be_bytes([png[33], png[34], png[35], png[36]]) as usize;
    assert_eq!(&png[37..41], b"IDAT");
    let z = &png[41..41 + idat_len];
    let raw = miniz_oxide::inflate::decompress_to_vec_zlib(z).unwrap();
    assert_eq!(raw, vec![0, 255, 0, 0, 0, 255, 0]);
}
