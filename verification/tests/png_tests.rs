use docx_edit::png::{adler32, crc32, encode_png, image_dimensions, make_file_icon_png, make_solid_png};

#[test]
fn known_checksums() {
    assert_eq!(crc32(b"IEND"), 0xAE42_6082);
    assert_eq!(crc32(b""), 0);
    assert_eq!(crc32(b"123456789"), 0xCBF4_3926);
    assert_eq!(adler32(b"Wikipedia"), 0x11E6_0398);
    assert_eq!(adler32(b""), 1);
}

#[test]
fn solid_png_layout() {
    let png = make_solid_png(2, 1, (255, 0, 0));
    assert_eq!(&png[..8], &[0x89, b'P', b'N', b'G', 0x0D, 0x0A, 0x1A, 0x0A]);
    assert_eq!(&png[12..16], b"IHDR");
    assert_eq!(image_dimensions(&png), Some((2, 1)));
    assert_eq!(&png[png.len() - 8..png.len() - 4], b"IEND");
    // raw = 0, ff 00 00, ff 00 00: one stored block of 7 bytes after the zlib header
    let idat = 8 + 25;
    assert_eq!(&png[idat + 4..idat + 8], b"IDAT");
    assert_eq!(&png[idat + 8..idat + 15], &[0x78, 0x01, 0x01, 0x07, 0x00, 0xF8, 0xFF]);
    assert_eq!(&png[idat + 15..idat + 22], &[0, 255, 0, 0, 255, 0, 0]);
}

#[test]
fn empty_scan_lines_have_no_block() {
    let png = encode_png(1, 1, 2, &[]);
    let idat = 8 + 25;
    assert_eq!(&png[idat..idat + 4], &[0, 0, 0, 6]);
    assert_eq!(&png[idat + 8..idat + 14], &[0x78, 0x01, 0, 0, 0, 1]);
}

#[test]
fn icon_png() {
    let png = make_file_icon_png(48, 58);
    assert_eq!(image_dimensions(&png), Some((48, 58)));
    assert_eq!(png[8 + 8 + 9], 6);
}

#[test]
fn jpeg_size() {
    let mut b = vec![0xFF, 0xD8, 0xFF, 0xE0, 0x00, 0x04, 0x00, 0x00];
    b.extend_from_slice(&[0xFF, 0xC0, 0x00, 0x11, 0x08, 0x01, 0x2C, 0x02, 0x58, 0x03, 0, 0, 0, 0]);
    assert_eq!(image_dimensions(&b), Some((600, 300)));
    assert_eq!(image_dimensions(&[0xFF, 0xD8, 0xFF, 0xC4, 0x00, 0x01, 0, 0, 0, 0, 0, 0, 0]), None);
    assert_eq!(image_dimensions(b"not a picture at all"), None);
}
