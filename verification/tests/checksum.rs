use curvepng::checksum::{adlder32, chunker, compute_table, crc, make_crc_table};

#[test]
fn crc_table_entries() {
    assert_eq!(compute_table(0), 0x00000000);
    assert_eq!(compute_table(1), 0x77073096);
    assert_eq!(compute_table(255), 0x2d02ef8d);
    let table = make_crc_table();
    assert_eq!(table.len(), 256);
    assert_eq!(table[8], 0x0edb8832);
}

#[test]
fn crc_of_empty_is_zero() {
    let table = make_crc_table();
    assert_eq!(crc(&[], &table), [0x00, 0x00, 0x00, 0x00]);
}

#[test]
fn crc_of_check_string_matches_reference() {
    let table = make_crc_table();
    let bytes = crc(b"123456789", &table);
    assert_eq!(bytes, [0xcb, 0xf4, 0x39, 0x26]);
}

#[test]
fn adler_of_empty_is_one() {
    assert_eq!(adlder32(&[]), 0x00000001);
}

#[test]
fn adler_matches_reference() {
    assert_eq!(adlder32(b"Wikipedia"), 0x11e60398);
}

#[test]
fn adler_is_order_dependent() {
    assert_ne!(adlder32(b"ab"), adlder32(b"ba"));
}

#[test]
fn chunker_is_big_endian() {
    assert_eq!(chunker(0x0a0b0c0d), [0x0a, 0x0b, 0x0c, 0x0d]);
    assert_eq!(chunker(0), [0, 0, 0, 0]);
    assert_eq!(chunker(0xffffffff), [0xff, 0xff, 0xff, 0xff]);
}
