use curvepng::frame::{chk, lg2, zlib_format};

#[test]
fn header_check_byte() {
    // 0x7801 = 30721 = 31 * 991, the standard stored-mode header pair.
    assert_eq!(chk(0x78, 0), 1);
    assert_eq!(((0x78u16 * 256) | 1) % 31, 0);
}

#[test]
fn lg2_values() {
    assert_eq!(lg2(0), 0);
    assert_eq!(lg2(1), 0);
    assert_eq!(lg2(2), 1);
    assert_eq!(lg2(255), 7);
    assert_eq!(lg2(256), 8);
    assert_eq!(lg2(257), 8);
}

#[test]
fn stored_stream_layout() {
    let out = zlib_format(b"abc", 3);
    // Adler-32 of "abc": a = 1+97+98+99 = 295, b = 98+196+295 = 589.
    assert_eq!(
        out,
        vec![0x78, 0x01, 0x01, 3, 0, 0xfc, 0xff, b'a', b'b', b'c', 0x02, 0x4d, 0x01, 0x27]
    );
}

#[test]
fn stored_stream_of_empty_payload() {
    let out = zlib_format(&[], 0);
    assert_eq!(out, vec![0x78, 0x01, 0x01, 0, 0, 0xff, 0xff, 0x00, 0x00, 0x00, 0x01]);
}
