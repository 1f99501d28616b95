use curvepng::expr::Expr;
use curvepng::image::{assemble_image, create_img, rasterize};

fn eval(e: &Expr, x: f32) -> f32 {
    match e {
        Expr::Literal(m) => {
            let co: f32 = m.co.parse().unwrap();
            let pow: f32 = m.pow.parse().unwrap();
            co * x.powf(pow)
        }
        Expr::Sum(l, r) => eval(l, x) + eval(r, x),
        Expr::Product(l, r) => eval(l, x) * eval(r, x),
    }
}

/// The hit grid for an expression: `hits[x * (height + 1) + row]` says the
/// curve passes within one unit of `(x, row)`.
fn hits_for(e: &Expr, width: usize, height: usize) -> Vec<bool> {
    let mut hits = Vec::new();
    for x in 0..width {
        let y = eval(e, x as f32);
        for row in 0..=height {
            hits.push((row as f32 - y).powi(2) <= 1.0);
        }
    }
    hits
}

#[test]
fn raster_layout_on_a_tiny_grid() {
    // width 2, height 2: rows of 3 cells, first cell of each row padding.
    let hits = vec![
        true, false, true, // column x = 0, rows 0, 1, 2
        false, true, false, // column x = 1, rows 0, 1, 2
    ];
    let buf = rasterize(2, 2, &hits);
    assert_eq!(buf.len(), 6);
    assert_eq!(buf[0], 0x00); // padding
    assert_eq!(buf[1], 0xff); // x = 0, row = 2 - 0 = 2 -> hits[2]
    assert_eq!(buf[2], 0x00); // x = 1, row = 2 -> hits[5]
    assert_eq!(buf[3], 0x00); // padding
    assert_eq!(buf[4], 0x00); // x = 0, row = 2 - 1 = 1 -> hits[1]
    assert_eq!(buf[5], 0xff); // x = 1, row = 1 -> hits[4]
    for i in 0..6 {
        assert_eq!(buf[i], create_img(i, 2, 2, &hits));
    }
}

#[test]
fn identity_curve_draws_a_diagonal() {
    let e = Expr::from_str("x").unwrap();
    let (w, h) = (128usize, 128usize);
    let hits = hits_for(&e, w, h);
    let buf = rasterize(w, h, &hits);
    assert_eq!(buf.len(), (w + 1) * h);
    // Cell for column x and bottom-up row r sits at index q * (w + 1) + x + 1
    // with r = h - q; it is lit exactly when (r - x)^2 <= 1.
    for q in 0..h {
        let r = h - q;
        for x in 0..w {
            let i = q * (w + 1) + x + 1;
            let expected = (r as f32 - x as f32).powi(2) <= 1.0;
            assert_eq!(buf[i] == 0xff, expected, "x = {}, row = {}", x, r);
        }
        assert_eq!(buf[q * (w + 1)], 0x00, "padding at row {}", q);
    }
    // Spot checks: the diagonal is lit, cells far from it are dark.
    assert_eq!(buf[123 * 129 + 6], 0xff); // x = 5, row = 5
    assert_eq!(buf[3 * 129 + 6], 0x00); // x = 5, row = 125
}

#[test]
fn constant_curve_draws_a_band() {
    let e = Expr::from_str("2").unwrap();
    let (w, h) = (128usize, 128usize);
    let buf = rasterize(w, h, &hits_for(&e, w, h));
    for x in 0..w {
        for q in 0..h {
            let r = h - q;
            let lit = buf[q * (w + 1) + x + 1] == 0xff;
            assert_eq!(lit, r == 1 || r == 2 || r == 3, "x = {}, row = {}", x, r);
        }
    }
}

#[test]
fn assembled_file_has_the_mandated_shape() {
    let buffer = vec![0xaa, 0xbb];
    let out = assemble_image(5, 9, &buffer);
    // Signature.
    assert_eq!(&out[0..8], &[0x89, 0x50, 0x4e, 0x47, 0x0d, 0x0a, 0x1a, 0x0a]);
    // IHDR: length 13, tag, width 5, height 9, bit depth 8, greyscale.
    assert_eq!(&out[8..16], &[0, 0, 0, 13, b'I', b'H', b'D', b'R']);
    assert_eq!(&out[16..29], &[0, 0, 0, 5, 0, 0, 0, 9, 8, 0, 0, 0, 0]);
    // IDAT: length covers the stored stream (2 + 11 bytes).
    assert_eq!(&out[33..41], &[0, 0, 0, 13, b'I', b'D', b'A', b'T']);
    // Stored stream: header, final stored block, length 2, complement.
    assert_eq!(&out[41..48], &[0x78, 0x01, 0x01, 2, 0, 0xfd, 0xff]);
    // The payload sits verbatim at its fixed offset (the lossless round trip).
    let n = out[44] as usize + 256 * out[45] as usize;
    assert_eq!(n, buffer.len());
    assert_eq!(&out[48..48 + n], &buffer[..]);
    // Adler-32 of [0xaa, 0xbb]: a = 1 + 170 + 187 = 358, b = 171 + 358 = 529.
    assert_eq!(&out[50..54], &[0x02, 0x11, 0x01, 0x66]);
    // IEND chunk closes the file: empty payload, tag, CRC.
    let total = out.len();
    assert_eq!(total, 8 + 25 + (12 + 13) + 12);
    assert_eq!(&out[total - 12..total - 4], &[0, 0, 0, 0, b'I', b'E', b'N', b'D']);
    // IEND's CRC is the reference constant for an empty payload.
    assert_eq!(&out[total - 4..], &[0xae, 0x42, 0x60, 0x82]);
}

#[test]
fn end_to_end_file_recovers_the_raster() {
    let e = Expr::from_str("2*x+1").unwrap();
    let (w, h) = (128usize, 128usize);
    let buf = rasterize(w, h, &hits_for(&e, w, h));
    let out = assemble_image(w as u32, h as u32, &buf);
    let n = out[44] as usize + 256 * out[45] as usize;
    assert_eq!(n, buf.len());
    assert_eq!(&out[48..48 + n], &buf[..]);
}
