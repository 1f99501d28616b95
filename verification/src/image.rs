//! The rasterizer's grid geometry and the image assembler: an intensity
//! buffer laid out row-major with a padding column at each row start, then
//! the complete image file as signature, header chunk, data chunk (the
//! stored-mode stream of the buffer), and empty end chunk.

use vstd::prelude::*;

use crate::checksum::be32;
use crate::checksum::chunker;
use crate::checksum::crc;
use crate::checksum::crc32_spec;
use crate::checksum::is_crc_table;
use crate::checksum::make_crc_table;
use crate::frame::zlib_bytes;
use crate::frame::zlib_format;
use vstd::arithmetic::div_mod::lemma_div_pos_is_pos;
use vstd::arithmetic::div_mod::lemma_fundamental_div_mod;
use vstd::arithmetic::div_mod::lemma_multiply_divide_le;
use vstd::arithmetic::div_mod::lemma_multiply_divide_lt;

verus! {

/// A hit grid records, for each column `x` of the plot and each row value
/// `row` from 0 through `height`, whether the curve passes within one unit
/// of that cell; it is flattened as `hits[x * (height + 1) + row]`.
pub open spec fn hit_at(hits: Seq<bool>, height: int, x: int, row: int) -> bool {
    hits[x * (height + 1) + row]
}

/// Byte `i` of the intensity buffer: each row begins with one always-dark
/// padding cell; elsewhere the column is `val - 1` and the row is counted
/// from the bottom of the grid, and a cell the curve passes is `0xff`.
pub open spec fn raster_cell(i: int, width: int, height: int, hits: Seq<bool>) -> u8 {
    let val = i % (width + 1);
    if val == 0 {
        0u8
    } else {
        let x = val - 1;
        let row = height - (i - val) / width;
        if hit_at(hits, height, x, row) {
            0xffu8
        } else {
            0u8
        }
    }
}

/// Bounds used by every cell: the quotient behind `row` stays within the
/// grid, so the subtraction cannot underflow and the hit index is in range.
proof fn lemma_cell_geometry(i: int, width: int, height: int)
    requires
        1 <= width,
        height <= width + 1,
        0 <= i < (width + 1) * height,
    ensures
        0 <= i % (width + 1) <= i,
        i % (width + 1) < width + 1,
        0 <= (i - i % (width + 1)) / width <= height,
{
    let m = width + 1;
    let q = i / m;
    let val = i % m;
    lemma_fundamental_div_mod(i, m);
    lemma_div_pos_is_pos(i, m);
    assert(i - val == m * q);
    assert(m * q >= 0) by (nonlinear_arith)
        requires
            m > 0,
            q >= 0,
    ;
    lemma_multiply_divide_lt(i, m, height);
    assert(q <= height - 1);
    assert(m * q <= width * height) by (nonlinear_arith)
        requires
            m == width + 1,
            q <= height - 1,
            height <= width + 1,
            1 <= width,
            q >= 0,
    ;
    lemma_multiply_divide_le(m * q, width, height);
    lemma_div_pos_is_pos(m * q, width);
}

/// Computes one cell of the intensity buffer from the hit grid.
pub fn create_img(i: usize, width: usize, height: usize, hits: &Vec<bool>) -> (px: u8)
    requires
        1 <= width,
        width < usize::MAX,
        height <= width + 1,
        i < (width + 1) * height,
        hits@.len() == width * (height + 1),
        width * (height + 1) <= usize::MAX,
    ensures
        px == raster_cell(i as int, width as int, height as int, hits@),
{
    proof {
        lemma_cell_geometry(i as int, width as int, height as int);
    }
    let val = i % (width + 1);
    if val == 0 {
        0x00
    } else {
        let x = val - 1;
        let row = height - (i - val) / width;
        assert(x * (height as int + 1) + row < width * (height as int + 1)) by (nonlinear_arith)
            requires
                0 <= x < width as int,
                0 <= row <= height as int,
        ;
        assert(x * (height as int + 1) >= 0) by (nonlinear_arith)
            requires
                x >= 0,
                height as int + 1 > 0,
        ;
        assert(height as int + 1 <= width as int * (height as int + 1)) by (nonlinear_arith)
            requires
                1 <= width as int,
                height as int + 1 > 0,
        ;
        if hits[x * (height + 1) + row] {
            0xff
        } else {
            0x00
        }
    }
}

/// Fills the whole intensity buffer, one byte per cell, row-major with the
/// padding column at each row start.
pub fn rasterize(width: usize, height: usize, hits: &Vec<bool>) -> (buf: Vec<u8>)
    requires
        1 <= width,
        width < usize::MAX,
        height <= width + 1,
        (width + 1) * height <= usize::MAX,
        hits@.len() == width * (height + 1),
        width * (height + 1) <= usize::MAX,
    ensures
        buf@.len() == (width + 1) * height,
        forall|i: int|
            0 <= i < buf@.len() ==> buf@[i] == raster_cell(
                i,
                width as int,
                height as int,
                hits@,
            ),
{
    let total = (width + 1) * height;
    let mut buf: Vec<u8> = Vec::new();
    let mut i: usize = 0;
    while i < total
        invariant
            total == (width as int + 1) * height as int,
            i <= total,
            1 <= width,
            height <= width + 1,
            hits@.len() == width * (height + 1),
            width * (height + 1) <= usize::MAX,
            width < usize::MAX,
            buf@.len() == i as int,
            forall|j: int|
                0 <= j < i ==> buf@[j] == raster_cell(j, width as int, height as int, hits@),
        decreases total - i,
    {
        let px = create_img(i, width, height, hits);
        buf.push(px);
        i += 1;
    }
    buf
}

/// The fixed eight-byte file signature.
pub open spec fn png_signature() -> Seq<u8> {
    seq![0x89u8, 0x50u8, 0x4eu8, 0x47u8, 0x0du8, 0x0au8, 0x1au8, 0x0au8]
}

/// The header chunk's tag.
pub open spec fn ihdr_tag() -> Seq<u8> {
    seq![0x49u8, 0x48u8, 0x44u8, 0x52u8]
}

/// The data chunk's tag.
pub open spec fn idat_tag() -> Seq<u8> {
    seq![0x49u8, 0x44u8, 0x41u8, 0x54u8]
}

/// The end chunk's tag.
pub open spec fn iend_tag() -> Seq<u8> {
    seq![0x49u8, 0x45u8, 0x4eu8, 0x44u8]
}

/// One chunk: the payload length and the CRC-32 over tag and payload as
/// big-endian words around the tag and the payload themselves.
pub open spec fn chunk_bytes(tag: Seq<u8>, payload: Seq<u8>) -> Seq<u8> {
    be32(payload.len() as u32) + tag + payload + be32(crc32_spec(tag + payload))
}

/// The header chunk's payload: the dimensions, then the fixed bit-depth,
/// color-type, compression, filter and interlace bytes (8-bit greyscale,
/// no filtering, no interlacing).
pub open spec fn ihdr_payload(width: u32, height: u32) -> Seq<u8> {
    be32(width) + be32(height) + seq![8u8, 0u8, 0u8, 0u8, 0u8]
}

/// The complete image file for an intensity buffer: signature, header
/// chunk, data chunk wrapping the stored-mode stream, and empty end chunk.
pub open spec fn png_bytes(width: u32, height: u32, buffer: Seq<u8>) -> Seq<u8> {
    png_signature() + chunk_bytes(ihdr_tag(), ihdr_payload(width, height)) + chunk_bytes(
        idat_tag(),
        zlib_bytes(buffer),
    ) + chunk_bytes(iend_tag(), Seq::empty())
}

/// Appends one serialized chunk to the output stream.
fn write_chunk(out: &mut Vec<u8>, tag: &[u8], payload: &[u8], table: &Vec<u32>)
    requires
        is_crc_table(table@),
        tag@.len() == 4,
        payload@.len() <= 0xffffffff,
    ensures
        final(out)@ == old(out)@ + chunk_bytes(tag@, payload@),
{
    let len_bytes = chunker(payload.len() as u32);
    out.extend_from_slice(len_bytes.as_slice());
    out.extend_from_slice(tag);
    out.extend_from_slice(payload);
    let mut tp: Vec<u8> = Vec::new();
    tp.extend_from_slice(tag);
    tp.extend_from_slice(payload);
    assert(tp@ =~= tag@ + payload@);
    let crc_bytes = crc(tp.as_slice(), table);
    out.extend_from_slice(crc_bytes.as_slice());
    assert(out@ =~= old(out)@ + chunk_bytes(tag@, payload@));
}

/// Serializes the complete image file from the dimensions and the
/// intensity buffer.
pub fn assemble_image(width: u32, height: u32, buffer: &[u8]) -> (out: Vec<u8>)
    requires
        buffer@.len() <= 0xffff,
    ensures
        out@ == png_bytes(width, height, buffer@),
{
    let table = make_crc_table();
    let mut out: Vec<u8> = Vec::new();
    let sig: [u8; 8] = [0x89, 0x50, 0x4e, 0x47, 0x0d, 0x0a, 0x1a, 0x0a];
    out.extend_from_slice(sig.as_slice());
    assert(out@ =~= png_signature());

    let wb = chunker(width);
    let hb = chunker(height);
    let mut ihdr: Vec<u8> = Vec::new();
    ihdr.extend_from_slice(wb.as_slice());
    ihdr.extend_from_slice(hb.as_slice());
    ihdr.push(8);
    ihdr.push(0);
    ihdr.push(0);
    ihdr.push(0);
    ihdr.push(0);
    assert(ihdr@ =~= ihdr_payload(width, height));
    let ihdr_t: [u8; 4] = [0x49, 0x48, 0x44, 0x52];
    assert(ihdr_t@ =~= ihdr_tag());
    write_chunk(&mut out, ihdr_t.as_slice(), ihdr.as_slice(), &table);

    let idat = zlib_format(buffer, buffer.len() as u16);
    let idat_t: [u8; 4] = [0x49, 0x44, 0x41, 0x54];
    assert(idat_t@ =~= idat_tag());
    write_chunk(&mut out, idat_t.as_slice(), idat.as_slice(), &table);

    let iend_t: [u8; 4] = [0x49, 0x45, 0x4e, 0x44];
    assert(iend_t@ =~= iend_tag());
    let empty: Vec<u8> = Vec::new();
    write_chunk(&mut out, iend_t.as_slice(), empty.as_slice(), &table);

    assert(out@ =~= png_bytes(width, height, buffer@));
    out
}

/// Reads the raster back out of an assembled image: the stored-block length
/// sits at its fixed offset inside the data chunk, little-endian, and the
/// raw payload bytes follow it verbatim.
pub open spec fn stored_payload(png: Seq<u8>) -> Seq<u8> {
    let l = png[44] as int + 256 * (png[45] as int);
    png.subrange(48, 48 + l)
}

/// The round trip is lossless: any decoder that honors the stored-block
/// length recovers the original intensity buffer byte for byte from the
/// assembled file.
pub proof fn lemma_stored_round_trip(width: u32, height: u32, buffer: Seq<u8>)
    requires
        buffer.len() <= 0xffff,
    ensures
        stored_payload(png_bytes(width, height, buffer)) == buffer,
{
    let p = png_bytes(width, height, buffer);
    let n = buffer.len() as int;
    let z = zlib_bytes(buffer);
    let c1 = chunk_bytes(ihdr_tag(), ihdr_payload(width, height));
    let c2 = chunk_bytes(idat_tag(), z);
    assert(png_signature().len() == 8);
    assert(c1.len() == 25);
    assert(z.len() == n + 11);
    assert(c2 == be32(z.len() as u32) + idat_tag() + z + be32(crc32_spec(idat_tag() + z)));
    assert forall|j: int| 0 <= j < z.len() implies p[41 + j] == z[j] by {
        assert(c2[8 + j] == z[j]);
        assert(p[41 + j] == c2[8 + j]);
    }
    assert(p[44] == z[3]);
    assert(p[45] == z[4]);
    assert(z[3] == (n % 256) as u8);
    assert(z[4] == (n / 256) as u8);
    lemma_fundamental_div_mod(n, 256);
    assert(p[44] as int + 256 * (p[45] as int) == n);
    assert forall|j: int| 0 <= j < n implies p[48 + j] == buffer[j] by {
        assert(p[41 + (7 + j)] == z[7 + j]);
        assert(z[7 + j] == buffer[j]);
    }
    assert(stored_payload(p) =~= buffer);
}

} // verus!
