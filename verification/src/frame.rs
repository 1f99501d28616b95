//! The stored-mode compression envelope: a two-byte header whose 16-bit
//! big-endian value is divisible by 31, a final stored-block marker, the
//! payload length and its one's-complement (little-endian), the payload
//! verbatim, and a big-endian Adler-32 trailer.

use vstd::prelude::*;

use crate::checksum::adler32_spec;
use crate::checksum::adlder32;
use crate::checksum::be32;
use crate::checksum::chunker;
use vstd::arithmetic::power2::lemma2_to64;
use vstd::arithmetic::power2::lemma_pow2_adds;
use vstd::arithmetic::power2::lemma_pow2_strictly_increases;
use vstd::arithmetic::power2::pow2;

verus! {

/// The fixed compression-method/window byte of the stored-mode stream header.
pub const CMF: u8 = 0x78;

/// Searches upward from `i` for the least check value below 32 that makes
/// `base | i` divisible by 31; 0 when none exists.
pub open spec fn chk_search(base: u16, i: int) -> u8
    decreases 32 - i,
{
    if i < 0 || i >= 32 {
        0
    } else if (base | i as u16) % 31 == 0 {
        i as u8
    } else {
        chk_search(base, i + 1)
    }
}

/// The check byte paired with method byte `num` and flag bits `mode`, making
/// the 16-bit big-endian header value divisible by 31.
pub open spec fn chk_spec(num: u8, mode: u8) -> u8 {
    chk_search((((num as int) * 256) as u16) | (mode as u16), 0)
}

/// When some check value below 32 works at all, the one `chk_search` picks
/// indeed makes the header value divisible by 31.
pub proof fn lemma_chk_search_divisible(base: u16, i: int)
    requires
        0 <= i <= 32,
        exists|j: int| i <= j < 32 && (base | (#[trigger] (j as u16))) % 31 == 0,
    ensures
        (base | chk_search(base, i) as u16) % 31 == 0,
    decreases 32 - i,
{
    let j = choose|j: int| i <= j < 32 && (base | (#[trigger] (j as u16))) % 31 == 0;
    if (base | i as u16) % 31 != 0 {
        assert(j != i);
        assert(i + 1 <= j);
        lemma_chk_search_divisible(base, i + 1);
    }
}

/// The two header bytes of the stored-mode stream satisfy the format's
/// consistency check: their 16-bit big-endian value is divisible by 31.
pub proof fn lemma_header_divisible()
    ensures
        ((((CMF as int) * 256) as u16) | (chk_spec(CMF, 0) as u16)) % 31 == 0,
{
    let base: u16 = (((CMF as int) * 256) as u16) | (0u8 as u16);
    assert(30720u16 | 0u16 == 30720u16) by (bit_vector);
    assert(base == 30720u16);
    assert((30720u16 | 1u16) % 31 == 0) by (bit_vector);
    assert((base | (1int as u16)) % 31 == 0);
    lemma_chk_search_divisible(base, 0);
}

/// Finds the check byte for the two-byte stream header.
pub fn chk(num: u8, mode: u8) -> (r: u8)
    ensures
        r == chk_spec(num, mode),
{
    let base: u16 = (num as u16) * 256 | (mode as u16);
    let mut i: u16 = 0;
    while i < 32
        invariant
            i <= 32,
            chk_spec(num, mode) == chk_search(base, i as int),
        decreases 32 - i,
    {
        if (base | i) % 31 == 0 {
            return i as u8;
        }
        i += 1;
    }
    0
}

/// Floor of the base-2 logarithm; 0 for 0 and 1.
pub open spec fn lg2_spec(n: nat) -> nat
    decreases n,
{
    if n <= 1 {
        0
    } else {
        1 + lg2_spec(n / 2)
    }
}

/// Computes the floor of the base-2 logarithm of `num` (0 for 0 and 1), the
/// exponent a window-size header field would carry.
pub fn lg2(num: usize) -> (r: u8)
    ensures
        r as nat == lg2_spec(num as nat),
{
    let mut v: u64 = num as u64;
    let mut counter: u8 = 0;
    proof {
        lemma2_to64();
    }
    while v > 1
        invariant
            num < usize::MAX as int + 1,
            v as nat * pow2(counter as nat) <= num as nat,
            lg2_spec(num as nat) == counter as nat + lg2_spec(v as nat),
            counter < 64,
        decreases v,
    {
        proof {
            lemma2_to64();
            lemma_pow2_adds(1, counter as nat);
            let c = counter as nat;
            assert(pow2(c + 1) == 2 * pow2(c));
            let vv = v as nat;
            let nn = num as nat;
            assert(2 * (v / 2) <= v);
            assert(pow2(c + 1) <= vv * pow2(c)) by (nonlinear_arith)
                requires
                    pow2(c + 1) == 2 * pow2(c),
                    vv >= 2,
                    pow2(c) >= 0,
            ;
            assert((v / 2) as nat * pow2(c + 1) <= vv * pow2(c)) by (nonlinear_arith)
                requires
                    pow2(c + 1) == 2 * pow2(c),
                    2 * ((v / 2) as nat) <= vv,
                    pow2(c) >= 0,
            ;
            lemma2_to64();
            if counter as nat + 1 >= 64 {
                if counter as nat + 1 > 64 {
                    lemma_pow2_strictly_increases(64, counter as nat + 1);
                }
                assert(false);
            }
        }
        v = v / 2;
        counter += 1;
    }
    counter
}

/// A stored-mode (uncompressed) stream holding `data` verbatim: the header
/// pair, the final stored-block marker, the little-endian length and its
/// one's-complement, the raw bytes, and the big-endian Adler-32 of `data`.
pub open spec fn zlib_bytes(data: Seq<u8>) -> Seq<u8> {
    let l = data.len() as int;
    seq![
        CMF,
        chk_spec(CMF, 0),
        1u8,
        (l % 256) as u8,
        (l / 256) as u8,
        ((0xffff - l) % 256) as u8,
        ((0xffff - l) / 256) as u8,
    ] + data + be32(adler32_spec(data))
}

/// Wraps raw payload bytes of declared length in the stored-mode envelope.
pub fn zlib_format(data: &[u8], length: u16) -> (r: Vec<u8>)
    requires
        data@.len() == length as int,
    ensures
        r@ == zlib_bytes(data@),
{
    let cmf: u8 = CMF;
    let flg = chk(cmf, 0);
    let mut img_stream: Vec<u8> = Vec::new();
    img_stream.push(cmf);
    img_stream.push(flg);
    img_stream.push(1u8);
    let neg: u16 = length ^ 0xffff;
    assert(length & 0xff == length % 256 && length >> 8 == length / 256 && neg == 0xffff
        - length) by (bit_vector)
        requires
            neg == length ^ 0xffff,
    ;
    assert(neg & 0xff == neg % 256 && neg >> 8 == neg / 256) by (bit_vector);
    img_stream.push((length & 0xff) as u8);
    img_stream.push((length >> 8) as u8);
    img_stream.push((neg & 0xff) as u8);
    img_stream.push((neg >> 8) as u8);
    img_stream.extend_from_slice(data);
    let ad = chunker(adlder32(data));
    img_stream.push(ad[0]);
    img_stream.push(ad[1]);
    img_stream.push(ad[2]);
    img_stream.push(ad[3]);
    assert(img_stream@ =~= zlib_bytes(data@));
    img_stream
}

} // verus!
