//! The two checksums the container format mandates: a table-driven CRC-32
//! over each chunk's tag and payload, and an Adler-32 over the stored
//! payload. Both are pure functions over byte sequences.

use vstd::prelude::*;

verus! {

/// One round of the CRC-32 table recurrence: shift right once, folding in
/// the reversed generator polynomial when the low bit is set.
pub open spec fn crc_round(c: u32) -> u32 {
    if c & 1 == 1 {
        0xedb88320u32 ^ (c >> 1)
    } else {
        c >> 1
    }
}

/// `k` rounds of the table recurrence applied to `c`.
pub open spec fn crc_rounds(c: u32, k: nat) -> u32
    decreases k,
{
    if k == 0 {
        c
    } else {
        crc_round(crc_rounds(c, (k - 1) as nat))
    }
}

/// Entry `i` of the CRC-32 lookup table: eight rounds seeded with `i`.
pub open spec fn crc_table_entry(i: u32) -> u32 {
    crc_rounds(i, 8)
}

/// Whether `t` is the full 256-entry CRC-32 lookup table.
pub open spec fn is_crc_table(t: Seq<u32>) -> bool {
    t.len() == 256 && forall|i: int| 0 <= i < 256 ==> t[i] == crc_table_entry(i as u32)
}

/// Computes one entry of the CRC-32 lookup table.
pub fn compute_table(n: usize) -> (c: u32)
    requires
        n < 256,
    ensures
        c == crc_table_entry(n as u32),
{
    let mut c: u32 = n as u32;
    let mut k: usize = 0;
    while k < 8
        invariant
            k <= 8,
            c == crc_rounds(n as u32, k as nat),
        decreases 8 - k,
    {
        if (c & 1) == 1 {
            c = 0xedb88320u32 ^ (c >> 1);
        } else {
            c = c >> 1;
        }
        k += 1;
    }
    c
}

/// Builds the full 256-entry CRC-32 lookup table.
pub fn make_crc_table() -> (t: Vec<u32>)
    ensures
        is_crc_table(t@),
{
    let mut t: Vec<u32> = Vec::new();
    let mut i: usize = 0;
    while i < 256
        invariant
            i <= 256,
            t@.len() == i as int,
            forall|j: int| 0 <= j < i ==> t@[j] == crc_table_entry(j as u32),
        decreases 256 - i,
    {
        t.push(compute_table(i));
        i += 1;
    }
    t
}

/// CRC-32 accumulator over `data`, seeded with all ones.
pub open spec fn crc_acc(data: Seq<u8>) -> u32
    decreases data.len(),
{
    if data.len() == 0 {
        0xffffffffu32
    } else {
        let c = crc_acc(data.drop_last());
        crc_table_entry((c ^ data.last() as u32) & 0xff) ^ (c >> 8)
    }
}

/// CRC-32 of a byte sequence, as the image format defines it.
pub open spec fn crc32_spec(data: Seq<u8>) -> u32 {
    crc_acc(data) ^ 0xffffffff
}

/// The four big-endian bytes of a 32-bit value.
pub open spec fn be32(c: u32) -> Seq<u8> {
    seq![
        ((c >> 24) & 0xff) as u8,
        ((c >> 16) & 0xff) as u8,
        ((c >> 8) & 0xff) as u8,
        (c & 0xff) as u8,
    ]
}

/// Splits a 32-bit value into its four big-endian bytes.
pub fn chunker(c: u32) -> (r: [u8; 4])
    ensures
        r@ == be32(c),
{
    let r = [
        ((c >> 24) & 0xff) as u8,
        ((c >> 16) & 0xff) as u8,
        ((c >> 8) & 0xff) as u8,
        (c & 0xff) as u8,
    ];
    assert(r@ =~= be32(c));
    r
}

/// The Adler-32 running pair `(a, b)` over `data`, seeded `(1, 0)`; each new
/// byte is folded into `a` and the new `a` into `b`, both modulo 65521.
pub open spec fn adler_pair(data: Seq<u8>) -> (int, int)
    decreases data.len(),
{
    if data.len() == 0 {
        (1int, 0int)
    } else {
        let p = adler_pair(data.drop_last());
        let a = (p.0 + data.last()) % 65521;
        (a, (p.1 + a) % 65521)
    }
}

/// Both halves of the running pair stay within a 16-bit word.
pub proof fn lemma_adler_pair_bounds(data: Seq<u8>)
    ensures
        0 <= adler_pair(data).0 < 65521,
        0 <= adler_pair(data).1 < 65521,
    decreases data.len(),
{
    if data.len() > 0 {
        lemma_adler_pair_bounds(data.drop_last());
    }
}

/// Adler-32 of a byte sequence: the `b` half in the high 16 bits, `a` low.
pub open spec fn adler32_spec(data: Seq<u8>) -> u32 {
    (adler_pair(data).1 * 0x10000 + adler_pair(data).0) as u32
}

/// Computes the Adler-32 checksum of a byte sequence.
pub fn adlder32(data: &[u8]) -> (r: u32)
    ensures
        r == adler32_spec(data@),
{
    let mut a: u32 = 1;
    let mut b: u32 = 0;
    let mut i: usize = 0;
    while i < data.len()
        invariant
            i <= data@.len(),
            a < 65521,
            b < 65521,
            (a as int, b as int) == adler_pair(data@.take(i as int)),
        decreases data@.len() - i,
    {
        assert(data@.take(i + 1).drop_last() =~= data@.take(i as int));
        assert(data@.take(i + 1).last() == data@[i as int]);
        a = (a + data[i] as u32) % 65521;
        b = (b + a) % 65521;
        i += 1;
    }
    assert(data@.take(i as int) =~= data@);
    proof {
        lemma_adler_pair_bounds(data@);
    }
    assert(((b << 16) | a) == b * 0x10000 + a) by (bit_vector)
        requires
            a < 65521 && b < 65521,
    ;
    (b << 16) | a
}

/// Computes the CRC-32 of `data` with a precomputed lookup table, returning
/// it as four big-endian bytes.
pub fn crc(data: &[u8], table: &Vec<u32>) -> (r: [u8; 4])
    requires
        is_crc_table(table@),
    ensures
        r@ == be32(crc32_spec(data@)),
{
    let mut c: u32 = 0xffffffffu32;
    let mut i: usize = 0;
    while i < data.len()
        invariant
            i <= data@.len(),
            is_crc_table(table@),
            c == crc_acc(data@.take(i as int)),
        decreases data@.len() - i,
    {
        assert(data@.take(i + 1).drop_last() =~= data@.take(i as int));
        assert(data@.take(i + 1).last() == data@[i as int]);
        let v = data[i] as u32;
        assert((c ^ v) & 255 < 256) by (bit_vector);
        let idx = ((c ^ v) & 255) as usize;
        c = table[idx] ^ (c >> 8);
        i += 1;
    }
    assert(data@.take(i as int) =~= data@);
    chunker(c ^ 0xffffffff)
}

} // verus!
