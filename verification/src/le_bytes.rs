//! Little-endian byte encodings of unsigned integers: the first byte is the
//! least significant.
use vstd::prelude::*;

verus! {

/// The four little-endian bytes of a `u32`.
pub open spec fn u32_le(x: u32) -> Seq<u8> {
    seq![(x % 256) as u8, (x / 256 % 256) as u8, (x / 65536 % 256) as u8, (x / 16777216 % 256) as u8]
}

/// The `u32` that four little-endian bytes stand for.
pub open spec fn le_u32(b: Seq<u8>) -> u32
    recommends
        b.len() == 4,
{
    (b[0] + 256 * b[1] + 65536 * b[2] + 16777216 * b[3]) as u32
}

/// The eight little-endian bytes of a `u64`.
pub open spec fn u64_le(x: u64) -> Seq<u8> {
    seq![
        (x % 0x100) as u8,
        (x / 0x100 % 0x100) as u8,
        (x / 0x1_0000 % 0x100) as u8,
        (x / 0x100_0000 % 0x100) as u8,
        (x / 0x1_0000_0000 % 0x100) as u8,
        (x / 0x100_0000_0000 % 0x100) as u8,
        (x / 0x1_0000_0000_0000 % 0x100) as u8,
        (x / 0x100_0000_0000_0000 % 0x100) as u8,
    ]
}

/// The `u64` that eight little-endian bytes stand for.
pub open spec fn le_u64(b: Seq<u8>) -> u64
    recommends
        b.len() == 8,
{
    (b[0] + 0x100 * b[1] + 0x1_0000 * b[2] + 0x100_0000 * b[3] + 0x1_0000_0000 * b[4] + 0x100_0000_0000
        * b[5] + 0x1_0000_0000_0000 * b[6] + 0x100_0000_0000_0000 * b[7]) as u64
}

/// Reading the bytes of a `u32` gives it back.
pub proof fn lemma_u32_le(x: u32)
    ensures
        u32_le(x).len() == 4,
        le_u32(u32_le(x)) == x,
{
    assert(x == x % 256 + 256 * (x / 256 % 256) + 65536 * (x / 65536 % 256) + 16777216 * (x / 16777216
        % 256)) by (bit_vector);
}

/// Four bytes are the bytes of the `u32` they stand for.
pub proof fn lemma_le_u32(b: Seq<u8>)
    requires
        b.len() == 4,
    ensures
        u32_le(le_u32(b)) == b,
{
    let (b0, b1, b2, b3) = (b[0], b[1], b[2], b[3]);
    let x = le_u32(b);
    assert(x == b0 + 256 * b1 + 65536 * b2 + 16777216 * b3);
    assert(x % 256 == b0 && x / 256 % 256 == b1 && x / 65536 % 256 == b2 && x / 16777216 % 256 == b3)
        by (bit_vector)
        requires
            x == b0 + 256 * b1 + 65536 * b2 + 16777216 * b3,
    ;
    assert(u32_le(x) == b);
}

/// Reading the bytes of a `u64` gives it back.
pub proof fn lemma_u64_le(x: u64)
    ensures
        u64_le(x).len() == 8,
        le_u64(u64_le(x)) == x,
{
    assert(x == x % 0x100 + 0x100 * (x / 0x100 % 0x100) + 0x1_0000 * (x / 0x1_0000 % 0x100) + 0x100_0000 * (x
        / 0x100_0000 % 0x100) + 0x1_0000_0000 * (x / 0x1_0000_0000 % 0x100) + 0x100_0000_0000 * (x
        / 0x100_0000_0000 % 0x100) + 0x1_0000_0000_0000 * (x / 0x1_0000_0000_0000 % 0x100)
        + 0x100_0000_0000_0000 * (x / 0x100_0000_0000_0000 % 0x100)) by (bit_vector);
}

/// Eight bytes are the bytes of the `u64` they stand for.
pub proof fn lemma_le_u64(b: Seq<u8>)
    requires
        b.len() == 8,
    ensures
        u64_le(le_u64(b)) == b,
{
    let (b0, b1, b2, b3, b4, b5, b6, b7) = (b[0], b[1], b[2], b[3], b[4], b[5], b[6], b[7]);
    let x = le_u64(b);
    assert(x == b0 + 0x100 * b1 + 0x1_0000 * b2 + 0x100_0000 * b3 + 0x1_0000_0000 * b4 + 0x100_0000_0000
        * b5 + 0x1_0000_0000_0000 * b6 + 0x100_0000_0000_0000 * b7);
    assert(x % 0x100 == b0 && x / 0x100 % 0x100 == b1 && x / 0x1_0000 % 0x100 == b2 && x / 0x100_0000
        % 0x100 == b3 && x / 0x1_0000_0000 % 0x100 == b4 && x / 0x100_0000_0000 % 0x100 == b5 && x
        / 0x1_0000_0000_0000 % 0x100 == b6 && x / 0x100_0000_0000_0000 % 0x100 == b7) by (bit_vector)
        requires
            x == b0 + 0x100 * b1 + 0x1_0000 * b2 + 0x100_0000 * b3 + 0x1_0000_0000 * b4 + 0x100_0000_0000
                * b5 + 0x1_0000_0000_0000 * b6 + 0x100_0000_0000_0000 * b7,
    ;
    assert(u64_le(x) == b);
}

/// Appends the bytes of a `u32`.
pub fn push_u32_le(out: &mut Vec<u8>, x: u32)
    ensures
        final(out)@ == old(out)@ + u32_le(x),
{
    out.push((x % 256) as u8);
    out.push((x / 256 % 256) as u8);
    out.push((x / 65536 % 256) as u8);
    out.push((x / 16777216 % 256) as u8);
    assert(out@ == old(out)@ + u32_le(x));
}

/// Appends the bytes of a `u64`.
pub fn push_u64_le(out: &mut Vec<u8>, x: u64)
    ensures
        final(out)@ == old(out)@ + u64_le(x),
{
    out.push((x % 0x100) as u8);
    out.push((x / 0x100 % 0x100) as u8);
    out.push((x / 0x1_0000 % 0x100) as u8);
    out.push((x / 0x100_0000 % 0x100) as u8);
    out.push((x / 0x1_0000_0000 % 0x100) as u8);
    out.push((x / 0x100_0000_0000 % 0x100) as u8);
    out.push((x / 0x1_0000_0000_0000 % 0x100) as u8);
    out.push((x / 0x100_0000_0000_0000 % 0x100) as u8);
    assert(out@ == old(out)@ + u64_le(x));
}

/// The `u32` whose bytes start at `at`.
pub fn read_u32_le(b: &[u8], at: usize) -> (x: u32)
    requires
        at + 4 <= b@.len(),
    ensures
        x == le_u32(b@.subrange(at as int, at + 4)),
{
    (b[at] as u32) + 256 * (b[at + 1] as u32) + 65536 * (b[at + 2] as u32) + 16777216 * (b[at + 3] as u32)
}

/// The `u64` whose bytes start at `at`.
pub fn read_u64_le(b: &[u8], at: usize) -> (x: u64)
    requires
        at + 8 <= b@.len(),
    ensures
        x == le_u64(b@.subrange(at as int, at + 8)),
{
    (b[at] as u64) + 0x100 * (b[at + 1] as u64) + 0x1_0000 * (b[at + 2] as u64) + 0x100_0000 * (b[at
        + 3] as u64) + 0x1_0000_0000 * (b[at + 4] as u64) + 0x100_0000_0000 * (b[at + 5] as u64)
        + 0x1_0000_0000_0000 * (b[at + 6] as u64) + 0x100_0000_0000_0000 * (b[at + 7] as u64)
}

/// The bytes of a `u32` are its base-256 digits, least significant first.
pub proof fn lemma_u32_le_digits(x: u32)
    ensures
        u32_le(x).len() == 4,
        x == u32_le(x)[0] + 256 * u32_le(x)[1] + 65536 * u32_le(x)[2] + 16777216 * u32_le(x)[3],
{
    lemma_u32_le(x);
}

/// The bytes of a `u64` are its base-256 digits, least significant first.
pub proof fn lemma_u64_le_digits(x: u64)
    ensures
        u64_le(x).len() == 8,
        x == u64_le(x)[0] + 0x100 * u64_le(x)[1] + 0x1_0000 * u64_le(x)[2] + 0x100_0000 * u64_le(x)[3]
            + 0x1_0000_0000 * u64_le(x)[4] + 0x100_0000_0000 * u64_le(x)[5] + 0x1_0000_0000_0000 * u64_le(x)[6]
            + 0x100_0000_0000_0000 * u64_le(x)[7],
{
    lemma_u64_le(x);
}
} // verus!
