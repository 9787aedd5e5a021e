//! Little-endian integer fields at arbitrary (unaligned) byte offsets.
use vstd::prelude::*;

verus! {

/// The 16-bit little-endian value of the two bytes at `i`.
pub open spec fn le_u16_at(b: Seq<u8>, i: int) -> nat {
    (b[i] as nat) + 256 * (b[i + 1] as nat)
}

/// The 32-bit little-endian value of the four bytes at `i`.
pub open spec fn le_u32_at(b: Seq<u8>, i: int) -> nat {
    (b[i] as nat) + 256 * (b[i + 1] as nat) + 65536 * (b[i + 2] as nat) + 16777216 * (b[i
        + 3] as nat)
}

/// The two bytes that store `x` in little-endian order.
pub open spec fn u16_le_bytes(x: nat) -> Seq<u8> {
    seq![(x % 256) as u8, (x / 256 % 256) as u8]
}

/// The four bytes that store `x` in little-endian order.
pub open spec fn u32_le_bytes(x: nat) -> Seq<u8> {
    seq![
        (x % 256) as u8,
        (x / 256 % 256) as u8,
        (x / 65536 % 256) as u8,
        (x / 16777216 % 256) as u8,
    ]
}

pub fn read_u16_le(b: &[u8], i: usize) -> (r: u16)
    requires
        i + 2 <= b@.len(),
    ensures
        r as nat == le_u16_at(b@, i as int),
{
    b[i] as u16 + 256 * (b[i + 1] as u16)
}

pub fn read_u32_le(b: &[u8], i: usize) -> (r: u32)
    requires
        i + 4 <= b@.len(),
    ensures
        r as nat == le_u32_at(b@, i as int),
{
    b[i] as u32 + 256 * (b[i + 1] as u32) + 65536 * (b[i + 2] as u32) + 16777216 * (b[i
        + 3] as u32)
}

pub fn push_u16_le(out: &mut Vec<u8>, x: u16)
    ensures
        final(out)@ == old(out)@ + u16_le_bytes(x as nat),
{
    out.push((x % 256) as u8);
    out.push((x / 256 % 256) as u8);
}

pub fn push_u32_le(out: &mut Vec<u8>, x: u32)
    ensures
        final(out)@ == old(out)@ + u32_le_bytes(x as nat),
{
    out.push((x % 256) as u8);
    out.push((x / 256 % 256) as u8);
    out.push((x / 65536 % 256) as u8);
    out.push((x / 16777216 % 256) as u8);
}

/// Decoding the little-endian bytes of a 16-bit value gives the value back.
pub proof fn lemma_u16_le_round_trip(x: nat)
    requires
        x < 0x1_0000,
    ensures
        le_u16_at(u16_le_bytes(x), 0) == x,
{
    let b = u16_le_bytes(x);
    assert(b[0] as nat == x % 256);
    assert(b[1] as nat == x / 256);
}

/// Decoding the little-endian bytes of a 32-bit value gives the value back.
pub proof fn lemma_u32_le_round_trip(x: nat)
    requires
        x < 0x1_0000_0000,
    ensures
        le_u32_at(u32_le_bytes(x), 0) == x,
{
    let b = u32_le_bytes(x);
    assert(b[0] as nat == x % 256);
    assert(b[1] as nat == x / 256 % 256);
    assert(b[2] as nat == x / 65536 % 256);
    assert(b[3] as nat == x / 16777216);
    assert(x == x % 256 + 256 * (x / 256 % 256) + 65536 * (x / 65536 % 256) + 16777216 * (x
        / 16777216)) by (nonlinear_arith)
        requires
            x < 0x1_0000_0000,
    ;
}

/// Reading a stored 16-bit field and storing it again gives back its two bytes.
pub proof fn lemma_le_u16_bytes_round_trip(b: Seq<u8>, i: int)
    requires
        0 <= i,
        i + 2 <= b.len(),
    ensures
        u16_le_bytes(le_u16_at(b, i)) == b.subrange(i, i + 2),
{
    let x = le_u16_at(b, i);
    let (b0, b1) = (b[i] as nat, b[i + 1] as nat);
    assert(x % 256 == b0 && x / 256 % 256 == b1) by (nonlinear_arith)
        requires
            x == b0 + 256 * b1,
            b0 < 256,
            b1 < 256,
    ;
    assert(u16_le_bytes(x) =~= b.subrange(i, i + 2));
}

/// Reading a stored 32-bit field and storing it again gives back its four bytes.
pub proof fn lemma_le_u32_bytes_round_trip(b: Seq<u8>, i: int)
    requires
        0 <= i,
        i + 4 <= b.len(),
    ensures
        u32_le_bytes(le_u32_at(b, i)) == b.subrange(i, i + 4),
{
    let x = le_u32_at(b, i);
    let (b0, b1, b2, b3) = (b[i] as nat, b[i + 1] as nat, b[i + 2] as nat, b[i + 3] as nat);
    assert(x % 256 == b0 && x / 256 % 256 == b1 && x / 65536 % 256 == b2 && x / 16777216 % 256
        == b3) by (nonlinear_arith)
        requires
            x == b0 + 256 * b1 + 65536 * b2 + 16777216 * b3,
            b0 < 256,
            b1 < 256,
            b2 < 256,
            b3 < 256,
    ;
    assert(u32_le_bytes(x) =~= b.subrange(i, i + 4));
}

} // verus!
