//! Little-endian integers in byte sequences.

use vstd::prelude::*;

verus! {

/// The four bytes of `v`, lowest first.
pub open spec fn bytes_of_u32(v: u32) -> Seq<u8> {
    seq![
        (v % 0x100) as u8,
        (v / 0x100 % 0x100) as u8,
        (v / 0x1_0000 % 0x100) as u8,
        (v / 0x100_0000 % 0x100) as u8,
    ]
}

/// The eight bytes of `v`, lowest first.
pub open spec fn bytes_of_u64(v: u64) -> Seq<u8> {
    bytes_of_u32((v % 0x1_0000_0000) as u32) + bytes_of_u32((v / 0x1_0000_0000) as u32)
}

/// The integer whose four bytes start at `at`.
pub open spec fn u32_at(bytes: Seq<u8>, at: int) -> u32 {
    (bytes[at] + bytes[at + 1] * 0x100 + bytes[at + 2] * 0x1_0000 + bytes[at + 3]
        * 0x100_0000) as u32
}

/// The integer whose eight bytes start at `at`.
pub open spec fn u64_at(bytes: Seq<u8>, at: int) -> u64 {
    (u32_at(bytes, at) + u32_at(bytes, at + 4) * 0x1_0000_0000) as u64
}

/// Four bytes that were written are read back.
pub proof fn lemma_u32_round_trip(bytes: Seq<u8>, at: int, v: u32)
    requires
        0 <= at,
        at + 4 <= bytes.len(),
        bytes.subrange(at, at + 4) == bytes_of_u32(v),
    ensures
        u32_at(bytes, at) == v,
{
    let part = bytes.subrange(at, at + 4);
    assert(bytes[at] == part[0]);
    assert(bytes[at + 1] == part[1]);
    assert(bytes[at + 2] == part[2]);
    assert(bytes[at + 3] == part[3]);
}

/// Four bytes that were read are written back.
pub proof fn lemma_u32_rewritten(bytes: Seq<u8>, at: int)
    requires
        0 <= at,
        at + 4 <= bytes.len(),
    ensures
        bytes_of_u32(u32_at(bytes, at)) == bytes.subrange(at, at + 4),
{
    let a = bytes[at] as int;
    let b = bytes[at + 1] as int;
    let c = bytes[at + 2] as int;
    let d = bytes[at + 3] as int;
    let v = a + b * 0x100 + c * 0x1_0000 + d * 0x100_0000;
    assert(v % 0x100 == a);
    assert(v / 0x100 % 0x100 == b);
    assert(v / 0x1_0000 % 0x100 == c);
    assert(v / 0x100_0000 % 0x100 == d);
    assert(bytes_of_u32(u32_at(bytes, at)) =~= bytes.subrange(at, at + 4));
}

/// Eight bytes that were written are read back.
pub proof fn lemma_u64_round_trip(bytes: Seq<u8>, at: int, v: u64)
    requires
        0 <= at,
        at + 8 <= bytes.len(),
        bytes.subrange(at, at + 8) == bytes_of_u64(v),
    ensures
        u64_at(bytes, at) == v,
{
    let part = bytes.subrange(at, at + 8);
    let low = (v % 0x1_0000_0000) as u32;
    let high = (v / 0x1_0000_0000) as u32;
    assert(bytes.subrange(at, at + 4) =~= part.subrange(0, 4));
    assert(part.subrange(0, 4) =~= bytes_of_u32(low));
    assert(bytes.subrange(at + 4, at + 8) =~= part.subrange(4, 8));
    assert(part.subrange(4, 8) =~= bytes_of_u32(high));
    lemma_u32_round_trip(bytes, at, low);
    lemma_u32_round_trip(bytes, at + 4, high);
}

/// The integer whose four bytes start at `at`.
pub fn read_u32(bytes: &[u8], at: usize) -> (v: u32)
    requires
        at + 4 <= bytes.len(),
    ensures
        v == u32_at(bytes@, at as int),
{
    bytes[at] as u32 + bytes[at + 1] as u32 * 0x100 + bytes[at + 2] as u32 * 0x1_0000 + bytes[at
        + 3] as u32 * 0x100_0000
}

/// The integer whose eight bytes start at `at`.
pub fn read_u64(bytes: &[u8], at: usize) -> (v: u64)
    requires
        at + 8 <= bytes.len(),
    ensures
        v == u64_at(bytes@, at as int),
{
    read_u32(bytes, at) as u64 + read_u32(bytes, at + 4) as u64 * 0x1_0000_0000
}

/// Appends the four bytes of `v`.
pub fn push_u32(out: &mut Vec<u8>, v: u32)
    ensures
        final(out)@ == old(out)@ + bytes_of_u32(v),
{
    out.push((v % 0x100) as u8);
    out.push((v / 0x100 % 0x100) as u8);
    out.push((v / 0x1_0000 % 0x100) as u8);
    out.push((v / 0x100_0000 % 0x100) as u8);
    assert(out@ =~= old(out)@ + bytes_of_u32(v));
}

/// Appends the eight bytes of `v`.
pub fn push_u64(out: &mut Vec<u8>, v: u64)
    ensures
        final(out)@ == old(out)@ + bytes_of_u64(v),
{
    push_u32(out, (v % 0x1_0000_0000) as u32);
    push_u32(out, (v / 0x1_0000_0000) as u32);
    assert(out@ =~= old(out)@ + bytes_of_u64(v));
}

} // verus!
