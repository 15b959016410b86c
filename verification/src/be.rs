//! Big-endian integers as they lie in a file.

use vstd::prelude::*;

verus! {

/// The unsigned integer that the first four bytes of `s` spell, most
/// significant byte first.
pub open spec fn be_u32(s: Seq<u8>) -> int {
    s[0] as int * 0x100_0000 + s[1] as int * 0x1_0000 + s[2] as int * 0x100 + s[3] as int
}

/// The unsigned integer that the first eight bytes of `s` spell, most
/// significant byte first.
pub open spec fn be_u64(s: Seq<u8>) -> int {
    be_u32(s) * 0x1_0000_0000 + be_u32(s.skip(4))
}

/// The four-byte big-endian field of `data` at `pos`.
pub open spec fn u32_at(data: Seq<u8>, pos: int) -> int {
    be_u32(data.skip(pos))
}

/// The eight-byte big-endian field of `data` at `pos`.
pub open spec fn u64_at(data: Seq<u8>, pos: int) -> int {
    be_u64(data.skip(pos))
}

/// Reads the four-byte big-endian field at `pos`.
pub fn read_u32(data: &[u8], pos: usize) -> (r: u32)
    requires
        pos + 4 <= data.len(),
    ensures
        r == u32_at(data@, pos as int),
{
    let b0: u32 = data[pos] as u32;
    let b1: u32 = data[pos + 1] as u32;
    let b2: u32 = data[pos + 2] as u32;
    let b3: u32 = data[pos + 3] as u32;
    b0 * 0x100_0000 + b1 * 0x1_0000 + b2 * 0x100 + b3
}

/// Reads the eight-byte big-endian field at `pos`.
pub fn read_u64(data: &[u8], pos: usize) -> (r: u64)
    requires
        pos + 8 <= data.len(),
    ensures
        r == u64_at(data@, pos as int),
{
    let hi: u64 = read_u32(data, pos) as u64;
    let lo: u64 = read_u32(data, pos + 4) as u64;
    assert(data@.skip(pos as int).skip(4) =~= data@.skip(pos + 4));
    hi * 0x1_0000_0000 + lo
}

} // verus!
