//! Little-endian integers read out of byte sequences.

use vstd::prelude::*;

verus! {

/// The little-endian `u32` that starts at `i` in `s`.
pub open spec fn le32(s: Seq<u8>, i: int) -> int {
    s[i] as int + s[i + 1] as int * 0x100 + s[i + 2] as int * 0x1_0000 + s[i + 3] as int
        * 0x100_0000
}

/// The little-endian `u64` that starts at `i` in `s`.
pub open spec fn le64(s: Seq<u8>, i: int) -> int {
    le32(s, i) + le32(s, i + 4) * 0x1_0000_0000
}

/// Reads the little-endian `u32` at `i`.
pub fn read_le32(s: &[u8], i: usize) -> (r: u32)
    requires
        i + 4 <= s@.len(),
    ensures
        r == le32(s@, i as int),
{
    let r: u32 = s[i] as u32 + (s[i + 1] as u32) * 0x100 + (s[i + 2] as u32) * 0x1_0000 + (
    s[i + 3] as u32) * 0x100_0000;
    r
}

/// Reads the little-endian `u64` at `i`.
pub fn read_le64(s: &[u8], i: usize) -> (r: u64)
    requires
        i + 8 <= s@.len(),
    ensures
        r == le64(s@, i as int),
{
    let len = s.len();
    assert(i + 8 <= len);
    let lo = read_le32(s, i) as u64;
    let hi = read_le32(s, i + 4) as u64;
    lo + hi * 0x1_0000_0000
}

} // verus!
