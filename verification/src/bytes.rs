//! Little-endian field access over descriptor bytes.

use vstd::prelude::*;

verus! {

/// The unsigned little-endian value of the two bytes at `off`.
pub open spec fn spec_le16(s: Seq<u8>, off: int) -> int {
    s[off] as int + s[off + 1] as int * 256
}

/// The unsigned little-endian value of the four bytes at `off`.
pub open spec fn spec_le32(s: Seq<u8>, off: int) -> int {
    s[off] as int + s[off + 1] as int * 0x100 + s[off + 2] as int * 0x1_0000 + s[off + 3] as int
        * 0x100_0000
}

/// The unsigned little-endian value of the eight bytes at `off`.
pub open spec fn spec_le64(s: Seq<u8>, off: int) -> int {
    spec_le32(s, off) + spec_le32(s, off + 4) * 0x1_0000_0000
}

/// Read a little-endian `u16` at `off`.
pub fn le16_at(s: &[u8], off: usize) -> (r: u16)
    requires
        off + 2 <= s@.len(),
    ensures
        r as int == spec_le16(s@, off as int),
{
    s[off] as u16 + s[off + 1] as u16 * 256
}

/// Read a little-endian `u32` at `off`.
pub fn le32_at(s: &[u8], off: usize) -> (r: u32)
    requires
        off + 4 <= s@.len(),
    ensures
        r as int == spec_le32(s@, off as int),
{
    s[off] as u32 + s[off + 1] as u32 * 0x100 + s[off + 2] as u32 * 0x1_0000 + s[off + 3] as u32
        * 0x100_0000
}

/// Read a little-endian `u64` at `off`.
pub fn le64_at(s: &[u8], off: usize) -> (r: u64)
    requires
        off + 8 <= s@.len(),
    ensures
        r as int == spec_le64(s@, off as int),
{
    let _n = s.len();
    let lo = le32_at(s, off) as u64;
    let hi = le32_at(s, off + 4) as u64;
    lo + hi * 0x1_0000_0000
}

/// Read a little-endian `u32` at `off`, or 0 when the four bytes are not all
/// inside `data`.
pub fn read_le_u32(data: &[u8], off: usize) -> (r: u32)
    ensures
        r as int == (if off as int + 4 <= data@.len() {
            spec_le32(data@, off as int)
        } else {
            0
        }),
{
    if off <= data.len() && data.len() - off >= 4 {
        le32_at(data, off)
    } else {
        0
    }
}

} // verus!
