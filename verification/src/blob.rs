//! Little-endian readers for the binary dictionary blobs.

use vstd::prelude::*;

verus! {

/// The value of two little-endian bytes.
pub open spec fn le16(b0: u8, b1: u8) -> int {
    b0 + 0x100 * b1
}

/// The value of four little-endian bytes.
pub open spec fn le32(b0: u8, b1: u8, b2: u8, b3: u8) -> int {
    b0 + 0x100 * b1 + 0x1_0000 * b2 + 0x100_0000 * b3
}

/// The signed reading of a 16-bit word.
pub open spec fn as_signed16(v: int) -> int {
    if v < 0x8000 {
        v
    } else {
        v - 0x1_0000
    }
}

/// The unsigned 16-bit word at `pos`.
pub open spec fn le16_at(data: Seq<u8>, pos: int) -> int {
    le16(data[pos], data[pos + 1])
}

/// The signed 16-bit word at `pos`.
pub open spec fn sig16_at(data: Seq<u8>, pos: int) -> int {
    as_signed16(le16_at(data, pos))
}

/// The unsigned 32-bit word at `pos`.
pub open spec fn le32_at(data: Seq<u8>, pos: int) -> int {
    le32(data[pos], data[pos + 1], data[pos + 2], data[pos + 3])
}

/// Reads an unsigned little-endian 16-bit word.
pub fn read_u16_le(data: &Vec<u8>, pos: usize) -> (r: u16)
    requires
        pos + 2 <= data@.len(),
    ensures
        r == le16(data@[pos as int], data@[pos + 1]),
{
    let dlen = data.len();
    proof {
        assert(pos + 1 < dlen);
    }
    let b0 = data[pos] as u16;
    let b1 = data[pos + 1] as u16;
    b0 + b1 * 0x100
}

/// Reads a signed little-endian 16-bit word.
pub fn read_i16_le(data: &Vec<u8>, pos: usize) -> (r: i16)
    requires
        pos + 2 <= data@.len(),
    ensures
        r == as_signed16(le16(data@[pos as int], data@[pos + 1])),
{
    let v = read_u16_le(data, pos);
    if v < 0x8000 {
        v as i16
    } else {
        ((v as i32) - 0x1_0000) as i16
    }
}

/// Reads an unsigned little-endian 32-bit word.
pub fn read_u32_le(data: &Vec<u8>, pos: usize) -> (r: u32)
    requires
        pos + 4 <= data@.len(),
    ensures
        r == le32(data@[pos as int], data@[pos + 1], data@[pos + 2], data@[pos + 3]),
{
    let dlen = data.len();
    proof {
        assert(pos + 3 < dlen);
    }
    let b0 = data[pos] as u32;
    let b1 = data[pos + 1] as u32;
    let b2 = data[pos + 2] as u32;
    let b3 = data[pos + 3] as u32;
    b0 + b1 * 0x100 + b2 * 0x1_0000 + b3 * 0x100_0000
}

} // verus!
