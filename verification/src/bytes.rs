//! Reading little-endian integers out of a raw byte buffer.
use vstd::prelude::*;

verus! {

/// The 32-bit little-endian integer stored at byte offset `i` of `s`.
pub open spec fn le32_at(s: Seq<u8>, i: int) -> u32
    recommends
        0 <= i,
        i + 4 <= s.len(),
{
    (s[i] as u32) | ((s[i + 1] as u32) << 8) | ((s[i + 2] as u32) << 16) | ((s[i + 3] as u32)
        << 24)
}

/// Reads the little-endian `u32` at `offset`, or `None` when fewer than four
/// bytes remain there.
pub fn read_u32_le(data: &[u8], offset: usize) -> (r: Option<u32>)
    ensures
        r == (if offset + 4 <= data@.len() {
            Some(le32_at(data@, offset as int))
        } else {
            None::<u32>
        }),
{
    if data.len() < 4 || offset > data.len() - 4 {
        return None;
    }
    let b0 = data[offset];
    let b1 = data[offset + 1];
    let b2 = data[offset + 2];
    let b3 = data[offset + 3];
    Some((b0 as u32) | ((b1 as u32) << 8) | ((b2 as u32) << 16) | ((b3 as u32) << 24))
}

} // verus!
