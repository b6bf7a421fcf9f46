//! Heuristic recovery of the image dimensions from the image-editor
//! container format.
//!
//! The format keeps width and height inside an opaque object-serialization
//! stream, so there is no fixed-offset field to read.  Two passes run over
//! the raw bytes: the first looks for the length-prefixed field names
//! `width` and `height` and then for a plausible 32-bit value shortly after
//! each; the second, a fallback, looks for an adjacent pair of power-of-two
//! values in the header area.
use vstd::prelude::*;

use crate::bytes::le32_at;
use crate::bytes::read_u32_le;

verus! {

/// `v` is an exact power of two.
pub open spec fn is_pow2(v: nat) -> bool
    decreases v,
{
    if v == 0 {
        false
    } else if v == 1 {
        true
    } else {
        v % 2 == 0 && is_pow2(v / 2)
    }
}

/// Whether `v` is an exact power of two, by repeated halving.
pub fn u32_is_power_of_two(v: u32) -> (r: bool)
    ensures
        r == is_pow2(v as nat),
{
    if v == 0 {
        return false;
    }
    let mut x = v;
    while x % 2 == 0
        invariant
            x > 0,
            is_pow2(v as nat) <==> is_pow2(x as nat),
        decreases x,
    {
        x = x / 2;
    }
    x == 1
}

/// A preferred dimension candidate: a value in `[1, 65536]` that is a power
/// of two, a multiple of 64, or a multiple of 100.
pub open spec fn dim_candidate_strong(v: u32) -> bool {
    1 <= v <= 65536 && (is_pow2(v as nat) || v % 64 == 0 || v % 100 == 0)
}

/// A fallback dimension candidate: any value in `[16, 65536]`.
pub open spec fn dim_candidate_weak(v: u32) -> bool {
    16 <= v <= 65536
}

/// The first little-endian 32-bit value at an offset in `[off, end)` that
/// satisfies the strong (or, with `strong == false`, the weak) candidate
/// test; 0 when no offset in the window yields one.
pub open spec fn first_dim_in_window(s: Seq<u8>, off: int, end: int, strong: bool) -> u32
    decreases end - off,
{
    if off < 0 || off >= end {
        0u32
    } else {
        let v = le32_at(s, off);
        if (strong && dim_candidate_strong(v)) || (!strong && dim_candidate_weak(v)) {
            v
        } else {
            first_dim_in_window(s, off + 1, end, strong)
        }
    }
}

/// Upper end of the scan window that starts at `from`: at most 64 bytes
/// forward, and never so far that a 4-byte read would leave the buffer.
pub open spec fn dim_window_end(s: Seq<u8>, from: int) -> int {
    let cap = if s.len() < 4 {
        0
    } else {
        s.len() - 4
    };
    if from + 64 < cap {
        from + 64
    } else {
        cap
    }
}

/// The dimension value recovered by scanning forward from `from`: the first
/// strong candidate in the window, else the first weak one, else 0.
pub open spec fn scan_dimension(s: Seq<u8>, from: int) -> u32 {
    let end = dim_window_end(s, from);
    let strong = first_dim_in_window(s, from, end, true);
    if strong != 0 {
        strong
    } else {
        first_dim_in_window(s, from, end, false)
    }
}

/// Scans up to 64 bytes forward from `from` for a 32-bit value that looks
/// like an image dimension, preferring powers of two and multiples of 64 or
/// 100 over arbitrary values in `[16, 65536]`.  Returns 0 when nothing
/// plausible is found.
pub fn scan_for_dimension(data: &[u8], from: usize) -> (r: u32)
    ensures
        r == scan_dimension(data@, from as int),
{
    let cap = if data.len() < 4 {
        0
    } else {
        data.len() - 4
    };
    let end = if from <= cap && cap - from >= 64 {
        from + 64
    } else {
        cap
    };
    let mut off = from;
    while off < end
        invariant
            from <= off,
            end == dim_window_end(data@, from as int),
            end <= data@.len(),
            first_dim_in_window(data@, from as int, end as int, true) == first_dim_in_window(
                data@,
                off as int,
                end as int,
                true,
            ),
        decreases end - off,
    {
        let v = read_u32_le(data, off).unwrap();
        if 1 <= v && v <= 65536 && (u32_is_power_of_two(v) || v % 64 == 0 || v % 100 == 0) {
            return v;
        }
        off = off + 1;
    }
    let mut off2 = from;
    while off2 < end
        invariant
            from <= off2,
            end == dim_window_end(data@, from as int),
            end <= data@.len(),
            first_dim_in_window(data@, from as int, end as int, true) == 0,
            first_dim_in_window(data@, from as int, end as int, false) == first_dim_in_window(
                data@,
                off2 as int,
                end as int,
                false,
            ),
        decreases end - off2,
    {
        let v = read_u32_le(data, off2).unwrap();
        if 16 <= v && v <= 65536 {
            return v;
        }
        off2 = off2 + 1;
    }
    0
}

/// Field-name pass over the whole buffer, carrying the values recovered so
/// far for width and height.  At each index a length-prefixed `width` or
/// `height` field name replaces the respective value with whatever the
/// forward window scan yields there; the pass stops at the first index after
/// which both values are positive.
pub open spec fn dims_by_field_names(s: Seq<u8>, i: int, w: u32, h: u32) -> Option<(u32, u32)>
    decreases s.len() - 10 - i,
{
    if i < 0 || i >= s.len() - 10 {
        None
    } else {
        let w1 = if s[i] == 5 && i + 6 < s.len() && is_width_name_at(s, i + 1) {
            scan_dimension(s, i + 6)
        } else {
            w
        };
        let h1 = if s[i] == 6 && i + 7 < s.len() && is_height_name_at(s, i + 1) {
            scan_dimension(s, i + 7)
        } else {
            h
        };
        if w1 > 0 && h1 > 0 {
            Some((w1, h1))
        } else {
            dims_by_field_names(s, i + 1, w1, h1)
        }
    }
}

/// The five ASCII bytes of the field name `width` stand at offset `i`.
pub open spec fn is_width_name_at(s: Seq<u8>, i: int) -> bool {
    &&& s[i] == 0x77u8
    &&& s[i + 1] == 0x69u8
    &&& s[i + 2] == 0x64u8
    &&& s[i + 3] == 0x74u8
    &&& s[i + 4] == 0x68u8
}

/// The six ASCII bytes of the field name `height` stand at offset `i`.
pub open spec fn is_height_name_at(s: Seq<u8>, i: int) -> bool {
    &&& s[i] == 0x68u8
    &&& s[i + 1] == 0x65u8
    &&& s[i + 2] == 0x69u8
    &&& s[i + 3] == 0x67u8
    &&& s[i + 4] == 0x68u8
    &&& s[i + 5] == 0x74u8
}

/// Fallback pass: the first offset in `[i, min(len - 8, 4096))` holding two
/// adjacent 32-bit values that are both powers of two in `[16, 16384]`,
/// taken as a (width, height) pair.
pub open spec fn dims_by_header_pair(s: Seq<u8>, i: int) -> Option<(u32, u32)>
    decreases 4096 - i,
{
    let end = if s.len() - 8 < 4096 {
        s.len() - 8
    } else {
        4096
    };
    if i < 0 || i >= end {
        None
    } else {
        let a = le32_at(s, i);
        let b = le32_at(s, i + 4);
        if 16 <= a <= 16384 && 16 <= b <= 16384 && is_pow2(a as nat) && is_pow2(b as nat) {
            Some((a, b))
        } else {
            dims_by_header_pair(s, i + 1)
        }
    }
}

/// The (width, height) pair the two-pass recovery yields for `s`, if any.
pub open spec fn extracted_dimensions(s: Seq<u8>) -> Option<(u32, u32)> {
    match dims_by_field_names(s, 0, 0u32, 0u32) {
        Some(p) => Some(p),
        None => dims_by_header_pair(s, 24),
    }
}

/// Recovers the image dimensions from the serialized-object stream of the
/// buffer: first by locating the `width` and `height` field names and
/// scanning forward from each for a plausible value, then, if that finds
/// nothing, by scanning offsets 24..4096 for an adjacent pair of powers of
/// two.  `None` when neither pass succeeds.
pub fn extract_pdn_dimensions(data: &[u8]) -> (r: Option<(u32, u32)>)
    ensures
        r == extracted_dimensions(data@),
{
    let limit = if data.len() < 10 {
        0
    } else {
        data.len() - 10
    };
    let mut w: u32 = 0;
    let mut h: u32 = 0;
    let mut i: usize = 0;
    while i < limit
        invariant
            limit == (if data@.len() < 10 {
                0int
            } else {
                data@.len() - 10
            }),
            dims_by_field_names(data@, 0, 0u32, 0u32) == dims_by_field_names(
                data@,
                i as int,
                w,
                h,
            ),
        decreases limit - i,
    {
        if data[i] == 5 && i + 6 < data.len() {
            if data[i + 1] == 0x77 && data[i + 2] == 0x69 && data[i + 3] == 0x64 && data[i + 4]
                == 0x74 && data[i + 5] == 0x68 {
                w = scan_for_dimension(data, i + 6);
            }
        }
        if data[i] == 6 && i + 7 < data.len() {
            if data[i + 1] == 0x68 && data[i + 2] == 0x65 && data[i + 3] == 0x69 && data[i + 4]
                == 0x67 && data[i + 5] == 0x68 && data[i + 6] == 0x74 {
                h = scan_for_dimension(data, i + 7);
            }
        }
        if w > 0 && h > 0 {
            return Some((w, h));
        }
        i = i + 1;
    }
    let end = if data.len() < 8 || data.len() - 8 > 4096 {
        if data.len() < 8 {
            0
        } else {
            4096
        }
    } else {
        data.len() - 8
    };
    let mut j: usize = 24;
    if end < 24 {
        return None;
    }
    while j < end
        invariant
            24 <= j,
            end == (if data@.len() - 8 < 4096 {
                data@.len() - 8
            } else {
                4096int
            }) || (data@.len() < 8 && end == 0),
            end <= 4096,
            end as int <= data@.len() - 8 || end == 0,
            dims_by_field_names(data@, 0, 0u32, 0u32) is None,
            dims_by_header_pair(data@, 24) == dims_by_header_pair(data@, j as int),
        decreases end - j,
    {
        let a = read_u32_le(data, j).unwrap();
        let b = read_u32_le(data, j + 4).unwrap();
        if 16 <= a && a <= 16384 && 16 <= b && b <= 16384 && u32_is_power_of_two(a)
            && u32_is_power_of_two(b) {
            return Some((a, b));
        }
        j = j + 1;
    }
    None
}

} // verus!
