//! Depth-first scanner for the chunk tree of the legacy model container
//! format, and extraction of the vertex count from the geometry record.
//!
//! A chunk starts with a 12-byte header: a 32-bit type id, a 32-bit payload
//! length and a 32-bit version field that the scanner ignores.  Chunks of a
//! small allow-list of container types hold child chunks back-to-back inside
//! their payload.  A chunk whose declared payload would run past its parent's
//! payload or past the buffer marks the file as corrupt; the scan then stops
//! and reports "not found" instead of reading out of bounds.
use vstd::prelude::*;

use crate::bytes::le32_at;
use crate::bytes::read_u32_le;

verus! {

/// Type id of the geometry record the scanner looks for.
pub const GEOMETRY_CHUNK_ID: u32 = 0x0F;

/// Type id of the clump container chunk.
pub const CLUMP_CHUNK_ID: u32 = 0x10;

/// Type id of the geometry-list container chunk.
pub const GEOMETRY_LIST_CHUNK_ID: u32 = 0x1A;

/// Type id of the frame-list container chunk.
pub const FRAME_LIST_CHUNK_ID: u32 = 0x0E;

/// The allow-list of chunk types the scanner descends into.
pub open spec fn is_container_id(id: u32) -> bool {
    id == CLUMP_CHUNK_ID || id == GEOMETRY_LIST_CHUNK_ID || id == FRAME_LIST_CHUNK_ID
}

/// Absolute end offset of the payload of the chunk whose header starts at `o`:
/// the 12-byte header plus the declared payload length.
pub open spec fn chunk_payload_end(s: Seq<u8>, o: int) -> int
    recommends
        0 <= o,
        o + 8 <= s.len(),
{
    o + 12 + le32_at(s, o + 4)
}

/// The chunk whose header starts at `o` fits inside the level `[o, end)`: its
/// header can be read and its declared payload stays inside both the level
/// and the buffer.
pub open spec fn chunk_wf_at(s: Seq<u8>, o: int, end: int) -> bool {
    &&& o + 12 <= end
    &&& o + 8 <= s.len()
    &&& chunk_payload_end(s, o) <= end
    &&& chunk_payload_end(s, o) <= s.len()
}

/// Result of the depth-first scan of the level `[start, end)`: the offset of
/// the header of the first geometry chunk, in scan order, where the scan
/// walks sibling chunks left to right and descends only into containers.
/// The scan stops with `None` as soon as a chunk header cannot be read in
/// full or a declared payload runs past the level or the buffer.
pub open spec fn scan_chunks(s: Seq<u8>, start: int, end: int) -> Option<int>
    decreases end - start,
{
    if start + 12 > end || start + 8 > s.len() {
        None
    } else {
        let id = le32_at(s, start);
        let pe = chunk_payload_end(s, start);
        if pe > end || pe > s.len() {
            None
        } else if id == GEOMETRY_CHUNK_ID {
            Some(start)
        } else if is_container_id(id) && scan_chunks(s, start + 12, pe) is Some {
            scan_chunks(s, start + 12, pe)
        } else {
            scan_chunks(s, pe, end)
        }
    }
}

/// Searches `[start, end)` of `data` depth-first for the first geometry
/// chunk, descending only into the allow-listed container chunks, and
/// returns the absolute offset of its 12-byte header.  Malformed length
/// fields end the search with `None`; the function never panics.
pub fn find_geometry_chunk(data: &[u8], start: usize, end: usize) -> (r: Option<usize>)
    ensures
        r is Some <==> scan_chunks(data@, start as int, end as int) is Some,
        r matches Some(o) ==> scan_chunks(data@, start as int, end as int) == Some(o as int),
    decreases end - start,
{
    let mut offset = start;
    while offset <= end && end - offset >= 12
        invariant
            start <= offset,
            scan_chunks(data@, start as int, end as int) == scan_chunks(
                data@,
                offset as int,
                end as int,
            ),
        decreases end - offset,
    {
        let id_opt = read_u32_le(data, offset);
        let size_opt = read_u32_le(data, offset + 4);
        if id_opt.is_none() || size_opt.is_none() {
            return None;
        }
        let chunk_id = id_opt.unwrap();
        let size = size_opt.unwrap() as usize;
        let data_start = offset + 12;
        let data_end_opt = data_start.checked_add(size);
        if data_end_opt.is_none() {
            return None;
        }
        let data_end = data_end_opt.unwrap();
        if data_end > end || data_end > data.len() {
            return None;
        }
        if chunk_id == GEOMETRY_CHUNK_ID {
            return Some(offset);
        }
        if chunk_id == CLUMP_CHUNK_ID || chunk_id == GEOMETRY_LIST_CHUNK_ID || chunk_id
            == FRAME_LIST_CHUNK_ID {
            let found = find_geometry_chunk(data, data_start, data_end);
            if found.is_some() {
                return found;
            }
        }
        offset = data_end;
    }
    None
}

/// The vertex count stored in the geometry record of `s`, if the scan finds
/// the record and the fixed-offset field inside its structure sub-block lies
/// within bounds.
pub open spec fn dff_vertex_count(s: Seq<u8>) -> Option<u32> {
    match scan_chunks(s, 0, s.len() as int) {
        None => None,
        Some(g) => {
            let geom_start = g + 12;
            if geom_start + 24 > s.len() {
                None
            } else {
                let struct_size = le32_at(s, geom_start + 4);
                let struct_data = geom_start + 12;
                if struct_data + struct_size > s.len() {
                    None
                } else {
                    Some(le32_at(s, struct_data + 8))
                }
            }
        },
    }
}

/// Scans a whole model buffer for the geometry chunk and reads the vertex
/// count: a 32-bit field at a fixed offset inside the structure sub-block
/// that starts 12 bytes after the geometry chunk's header.  `None` means the
/// buffer is unreadable or uses an unsupported sub-format variant; callers
/// treat that as a count of zero.
pub fn read_dff_vertex_count(data: &[u8]) -> (r: Option<u32>)
    ensures
        r == dff_vertex_count(data@),
{
    let geom_offset = match find_geometry_chunk(data, 0, data.len()) {
        Some(o) => o,
        None => {
            return None;
        },
    };
    // The scan only returns offsets of chunks it could address, so the
    // additions below stay within `usize`.
    proof {
        lemma_scan_result_in_range(data@, 0, data@.len() as int);
    }
    let geom_start = geom_offset + 12;
    if geom_start > data.len() || data.len() - geom_start < 24 {
        return None;
    }
    let struct_size = match read_u32_le(data, geom_start + 4) {
        Some(v) => v as usize,
        None => {
            return None;
        },
    };
    let struct_data = geom_start + 12;
    if struct_size > data.len() || struct_data > data.len() - struct_size {
        return None;
    }
    read_u32_le(data, struct_data + 8)
}

/// Any offset the scan returns points at a chunk header inside the level it
/// was given, with the whole chunk in bounds.
pub proof fn lemma_scan_result_in_range(s: Seq<u8>, start: int, end: int)
    ensures
        scan_chunks(s, start, end) matches Some(o) ==> start <= o && chunk_wf_at(s, o, end),
    decreases end - start,
{
    if start + 12 > end || start + 8 > s.len() {
    } else {
        let pe = chunk_payload_end(s, start);
        if pe > end || pe > s.len() {
        } else {
            lemma_scan_result_in_range(s, start + 12, pe);
            lemma_scan_result_in_range(s, pe, end);
        }
    }
}

/// A geometry chunk stands at the start of the level `[start, end)`, or is
/// nested under an allow-listed container chunk of that level, with any
/// well-formed sibling chunks of other types standing before or after it.
pub open spec fn geometry_reachable(s: Seq<u8>, start: int, end: int) -> bool
    decreases end - start,
{
    chunk_wf_at(s, start, end) && {
        let id = le32_at(s, start);
        let pe = chunk_payload_end(s, start);
        ||| id == GEOMETRY_CHUNK_ID
        ||| (is_container_id(id) && geometry_reachable(s, start + 12, pe))
        ||| geometry_reachable(s, pe, end)
    }
}

/// Wherever a geometry chunk is reachable through well-formed chunks --
/// nested under any allowed sequence of containers, with sibling chunks of
/// other types interleaved before or after it -- the scan finds one.
pub proof fn lemma_scan_finds_reachable_geometry(s: Seq<u8>, start: int, end: int)
    requires
        geometry_reachable(s, start, end),
    ensures
        scan_chunks(s, start, end) is Some,
    decreases end - start,
{
    let id = le32_at(s, start);
    let pe = chunk_payload_end(s, start);
    if id == GEOMETRY_CHUNK_ID {
    } else if is_container_id(id) && geometry_reachable(s, start + 12, pe) {
        lemma_scan_finds_reachable_geometry(s, start + 12, pe);
    } else {
        lemma_scan_finds_reachable_geometry(s, pe, end);
    }
}

/// As soon as the chunk at the current scan position declares a payload that
/// would run past the level or past the buffer, the scan reports "not
/// found".
pub proof fn lemma_scan_stops_on_overrun(s: Seq<u8>, o: int, end: int)
    requires
        o + 12 <= end,
        o + 8 <= s.len(),
        chunk_payload_end(s, o) > end || chunk_payload_end(s, o) > s.len(),
    ensures
        scan_chunks(s, o, end) is None,
{
}

} // verus!
