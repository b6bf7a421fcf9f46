use asset_decoders::bytes::read_u32_le;
use asset_decoders::chunk::find_geometry_chunk;
use asset_decoders::chunk::read_dff_vertex_count;

fn chunk(id: u32, payload: &[u8]) -> Vec<u8> {
    let mut out = Vec::new();
    out.extend_from_slice(&id.to_le_bytes());
    out.extend_from_slice(&(payload.len() as u32).to_le_bytes());
    out.extend_from_slice(&0u32.to_le_bytes());
    out.extend_from_slice(payload);
    out
}

fn geometry_chunk(vertex_count: u32) -> Vec<u8> {
    // geometry payload: a structure sub-block whose declared size is read
    // at payload offset 4 and whose data starts at payload offset 12; the
    // vertex count sits 8 bytes into that data
    let mut payload = Vec::new();
    payload.extend_from_slice(&1u32.to_le_bytes());
    payload.extend_from_slice(&16u32.to_le_bytes());
    payload.extend_from_slice(&0u32.to_le_bytes());
    let mut data = vec![0u8; 16];
    data[8..12].copy_from_slice(&vertex_count.to_le_bytes());
    payload.extend_from_slice(&data);
    chunk(0x0F, &payload)
}

#[test]
fn read_u32_le_reads_little_endian() {
    let data = [0x78u8, 0x56, 0x34, 0x12, 0xFF];
    assert_eq!(read_u32_le(&data, 0), Some(0x12345678));
    assert_eq!(read_u32_le(&data, 1), Some(0xFF123456));
    assert_eq!(read_u32_le(&data, 2), None);
    assert_eq!(read_u32_le(&[], 0), None);
}

#[test]
fn finds_geometry_at_top_level() {
    let buf = geometry_chunk(7);
    assert_eq!(find_geometry_chunk(&buf, 0, buf.len()), Some(0));
}

#[test]
fn finds_geometry_nested_with_interleaved_siblings() {
    // geometry nested under clump -> geometry list, with sibling chunks of
    // other types standing before and after it at every level
    let junk = chunk(0x02, &[0xAB; 9]);
    let frame_list = chunk(0x0E, &junk);

    let opaque_sibling = chunk(0x14, &[1, 2, 3, 4]);
    let geom = geometry_chunk(1234);
    let mut gl_payload = Vec::new();
    gl_payload.extend_from_slice(&opaque_sibling);
    gl_payload.extend_from_slice(&geom);
    gl_payload.extend_from_slice(&chunk(0x14, &[9, 9]));
    let geometry_list = chunk(0x1A, &gl_payload);

    let mut clump_payload = Vec::new();
    clump_payload.extend_from_slice(&frame_list);
    clump_payload.extend_from_slice(&geometry_list);
    let clump = chunk(0x10, &clump_payload);

    let mut buf = Vec::new();
    let texture = chunk(0x06, &[0u8; 5]);
    buf.extend_from_slice(&texture);
    buf.extend_from_slice(&clump);
    buf.extend_from_slice(&chunk(0x07, &[0u8; 3]));

    let expected = texture.len() + 12 + frame_list.len() + 12 + opaque_sibling.len();
    assert_eq!(find_geometry_chunk(&buf, 0, buf.len()), Some(expected));
    assert_eq!(read_dff_vertex_count(&buf), Some(1234));
}

#[test]
fn overrun_length_stops_the_scan() {
    // the first chunk declares a payload running far past the buffer; the
    // scan must give up even though a geometry chunk follows it
    let mut buf = chunk(0x02, &[0u8; 4]);
    buf[4..8].copy_from_slice(&1000u32.to_le_bytes());
    buf.extend_from_slice(&geometry_chunk(5));
    assert_eq!(find_geometry_chunk(&buf, 0, buf.len()), None);
    assert_eq!(read_dff_vertex_count(&buf), None);
}

#[test]
fn child_overrun_is_contained_in_its_container() {
    // a container whose child overruns the container's payload yields
    // nothing from that subtree, but a later sibling is still scanned
    let mut bad_child = chunk(0x02, &[0u8; 4]);
    bad_child[4..8].copy_from_slice(&500u32.to_le_bytes());
    let bad_clump = chunk(0x10, &bad_child);

    let mut buf = Vec::new();
    buf.extend_from_slice(&bad_clump);
    let geom = geometry_chunk(42);
    buf.extend_from_slice(&geom);
    assert_eq!(find_geometry_chunk(&buf, 0, buf.len()), Some(bad_clump.len()));
    assert_eq!(read_dff_vertex_count(&buf), Some(42));
}

#[test]
fn truncated_header_yields_none() {
    let buf = [0x0Fu8, 0, 0];
    assert_eq!(find_geometry_chunk(&buf, 0, buf.len()), None);
    assert_eq!(read_dff_vertex_count(&buf), None);
}

#[test]
fn empty_buffer_yields_none() {
    assert_eq!(read_dff_vertex_count(&[]), None);
}
