use asset_decoders::pdn_compose::composite_layers;
use asset_decoders::pdn_dims::extract_pdn_dimensions;
use asset_decoders::pdn_dims::scan_for_dimension;
use asset_decoders::pdn_layers::assemble_pdn_layers;
use asset_decoders::pdn_layers::maybe_swap_pdn_dimensions_by_alignment;
use asset_decoders::pdn_layers::select_pdn_chunk_payload;

#[test]
fn scan_prefers_strong_candidates_over_earlier_weak_ones() {
    // weak candidates appear earlier in the window, but the strong
    // candidate 64 (a power of two) further on wins
    let mut data = vec![0xFFu8; 40];
    data[10..14].copy_from_slice(&17u32.to_le_bytes());
    data[20..24].copy_from_slice(&64u32.to_le_bytes());
    assert_eq!(scan_for_dimension(&data, 8), 64);
}

#[test]
fn scan_falls_back_to_weak_candidates() {
    // 17 is neither a power of two nor a multiple of 64 or 100, but it is
    // an acceptable fallback value
    let mut data = vec![0u8; 40];
    data[10..14].copy_from_slice(&17u32.to_le_bytes());
    assert_eq!(scan_for_dimension(&data, 10), 17);
}

#[test]
fn scan_finds_nothing_in_an_empty_window() {
    let data = vec![0u8; 40];
    assert_eq!(scan_for_dimension(&data, 8), 0);
    assert_eq!(scan_for_dimension(&data, 1000), 0);
}

#[test]
fn dimensions_recovered_from_field_names() {
    let mut data = vec![0u8; 120];
    let width_field = b"\x05widthXX";
    data[30..38].copy_from_slice(width_field);
    data[38..42].copy_from_slice(&640u32.to_le_bytes());
    let height_field = b"\x06height";
    data[50..57].copy_from_slice(height_field);
    data[57..61].copy_from_slice(&400u32.to_le_bytes());
    assert_eq!(extract_pdn_dimensions(&data), Some((640, 400)));
}

#[test]
fn dimensions_fall_back_to_power_of_two_pair() {
    let mut data = vec![0u8; 200];
    data[40..44].copy_from_slice(&256u32.to_le_bytes());
    data[44..48].copy_from_slice(&128u32.to_le_bytes());
    assert_eq!(extract_pdn_dimensions(&data), Some((256, 128)));
}

#[test]
fn dimensions_not_recovered_from_noise() {
    let data = vec![1u8; 60];
    assert_eq!(extract_pdn_dimensions(&data), None);
}

#[test]
fn select_payload_picks_cheapest_whole_row_trim() {
    // 20 bytes with rows of 8: keeping 16 bytes discards 4, and the
    // smallest leading trim among those options is 0
    let chunk = vec![0xAAu8; 20];
    assert_eq!(select_pdn_chunk_payload(&chunk, 8), (0, 16));
}

#[test]
fn select_payload_returns_short_runs_unchanged() {
    let chunk = vec![0xAAu8; 6];
    assert_eq!(select_pdn_chunk_payload(&chunk, 8), (0, 6));
    assert_eq!(select_pdn_chunk_payload(&chunk, 0), (0, 6));
}

#[test]
fn select_payload_falls_back_to_whole_row_prefix() {
    // 1000 bytes with rows of 400: the 200-byte excess is more than the
    // search may discard, so the run is truncated to two whole rows
    let chunk = vec![0x11u8; 1000];
    assert_eq!(select_pdn_chunk_payload(&chunk, 400), (0, 800));
}

#[test]
fn swap_fires_when_runs_align_with_swapped_rows_only() {
    // recovered 100x64, but both runs are whole multiples of 64*4 = 256
    // bytes and not of 100*4 = 400: the dimensions must swap
    let chunks = vec![vec![0u8; 512], vec![0u8; 256]];
    let mut width = 100usize;
    let mut height = 64usize;
    maybe_swap_pdn_dimensions_by_alignment(&chunks, &mut width, &mut height);
    assert_eq!((width, height), (64, 100));
}

#[test]
fn swap_stays_put_when_alignment_is_ambiguous() {
    // multiples of 256 are also multiples of 128, so recovered 32x64 gives
    // the swapped orientation no advantage and nothing moves
    let chunks = vec![vec![0u8; 512], vec![0u8; 256]];
    let mut width = 32usize;
    let mut height = 64usize;
    maybe_swap_pdn_dimensions_by_alignment(&chunks, &mut width, &mut height);
    assert_eq!((width, height), (32, 64));
}

#[test]
fn swap_requires_half_the_runs_to_agree() {
    let chunks = vec![
        vec![0u8; 256],
        vec![0u8; 7],
        vec![0u8; 9],
        vec![0u8; 11],
        vec![0u8; 13],
        vec![0u8; 15],
    ];
    let mut width = 100usize;
    let mut height = 64usize;
    maybe_swap_pdn_dimensions_by_alignment(&chunks, &mut width, &mut height);
    assert_eq!((width, height), (100, 64));
}

#[test]
fn assemble_cuts_exact_layers_and_pads_the_remainder() {
    // 2x2 image: layers of 16 bytes, rows of 8; one run holding one full
    // layer, one row, and a 3-byte tail that is dropped by trimming
    let mut run = Vec::new();
    for b in 0..24u8 {
        run.push(b);
    }
    run.extend_from_slice(&[0xEE, 0xEE, 0xEE]);
    let layers = assemble_pdn_layers(&[run.clone()], 2, 2, true);
    assert_eq!(layers.len(), 2);
    assert_eq!(layers[0], (0..16).collect::<Vec<u8>>());
    let mut expected_tail: Vec<u8> = (16..24).collect();
    expected_tail.resize(16, 0);
    assert_eq!(layers[1], expected_tail);
}

#[test]
fn assemble_drops_a_remainder_shorter_than_a_row() {
    let run = vec![0x55u8; 20];
    let layers = assemble_pdn_layers(&[run], 2, 2, false);
    assert_eq!(layers.len(), 1);
    assert_eq!(layers[0], vec![0x55u8; 16]);
}

#[test]
fn assemble_concatenates_across_runs() {
    let a = vec![1u8; 10];
    let b = vec![2u8; 6];
    let layers = assemble_pdn_layers(&[a, b], 2, 2, false);
    assert_eq!(layers.len(), 1);
    let mut expected = vec![1u8; 10];
    expected.extend_from_slice(&[2u8; 6]);
    assert_eq!(layers[0], expected);
}

#[test]
fn assemble_yields_nothing_for_zero_size() {
    let layers = assemble_pdn_layers(&[vec![1u8; 8]], 0, 4, false);
    assert!(layers.is_empty());
}

#[test]
fn opaque_top_layer_replaces_everything_below() {
    // bottom layer is arbitrary, top layer is opaque everywhere: the
    // output is exactly the top layer with B and R swapped
    let bottom: Vec<u8> = (0..32).map(|i| (i * 7) as u8).collect();
    let mut top = Vec::new();
    for p in 0..8u8 {
        top.extend_from_slice(&[p, 100 + p, 200u8.wrapping_add(p), 255]);
    }
    let out = composite_layers(&[bottom, top.clone()], 32);
    for p in 0..8usize {
        assert_eq!(out[4 * p], top[4 * p + 2]);
        assert_eq!(out[4 * p + 1], top[4 * p + 1]);
        assert_eq!(out[4 * p + 2], top[4 * p]);
        assert_eq!(out[4 * p + 3], 255);
    }
}

#[test]
fn transparent_pixels_leave_the_destination_alone() {
    let bottom = vec![10u8, 20, 30, 255, 1, 2, 3, 255];
    let top = vec![99u8, 99, 99, 0, 99, 99, 99, 0];
    let out = composite_layers(&[bottom, top], 8);
    assert_eq!(out, vec![30u8, 20, 10, 255, 3, 2, 1, 255]);
}

#[test]
fn partial_alpha_blends_with_truncating_arithmetic() {
    // one pixel: bottom solid (100,100,100,255) then top (b,g,r)=(0,0,200)
    // at alpha 128; check against the exact integer formula
    let bottom = vec![100u8, 100, 100, 255];
    let top = vec![0u8, 0, 200, 128];
    let out = composite_layers(&[bottom, top], 4);
    let sa = 128u32;
    let da = 255u32;
    let den = sa * 255 + da * (255 - sa);
    let r = (200 * sa * 255 + 100 * da * (255 - sa)) / den;
    let g = (0 * sa * 255 + 100 * da * (255 - sa)) / den;
    let b = (0 * sa * 255 + 100 * da * (255 - sa)) / den;
    let a = den / 255;
    assert_eq!(out, vec![r as u8, g as u8, b as u8, a as u8]);
}
