use finger::hint::{decode_hint_v2, get_nibble, try_decode_row};
use finger::types::Capture;

/// Encode one 7-bit value as a BGRA pixel the decoder reads back.
fn pixel_of(value: u8) -> [u8; 4] {
    let b = (value & 0x03) << 5;
    let r = ((value >> 2) & 0x03) << 5;
    let g = ((value >> 4) & 0x07) << 4;
    [b, g, r, 255]
}

/// A capture whose row `y` holds the given values and whose other pixels
/// are zero.
fn capture_with_row(values: &[u8], width: u32, height: u32, y: u32) -> Capture {
    let bytes_per_row = width * 4;
    let mut data = vec![0u8; (height * bytes_per_row) as usize];
    for (x, v) in values.iter().enumerate() {
        let idx = (y * bytes_per_row) as usize + x * 4;
        data[idx..idx + 4].copy_from_slice(&pixel_of(*v));
    }
    Capture { data, width, height, bytes_per_row }
}

#[test]
fn test_get_nibble_zero() {
    // All zeros should decode to 0
    let capture = Capture {
        data: vec![0, 0, 0, 255], // BGRA
        width: 1,
        height: 1,
        bytes_per_row: 4,
    };
    assert_eq!(get_nibble(&capture, 0, 0), 0);
}

#[test]
fn nibble_extraction_uses_fixed_channel_bits() {
    // 'A' = 0x41: G[6:4] = 4, R[6:5] = 0, B[6:5] = 1.
    let px = pixel_of(0x41);
    let capture = Capture {
        data: vec![px[0], px[1], px[2], px[3]],
        width: 1,
        height: 1,
        bytes_per_row: 4,
    };
    assert_eq!(get_nibble(&capture, 0, 0), 0x41);
}

#[test]
fn round_trip_strip_decodes_to_four_characters() {
    // 0x00 x5, 0x7F x5, 'A' x10, 0x7F x5, 0x00 x5:
    // marker width 5, run of 10 -> round(10 * 2 / 5) = 4 characters.
    let mut row = Vec::new();
    row.extend([0x00; 5]);
    row.extend([0x7f; 5]);
    row.extend([0x41; 10]);
    row.extend([0x7f; 5]);
    row.extend([0x00; 5]);
    let capture = capture_with_row(&row, 40, 4, 0);
    assert_eq!(decode_hint_v2(&capture).as_deref(), Some("AAAA"));
}

#[test]
fn all_zero_buffer_decodes_to_none() {
    let capture = capture_with_row(&[], 64, 64, 0);
    assert_eq!(decode_hint_v2(&capture), None);
}

#[test]
fn missing_end_marker_decodes_to_none() {
    // The data run meets the end of the row without a closing 0x00 run.
    let mut row = Vec::new();
    row.extend([0x00; 5]);
    row.extend([0x7f; 5]);
    row.extend([0x41; 10]);
    let capture = capture_with_row(&row, 20, 4, 0);
    assert_eq!(decode_hint_v2(&capture), None);
}

#[test]
fn trailing_separator_without_end_marker_decodes_to_none() {
    let mut row = Vec::new();
    row.extend([0x00; 5]);
    row.extend([0x7f; 5]);
    row.extend([0x41; 10]);
    row.extend([0x7f; 5]);
    let capture = capture_with_row(&row, 25, 4, 0);
    assert_eq!(decode_hint_v2(&capture), None);
}

#[test]
fn strip_is_found_on_a_later_row() {
    let mut row = Vec::new();
    row.extend([0x00; 4]);
    row.extend([0x7f; 4]);
    row.extend([0x48; 4]); // 'H', round(4 * 2 / 4) = 2
    row.extend([0x7f; 4]);
    row.extend([0x00; 4]);
    let capture = capture_with_row(&row, 30, 12, 6);
    assert_eq!(decode_hint_v2(&capture).as_deref(), Some("HH"));
    // The probe samples every third row only.
    let capture_off = capture_with_row(&row, 30, 12, 7);
    assert_eq!(decode_hint_v2(&capture_off), None);
}

#[test]
fn non_printable_values_are_dropped() {
    // 0x01 is not printable; with nothing printable the decode is none.
    let mut row = Vec::new();
    row.extend([0x00; 5]);
    row.extend([0x7f; 5]);
    row.extend([0x01; 10]);
    row.extend([0x7f; 5]);
    row.extend([0x00; 5]);
    let capture = capture_with_row(&row, 40, 4, 0);
    assert_eq!(try_decode_row(&capture, 0), None);
}

#[test]
fn short_run_still_yields_one_character() {
    // A run of 1 against a marker of 8: round(1 * 2 / 8) = 0, raised to 1.
    let mut row = Vec::new();
    row.extend([0x00; 8]);
    row.extend([0x7f; 8]);
    row.extend([0x42; 1]); // 'B'
    row.extend([0x7f; 8]);
    row.extend([0x00; 8]);
    let capture = capture_with_row(&row, 40, 4, 0);
    assert_eq!(try_decode_row(&capture, 0).as_deref(), Some("B"));
}

#[test]
fn two_value_run_decodes_in_order() {
    let mut row = Vec::new();
    row.extend([0x00; 4]);
    row.extend([0x7f; 4]);
    row.extend([0x48; 4]); // 'H' -> 2
    row.extend([0x69; 4]); // 'i' -> 2
    row.extend([0x7f; 4]);
    row.extend([0x00; 4]);
    let capture = capture_with_row(&row, 30, 4, 0);
    assert_eq!(try_decode_row(&capture, 0).as_deref(), Some("HHii"));
}
