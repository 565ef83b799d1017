use calamus::error::Error;
use calamus::format::rle::map_color;
use calamus::format::rle::{adjust_tail_length, decode_rle};

#[test]
fn simple_single_color_run() {
    // 3 pixels of black: cc=0x61, len=2 (length = 2+1 = 3)
    let data = [0x61, 0x02];
    let result = decode_rle(&data, 3, 1, false, false).unwrap();
    assert_eq!(result, vec![0x00, 0x00, 0x00]);
}

#[test]
fn two_color_runs() {
    // 2 black + 2 transparent = 4 pixels
    let data = [0x61, 0x01, 0x62, 0x01];
    let result = decode_rle(&data, 4, 1, false, false).unwrap();
    assert_eq!(result, vec![0x00, 0x00, 0xFF, 0xFF]);
}

#[test]
fn special_marker_0xff() {
    // 0xFF marker: 16384 pixels of transparent
    let data = [0x62, 0xFF];
    let result = decode_rle(&data, 16384, 1, false, false).unwrap();
    assert_eq!(result.len(), 16384);
    assert!(result.iter().all(|&b| b == 0xFF));
}

#[test]
fn special_marker_0xff_all_blank() {
    // 0xFF marker with all_blank: 1024 pixels
    let data = [0x62, 0xFF];
    let result = decode_rle(&data, 1024, 1, true, false).unwrap();
    assert_eq!(result.len(), 1024);
    assert!(result.iter().all(|&b| b == 0xFF));
}

#[test]
fn multi_byte_same_color() {
    // Multi-byte: first pair (0x61, 0x80), second pair (0x61, 0x03)
    // Same color: length = 1 + 3 + ((0x80 & 0x7F) + 1) << 7 = 1 + 3 + 128 = 132
    let data = [0x61, 0x80, 0x61, 0x03];
    let result = decode_rle(&data, 132, 1, false, false).unwrap();
    assert_eq!(result.len(), 132);
    assert!(result.iter().all(|&b| b == 0x00));
}

#[test]
fn multi_byte_different_color() {
    // Multi-byte: first pair (0x61, 0x80), second pair (0x62, 0x01)
    // Different: first run = ((0 + 1) << 7) = 128 black, second run = 2 transparent
    let data = [0x61, 0x80, 0x62, 0x01];
    let result = decode_rle(&data, 130, 1, false, false).unwrap();
    assert_eq!(result.len(), 130);
    assert!(result[..128].iter().all(|&b| b == 0x00));
    assert!(result[128..].iter().all(|&b| b == 0xFF));
}

#[test]
fn tail_adjustment() {
    // gap = 128, tail_length = 0x80 (bit7 set)
    // ((0x80 & 0x7F) + 1) << 7 = 128
    assert_eq!(adjust_tail_length(0x80, 0, 128), 128);
    // gap = 64, need to try smaller shifts
    // ((0 + 1) << 6) = 64
    assert_eq!(adjust_tail_length(0x80, 0, 64), 64);
}

#[test]
fn highres_color_mapping() {
    // 0x63 in highres mode maps to 0x30 (compat dark gray)
    let data = [0x63, 0x00];
    let result = decode_rle(&data, 1, 1, false, true).unwrap();
    assert_eq!(result, vec![0x30]);

    // 0x63 in non-highres maps to 0x9D
    let result2 = decode_rle(&data, 1, 1, false, false).unwrap();
    assert_eq!(result2, vec![0x9D]);

    // 0x67 in highres mode is a literal grayscale value (103)
    let data67 = [0x67, 0x00];
    let result3 = decode_rle(&data67, 1, 1, false, true).unwrap();
    assert_eq!(result3, vec![0x67]);

    // 0x67 in non-highres maps to 0x9D (marker dark gray)
    let result4 = decode_rle(&data67, 1, 1, false, false).unwrap();
    assert_eq!(result4, vec![0x9D]);
}

#[test]
fn wrong_pixel_count_errors() {
    let data = [0x61, 0x02]; // produces 3 pixels
    let result = decode_rle(&data, 4, 1, false, false);
    assert!(result.is_err());
}

#[test]
fn plain_runs_follow_each_other() {
    // Short runs decode to their pixels one after another.
    let data = [0x61, 0x00, 0x63, 0x01, 0x65, 0x02, 0x62, 0x00];
    let result = decode_rle(&data, 7, 1, false, false).unwrap();
    assert_eq!(result, vec![0x00, 0x9D, 0x9D, 0xFE, 0xFE, 0xFE, 0xFF]);
}

#[test]
fn odd_trailing_byte_is_ignored() {
    let data = [0x61, 0x01, 0x62];
    let result = decode_rle(&data, 2, 1, false, false).unwrap();
    assert_eq!(result, vec![0x00, 0x00]);
}

#[test]
fn held_run_at_end_is_cut_to_fit() {
    // A long run held at the end of the stream shrinks to what the page still needs.
    let data = [0x61, 0x01, 0x62, 0x81];
    // (1 + 1) << 7 = 256 does not fit in 2 + 64; (1 + 1) << 5 = 64 does.
    let result = decode_rle(&data, 66, 1, false, false).unwrap();
    assert_eq!(result.len(), 66);
    assert!(result[2..].iter().all(|&b| b == 0xFF));
    // Nothing fits in what is left: the held run is dropped.
    let short = decode_rle(&[0x61, 0x01, 0x62, 0x80], 2, 1, false, false);
    assert_eq!(short.unwrap(), vec![0x00, 0x00]);
}

#[test]
fn pixel_count_error_reports_counts() {
    assert_eq!(
        decode_rle(&[0x61, 0x02], 2, 2, false, false),
        Err(Error::PixelCount { got: 3, expected: 4 })
    );
}

#[test]
fn tail_length_edge_cases() {
    assert_eq!(adjust_tail_length(0x80, 10, 5), 0);
    assert_eq!(adjust_tail_length(0xFF, 0, 100_000), 16384);
    assert_eq!(adjust_tail_length(0x82, 0, 7), 6);
    assert_eq!(adjust_tail_length(0x81, 0, 1), 0);
}

#[test]
fn color_codes() {
    assert_eq!(map_color(0x61, false), 0x00);
    assert_eq!(map_color(0x62, false), 0xFF);
    assert_eq!(map_color(0x64, false), 0xC9);
    assert_eq!(map_color(0x68, false), 0xC9);
    assert_eq!(map_color(0x9E, false), 0x9E);
    assert_eq!(map_color(0x9E, true), 0x9D);
    assert_eq!(map_color(0xCA, true), 0xC9);
    assert_eq!(map_color(0x64, true), 0x50);
    assert_eq!(map_color(0x42, true), 0x42);
}
