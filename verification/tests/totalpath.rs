use base64::Engine;
use calamus::error::Error;
use calamus::format::stroke::{
    decode_text_field, parse_single_stroke, parse_text_block, parse_totalpath, text_box_from_fields,
    text_of_decoded,
    ScreenCoord, TiltVector,
};

fn u32le(out: &mut Vec<u8>, v: u32) {
    out.extend_from_slice(&v.to_le_bytes());
}

/// A stroke record in the on-disk layout, with the given points (y, x)
/// and first sized string.
fn stroke_record(pen: u32, color: u32, layer: u32, points: &[(i32, i32)], text: &[u8]) -> Vec<u8> {
    let mut r = Vec::new();
    // 208-byte header
    let mut header = vec![0u8; 208];
    header[0..4].copy_from_slice(&pen.to_le_bytes());
    header[4..8].copy_from_slice(&color.to_le_bytes());
    header[8..12].copy_from_slice(&400u32.to_le_bytes());
    header[28..32].copy_from_slice(&3u32.to_le_bytes());
    header[44..48].copy_from_slice(&layer.to_le_bytes());
    header[48..54].copy_from_slice(b"others");
    header[100..104].copy_from_slice(&(-5i32).to_le_bytes());
    header[104..108].copy_from_slice(&6i32.to_le_bytes());
    header[128..132].copy_from_slice(&15819u32.to_le_bytes());
    header[132..136].copy_from_slice(&11864u32.to_le_bytes());
    r.extend_from_slice(&header);
    u32le(&mut r, 0); // disable areas
    u32le(&mut r, points.len() as u32);
    for &(y, x) in points {
        r.extend_from_slice(&y.to_le_bytes());
        r.extend_from_slice(&x.to_le_bytes());
    }
    u32le(&mut r, points.len() as u32); // pressures
    for i in 0..points.len() {
        r.extend_from_slice(&(100 + i as u16).to_le_bytes());
    }
    u32le(&mut r, points.len() as u32); // tilts
    for _ in 0..points.len() {
        r.extend_from_slice(&(-2i16).to_le_bytes());
        r.extend_from_slice(&7i16.to_le_bytes());
    }
    u32le(&mut r, 0); // draw flags
    u32le(&mut r, 0); // EPA points
    u32le(&mut r, 0); // EPA grays
    let mut section1 = vec![0u8; 52];
    section1[8..12].copy_from_slice(&77u32.to_le_bytes());
    r.extend_from_slice(&section1);
    u32le(&mut r, 0); // control numbers
    r.extend_from_slice(&[0u8; 10]); // section 2
    u32le(&mut r, 1); // one point contour
    u32le(&mut r, 1);
    r.extend_from_slice(&[0u8; 8]);
    u32le(&mut r, 1); // one 16-byte chunk
    r.extend_from_slice(&[0u8; 16]);
    let mut section3 = vec![0u8; 17];
    section3[13..17].copy_from_slice(&(-90i32).to_le_bytes());
    r.extend_from_slice(&section3);
    u32le(&mut r, 0); // i32 array
    let mut section4 = vec![0u8; 13];
    section4[0..4].copy_from_slice(&1404u32.to_le_bytes());
    section4[4..8].copy_from_slice(&1872u32.to_le_bytes());
    r.extend_from_slice(&section4);
    u32le(&mut r, text.len() as u32);
    r.extend_from_slice(text);
    u32le(&mut r, 0); // second string
    u32le(&mut r, 0); // third string
    u32le(&mut r, 0); // trailing u32
    u32le(&mut r, 0); // marker fill directions
    r
}

fn totalpath(records: &[Vec<u8>]) -> Vec<u8> {
    let mut out = Vec::new();
    u32le(&mut out, records.len() as u32);
    for rec in records {
        u32le(&mut out, rec.len() as u32);
        out.extend_from_slice(rec);
    }
    out
}

fn b64(s: &str) -> String {
    base64::engine::general_purpose::STANDARD.encode(s)
}

/// A text block whose fields are given in plain text.
fn text_block(fields: &[&str]) -> Vec<u8> {
    fields.iter().map(|f| b64(f)).collect::<Vec<_>>().join(",").into_bytes()
}

fn box_fields(style: &str, content: &str) -> Vec<String> {
    let mut f: Vec<String> = vec![String::new(); 14];
    f[2] = style.to_string();
    f[3] = "20240101".to_string();
    f[4] = "10,20,300,40".to_string();
    f[10] = "32.5".to_string();
    f[11] = "/fonts/Dolce.ttf".to_string();
    f[12] = content.to_string();
    f[13] = "0,0,0,0,0,0,0,0,1".to_string();
    f
}

#[test]
fn single_stroke_fields() {
    let rec = stroke_record(10, 0, 1, &[(100, 200), (110, 210)], b"");
    let (s, text) = parse_single_stroke(&rec).unwrap();
    assert_eq!(s.pen, 10);
    assert_eq!(s.color, 0);
    assert_eq!(s.thickness, 400);
    assert_eq!(s.page_num, 3);
    assert_eq!(s.stroke_layer, 1);
    assert_eq!(s.stroke_kind, "others");
    assert_eq!(s.bounding_tl, ScreenCoord { y: -5, x: 6 });
    assert_eq!(s.screen_width, 11864);
    assert_eq!(s.screen_height, 15819);
    assert_eq!(s.points, vec![ScreenCoord { y: 100, x: 200 }, ScreenCoord { y: 110, x: 210 }]);
    assert_eq!(s.pressures, vec![100, 101]);
    assert_eq!(s.tilts, vec![TiltVector { y: -2, x: 7 }, TiltVector { y: -2, x: 7 }]);
    assert_eq!(s.stroke_uid, 77);
    assert_eq!(s.rotation_degrees, -90);
    assert_eq!(s.pixel_width, 1404);
    assert_eq!(s.pixel_height, 1872);
    assert!(text.is_empty());
}

#[test]
fn single_stroke_truncated() {
    let rec = stroke_record(10, 0, 0, &[(1, 2)], b"");
    assert_eq!(parse_single_stroke(&rec[..100]).err(), Some(Error::UnexpectedEnd { offset: 0 }));
    let cut = rec.len() - 2;
    assert!(parse_single_stroke(&rec[..cut]).is_err());
}

#[test]
fn totalpath_strokes_and_text_boxes() {
    let fields = box_fields("0", "Hello");
    let block = text_block(&fields.iter().map(|s| s.as_str()).collect::<Vec<_>>());
    let records = vec![
        stroke_record(10, 0, 0, &[(1, 2), (3, 4)], b""),
        stroke_record(0, 0, 2, &[], &block),
        stroke_record(1, 255, 0, &[(5, 6)], b""),
    ];
    let data = totalpath(&records);
    let (strokes, boxes) = parse_totalpath(&data).unwrap();
    // Every record is kept, as a stroke or as a text box.
    assert_eq!(strokes.len() + boxes.len(), 3);
    assert_eq!(strokes.len(), 2);
    assert_eq!(strokes[0].pen, 10);
    assert_eq!(strokes[1].color, 255);
    assert_eq!(boxes.len(), 1);
    assert_eq!(boxes[0].content, "Hello");
    assert_eq!(boxes[0].rect, (10, 20, 300, 40));
    assert_eq!(boxes[0].font_size, "32.5");
    assert_eq!(boxes[0].font_path, "/fonts/Dolce.ttf");
    assert!(boxes[0].italic);
    assert_eq!(boxes[0].datetime, "20240101");
    assert_eq!(boxes[0].stroke_layer, 2);
}

#[test]
fn pen_zero_without_text_box_is_a_stroke() {
    let title = box_fields("1", "Heading");
    let block = text_block(&title.iter().map(|s| s.as_str()).collect::<Vec<_>>());
    let data = totalpath(&[stroke_record(0, 0, 0, &[], &block)]);
    let (strokes, boxes) = parse_totalpath(&data).unwrap();
    assert_eq!(strokes.len(), 1);
    assert!(boxes.is_empty());
}

#[test]
fn totalpath_errors() {
    assert_eq!(parse_totalpath(&[1, 0]).err(), Some(Error::UnexpectedEnd { offset: 0 }));
    let mut short = Vec::new();
    u32le(&mut short, 1);
    assert_eq!(parse_totalpath(&short).err(), Some(Error::UnexpectedEnd { offset: 4 }));
    let mut long = Vec::new();
    u32le(&mut long, 1);
    u32le(&mut long, 500);
    long.extend_from_slice(&[0u8; 10]);
    assert_eq!(parse_totalpath(&long).err(), Some(Error::StrokeTooLong { index: 0, size: 500 }));
    let empty = totalpath(&[]);
    let (s, b) = parse_totalpath(&empty).unwrap();
    assert!(s.is_empty() && b.is_empty());
}

#[test]
fn text_field_decoding() {
    assert_eq!(decode_text_field(&b64("Hello, world")), "Hello, world");
    assert_eq!(decode_text_field(&format!("  {}  ", b64("x"))), "x");
    assert_eq!(decode_text_field("   "), "");
    assert_eq!(decode_text_field("not base64!"), "");
    // Valid base64 of bytes that are not UTF-8.
    assert_eq!(decode_text_field("/w=="), "");
}

#[test]
fn text_box_field_rules() {
    let tb = text_box_from_fields(&box_fields("0", "Notes"), 4).unwrap();
    assert_eq!(tb.content, "Notes");
    assert_eq!(tb.stroke_layer, 4);
    assert!(text_box_from_fields(&box_fields("2", "Title"), 0).is_none());
    assert!(text_box_from_fields(&box_fields("0", ""), 0).is_none());
    assert!(text_box_from_fields(&box_fields("0", "none"), 0).is_none());
    let few: Vec<String> = vec![String::new(); 12];
    assert!(text_box_from_fields(&few, 0).is_none());
    let mut odd = box_fields("0", "Text");
    odd[4] = "1,x,2".to_string();
    odd.truncate(13);
    let tb2 = text_box_from_fields(&odd, 0).unwrap();
    assert_eq!(tb2.rect, (0, 0, 0, 0));
    assert!(!tb2.italic);
}

#[test]
fn text_block_from_bytes() {
    let fields = box_fields("0", "Hi");
    let block = text_block(&fields.iter().map(|s| s.as_str()).collect::<Vec<_>>());
    let tb = parse_text_block(&block, 1).unwrap();
    assert_eq!(tb.content, "Hi");
    assert!(parse_text_block(&[0xFF, 0xFE], 1).is_none());
}

#[test]
fn decoded_field_bytes() {
    assert_eq!(text_of_decoded(Some(b"abc".to_vec())), "abc");
    assert_eq!(text_of_decoded(Some(vec![0xFF, 0x00])), "");
    assert_eq!(text_of_decoded(Some(Vec::new())), "");
    assert_eq!(text_of_decoded(None), "");
}
