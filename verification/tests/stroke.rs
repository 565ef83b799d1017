use calamus::format::stroke::{extract_c_string, read_u32};

#[test]
fn test_read_u32() {
    let data = 42u32.to_le_bytes();
    let mut pos = 0;
    assert_eq!(read_u32(&data, &mut pos).unwrap(), 42);
    assert_eq!(pos, 4);
}

#[test]
fn test_read_u32_truncated() {
    let data = [0u8; 2];
    let mut pos = 0;
    assert!(read_u32(&data, &mut pos).is_err());
}

#[test]
fn test_extract_c_string() {
    let mut buf = [0u8; 52];
    buf[..6].copy_from_slice(b"others");
    assert_eq!(extract_c_string(&buf), "others");

    let mut buf2 = [0u8; 52];
    buf2[..12].copy_from_slice(b"straightLine");
    assert_eq!(extract_c_string(&buf2), "straightLine");
}
