use calamus::error::Error;
use calamus::format::metadata::{parse_metadata_string, read_metadata_block, MetadataExt};

#[test]
fn parse_simple_metadata() {
    let text = "<FILE_TYPE:note><DEVICE_DPI:226>";
    let meta = parse_metadata_string(text);
    assert_eq!(meta.get_str("FILE_TYPE"), Some("note"));
    assert_eq!(meta.get_str("DEVICE_DPI"), Some("226"));
    assert_eq!(meta.get_str("NONEXISTENT"), None);
}

#[test]
fn parse_duplicate_keys() {
    let text = "<PAGE:1048><PAGE:5672><COVER_0:0>";
    let meta = parse_metadata_string(text);
    assert_eq!(meta.get_all("PAGE"), &["1048", "5672"]);
    assert_eq!(meta.get_str("PAGE"), Some("1048"));
    assert_eq!(meta.get_str("COVER_0"), Some("0"));
}

#[test]
fn parse_empty_and_none_values() {
    let text = "<KEY1:><KEY2:none><KEY3:0>";
    let meta = parse_metadata_string(text);
    assert_eq!(meta.get_str("KEY1"), Some(""));
    assert_eq!(meta.get_str("KEY2"), Some("none"));
    assert_eq!(meta.get_str("KEY3"), Some("0"));
}

#[test]
fn get_address_parsing() {
    let text = "<FILE_FEATURE:24><DIRTY:5>";
    let meta = parse_metadata_string(text);
    assert_eq!(meta.get_address("FILE_FEATURE").unwrap(), 24);
    assert_eq!(meta.get_address("DIRTY").unwrap(), 5);
    assert!(meta.get_address("MISSING").is_err());
}

#[test]
fn get_all_missing_key() {
    let meta = parse_metadata_string("<A:1>");
    let empty: &[String] = &[];
    assert_eq!(meta.get_all("MISSING"), empty);
}

#[test]
fn read_metadata_block_roundtrip() {
    let text = b"<FILE_TYPE:note><DPI:226>";
    let len = text.len() as u32;
    let mut data = Vec::new();
    // some padding before the block
    data.extend_from_slice(&[0u8; 10]);
    data.extend_from_slice(&len.to_le_bytes());
    data.extend_from_slice(text);
    // No trailing bytes, so reading past the block would be caught.

    let meta = read_metadata_block(&data, 10).unwrap();
    assert_eq!(meta.get_str("FILE_TYPE"), Some("note"));
    assert_eq!(meta.get_str("DPI"), Some("226"));
}

#[test]
fn read_metadata_block_truncated() {
    let data = [0u8; 3]; // too short for length prefix
    assert!(read_metadata_block(&data, 0).is_err());
}

#[test]
fn read_metadata_block_of_size_zero() {
    let data = [0u8; 4]; // Just the length is here with a size zero
    let meta = read_metadata_block(&data, 0).unwrap();
    assert_eq!(meta.get_str("DPI"), None);
}

#[test]
fn read_metadata_block_length_exceeds() {
    let mut data = Vec::new();
    data.extend_from_slice(&20u32.to_le_bytes()); // claims 20 bytes
    data.extend_from_slice(&[0u8; 19]); // only 19 bytes of content
    assert!(read_metadata_block(&data, 0).is_err());
}

#[test]
fn repeated_keys_keep_every_value_in_order() {
    let meta = parse_metadata_string("<A:1><B:x><A:2><C:><A:3><B:y>");
    assert_eq!(meta.get_all("A"), &["1", "2", "3"]);
    assert_eq!(meta.get_all("B"), &["x", "y"]);
    assert_eq!(meta.get_all("C"), &[""]);
    // One entry per key, in order of first appearance.
    assert_eq!(meta.len(), 3);
    assert_eq!(meta.key(0), "A");
    assert_eq!(meta.key(1), "B");
    assert_eq!(meta.key(2), "C");
}

#[test]
fn written_tags_read_back() {
    let pairs = [("FILE_TYPE", "note"), ("PAGE", "1"), ("EMPTY", ""), ("PAGE", "2"), ("X", "a:b<c")];
    let text: String = pairs.iter().map(|(k, v)| format!("<{k}:{v}>")).collect();
    let meta = parse_metadata_string(&text);
    assert_eq!(meta.get_all("FILE_TYPE"), &["note"]);
    assert_eq!(meta.get_all("PAGE"), &["1", "2"]);
    assert_eq!(meta.get_all("EMPTY"), &[""]);
    assert_eq!(meta.get_all("X"), &["a:b<c"]);
}

#[test]
fn malformed_tags_are_dropped() {
    // Text outside tags, an empty key, a key cut by '<' or '>', and an
    // unterminated tag at the end.
    let meta = parse_metadata_string("junk<:v><BAD>K2:x><A<B:1><C:2");
    assert_eq!(meta.len(), 1);
    assert_eq!(meta.get_str("B"), Some("1"));
    assert_eq!(meta.get_str("A"), None);
    assert_eq!(meta.get_str("C"), None);
    assert_eq!(meta.get_str(""), None);
}

#[test]
fn address_errors() {
    let meta = parse_metadata_string("<A:12a><B:-1><C:18446744073709551616><D:007><P:+5>");
    assert_eq!(meta.get_address("A"), Err(Error::InvalidNumber));
    assert_eq!(meta.get_address("B"), Err(Error::InvalidNumber));
    assert_eq!(meta.get_address("C"), Err(Error::InvalidNumber));
    assert_eq!(meta.get_address("D"), Ok(7));
    assert_eq!(meta.get_address("P"), Ok(5));
    assert_eq!(meta.get_address("E"), Err(Error::MissingKey));
}

#[test]
fn metadata_block_errors() {
    assert_eq!(read_metadata_block(&[0u8; 3], 0).err(), Some(Error::BlockTruncated { offset: 0 }));
    assert_eq!(read_metadata_block(&[0u8; 8], 9).err(), Some(Error::BlockTruncated { offset: 9 }));
    let mut long = Vec::new();
    long.extend_from_slice(&20u32.to_le_bytes());
    long.extend_from_slice(&[0u8; 19]);
    assert_eq!(
        read_metadata_block(&long, 0).err(),
        Some(Error::BlockTooLong { offset: 0, length: 20 })
    );
    let mut bad = Vec::new();
    bad.extend_from_slice(&2u32.to_le_bytes());
    bad.extend_from_slice(&[0xC3, 0x28]);
    assert_eq!(read_metadata_block(&bad, 0).err(), Some(Error::InvalidUtf8 { offset: 0 }));
}
