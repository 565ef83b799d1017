use calamus::bitmap::render_bitmap;
use calamus::error::Error;
use calamus::format::metadata::{parse_metadata_string, MetadataExt};
use calamus::format::{data_block_slice, detect_format, get_page_addresses, parse, parse_page_meta};

/// Appends a length-prefixed block and returns its offset.
fn push_block(data: &mut Vec<u8>, payload: &[u8]) -> usize {
    let at = data.len();
    data.extend_from_slice(&(payload.len() as u32).to_le_bytes());
    data.extend_from_slice(payload);
    at
}

/// RLE pairs that cover `count` pixels of `code` with plain runs of at
/// most 128 pixels.
fn plain_rle(code: u8, mut count: usize) -> Vec<u8> {
    let mut out = Vec::new();
    while count > 0 {
        let n = count.min(128);
        out.push(code);
        out.push((n - 1) as u8);
        count -= n;
    }
    out
}

/// A one-page X-series notebook whose main layer paints the first ten
/// pixels black and leaves the rest transparent.
fn sample_note(device: &str) -> Vec<u8> {
    let mut data = Vec::new();
    data.extend_from_slice(b"note");
    data.extend_from_slice(b"SN_FILE_VER_20230015");
    let header = push_block(
        &mut data,
        format!("<FILE_TYPE:NOTE><APPLY_EQUIPMENT:{device}>").as_bytes(),
    );
    let pixels = if device == "N5" { 1920 * 2560 } else { 1404 * 1872 };
    let mut rle = plain_rle(0x61, 10);
    rle.extend(plain_rle(0x62, pixels - 10));
    let bitmap = push_block(&mut data, &rle);
    let layer = push_block(
        &mut data,
        format!("<LAYERTYPE:NOTE><LAYERPROTOCOL:RATTA_RLE><LAYERNAME:MAINLAYER><LAYERBITMAP:{bitmap}>")
            .as_bytes(),
    );
    let page = push_block(
        &mut data,
        format!(
            "<PAGESTYLE:style_white><LAYERSEQ:MAINLAYER,BGLAYER><MAINLAYER:{layer}><LAYER1:0><LAYER2:0><LAYER3:0><BGLAYER:0><TOTALPATH:0>"
        )
        .as_bytes(),
    );
    let footer = push_block(
        &mut data,
        format!("<FILE_FEATURE:{header}><PAGE1:{page}><DIRTY:0>").as_bytes(),
    );
    data.extend_from_slice(&(footer as u32).to_le_bytes());
    data
}

/// A one-page X-series notebook with a main layer (ten black pixels, the
/// rest transparent) and a gray background layer, both stored under the
/// given LAYERNAME values; `layerseq` is the page's LAYERSEQ, if any.
fn two_layer_note(main_name: &str, bg_name: &str, layerseq: Option<&str>) -> Vec<u8> {
    let mut data = Vec::new();
    data.extend_from_slice(b"note");
    data.extend_from_slice(b"SN_FILE_VER_20230015");
    let header = push_block(&mut data, b"<FILE_TYPE:NOTE><APPLY_EQUIPMENT:N6>");
    let pixels = 1404 * 1872;
    let mut rle = plain_rle(0x61, 10);
    rle.extend(plain_rle(0x62, pixels - 10));
    let main_bitmap = push_block(&mut data, &rle);
    let bg_bitmap = push_block(&mut data, &plain_rle(0x64, pixels));
    let main = push_block(
        &mut data,
        format!("<LAYERTYPE:NOTE><LAYERPROTOCOL:RATTA_RLE><LAYERNAME:{main_name}><LAYERBITMAP:{main_bitmap}>")
            .as_bytes(),
    );
    let bg = push_block(
        &mut data,
        format!("<LAYERTYPE:NOTE><LAYERPROTOCOL:RATTA_RLE><LAYERNAME:{bg_name}><LAYERBITMAP:{bg_bitmap}>")
            .as_bytes(),
    );
    let seq = match layerseq {
        Some(s) => format!("<LAYERSEQ:{s}>"),
        None => String::new(),
    };
    let page = push_block(
        &mut data,
        format!(
            "<PAGESTYLE:style_white>{seq}<MAINLAYER:{main}><LAYER1:0><LAYER2:0><LAYER3:0><BGLAYER:{bg}><TOTALPATH:0>"
        )
        .as_bytes(),
    );
    let footer = push_block(
        &mut data,
        format!("<FILE_FEATURE:{header}><PAGE1:{page}><DIRTY:0>").as_bytes(),
    );
    data.extend_from_slice(&(footer as u32).to_le_bytes());
    data
}

#[test]
fn second_mainlayer_is_background() {
    let data = two_layer_note("MAINLAYER", "MAINLAYER", None);
    let nb = parse(&data).unwrap();
    let page = nb.page(&data, 0).unwrap();
    assert_eq!(page.layers.len(), 5);
    assert_eq!(page.layers[0].name, "MAINLAYER");
    assert_eq!(page.layers[4].name, "BGLAYER");
}

#[test]
fn stored_layer_names_kept() {
    let data = two_layer_note("MAINLAYER", "BGLAYER", None);
    let nb = parse(&data).unwrap();
    let page = nb.page(&data, 0).unwrap();
    assert_eq!(page.layers[0].name, "MAINLAYER");
    assert_eq!(page.layers[4].name, "BGLAYER");
}

#[test]
fn background_drawn_under_main_layer_by_default() {
    for (bg_name, seq) in [("BGLAYER", None), ("MAINLAYER", None), ("BGLAYER", Some("MAINLAYER,BGLAYER"))] {
        let data = two_layer_note("MAINLAYER", bg_name, seq);
        let nb = parse(&data).unwrap();
        let (w, h, rgba) = render_bitmap(&data, &nb, 0).unwrap();
        assert_eq!((w, h), (1404, 1872));
        // The main layer's black pixels lie over the background.
        assert_eq!(&rgba[0..4], &[0, 0, 0, 255]);
        assert_eq!(&rgba[36..40], &[0, 0, 0, 255]);
        // Elsewhere the gray background shows.
        let g = rgba[40];
        assert!(g != 0 && g != 255);
        assert_eq!(&rgba[40..44], &[g, g, g, 255]);
        assert_eq!(&rgba[rgba.len() - 4..], &[g, g, g, 255]);
    }
}

#[test]
fn background_over_main_when_layerseq_says_so() {
    let data = two_layer_note("MAINLAYER", "BGLAYER", Some("BGLAYER,MAINLAYER"));
    let nb = parse(&data).unwrap();
    let (_, _, rgba) = render_bitmap(&data, &nb, 0).unwrap();
    let g = rgba[0];
    assert!(g != 0 && g != 255);
    assert_eq!(&rgba[0..4], &[g, g, g, 255]);
}

#[test]
fn detect_note_signature() {
    let data = sample_note("N6");
    let (file_type, signature) = detect_format(&data).unwrap();
    assert_eq!(file_type, "note");
    assert_eq!(signature, "SN_FILE_VER_20230015");
}

#[test]
fn detect_mark_and_a5_signatures() {
    let mut mark = b"mark".to_vec();
    mark.extend_from_slice(b"SN_FILE_VER_20200001");
    assert_eq!(
        detect_format(&mark).unwrap(),
        ("mark".to_string(), "SN_FILE_VER_20200001".to_string())
    );
    let a5 = b"SN_FILE_ASA_20190529".to_vec();
    assert_eq!(
        detect_format(&a5).unwrap(),
        ("note".to_string(), "SN_FILE_ASA_20190529".to_string())
    );
}

#[test]
fn detect_rejects_unknown_data() {
    assert_eq!(detect_format(b"hello"), Err(Error::UnrecognizedFormat));
    let mut wrong = b"note".to_vec();
    wrong.extend_from_slice(b"XX_FILE_VER_20230015");
    assert_eq!(detect_format(&wrong), Err(Error::UnrecognizedFormat));
}

#[test]
fn detect_rejects_bad_signature_encoding() {
    let mut data = b"note".to_vec();
    data.extend_from_slice(&[0xFF; 20]);
    assert_eq!(detect_format(&data), Err(Error::SignatureEncoding));
}

#[test]
fn parse_sample_notebook() {
    let data = sample_note("N6");
    let nb = parse(&data).unwrap();
    assert_eq!(nb.file_type, "note");
    assert_eq!(nb.signature, "SN_FILE_VER_20230015");
    assert_eq!(nb.header.get_str("APPLY_EQUIPMENT"), Some("N6"));
    assert_eq!(nb.footer.get_str("DIRTY"), Some("0"));
    assert_eq!(nb.page_width, 1404);
    assert_eq!(nb.page_height, 1872);
    assert_eq!(nb.page_count(), 1);
    assert!(nb.supports_highres_grayscale());
    assert!(nb.bitmap_inputs_fit());
}

#[test]
fn parse_n5_page_size() {
    let data = sample_note("N5");
    let nb = parse(&data).unwrap();
    assert_eq!((nb.page_width, nb.page_height), (1920, 2560));
}

#[test]
fn parse_rejects_short_and_broken_files() {
    assert_eq!(parse(b"note").err(), Some(Error::UnrecognizedFormat));
    let mut data = sample_note("N6");
    let n = data.len();
    // Point the footer address past the end of the file.
    data[n - 4..].copy_from_slice(&(n as u32).to_le_bytes());
    assert_eq!(parse(&data).err(), Some(Error::BlockTruncated { offset: n }));
}

#[test]
fn notebook_info_text() {
    let data = sample_note("N6");
    let nb = parse(&data).unwrap();
    assert_eq!(
        nb.info(),
        "File type: note\nSignature: SN_FILE_VER_20230015\nDevice: N6\nPage size: 1404x1872\nPages: 1\n"
    );
}

#[test]
fn page_layers_and_order() {
    let data = sample_note("N6");
    let nb = parse(&data).unwrap();
    let page = nb.page(&data, 0).unwrap();
    assert_eq!(page.style, "style_white");
    assert_eq!(page.layers.len(), 5);
    assert_eq!(page.layers[0].name, "MAINLAYER");
    assert_eq!(page.layers[0].layer_type, "NOTE");
    assert_eq!(page.layers[0].protocol, "RATTA_RLE");
    assert_eq!(page.layers[1].name, "LAYER1");
    assert_eq!(page.layers[1].protocol, "RATTA_RLE");
    assert_eq!(page.layers[4].name, "BGLAYER");
    assert_eq!(page.layer_order(), vec!["MAINLAYER".to_string(), "BGLAYER".to_string()]);
    assert!(!page.has_strokes());
    let (strokes, boxes) = page.decode_strokes(&data).unwrap();
    assert!(strokes.is_empty() && boxes.is_empty());
    assert!(page.layer_bitmap(&data, 0).is_some());
    assert!(page.layer_bitmap(&data, 1).is_none());
    assert!(page.layer_bitmap(&data, 9).is_none());
}

#[test]
fn page_out_of_range() {
    let data = sample_note("N6");
    let nb = parse(&data).unwrap();
    assert_eq!(nb.page(&data, 1).err(), Some(Error::PageOutOfRange { page: 1, count: 1 }));
}

#[test]
fn a5_page_without_layers() {
    let mut data = vec![0u8; 8];
    let bitmap = push_block(&mut data, &[0x61, 0x00]);
    let page = push_block(&mut data, format!("<PROTOCOL:RATTA_RLE><DATA:{bitmap}>").as_bytes());
    let meta = parse_page_meta(&data, page).unwrap();
    assert!(meta.layers.is_empty());
    assert_eq!(meta.style, "style_white");
    assert_eq!(meta.a5_protocol(), Some("RATTA_RLE"));
    assert_eq!(meta.a5_bitmap(&data), Some(&[0x61u8, 0x00][..]));
    assert_eq!(
        meta.layer_order(),
        vec!["LAYER3", "LAYER2", "LAYER1", "MAINLAYER", "BGLAYER"]
    );
}

#[test]
fn page_with_bad_layer_address() {
    let mut data = vec![0u8; 4];
    let page = push_block(&mut data, b"<MAINLAYER:abc>");
    assert_eq!(parse_page_meta(&data, page).err(), Some(Error::InvalidNumber));
    let page2 = push_block(&mut data, b"<MAINLAYER:0>");
    assert_eq!(parse_page_meta(&data, page2).err(), Some(Error::MissingKey));
}

#[test]
fn numbered_pages_sorted_by_number() {
    let footer = parse_metadata_string("<PAGE10:300><PAGE2:200><FILE_FEATURE:24><PAGE1:100>");
    assert_eq!(get_page_addresses(&footer).unwrap(), vec![100, 200, 300]);
}

#[test]
fn repeated_page_key_in_order() {
    let footer = parse_metadata_string("<PAGE:1048><PAGE:5672>");
    assert_eq!(get_page_addresses(&footer).unwrap(), vec![1048, 5672]);
}

#[test]
fn page_address_errors() {
    let bad = parse_metadata_string("<PAGE1:12x>");
    assert_eq!(get_page_addresses(&bad), Err(Error::InvalidNumber));
    let none = parse_metadata_string("<FILE_FEATURE:24>");
    assert_eq!(get_page_addresses(&none), Err(Error::NoPageAddresses));
    let bad_a5 = parse_metadata_string("<PAGE:1><PAGE:two>");
    assert_eq!(get_page_addresses(&bad_a5), Err(Error::InvalidNumber));
}

#[test]
fn data_block_reads_back_payload() {
    let mut data = vec![7u8; 3];
    let at = push_block(&mut data, b"payload");
    data.extend_from_slice(b"trailing");
    assert_eq!(data_block_slice(&data, at).unwrap(), b"payload");
    assert_eq!(data_block_slice(&data, data.len() - 2).err(), Some(Error::BlockTruncated { offset: data.len() - 2 }));
    let mut long = Vec::new();
    long.extend_from_slice(&9u32.to_le_bytes());
    long.extend_from_slice(b"short");
    assert_eq!(data_block_slice(&long, 0).err(), Some(Error::BlockTooLong { offset: 0, length: 9 }));
}

#[test]
fn render_sample_page() {
    let data = sample_note("N6");
    let nb = parse(&data).unwrap();
    let (w, h, rgba) = render_bitmap(&data, &nb, 0).unwrap();
    assert_eq!((w, h), (1404, 1872));
    assert_eq!(rgba.len(), 1404 * 1872 * 4);
    assert_eq!(&rgba[0..4], &[0, 0, 0, 255]);
    assert_eq!(&rgba[36..40], &[0, 0, 0, 255]);
    assert_eq!(&rgba[40..44], &[255, 255, 255, 255]);
    assert!(rgba[40..].iter().all(|&b| b == 255));
}

#[test]
fn render_page_out_of_range() {
    let data = sample_note("N6");
    let nb = parse(&data).unwrap();
    assert_eq!(
        render_bitmap(&data, &nb, 3).err(),
        Some(Error::PageOutOfRange { page: 3, count: 1 })
    );
}
