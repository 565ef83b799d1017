use calamus::bitmap::composite_grayscale;
use calamus::format::stroke::{ScreenCoord, Stroke};
use calamus::render::{
    blend_attribute, color_attribute, escape_xml, fill_attribute, flush_group, layer_groups,
    map_font_family, mask_groups, page_physical_size, path_fits_exec, pen_style, pressure_paths,
    stroke_layer_name, svg_page_frame, svg_view_frame, uniform_path, PenStyle,
};

#[test]
fn xml_escaping() {
    assert_eq!(escape_xml("a < b & \"c\" > d"), "a &lt; b &amp; &quot;c&quot; &gt; d");
    assert_eq!(escape_xml("plain text, 'quoted'"), "plain text, 'quoted'");
    assert_eq!(escape_xml(""), "");
    let escaped = escape_xml("<<>>\"\"&");
    assert!(!escaped.contains('<') && !escaped.contains('>') && !escaped.contains('"'));
}

#[test]
fn colour_attributes() {
    assert_eq!(color_attribute(0), "");
    assert_eq!(color_attribute(0x9D), " stroke=\"#9D9D9D\"");
    assert_eq!(color_attribute(0x1_00C9), " stroke=\"#C9C9C9\"");
    assert_eq!(fill_attribute(0), " fill=\"black\"");
    assert_eq!(fill_attribute(254), " fill=\"#FEFEFE\"");
    assert_eq!(fill_attribute(0x0A), " fill=\"#0A0A0A\"");
}

#[test]
fn font_families() {
    assert_eq!(map_font_family("/system/fonts/Dolce.ttf"), "'Segoe Script', 'Bradley Hand', cursive");
    assert_eq!(map_font_family("Satisfy-Regular.otf"), "'Satisfy', cursive");
    assert_eq!(map_font_family("/a/b/851tegakizatsu.ttf"), "'Zen Kurenaido', 'Comic Sans MS', cursive");
    assert_eq!(map_font_family("/fonts/Roboto-Bold.ttf"), "sans-serif");
    assert_eq!(map_font_family(""), "sans-serif");
    assert_eq!(map_font_family("Dolce/other.ttf"), "sans-serif");
}

#[test]
fn pen_styles_and_layers() {
    assert_eq!(pen_style(1, 255), PenStyle::Eraser);
    assert_eq!(pen_style(11, 0), PenStyle::Marker);
    assert_eq!(pen_style(2, 0), PenStyle::Marker);
    assert_eq!(pen_style(10, 0), PenStyle::Uniform);
    assert_eq!(pen_style(0, 0), PenStyle::Uniform);
    assert_eq!(pen_style(1, 0), PenStyle::Pressure);
    assert_eq!(stroke_layer_name(0), "MAINLAYER");
    assert_eq!(stroke_layer_name(2), "LAYER2");
    assert_eq!(stroke_layer_name(9), "MAINLAYER");
    assert_eq!(stroke_layer_name(u32::MAX), "BGLAYER");
    assert_eq!(stroke_layer_name(1), "LAYER1");
    assert_eq!(stroke_layer_name(3), "LAYER3");
}

#[test]
fn strokes_grouped_by_layer_bottom_to_top() {
    let layers = [0, 1, 0, 3, 7, 1];
    let order: Vec<String> = ["LAYER1", "MAINLAYER", "LAYER2", "BGLAYER"].iter().map(|s| s.to_string()).collect();
    // LAYERSEQ runs top to bottom; drawing runs bottom to top, and layers
    // without strokes are left out.
    assert_eq!(layer_groups(&layers, &order), vec![vec![0, 2, 4], vec![1, 5]]);
    // Layer number -1 is the background, drawn first.
    let order2: Vec<String> = ["MAINLAYER", "BGLAYER"].iter().map(|s| s.to_string()).collect();
    assert_eq!(layer_groups(&[u32::MAX, 0, u32::MAX], &order2), vec![vec![0, 2], vec![1]]);
}

#[test]
fn erasers_mask_earlier_pens() {
    // pen, pen, eraser, (one-point pen), eraser, pen, eraser, pen
    let colors = [0, 0, 255, 0, 255, 0, 255, 0];
    let counts = [5, 5, 5, 1, 5, 5, 5, 5];
    let groups = mask_groups(&colors, &counts);
    assert_eq!(
        groups,
        vec![
            (vec![0, 1], vec![2, 4, 6]),
            (vec![5], vec![6]),
            (vec![7], vec![]),
        ]
    );
    assert!(mask_groups(&[], &[]).is_empty());
    assert_eq!(mask_groups(&[255, 0], &[3, 3]), vec![(vec![], vec![0]), (vec![1], vec![])]);
    // pen, eraser, pen, eraser: the first pen lies under both erasers.
    assert_eq!(
        mask_groups(&[0, 255, 0, 255], &[2, 2, 2, 2]),
        vec![(vec![0], vec![1, 3]), (vec![2], vec![3])]
    );
}

#[test]
fn flush_writes_masked_group() {
    let mut svg = String::new();
    let mut pens = vec!["<path d=\"M1\"/>".to_string()];
    let mut erasers = vec!["<path d=\"M2\"/>".to_string()];
    let mut mask = 3u32;
    flush_group(&mut svg, &mut pens, &mut erasers, &mut mask, 100, -200);
    assert_eq!(
        svg,
        "<defs><mask id=\"eraser_3\" stroke=\"black\" stroke-linejoin=\"round\" stroke-linecap=\"round\" fill=\"none\">\n<rect width=\"100\" height=\"-200\" fill=\"white\"/>\n<path d=\"M2\"/>\n</mask></defs>\n<g mask=\"url(#eraser_3)\">\n<path d=\"M1\"/>\n</g>\n"
    );
    assert_eq!(mask, 4);
    assert!(pens.is_empty() && erasers.is_empty());
}

#[test]
fn flush_writes_plain_group() {
    let mut svg = "x".to_string();
    let mut pens = vec!["a".to_string(), "b".to_string()];
    let mut erasers: Vec<String> = Vec::new();
    let mut mask = 0u32;
    flush_group(&mut svg, &mut pens, &mut erasers, &mut mask, 1, 1);
    assert_eq!(svg, "xa\nb\n");
    assert_eq!(mask, 0);
    flush_group(&mut svg, &mut pens, &mut erasers, &mut mask, 1, 1);
    assert_eq!(svg, "xa\nb\n");
}

#[test]
fn compositing_layers() {
    let mut canvas = vec![255u8; 12];
    composite_grayscale(&mut canvas, &[0x00, 0xFF, 0x9D]);
    assert_eq!(canvas, vec![0, 0, 0, 255, 255, 255, 255, 255, 0x9D, 0x9D, 0x9D, 255]);
    // A fully transparent layer changes nothing.
    let before = canvas.clone();
    composite_grayscale(&mut canvas, &[0xFF, 0xFF, 0xFF]);
    assert_eq!(canvas, before);
    // Painting a layer twice is painting it once.
    composite_grayscale(&mut canvas, &[0xFF, 0x30, 0xFF]);
    let once = canvas.clone();
    composite_grayscale(&mut canvas, &[0xFF, 0x30, 0xFF]);
    assert_eq!(canvas, once);
    // The upper layer covers what lies below where it paints.
    composite_grayscale(&mut canvas, &[0xC9, 0xFF, 0xFF]);
    assert_eq!(&canvas[0..4], &[0xC9, 0xC9, 0xC9, 255]);
    assert_eq!(&canvas[4..8], &[0x30, 0x30, 0x30, 255]);
    // Pixels beyond the canvas are ignored.
    let mut small = vec![1u8; 5];
    composite_grayscale(&mut small, &[0x10, 0x20]);
    assert_eq!(small, vec![0x10, 0x10, 0x10, 255, 1]);
}

fn sample_points() -> Vec<ScreenCoord> {
    vec![ScreenCoord { y: 10, x: 100 }, ScreenCoord { y: 20, x: 90 }, ScreenCoord { y: 25, x: 95 }]
}

#[test]
fn pressure_paths_split_on_width_change() {
    let paths = pressure_paths(&sample_points(), &[3, 3, 5], 1000, "");
    assert_eq!(
        paths,
        vec![
            "<path stroke-width=\"3\" d=\"M 900,10 l 10,10\"/>".to_string(),
            "<path stroke-width=\"5\" d=\"M 910,20 l -5,5\"/>".to_string(),
        ]
    );
    let single = pressure_paths(&sample_points(), &[2, 2, 2], 1000, " stroke=\"#FEFEFE\"");
    assert_eq!(
        single,
        vec!["<path stroke-width=\"2\" stroke=\"#FEFEFE\" d=\"M 900,10 l 10,10 l -5,5\"/>".to_string()]
    );
    assert!(path_fits_exec(&sample_points(), 1000));
    assert!(!path_fits_exec(&sample_points(), i64::MIN));
}

#[test]
fn uniform_paths_and_blending() {
    assert_eq!(
        uniform_path(&sample_points(), 1000, 4, 11, 0x9D),
        "<path stroke-width=\"4\" stroke=\"#9D9D9D\" style=\"mix-blend-mode:darken\" d=\"M 900,10 910,20 905,25\"/>"
    );
    assert_eq!(
        uniform_path(&sample_points()[..1], 1000, 7, 10, 0),
        "<path stroke-width=\"7\" d=\"M 900,10\"/>"
    );
    assert_eq!(blend_attribute(2, 0), " style=\"mix-blend-mode:darken\"");
    assert_eq!(blend_attribute(11, 254), "");
    assert_eq!(blend_attribute(10, 0), "");
}

fn stroke_on_screen(width: u32, height: u32) -> Stroke {
    Stroke {
        pen: 10,
        color: 0,
        thickness: 400,
        page_num: 1,
        stroke_layer: 0,
        stroke_kind: "others".to_string(),
        bounding_tl: ScreenCoord { y: 0, x: 0 },
        bounding_mid: ScreenCoord { y: 0, x: 0 },
        bounding_br: ScreenCoord { y: 0, x: 0 },
        screen_width: width,
        screen_height: height,
        points: vec![],
        pressures: vec![],
        tilts: vec![],
        stroke_uid: 1,
        rotation_degrees: 0,
        pixel_width: 1404,
        pixel_height: 1872,
    }
}

#[test]
fn physical_size_from_first_stroke() {
    assert_eq!(page_physical_size(&[]), (11864, 15819));
    let strokes = vec![stroke_on_screen(15819, 11864), stroke_on_screen(100, 200)];
    assert_eq!(page_physical_size(&strokes), (15819, 11864));
}

#[test]
fn svg_frame_text() {
    assert_eq!(
        svg_page_frame(1404, 1872, 11864, 15819),
        "<svg viewBox=\"0 0 1404 1872\" xmlns=\"http://www.w3.org/2000/svg\">\n<rect width=\"1404\" height=\"1872\" fill=\"white\"/>\n<svg viewBox=\"0 0 11864 15819\">\n<g stroke-linejoin=\"round\" stroke-linecap=\"round\" stroke=\"black\" fill=\"none\">\n"
    );
    assert!(svg_page_frame(0, 7, -3, 0).starts_with("<svg viewBox=\"0 0 0 7\""));
    assert!(svg_page_frame(0, 7, -3, 0).contains("<svg viewBox=\"0 0 -3 0\">"));
}

#[test]
fn svg_view_frame_text() {
    assert_eq!(
        svg_view_frame(300, 200, 11000, 500, 864, -70),
        "<svg viewBox=\"0 0 300 200\" xmlns=\"http://www.w3.org/2000/svg\">\n<rect width=\"300\" height=\"200\" fill=\"white\"/>\n<svg viewBox=\"11000 500 864 -70\">\n<g stroke-linejoin=\"round\" stroke-linecap=\"round\" stroke=\"black\" fill=\"none\">\n"
    );
    // The whole page in view is the page frame.
    assert_eq!(svg_view_frame(1404, 1872, 0, 0, 11864, 15819), svg_page_frame(1404, 1872, 11864, 15819));
}

