use calamus::format::stroke::ScreenCoord;
use calamus::split::point_in_bbox;

#[test]
fn test_point_in_bbox() {
    let min = ScreenCoord { y: 0, x: 0 };
    let max = ScreenCoord { y: 100, x: 100 };
    assert!(point_in_bbox(50, 50, &min, &max));
    assert!(point_in_bbox(0, 0, &min, &max));
    assert!(point_in_bbox(100, 100, &min, &max));
    assert!(!point_in_bbox(-1, 50, &min, &max));
    assert!(!point_in_bbox(50, 101, &min, &max));
}

use calamus::format::stroke::{Stroke, TextBox};
use calamus::split::{
    assigned_indices, find_containing_rectangle, main_page_strokes, resolve_nesting, split_inputs_fit, split_page, try_detect_rectangle,
    DetectedRectangle, SplitConfig,
};

fn stroke_with(color: u32, points: Vec<ScreenCoord>) -> Stroke {
    Stroke {
        pen: 10,
        color,
        thickness: 400,
        page_num: 0,
        stroke_layer: 0,
        stroke_kind: "others".to_string(),
        bounding_tl: ScreenCoord { y: 0, x: 0 },
        bounding_mid: ScreenCoord { y: 0, x: 0 },
        bounding_br: ScreenCoord { y: 0, x: 0 },
        screen_width: 11864,
        screen_height: 15819,
        pressures: vec![1000; points.len()],
        tilts: Vec::new(),
        points,
        stroke_uid: 0,
        rotation_degrees: 0,
        pixel_width: 1404,
        pixel_height: 1872,
    }
}

/// Ten points along each edge of the box, clockwise from the top-left corner.
fn rectangle_points(y0: i32, x0: i32, y1: i32, x1: i32) -> Vec<ScreenCoord> {
    let mut p = Vec::new();
    for i in 0..10 {
        p.push(ScreenCoord { y: y0, x: x0 + (x1 - x0) * i / 10 });
    }
    for i in 0..10 {
        p.push(ScreenCoord { y: y0 + (y1 - y0) * i / 10, x: x1 });
    }
    for i in 0..10 {
        p.push(ScreenCoord { y: y1, x: x1 - (x1 - x0) * i / 10 });
    }
    for i in 0..10 {
        p.push(ScreenCoord { y: y1 - (y1 - y0) * i / 10, x: x0 });
    }
    p.push(ScreenCoord { y: y0, x: x0 + 10 });
    p
}

fn blob(y: i32, x: i32) -> Vec<ScreenCoord> {
    vec![ScreenCoord { y, x }, ScreenCoord { y: y + 40, x: x + 60 }, ScreenCoord { y: y + 80, x: x + 20 }]
}

fn text_box_at(rect: (u32, u32, u32, u32)) -> TextBox {
    TextBox {
        content: "hi".to_string(),
        rect,
        font_size: "24".to_string(),
        font_path: String::new(),
        italic: false,
        datetime: String::new(),
        stroke_layer: 0,
    }
}

#[test]
fn detects_drawn_rectangle() {
    let config = SplitConfig::default();
    assert_eq!(config.min_height, 1500);
    let s = stroke_with(0, rectangle_points(1000, 1000, 3000, 4000));
    assert_eq!(
        try_detect_rectangle(&s, &config),
        Some((ScreenCoord { y: 1000, x: 1000 }, ScreenCoord { y: 3000, x: 4000 }))
    );
}

#[test]
fn rejects_non_rectangles() {
    let config = SplitConfig::default();
    // An eraser traced as a rectangle.
    let eraser = stroke_with(255, rectangle_points(1000, 1000, 3000, 4000));
    assert_eq!(try_detect_rectangle(&eraser, &config), None);
    // Too few points.
    assert_eq!(try_detect_rectangle(&stroke_with(0, blob(0, 0)), &config), None);
    // Too low.
    let flat = stroke_with(0, rectangle_points(1000, 1000, 1800, 4000));
    assert_eq!(try_detect_rectangle(&flat, &config), None);
    // Too narrow.
    let narrow = stroke_with(0, rectangle_points(1000, 1000, 3000, 1500));
    assert_eq!(try_detect_rectangle(&narrow, &config), None);
    // A diagonal line: tall and wide enough, but its points leave the edges.
    let line: Vec<ScreenCoord> = (0..40).map(|i| ScreenCoord { y: 1000 + i * 60, x: 1000 + i * 80 }).collect();
    assert_eq!(try_detect_rectangle(&stroke_with(0, line), &config), None);
}

#[test]
fn first_containing_rectangle_wins() {
    let r = |y0, x0, y1, x1, i| DetectedRectangle {
        corners: [
            ScreenCoord { y: y0, x: x0 },
            ScreenCoord { y: y0, x: x1 },
            ScreenCoord { y: y1, x: x1 },
            ScreenCoord { y: y1, x: x0 },
        ],
        bbox_min: ScreenCoord { y: y0, x: x0 },
        bbox_max: ScreenCoord { y: y1, x: x1 },
        stroke_index: i,
    };
    let rects = vec![r(0, 0, 100, 100, 0), r(50, 50, 200, 200, 1)];
    assert_eq!(find_containing_rectangle(&rects, 75, 75), Some(0));
    assert_eq!(find_containing_rectangle(&rects, 150, 150), Some(1));
    assert_eq!(find_containing_rectangle(&rects, 300, 300), None);

    // The small box's centre lies in the big one: the small box goes.
    let mut nested = vec![r(1000, 1000, 9000, 9000, 0), r(2000, 2000, 4000, 4000, 1)];
    resolve_nesting(&mut nested);
    assert_eq!(nested.len(), 1);
    assert_eq!(nested[0].stroke_index, 0);
}

#[test]
fn split_assigns_strokes_and_text_boxes() {
    let strokes = vec![
        stroke_with(0, blob(2000, 2000)),                          // inside the upper box
        stroke_with(0, rectangle_points(5000, 1000, 7000, 4000)), // lower box
        stroke_with(0, rectangle_points(1000, 1000, 3000, 4000)), // upper box
        stroke_with(0, blob(9000, 9000)),                          // outside
        stroke_with(0, Vec::new()),                                // no points
        stroke_with(0, blob(6000, 3000)),                          // inside the lower box
    ];
    let boxes = vec![text_box_at((1090, 167, 20, 20)), text_box_at((0, 1500, 10, 10))];
    let r = split_page(&strokes, &boxes, 11864, 15819, 1404, &SplitConfig::default());
    // Sorted top to bottom: the upper box (stroke 2) comes first.
    assert_eq!(r.rectangles.len(), 2);
    assert_eq!(r.rectangles[0].stroke_index, 2);
    assert_eq!(r.rectangles[1].stroke_index, 1);
    assert_eq!(r.rectangles[0].bbox_min, ScreenCoord { y: 1000, x: 1000 });
    assert_eq!(r.rectangles[0].corners[2], ScreenCoord { y: 3000, x: 4000 });
    assert_eq!(
        r.stroke_assignments,
        vec![Some(0), None, None, None, None, Some(1)]
    );
    assert_eq!(r.textbox_assignments, vec![Some(0), None]);
    // The main page keeps the strokes in no rectangle, but not the rectangles.
    assert_eq!(main_page_strokes(&r), vec![3, 4]);
    assert_eq!(assigned_indices(&r.stroke_assignments, Some(0)), vec![0]);
    assert_eq!(assigned_indices(&r.stroke_assignments, Some(1)), vec![5]);
    assert_eq!(assigned_indices(&r.textbox_assignments, None), vec![1]);
}

#[test]
fn split_input_ranges() {
    let config = SplitConfig::default();
    let strokes = vec![stroke_with(0, rectangle_points(1000, 1000, 3000, 4000))];
    let boxes = vec![text_box_at((10, 10, 4, 4))];
    assert!(split_inputs_fit(&strokes, &boxes, 11864, 15819, 1404, &config));
    // Division by a zero pixel width is only a problem when there are text boxes.
    assert!(!split_inputs_fit(&strokes, &boxes, 11864, 15819, 0, &config));
    assert!(split_inputs_fit(&strokes, &[], 11864, 15819, 0, &config));
    // A rectangle so large that its squared diagonal overflows `i32`.
    let huge = vec![stroke_with(0, rectangle_points(0, 0, 40000, 40000))];
    assert!(!split_inputs_fit(&huge, &[], 11864, 15819, 1404, &config));
    // A text box whose centre overflows `u32`.
    let wide = vec![text_box_at((u32::MAX, 0, 4, 0))];
    assert!(!split_inputs_fit(&[], &wide, 11864, 15819, 1404, &config));
}

#[test]
fn split_accepts_extreme_short_strokes_and_centres() {
    let config = SplitConfig::default();
    // A two-point stroke whose x span exceeds `i32::MAX`: it never reaches
    // rectangle detection, so only its centre is computed.
    let wide = stroke_with(0, vec![ScreenCoord { y: 5, x: i32::MIN + 1 }, ScreenCoord { y: 5, x: i32::MAX }]);
    // The same span on an eraser with many points is also fine.
    let mut eraser_points = vec![ScreenCoord { y: 0, x: i32::MIN + 1 }; 10];
    eraser_points.extend(vec![ScreenCoord { y: 0, x: i32::MAX }; 10]);
    let eraser = stroke_with(255, eraser_points);
    let strokes = vec![wide, eraser];
    // A text box whose centre times the physical width is exactly `i64::MIN`.
    let boxes = vec![text_box_at((1, 0, 2, 0))];
    let phys_w = -(1i64 << 62);
    assert!(split_inputs_fit(&strokes, &boxes, phys_w, 15819, 1, &config));
    let r = split_page(&strokes, &boxes, phys_w, 15819, 1, &config);
    assert!(r.rectangles.is_empty());
    assert_eq!(r.stroke_assignments, vec![None, None]);
    assert_eq!(r.textbox_assignments, vec![None]);
    // With twenty points and a pen colour, the span is computed and must fit.
    let mut pen_points = vec![ScreenCoord { y: 0, x: i32::MIN + 1 }; 10];
    pen_points.extend(vec![ScreenCoord { y: 0, x: i32::MAX }; 10]);
    assert!(!split_inputs_fit(&[stroke_with(0, pen_points)], &[], 11864, 15819, 1404, &config));
}

