use tag_overlay::filter::{FilterConfig, RawDetection};
use tag_overlay::img_utils::{thick_line_to_polygon, CapStyle, Point2I};
use tag_overlay::label::decimal_string;
use tag_overlay::raster::Rgb8;
use tag_overlay::overlay::{
    detection_commands, outline_fits_i32, outline_quads, overlay_commands, overlay_fits_i32,
    DrawCommand, OverlayStyle, DEFAULT_THICKNESS,
};

fn marker(id: usize, origin: (i32, i32), side: i32) -> RawDetection {
    let (x, y) = origin;
    RawDetection {
        id,
        corners: vec![
            Point2I::new(x, y),
            Point2I::new(x + side, y),
            Point2I::new(x + side, y + side),
            Point2I::new(x, y + side),
        ],
        center: Point2I::new(x + side / 2, y + side / 2),
    }
}

#[test]
fn default_style() {
    let style = OverlayStyle::default();
    assert_eq!(style.thickness, 3);
    assert_eq!(style.cap, CapStyle::Square);
    assert_eq!(style.color, Rgb8 { r: 255, g: 0, b: 0 });
    assert_eq!(DEFAULT_THICKNESS, 3);
}

#[test]
fn decimal_labels() {
    assert_eq!(decimal_string(0), "0");
    assert_eq!(decimal_string(7), "7");
    assert_eq!(decimal_string(9), "9");
    assert_eq!(decimal_string(10), "10");
    assert_eq!(decimal_string(108), "108");
    assert_eq!(decimal_string(1234567890), "1234567890");
    assert_eq!(decimal_string(usize::MAX), format!("{}", usize::MAX));
}

#[test]
fn accepted_detection_gives_four_strokes_and_one_label() {
    let raw = marker(5, (100, 200), 100);
    let style = OverlayStyle::default();
    let filter = FilterConfig::default();
    assert!(outline_fits_i32(&raw.corners, &style));
    let commands = detection_commands(&raw, &filter, &style);
    assert_eq!(commands.len(), 5);
    for i in 0..4 {
        let from = raw.corners[i];
        let to = raw.corners[(i + 1) % 4];
        assert_eq!(
            commands[i],
            DrawCommand::Polygon(thick_line_to_polygon(from, to, 3, CapStyle::Square))
        );
    }
    assert_eq!(
        commands[4],
        DrawCommand::Label { text: "5".to_string(), anchor: Point2I::new(150, 250) }
    );
}

#[test]
fn strokes_follow_the_corner_loop_with_wrap_around() {
    let raw = marker(1, (0, 0), 100);
    let style = OverlayStyle { thickness: 4, cap: CapStyle::Butt, ..OverlayStyle::default() };
    let quads = outline_quads(&raw.corners, &style);
    assert_eq!(quads.len(), 4);
    let at = |q: usize, v: usize| (quads[q].vertices[v].x, quads[q].vertices[v].y);
    // bottom edge, offset (0, 2)
    assert_eq!([at(0, 0), at(0, 1), at(0, 2), at(0, 3)], [(0, 2), (100, 2), (100, -2), (0, -2)]);
    // right edge, offset (-2, 0)
    assert_eq!(
        [at(1, 0), at(1, 1), at(1, 2), at(1, 3)],
        [(98, 0), (98, 100), (102, 100), (102, 0)]
    );
    // top edge, offset (0, -2)
    assert_eq!(
        [at(2, 0), at(2, 1), at(2, 2), at(2, 3)],
        [(100, 98), (0, 98), (0, 102), (100, 102)]
    );
    // the edge from the last corner back to the first, offset (2, 0)
    assert_eq!([at(3, 0), at(3, 1), at(3, 2), at(3, 3)], [(2, 100), (2, 0), (-2, 0), (-2, 100)]);
}

#[test]
fn outline_of_other_corner_counts() {
    let style = OverlayStyle::default();
    assert_eq!(outline_quads(&vec![], &style).len(), 0);
    let single = outline_quads(&vec![Point2I::new(4, 4)], &style);
    assert_eq!(single.len(), 1);
    assert_eq!(
        single[0],
        thick_line_to_polygon(Point2I::new(4, 4), Point2I::new(4, 4), 3, CapStyle::Square)
    );
    let triangle = vec![Point2I::new(0, 0), Point2I::new(50, 0), Point2I::new(0, 50)];
    let quads = outline_quads(&triangle, &style);
    assert_eq!(quads.len(), 3);
    assert_eq!(
        quads[2],
        thick_line_to_polygon(Point2I::new(0, 50), Point2I::new(0, 0), 3, CapStyle::Square)
    );
}

#[test]
fn rejected_detection_gives_nothing() {
    let style = OverlayStyle::default();
    let filter = FilterConfig::default();
    // identifier too large
    assert_eq!(detection_commands(&marker(9, (0, 0), 100), &filter, &style), vec![]);
    // too small
    assert_eq!(detection_commands(&marker(1, (0, 0), 10), &filter, &style), vec![]);
    // three corners
    let mut triangle = marker(1, (0, 0), 100);
    triangle.corners.pop();
    assert_eq!(detection_commands(&triangle, &filter, &style), vec![]);
}

#[test]
fn overlay_keeps_detection_order_and_skips_rejected() {
    let style = OverlayStyle::default();
    let filter = FilterConfig::default();
    let detections = vec![
        marker(2, (0, 0), 100),
        marker(9, (300, 0), 100),
        marker(7, (0, 300), 50),
        marker(4, (300, 300), 10),
        marker(0, (600, 600), 200),
    ];
    assert!(overlay_fits_i32(&detections, &filter, &style));
    let commands = overlay_commands(&detections, &filter, &style);
    let mut expected = detection_commands(&detections[0], &filter, &style);
    expected.extend(detection_commands(&detections[2], &filter, &style));
    expected.extend(detection_commands(&detections[4], &filter, &style));
    assert_eq!(commands, expected);
    assert_eq!(commands.len(), 15);
    let polygons = commands.iter().filter(|c| matches!(c, DrawCommand::Polygon(_))).count();
    let labels: Vec<&str> = commands
        .iter()
        .filter_map(|c| match c {
            DrawCommand::Label { text, .. } => Some(text.as_str()),
            DrawCommand::Polygon(_) => None,
        })
        .collect();
    assert_eq!(polygons, 12);
    assert_eq!(labels, ["2", "7", "0"]);
    for (i, command) in commands.iter().enumerate() {
        assert_eq!(matches!(command, DrawCommand::Label { .. }), i % 5 == 4);
    }
}

#[test]
fn overlay_of_nothing_is_empty() {
    let style = OverlayStyle::default();
    let filter = FilterConfig::default();
    assert_eq!(overlay_commands(&vec![], &filter, &style), vec![]);
    assert_eq!(overlay_commands(&vec![marker(20, (0, 0), 500)], &filter, &style), vec![]);
}

#[test]
fn overlay_is_repeatable() {
    let style = OverlayStyle { thickness: 7, cap: CapStyle::Butt, ..OverlayStyle::default() };
    let filter = FilterConfig { max_id: 100, min_area: 10 };
    let detections =
        vec![marker(42, (-50, 13), 77), marker(101, (0, 0), 100), marker(3, (1000, -2000), 31)];
    let first = overlay_commands(&detections, &filter, &style);
    let second = overlay_commands(&detections, &filter, &style);
    assert_eq!(first, second);
    assert_eq!(first.len(), 10);
}

#[test]
fn strokes_that_leave_the_coordinate_range_are_told_apart() {
    let style = OverlayStyle::default();
    let filter = FilterConfig::default();
    let edge = RawDetection {
        id: 1,
        corners: vec![
            Point2I::new(i32::MAX - 100, 0),
            Point2I::new(i32::MAX, 0),
            Point2I::new(i32::MAX, 100),
            Point2I::new(i32::MAX - 100, 100),
        ],
        center: Point2I::new(i32::MAX - 50, 50),
    };
    assert!(!outline_fits_i32(&edge.corners, &style));
    assert!(!overlay_fits_i32(&vec![marker(1, (0, 0), 100), edge.clone()], &filter, &style));
    // a rejected detection is never stroked, so it does not matter
    let mut rejected = edge;
    rejected.id = 9;
    assert!(overlay_fits_i32(&vec![marker(1, (0, 0), 100), rejected], &filter, &style));
}

#[test]
fn overlay_of_joined_lists_is_the_overlays_joined() {
    let style = OverlayStyle::default();
    let filter = FilterConfig::default();
    let front = vec![marker(1, (0, 0), 100), marker(9, (5, 5), 100)];
    let back = vec![marker(3, (0, 0), 5), marker(4, (50, 50), 60), marker(5, (-200, 0), 90)];
    let mut all = front.clone();
    all.extend(back.iter().cloned());
    let mut expected = overlay_commands(&front, &filter, &style);
    expected.extend(overlay_commands(&back, &filter, &style));
    assert_eq!(overlay_commands(&all, &filter, &style), expected);
    assert_eq!(expected.len(), 15);
}
