use tag_overlay::rounding::round_scaled;
use tag_overlay::img_utils::{
    stroke_fits_i32, stroke_offset_of, thick_line_to_polygon, CapStyle, Point2I, StrokeQuad,
};

fn quad(points: [(i32, i32); 4]) -> StrokeQuad {
    StrokeQuad {
        vertices: [
            Point2I::new(points[0].0, points[0].1),
            Point2I::new(points[1].0, points[1].1),
            Point2I::new(points[2].0, points[2].1),
            Point2I::new(points[3].0, points[3].1),
        ],
    }
}

fn stroke(start: (i32, i32), end: (i32, i32), thickness: i32, cap: CapStyle) -> StrokeQuad {
    let s = Point2I::new(start.0, start.1);
    let e = Point2I::new(end.0, end.1);
    assert!(stroke_fits_i32(s, e, thickness, cap));
    thick_line_to_polygon(s, e, thickness, cap)
}

#[test]
fn square_cap_on_a_horizontal_segment() {
    // half of 3 along 45 degrees: 1.5 * 0.7071 = 1.06 in both directions
    assert_eq!(
        stroke((0, 0), (10, 0), 3, CapStyle::Square),
        quad([(1, 1), (11, 1), (9, -1), (-1, -1)])
    );
}

#[test]
fn square_cap_on_a_reversed_segment() {
    assert_eq!(
        stroke((10, 0), (0, 0), 3, CapStyle::Square),
        quad([(9, -1), (-1, -1), (1, 1), (11, 1)])
    );
}

#[test]
fn butt_cap_on_a_horizontal_segment() {
    // 1.5 straight up the y axis; the half rounds away from zero
    assert_eq!(
        stroke((0, 0), (10, 0), 3, CapStyle::Butt),
        quad([(0, 2), (10, 2), (10, -2), (0, -2)])
    );
}

#[test]
fn butt_cap_on_a_vertical_segment() {
    assert_eq!(
        stroke((0, 0), (0, 10), 3, CapStyle::Butt),
        quad([(-2, 0), (-2, 10), (2, 10), (2, 0)])
    );
}

#[test]
fn butt_cap_on_a_three_four_five_segment() {
    // unit travel vector (-0.8, 0.6); thickness 10 gives (-4, 3) exactly
    assert_eq!(
        stroke((0, 0), (3, 4), 10, CapStyle::Butt),
        quad([(-4, 3), (-1, 7), (7, 1), (4, -3)])
    );
}

#[test]
fn a_half_is_rounded_away_from_zero() {
    // thickness 5: (-2.0, 1.5), and 1.5 becomes 2
    let s = Point2I::new(0, 0);
    let e = Point2I::new(3, 4);
    assert_eq!(stroke_offset_of(s, e, 5, CapStyle::Butt), (-2, 2));
    // the mirrored segment: (2.0, -1.5), and -1.5 becomes -2
    let e = Point2I::new(-3, -4);
    assert_eq!(stroke_offset_of(s, e, 5, CapStyle::Butt), (2, -2));
}

#[test]
fn square_cap_on_a_diagonal_segment() {
    // 45 degrees turned by 45 more: 2 straight up the y axis
    assert_eq!(
        stroke((0, 0), (5, 5), 4, CapStyle::Square),
        quad([(0, 2), (5, 7), (5, 3), (0, -2)])
    );
}

#[test]
fn square_cap_offsets_around_the_compass() {
    let s = Point2I::new(0, 0);
    // 10 * 0.7071 = 7.07
    assert_eq!(stroke_offset_of(s, Point2I::new(100, 0), 20, CapStyle::Square), (7, 7));
    assert_eq!(stroke_offset_of(s, Point2I::new(0, 100), 20, CapStyle::Square), (-7, 7));
    assert_eq!(stroke_offset_of(s, Point2I::new(-100, 0), 20, CapStyle::Square), (-7, -7));
    assert_eq!(stroke_offset_of(s, Point2I::new(0, -100), 20, CapStyle::Square), (7, -7));
    assert_eq!(stroke_offset_of(s, Point2I::new(100, 100), 20, CapStyle::Square), (0, 10));
    assert_eq!(stroke_offset_of(s, Point2I::new(100, -100), 20, CapStyle::Square), (10, 0));
}

#[test]
fn butt_cap_offsets_around_the_compass() {
    let s = Point2I::new(0, 0);
    assert_eq!(stroke_offset_of(s, Point2I::new(100, 0), 20, CapStyle::Butt), (0, 10));
    assert_eq!(stroke_offset_of(s, Point2I::new(0, 100), 20, CapStyle::Butt), (-10, 0));
    assert_eq!(stroke_offset_of(s, Point2I::new(-100, 0), 20, CapStyle::Butt), (0, -10));
    assert_eq!(stroke_offset_of(s, Point2I::new(0, -100), 20, CapStyle::Butt), (10, 0));
    // 10 * 0.7071 = 7.07
    assert_eq!(stroke_offset_of(s, Point2I::new(100, 100), 20, CapStyle::Butt), (-7, 7));
}

#[test]
fn a_segment_of_length_zero_takes_the_direction_of_the_x_axis() {
    assert_eq!(
        stroke((7, 7), (7, 7), 4, CapStyle::Butt),
        quad([(7, 9), (7, 9), (7, 5), (7, 5)])
    );
    // 2 * 0.7071 = 1.41
    assert_eq!(
        stroke((7, 7), (7, 7), 4, CapStyle::Square),
        quad([(8, 8), (8, 8), (6, 6), (6, 6)])
    );
}

#[test]
fn thickness_zero_collapses_onto_the_segment() {
    for cap in [CapStyle::Butt, CapStyle::Square] {
        assert_eq!(
            stroke((-3, 8), (40, -17), 0, cap),
            quad([(-3, 8), (40, -17), (40, -17), (-3, 8)])
        );
        assert_eq!(stroke((5, 5), (5, 5), 0, cap), quad([(5, 5), (5, 5), (5, 5), (5, 5)]));
    }
}

#[test]
fn opposite_vertices_have_equal_sums() {
    let ends = [(0, 0), (13, -7), (-200, 31), (5, 5), (1, 1000)];
    for a in ends {
        for b in ends {
            for thickness in [0, 1, 2, 3, 7, 50] {
                for cap in [CapStyle::Butt, CapStyle::Square] {
                    let q = stroke(a, b, thickness, cap).vertices;
                    assert_eq!(q[0].x + q[2].x, q[1].x + q[3].x);
                    assert_eq!(q[0].y + q[2].y, q[1].y + q[3].y);
                    assert_eq!(q[0].x + q[2].x, a.0 + b.0);
                    assert_eq!(q[0].y + q[2].y, a.1 + b.1);
                }
            }
        }
    }
}

#[test]
fn butt_offset_is_perpendicular_up_to_rounding() {
    let s = Point2I::new(0, 0);
    for (dx, dy) in [(10i64, 0i64), (3, 4), (-7, 2), (1, 1), (-100, -37), (0, -5)] {
        for thickness in [1, 2, 3, 9, 40] {
            let e = Point2I::new(dx as i32, dy as i32);
            let (ox, oy) = stroke_offset_of(s, e, thickness, CapStyle::Butt);
            let dot = ox as i64 * dx + oy as i64 * dy;
            assert!(2 * dot.abs() <= dx.abs() + dy.abs());
        }
    }
}

#[test]
fn square_offset_is_diagonal_up_to_rounding() {
    let s = Point2I::new(0, 0);
    for (dx, dy) in [(10i64, 0i64), (3, 4), (-7, 2), (1, 1), (-100, -37), (0, -5)] {
        for thickness in [1, 2, 3, 9, 40] {
            let e = Point2I::new(dx as i32, dy as i32);
            let (ox, oy) = stroke_offset_of(s, e, thickness, CapStyle::Square);
            let dot = ox as i64 * dx + oy as i64 * dy;
            let cross = dx * oy as i64 - dy * ox as i64;
            assert!(2 * (dot - cross).abs() <= (dx + dy).abs() + (dx - dy).abs());
            assert!(dot >= 0 || 2 * dot.abs() <= dx.abs() + dy.abs());
        }
    }
}

#[test]
fn strokes_at_the_end_of_the_coordinate_range() {
    let far = Point2I::new(i32::MAX, 0);
    let origin = Point2I::new(0, 0);
    // the offset is (1, 1): the vertex (i32::MAX + 1, 1) cannot be held
    assert!(!stroke_fits_i32(origin, far, 3, CapStyle::Square));
    // the offset is (0, 2): every vertex can be held
    assert!(stroke_fits_i32(origin, far, 3, CapStyle::Butt));
    assert_eq!(
        thick_line_to_polygon(origin, far, 3, CapStyle::Butt),
        quad([(0, 2), (i32::MAX, 2), (i32::MAX, -2), (0, -2)])
    );
    // the longest segment there is, with the largest thickness
    let low = Point2I::new(i32::MIN, i32::MIN);
    let high = Point2I::new(i32::MAX, i32::MAX);
    assert_eq!(stroke_offset_of(low, high, i32::MAX, CapStyle::Square), (0, 1073741824));
    assert_eq!(stroke_offset_of(low, high, i32::MAX, CapStyle::Butt), (-759250125, 759250125));
}

#[test]
fn rounding_of_scaled_components() {
    // 3 * 10 / (2 * sqrt(200)) = 1.06
    assert_eq!(round_scaled(3, 10, 200), 1);
    assert_eq!(round_scaled(3, -10, 200), -1);
    // 5 * 3 / (2 * sqrt(25)) = 1.5, a half
    assert_eq!(round_scaled(5, 3, 25), 2);
    assert_eq!(round_scaled(5, -3, 25), -2);
    // 1 * 1 / (2 * sqrt(1)) = 0.5, the smallest half
    assert_eq!(round_scaled(1, 1, 1), 1);
    assert_eq!(round_scaled(1, -1, 1), -1);
    // 1 * 1 / (2 * sqrt(2)) = 0.35
    assert_eq!(round_scaled(1, 1, 2), 0);
    assert_eq!(round_scaled(1, -1, 2), 0);
    assert_eq!(round_scaled(0, 7, 49), 0);
    assert_eq!(round_scaled(9, 0, 49), 0);
    // 15 * 405 / (2 * 675) = 4.5 exactly
    assert_eq!(round_scaled(15, -405, 455625), -5);
    assert_eq!(round_scaled(15, 405, 455625), 5);
    // just below and just above a half
    assert_eq!(round_scaled(15, 405, 455626), 4);
    assert_eq!(round_scaled(15, 405, 455624), 5);
}

#[test]
fn a_half_that_binary_fractions_miss() {
    // the unit travel vector is (-0.8, -0.6); 7.5 times it is (-6, -4.5)
    let s = Point2I::new(446, -303);
    let e = Point2I::new(41, 237);
    assert_eq!(stroke_offset_of(s, e, 15, CapStyle::Butt), (-6, -5));
}

#[test]
fn square_offset_along_the_x_axis_does_not_depend_on_length() {
    let s = Point2I::new(-7, 3);
    for length in [1, 2, 10, 999, 1_000_000] {
        let e = Point2I::new(-7 + length, 3);
        // thickness / (2 * sqrt(2)): 0, 0.35, 0.71, 1.06, 1.41, 1.77, 3.54, 35.36, 353.55
        for (thickness, nearest) in
            [(0, 0), (1, 0), (2, 1), (3, 1), (4, 1), (5, 2), (10, 4), (100, 35), (1000, 354)]
        {
            assert_eq!(stroke_offset_of(s, e, thickness, CapStyle::Square), (nearest, nearest));
        }
    }
}
