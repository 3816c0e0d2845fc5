//! Stroke geometry: a line segment with a thickness becomes a quadrilateral.
//!
//! The stroke of a segment is the segment moved by an offset to one side and
//! by the opposite offset to the other. The offset is half the thickness
//! along a travel direction, which is the segment's direction turned by 90
//! degrees (butt cap) or by 45 degrees (square cap), each component rounded
//! to the nearest integer, a half away from zero. All of it is computed in
//! integers, so equal inputs give equal strokes on every machine.

use crate::rounding::{
    lemma_balance_kept, lemma_round_bounded, lemma_round_nonzero, lemma_round_scale,
    lemma_round_sign, lemma_round_zero, magnitude, round_half_sqrt, round_scaled,
};
use vstd::prelude::*;

verus! {

/// An integer coordinate pair in image space.
#[derive(Clone, Copy, Debug, PartialEq, Eq, Structural)]
pub struct Point2I {
    pub x: i32,
    pub y: i32,
}

/// How the half-thickness offset of a stroke is turned against the segment.
#[derive(Clone, Copy, Debug, PartialEq, Eq, Structural)]
pub enum CapStyle {
    /// The offset is perpendicular to the segment.
    Butt,
    /// The offset is turned 45 degrees from the segment, which lengthens
    /// the stroke diagonally past its end points.
    Square,
}

/// The four vertices of a stroke, in drawing order: consecutive vertices are
/// joined by an edge, and so are the last and the first.
#[derive(Clone, Copy, Debug, PartialEq, Eq)]
pub struct StrokeQuad {
    pub vertices: [Point2I; 4],
}

impl Point2I {
    /// Builds the point `(x, y)`.
    pub fn new(x: i32, y: i32) -> (p: Point2I)
        ensures
            p.x == x,
            p.y == y,
    {
        Point2I { x, y }
    }

    /// The point as a pair of mathematical integers.
    pub open spec fn coords(self) -> (int, int) {
        (self.x as int, self.y as int)
    }
}

impl View for StrokeQuad {
    type V = Seq<(int, int)>;

    /// The vertices as pairs of mathematical integers, in drawing order.
    open spec fn view(&self) -> Seq<(int, int)> {
        Seq::new(4, |i: int| self.vertices@[i].coords())
    }
}

/// The direction of a segment. A segment of length zero has no direction of
/// its own and takes that of the x axis.
pub open spec fn direction(start: Point2I, end: Point2I) -> (int, int) {
    if start == end {
        (1, 0)
    } else {
        (end.x - start.x, end.y - start.y)
    }
}

/// A vector along the travel direction: `dir` turned by 90 degrees for a
/// butt cap, and `dir` turned by 45 degrees (and stretched by `sqrt(2)`) for
/// a square cap.
pub open spec fn travel(dir: (int, int), cap: CapStyle) -> (int, int) {
    match cap {
        CapStyle::Butt => (-dir.1, dir.0),
        CapStyle::Square => (dir.0 - dir.1, dir.0 + dir.1),
    }
}

/// The squared length of `travel(dir, cap)`.
pub open spec fn travel_len_sq(dir: (int, int), cap: CapStyle) -> int {
    match cap {
        CapStyle::Butt => dir.0 * dir.0 + dir.1 * dir.1,
        CapStyle::Square => 2 * (dir.0 * dir.0 + dir.1 * dir.1),
    }
}

/// The offset of a stroke: half the thickness times the unit vector of the
/// travel direction, each component rounded to the nearest integer.
pub open spec fn stroke_offset(start: Point2I, end: Point2I, thickness: int, cap: CapStyle) -> (
    int,
    int,
) {
    let v = travel(direction(start, end), cap);
    let m = travel_len_sq(direction(start, end), cap);
    (round_half_sqrt(thickness * v.0, m), round_half_sqrt(thickness * v.1, m))
}

/// The outline of a stroke with a given offset: both end points moved by the
/// offset, then both moved against it, so that consecutive vertices are
/// neighbours on the outline.
pub open spec fn outline_with(start: Point2I, end: Point2I, off: (int, int)) -> Seq<(int, int)> {
    seq![
        (start.x + off.0, start.y + off.1),
        (end.x + off.0, end.y + off.1),
        (end.x - off.0, end.y - off.1),
        (start.x - off.0, start.y - off.1),
    ]
}

/// The outline of the stroke of a segment.
pub open spec fn stroke_outline(start: Point2I, end: Point2I, thickness: int, cap: CapStyle) -> Seq<
    (int, int),
> {
    outline_with(start, end, stroke_offset(start, end, thickness, cap))
}

/// Both coordinates of a vertex are `i32` values.
pub open spec fn in_i32_range(v: (int, int)) -> bool {
    &&& i32::MIN <= v.0 <= i32::MAX
    &&& i32::MIN <= v.1 <= i32::MAX
}

/// Every vertex of the stroke can be held in a `Point2I`.
pub open spec fn stroke_fits(start: Point2I, end: Point2I, thickness: int, cap: CapStyle) -> bool {
    forall|i: int|
        0 <= i < 4 ==> in_i32_range(#[trigger] stroke_outline(start, end, thickness, cap)[i])
}

/// The travel vector is never zero, and neither component is longer than the
/// vector itself.
pub proof fn lemma_travel_components(start: Point2I, end: Point2I, cap: CapStyle)
    ensures
        0 < travel_len_sq(direction(start, end), cap) < 0x4_0000_0000_0000_0000,
        travel(direction(start, end), cap).0 * travel(direction(start, end), cap).0
            <= travel_len_sq(direction(start, end), cap),
        travel(direction(start, end), cap).1 * travel(direction(start, end), cap).1
            <= travel_len_sq(direction(start, end), cap),
{
    let d = direction(start, end);
    let (dx, dy) = d;
    assert(dx != 0 || dy != 0);
    assert(-0x1_0000_0000 < dx < 0x1_0000_0000);
    assert(-0x1_0000_0000 < dy < 0x1_0000_0000);
    assert(0 < dx * dx + dy * dy) by (nonlinear_arith)
        requires
            dx != 0 || dy != 0,
    ;
    assert(dx * dx < 0x1_0000_0000_0000_0000) by (nonlinear_arith)
        requires
            -0x1_0000_0000 < dx < 0x1_0000_0000,
    ;
    assert(dy * dy < 0x1_0000_0000_0000_0000) by (nonlinear_arith)
        requires
            -0x1_0000_0000 < dy < 0x1_0000_0000,
    ;
    assert(0 <= dx * dx && 0 <= dy * dy) by (nonlinear_arith);
    assert((-dy) * (-dy) == dy * dy) by (nonlinear_arith);
    assert((dx - dy) * (dx - dy) <= 2 * (dx * dx + dy * dy)) by (nonlinear_arith);
    assert((dx + dy) * (dx + dy) <= 2 * (dx * dx + dy * dy)) by (nonlinear_arith);
}

/// Neither component of the offset exceeds half the thickness, rounded.
pub proof fn lemma_offset_bounded(start: Point2I, end: Point2I, thickness: int, cap: CapStyle)
    requires
        0 <= thickness,
    ensures
        -((thickness + 1) / 2) <= stroke_offset(start, end, thickness, cap).0 <= (thickness + 1)
            / 2,
        -((thickness + 1) / 2) <= stroke_offset(start, end, thickness, cap).1 <= (thickness + 1)
            / 2,
{
    let v = travel(direction(start, end), cap);
    let m = travel_len_sq(direction(start, end), cap);
    lemma_travel_components(start, end, cap);
    lemma_round_bounded(thickness, v.0, m);
    lemma_round_bounded(thickness, v.1, m);
}

/// The stroke fits whenever both end points keep a margin of half the
/// thickness, rounded, from the ends of the `i32` range.
pub proof fn lemma_stroke_fits_with_margin(
    start: Point2I,
    end: Point2I,
    thickness: int,
    cap: CapStyle,
)
    requires
        0 <= thickness,
        i32::MIN + (thickness + 1) / 2 <= start.x <= i32::MAX - (thickness + 1) / 2,
        i32::MIN + (thickness + 1) / 2 <= start.y <= i32::MAX - (thickness + 1) / 2,
        i32::MIN + (thickness + 1) / 2 <= end.x <= i32::MAX - (thickness + 1) / 2,
        i32::MIN + (thickness + 1) / 2 <= end.y <= i32::MAX - (thickness + 1) / 2,
    ensures
        stroke_fits(start, end, thickness, cap),
{
    lemma_offset_bounded(start, end, thickness, cap);
}

/// The opposite vertices of a stroke have the same sum: the outline is a
/// parallelogram about the midpoint of the segment. Two of its sides run
/// along the segment, and the other two along twice the offset, so that no
/// two sides cross.
pub proof fn lemma_outline_parallelogram(
    start: Point2I,
    end: Point2I,
    thickness: int,
    cap: CapStyle,
)
    ensures
        ({
            let q = stroke_outline(start, end, thickness, cap);
            let off = stroke_offset(start, end, thickness, cap);
            &&& q.len() == 4
            &&& q[0].0 + q[2].0 == q[1].0 + q[3].0 == start.x + end.x
            &&& q[0].1 + q[2].1 == q[1].1 + q[3].1 == start.y + end.y
            &&& q[1].0 - q[0].0 == q[2].0 - q[3].0 == end.x - start.x
            &&& q[1].1 - q[0].1 == q[2].1 - q[3].1 == end.y - start.y
            &&& q[0].0 - q[3].0 == q[1].0 - q[2].0 == 2 * off.0
            &&& q[0].1 - q[3].1 == q[1].1 - q[2].1 == 2 * off.1
        }),
{
}

/// A stroke of thickness zero lies on its segment: the outline runs from
/// the start to the end and back.
pub proof fn lemma_zero_thickness_outline(start: Point2I, end: Point2I, cap: CapStyle)
    ensures
        stroke_offset(start, end, 0, cap) == (0int, 0int),
        stroke_outline(start, end, 0, cap) == seq![
            start.coords(),
            end.coords(),
            end.coords(),
            start.coords(),
        ],
        stroke_fits(start, end, 0, cap),
{
    let v = travel(direction(start, end), cap);
    let m = travel_len_sq(direction(start, end), cap);
    lemma_travel_components(start, end, cap);
    lemma_round_zero(m);
    assert(0 * v.0 == 0 && 0 * v.1 == 0) by (nonlinear_arith);
    assert(stroke_outline(start, end, 0, cap) =~= seq![
        start.coords(),
        end.coords(),
        end.coords(),
        start.coords(),
    ]);
}

/// The dot product of two vectors.
pub open spec fn dot(a: (int, int), b: (int, int)) -> int {
    a.0 * b.0 + a.1 * b.1
}

/// The cross product of two vectors: positive when `b` points to the left
/// of `a` in a frame whose x axis, turned by 90 degrees, gives its y axis.
pub open spec fn wedge(a: (int, int), b: (int, int)) -> int {
    a.0 * b.1 - a.1 * b.0
}

/// The travel vector stands at the angle of its cap style to the direction:
/// for a butt cap it is the direction turned by 90 degrees, so the dot
/// product vanishes; for a square cap it is turned by 45 degrees, so the dot
/// product and the cross product are equal. Either way the turn goes from
/// the x axis towards the y axis.
pub proof fn lemma_travel_angle(dir: (int, int), cap: CapStyle)
    ensures
        dot(travel(dir, cap), travel(dir, cap)) == travel_len_sq(dir, cap),
        cap == CapStyle::Butt ==> dot(dir, travel(dir, cap)) == 0 && wedge(dir, travel(dir, cap))
            == dot(dir, dir),
        cap == CapStyle::Square ==> dot(dir, travel(dir, cap)) == dot(dir, dir) && wedge(
            dir,
            travel(dir, cap),
        ) == dot(dir, dir),
{
    let (dx, dy) = dir;
    assert((-dy) * (-dy) + dx * dx == dx * dx + dy * dy) by (nonlinear_arith);
    assert(dx * (-dy) + dy * dx == 0) by (nonlinear_arith);
    assert(dx * dx - dy * (-dy) == dx * dx + dy * dy) by (nonlinear_arith);
    assert((dx - dy) * (dx - dy) + (dx + dy) * (dx + dy) == 2 * (dx * dx + dy * dy))
        by (nonlinear_arith);
    assert(dx * (dx - dy) + dy * (dx + dy) == dx * dx + dy * dy) by (nonlinear_arith);
    assert(dx * (dx + dy) - dy * (dx - dy) == dx * dx + dy * dy) by (nonlinear_arith);
}

/// With a butt cap the offset is perpendicular to the segment, up to
/// rounding: its dot product with the direction would vanish if the offset
/// were not rounded, and two rounding errors of at most a half leave at most
/// half of `|dx| + |dy|`. The offset never points to the right of the
/// direction.
pub proof fn lemma_butt_offset_perpendicular(start: Point2I, end: Point2I, thickness: int)
    requires
        0 <= thickness,
    ensures
        ({
            let dir = direction(start, end);
            let off = stroke_offset(start, end, thickness, CapStyle::Butt);
            &&& 2 * magnitude(dot(dir, off)) <= magnitude(dir.0) + magnitude(dir.1)
            &&& 0 <= wedge(dir, off)
        }),
{
    let dir = direction(start, end);
    let (dx, dy) = dir;
    let m = travel_len_sq(dir, CapStyle::Butt);
    lemma_travel_components(start, end, CapStyle::Butt);
    assert(dx * (thickness * (-dy)) + dy * (thickness * dx) == 0) by (nonlinear_arith);
    lemma_balance_kept(dx, thickness * (-dy), dy, thickness * dx, m);
    let off = stroke_offset(start, end, thickness, CapStyle::Butt);
    lemma_round_sign(thickness * (-dy), m);
    lemma_round_sign(thickness * dx, m);
    assert(dx * off.1 >= 0) by (nonlinear_arith)
        requires
            (thickness * dx) * off.1 >= 0,
            (thickness * dx >= 0 ==> off.1 >= 0),
            (thickness * dx <= 0 ==> off.1 <= 0),
            0 <= thickness,
    ;
    assert(dy * off.0 <= 0) by (nonlinear_arith)
        requires
            (thickness * (-dy) >= 0 ==> off.0 >= 0),
            (thickness * (-dy) <= 0 ==> off.0 <= 0),
            0 <= thickness,
    ;
}

/// With a square cap the offset stands at 45 degrees to the segment, up to
/// rounding: its dot product and its cross product with the direction would
/// be equal if the offset were not rounded, and two rounding errors of at
/// most a half let them differ by at most half of `|dx + dy| + |dx - dy|`.
/// The offset never points into the half plane opposite to that diagonal.
pub proof fn lemma_square_offset_diagonal(start: Point2I, end: Point2I, thickness: int)
    requires
        0 <= thickness,
    ensures
        ({
            let dir = direction(start, end);
            let off = stroke_offset(start, end, thickness, CapStyle::Square);
            &&& 2 * magnitude(dot(dir, off) - wedge(dir, off)) <= magnitude(dir.0 + dir.1) + magnitude(
                dir.0 - dir.1,
            )
            &&& 0 <= dot(dir, off) + wedge(dir, off)
        }),
{
    let dir = direction(start, end);
    let (dx, dy) = dir;
    let m = travel_len_sq(dir, CapStyle::Square);
    lemma_travel_components(start, end, CapStyle::Square);
    assert((dx + dy) * (thickness * (dx - dy)) + (dy - dx) * (thickness * (dx + dy)) == 0)
        by (nonlinear_arith);
    lemma_balance_kept(dx + dy, thickness * (dx - dy), dy - dx, thickness * (dx + dy), m);
    let off = stroke_offset(start, end, thickness, CapStyle::Square);
    assert(dot(dir, off) - wedge(dir, off) == (dx + dy) * off.0 + (dy - dx) * off.1)
        by (nonlinear_arith)
        requires
            dot(dir, off) == dx * off.0 + dy * off.1,
            wedge(dir, off) == dx * off.1 - dy * off.0,
    ;
    assert(dot(dir, off) + wedge(dir, off) == (dx - dy) * off.0 + (dx + dy) * off.1)
        by (nonlinear_arith)
        requires
            dot(dir, off) == dx * off.0 + dy * off.1,
            wedge(dir, off) == dx * off.1 - dy * off.0,
    ;
    lemma_round_sign(thickness * (dx - dy), m);
    lemma_round_sign(thickness * (dx + dy), m);
    assert((dx - dy) * off.0 >= 0) by (nonlinear_arith)
        requires
            (thickness * (dx - dy) >= 0 ==> off.0 >= 0),
            (thickness * (dx - dy) <= 0 ==> off.0 <= 0),
            0 <= thickness,
    ;
    assert((dx + dy) * off.1 >= 0) by (nonlinear_arith)
        requires
            (thickness * (dx + dy) >= 0 ==> off.1 >= 0),
            (thickness * (dx + dy) <= 0 ==> off.1 <= 0),
            0 <= thickness,
    ;
}

/// With a square cap, a segment that runs along the x axis towards larger
/// x has an offset on the diagonal: both components are the integer nearest
/// to `thickness / (2 * sqrt(2))`, whatever the length of the segment. From
/// thickness 2 on they are positive, so the offset reaches forward along the
/// segment as well as sideways, where a butt cap reaches sideways only.
pub proof fn lemma_square_offset_along_x(start: Point2I, end: Point2I, thickness: int)
    requires
        0 <= thickness,
        start.y == end.y,
        start.x < end.x,
    ensures
        ({
            let off = stroke_offset(start, end, thickness, CapStyle::Square);
            &&& off.0 == off.1 == round_half_sqrt(thickness, 2)
            &&& 0 <= off.0
            &&& 2 <= thickness ==> 1 <= off.0 && 0 < off.0 * (end.x - start.x)
        }),
{
    let dx = end.x - start.x;
    let off = stroke_offset(start, end, thickness, CapStyle::Square);
    assert(direction(start, end) == (dx, 0int));
    assert(2 * (dx * dx + 0 * 0) == dx * dx * 2) by (nonlinear_arith);
    assert(thickness * (dx - 0) == dx * thickness && thickness * (dx + 0) == dx * thickness)
        by (nonlinear_arith);
    lemma_round_scale(dx, thickness, 2);
    lemma_round_sign(thickness, 2);
    if 2 <= thickness {
        assert(2 <= thickness * thickness) by (nonlinear_arith)
            requires
                2 <= thickness,
        ;
        lemma_round_nonzero(thickness, 2);
        assert(0 < off.0 * dx) by (nonlinear_arith)
            requires
                1 <= off.0,
                1 <= dx,
        ;
    }
}

/// From thickness 2 on a stroke has a width: half the thickness is at
/// least 1, the longer component of the unit travel vector is at least
/// `sqrt(1/2)`, and their product rounds to an integer that is not zero. So
/// the first and the last vertex of the outline are different points.
pub proof fn lemma_offset_nonzero(start: Point2I, end: Point2I, thickness: int, cap: CapStyle)
    requires
        2 <= thickness,
    ensures
        stroke_offset(start, end, thickness, cap) != (0int, 0int),
        stroke_outline(start, end, thickness, cap)[0] != stroke_outline(
            start,
            end,
            thickness,
            cap,
        )[3],
{
    let dir = direction(start, end);
    let v = travel(dir, cap);
    let m = travel_len_sq(dir, cap);
    lemma_travel_components(start, end, cap);
    lemma_travel_angle(dir, cap);
    let (a, b) = (v.0 * v.0, v.1 * v.1);
    assert(a + b == m);
    let t2 = thickness * thickness;
    assert(4 <= t2) by (nonlinear_arith)
        requires
            2 <= thickness,
            t2 == thickness * thickness,
    ;
    if a >= b {
        assert((thickness * v.0) * (thickness * v.0) == t2 * a) by (nonlinear_arith)
            requires
                t2 == thickness * thickness,
                a == v.0 * v.0,
        ;
        assert(t2 * a >= 4 * a) by (nonlinear_arith)
            requires
                4 <= t2,
                0 <= a,
        ;
        lemma_round_nonzero(thickness * v.0, m);
    } else {
        assert((thickness * v.1) * (thickness * v.1) == t2 * b) by (nonlinear_arith)
            requires
                t2 == thickness * thickness,
                b == v.1 * v.1,
        ;
        assert(t2 * b >= 4 * b) by (nonlinear_arith)
            requires
                4 <= t2,
                0 <= b,
        ;
        lemma_round_nonzero(thickness * v.1, m);
    }
}

/// The offset of the stroke of a segment.
pub fn stroke_offset_of(start: Point2I, end: Point2I, thickness: i32, cap: CapStyle) -> (off: (
    i32,
    i32,
))
    requires
        0 <= thickness,
    ensures
        (off.0 as int, off.1 as int) == stroke_offset(start, end, thickness as int, cap),
{
    let degenerate: bool = start.x == end.x && start.y == end.y;
    let dx: i64 = if degenerate {
        1
    } else {
        end.x as i64 - start.x as i64
    };
    let dy: i64 = if degenerate {
        0
    } else {
        end.y as i64 - start.y as i64
    };
    proof {
        lemma_travel_components(start, end, cap);
        assert(dx * dx < 0x1_0000_0000_0000_0000) by (nonlinear_arith)
            requires
                -0x1_0000_0000 < dx < 0x1_0000_0000,
        ;
        assert(dy * dy < 0x1_0000_0000_0000_0000) by (nonlinear_arith)
            requires
                -0x1_0000_0000 < dy < 0x1_0000_0000,
        ;
        assert(0 <= dx * dx && 0 <= dy * dy) by (nonlinear_arith);
    }
    let len_sq: u128 = ((dx as i128) * (dx as i128) + (dy as i128) * (dy as i128)) as u128;
    match cap {
        CapStyle::Butt => (
            round_scaled(thickness, -dy, len_sq),
            round_scaled(thickness, dx, len_sq),
        ),
        CapStyle::Square => (
            round_scaled(thickness, dx - dy, 2 * len_sq),
            round_scaled(thickness, dx + dy, 2 * len_sq),
        ),
    }
}

/// Whether every vertex of the stroke of a segment can be held in a
/// `Point2I`.
pub fn stroke_fits_i32(start: Point2I, end: Point2I, thickness: i32, cap: CapStyle) -> (fits: bool)
    requires
        0 <= thickness,
    ensures
        fits == stroke_fits(start, end, thickness as int, cap),
{
    let off = stroke_offset_of(start, end, thickness, cap);
    let fits = fits_around(start.x, off.0) && fits_around(start.y, off.1) && fits_around(
        end.x,
        off.0,
    ) && fits_around(end.y, off.1);
    proof {
        let q = stroke_outline(start, end, thickness as int, cap);
        if fits {
            assert forall|i: int| 0 <= i < 4 implies in_i32_range(#[trigger] q[i]) by {}
        } else {
            assert(!in_i32_range(q[0]) || !in_i32_range(q[1]) || !in_i32_range(q[2])
                || !in_i32_range(q[3]));
        }
    }
    fits
}

/// Whether `c + d` and `c - d` are both `i32` values.
fn fits_around(c: i32, d: i32) -> (fits: bool)
    ensures
        fits == (i32::MIN <= c + d <= i32::MAX && i32::MIN <= c - d <= i32::MAX),
{
    let sum: i64 = c as i64 + d as i64;
    let diff: i64 = c as i64 - d as i64;
    -0x8000_0000 <= sum && sum <= 0x7fff_ffff && -0x8000_0000 <= diff && diff <= 0x7fff_ffff
}

/// Turns a line segment into the quadrilateral that outlines its stroke.
///
/// The vertices are `start + offset`, `end + offset`, `end - offset` and
/// `start - offset`, in this order.
pub fn thick_line_to_polygon(
    line_start: Point2I,
    line_end: Point2I,
    thickness: i32,
    cap_style: CapStyle,
) -> (quad: StrokeQuad)
    requires
        0 <= thickness,
        stroke_fits(line_start, line_end, thickness as int, cap_style),
    ensures
        quad@ == stroke_outline(line_start, line_end, thickness as int, cap_style),
        quad@[0].0 + quad@[2].0 == quad@[1].0 + quad@[3].0,
        quad@[0].1 + quad@[2].1 == quad@[1].1 + quad@[3].1,
        thickness == 0 ==> quad@ == seq![
            line_start.coords(),
            line_end.coords(),
            line_end.coords(),
            line_start.coords(),
        ],
        ({
            let dir = direction(line_start, line_end);
            let off = (quad@[0].0 - line_start.x, quad@[0].1 - line_start.y);
            &&& off == stroke_offset(line_start, line_end, thickness as int, cap_style)
            &&& cap_style == CapStyle::Butt ==> {
                &&& 2 * magnitude(dot(dir, off)) <= magnitude(dir.0) + magnitude(dir.1)
                &&& 0 <= wedge(dir, off)
            }
            &&& cap_style == CapStyle::Square ==> {
                &&& 2 * magnitude(dot(dir, off) - wedge(dir, off)) <= magnitude(dir.0 + dir.1)
                    + magnitude(dir.0 - dir.1)
                &&& 0 <= dot(dir, off) + wedge(dir, off)
            }
            &&& cap_style == CapStyle::Square && line_start.y == line_end.y && line_start.x
                < line_end.x ==> {
                &&& off.0 == off.1 == round_half_sqrt(thickness as int, 2)
                &&& 2 <= thickness ==> 0 < off.0 * (line_end.x - line_start.x)
            }
        }),
{
    let off = stroke_offset_of(line_start, line_end, thickness, cap_style);
    proof {
        match cap_style {
            CapStyle::Butt => {
                lemma_butt_offset_perpendicular(line_start, line_end, thickness as int);
            },
            CapStyle::Square => {
                lemma_square_offset_diagonal(line_start, line_end, thickness as int);
                if line_start.y == line_end.y && line_start.x < line_end.x {
                    lemma_square_offset_along_x(line_start, line_end, thickness as int);
                }
            },
        }
        let q = stroke_outline(line_start, line_end, thickness as int, cap_style);
        assert(in_i32_range(q[0]) && in_i32_range(q[1]) && in_i32_range(q[2]) && in_i32_range(
            q[3],
        ));
        lemma_outline_parallelogram(line_start, line_end, thickness as int, cap_style);
        if thickness == 0 {
            lemma_zero_thickness_outline(line_start, line_end, cap_style);
        }
    }
    let quad = StrokeQuad {
        vertices: [
            Point2I { x: line_start.x + off.0, y: line_start.y + off.1 },
            Point2I { x: line_end.x + off.0, y: line_end.y + off.1 },
            Point2I { x: line_end.x - off.0, y: line_end.y - off.1 },
            Point2I { x: line_start.x - off.0, y: line_start.y - off.1 },
        ],
    };
    assert(quad@ =~= stroke_outline(line_start, line_end, thickness as int, cap_style));
    quad
}

} // verus!
