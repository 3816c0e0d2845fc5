//! An RGB raster, and the painting of strokes into it.
//!
//! The raster is a plain buffer of bytes, three per pixel, row after row.
//! Filling a quadrilateral is left to `imageproc`; this module decides what
//! is handed to it, keeps away what it cannot take, and says what the
//! raster holds afterwards in terms of the single fill.

use crate::filter::{
    edge_end, filter_detection, is_accepted, lemma_edge_end_is_corner, FilterConfig,
    FilterDecision, RawDetection,
};
use crate::img_utils::{
    in_i32_range, lemma_offset_bounded, lemma_offset_nonzero, stroke_fits, Point2I, StrokeQuad,
};
use crate::label::decimal_string;
use crate::overlay::{
    corners_within, detection_ops, edge_outline, label_op, outline_fits_i32, outline_ops,
    outline_quads, DrawCommand, DrawOp, OverlayStyle,
};
use image::{ImageBuffer, Rgb};
use imageproc::drawing::draw_polygon_mut;
use imageproc::point::Point;
use vstd::prelude::*;

verus! {

/// The largest magnitude of a vertex coordinate that is handed to the fill:
/// the difference of two such coordinates is still an `i32`.
pub const PAINT_LIMIT: i32 = 0x3fff_ffff;

/// A colour with eight bits per channel.
#[derive(Clone, Copy, Debug, PartialEq, Eq, Structural)]
pub struct Rgb8 {
    pub r: u8,
    pub g: u8,
    pub b: u8,
}

/// A raster as a mathematical value.
pub struct RasterView {
    /// The number of pixels in a row.
    pub width: nat,
    /// The number of rows.
    pub height: nat,
    /// The channels of all pixels: red, green and blue of the first pixel
    /// of the first row, then of its right neighbour, and so on, row after
    /// row.
    pub pixels: Seq<u8>,
}

/// An image with three bytes per pixel, in a buffer of `3 * width * height`
/// bytes.
#[derive(Debug)]
pub struct Raster {
    width: u32,
    height: u32,
    pixels: Vec<u8>,
}

/// Why nothing was painted.
#[derive(Clone, Copy, Debug, PartialEq, Eq, Structural)]
pub enum PaintError {
    /// The raster is wider or higher than `i32::MAX` pixels.
    RasterTooLarge,
    /// A vertex of a stroke lies further than `PAINT_LIMIT` from an axis.
    StrokeOutOfRange,
    /// A stroke has no width: its first and last vertex are the same point.
    DegenerateStroke,
}

/// The bytes of a raster of the given size after
/// `imageproc::drawing::draw_polygon_mut` has filled and outlined a polygon
/// in it with one colour. The fill is a computation on its arguments alone,
/// so equal arguments give equal bytes; this crate knows no more of it than
/// that the number of bytes stays.
pub uninterp spec fn polygon_painted(
    width: nat,
    height: nat,
    pixels: Seq<u8>,
    polygon: Seq<(int, int)>,
    color: (u8, u8, u8),
) -> Seq<u8>;

impl Rgb8 {
    /// The three channels as a tuple.
    pub open spec fn triple(self) -> (u8, u8, u8) {
        (self.r, self.g, self.b)
    }
}

/// Every vertex of the path lies within `PAINT_LIMIT` of both axes.
pub open spec fn in_paint_range(path: Seq<(int, int)>) -> bool {
    forall|i: int|
        0 <= i < path.len() ==> {
            &&& -PAINT_LIMIT <= (#[trigger] path[i]).0 <= PAINT_LIMIT
            &&& -PAINT_LIMIT <= path[i].1 <= PAINT_LIMIT
        }
}

/// The path ends where it starts.
pub open spec fn is_closed_path(path: Seq<(int, int)>) -> bool {
    path.len() > 0 && path[0] == path[path.len() - 1]
}

/// The raster is at most `i32::MAX` pixels wide and high.
pub open spec fn has_paintable_size(raster: RasterView) -> bool {
    raster.width <= i32::MAX && raster.height <= i32::MAX
}

/// The raster after one polygon has been painted into it. A raster without
/// rows has nothing to paint and stays as it is.
pub open spec fn painted(raster: RasterView, polygon: Seq<(int, int)>, color: Rgb8) -> RasterView {
    if raster.height == 0 {
        raster
    } else {
        RasterView {
            width: raster.width,
            height: raster.height,
            pixels: polygon_painted(
                raster.width,
                raster.height,
                raster.pixels,
                polygon,
                color.triple(),
            ),
        }
    }
}

/// Whether a polygon can be painted into a raster, and if not, why.
pub open spec fn quad_verdict(raster: RasterView, polygon: Seq<(int, int)>) -> Result<
    (),
    PaintError,
> {
    if !has_paintable_size(raster) {
        Err(PaintError::RasterTooLarge)
    } else if !in_paint_range(polygon) {
        Err(PaintError::StrokeOutOfRange)
    } else if is_closed_path(polygon) {
        Err(PaintError::DegenerateStroke)
    } else {
        Ok(())
    }
}

/// Whether the strokes of all edges of a corner loop can be painted into a
/// raster, and if not, why. A stroke out of range counts before a stroke
/// without width, whichever edge it belongs to.
pub open spec fn outline_verdict(
    raster: RasterView,
    corners: Seq<Point2I>,
    style: OverlayStyle,
) -> Result<(), PaintError> {
    if !has_paintable_size(raster) {
        Err(PaintError::RasterTooLarge)
    } else if exists|i: int|
        0 <= i < corners.len() && !in_paint_range(#[trigger] edge_outline(corners, i, style)) {
        Err(PaintError::StrokeOutOfRange)
    } else if exists|i: int|
        0 <= i < corners.len() && is_closed_path(#[trigger] edge_outline(corners, i, style)) {
        Err(PaintError::DegenerateStroke)
    } else {
        Ok(())
    }
}

/// Whether a detection can be painted into a raster, and if not, why. A
/// detection that the filter rejects is not painted, so nothing stands in
/// its way.
pub open spec fn detection_verdict(
    raster: RasterView,
    raw: RawDetection,
    filter: FilterConfig,
    style: OverlayStyle,
) -> Result<(), PaintError> {
    if is_accepted(raw, filter) {
        outline_verdict(raster, raw.corners@, style)
    } else {
        Ok(())
    }
}

/// The raster after the strokes of the first `n` edges of a corner loop
/// have been painted into it, one after the other.
pub open spec fn outline_painted(
    raster: RasterView,
    corners: Seq<Point2I>,
    style: OverlayStyle,
    n: nat,
) -> RasterView
    decreases n,
{
    if n == 0 {
        raster
    } else {
        painted(
            outline_painted(raster, corners, style, (n - 1) as nat),
            edge_outline(corners, n - 1, style),
            style.color,
        )
    }
}

/// The raster after the quadrilaterals of a display list have been painted
/// into it in the order of the list. Labels are not drawn by this crate and
/// leave the raster as it is.
pub open spec fn polygons_painted(raster: RasterView, ops: Seq<DrawOp>, color: Rgb8) -> RasterView
    decreases ops.len(),
{
    if ops.len() == 0 {
        raster
    } else {
        let before = polygons_painted(raster, ops.drop_last(), color);
        match ops.last() {
            DrawOp::Polygon(polygon) => painted(before, polygon, color),
            DrawOp::Label { .. } => before,
        }
    }
}

/// Painting changes neither the width nor the height of a raster.
pub proof fn lemma_outline_painted_size(
    raster: RasterView,
    corners: Seq<Point2I>,
    style: OverlayStyle,
    n: nat,
)
    ensures
        outline_painted(raster, corners, style, n).width == raster.width,
        outline_painted(raster, corners, style, n).height == raster.height,
    decreases n,
{
    if n > 0 {
        lemma_outline_painted_size(raster, corners, style, (n - 1) as nat);
    }
}

/// Painting a display list is painting its front part and then its back
/// part: detections painted one after the other leave what the display list
/// of all of them names.
pub proof fn lemma_polygons_painted_add(
    raster: RasterView,
    front: Seq<DrawOp>,
    back: Seq<DrawOp>,
    color: Rgb8,
)
    ensures
        polygons_painted(raster, front + back, color) == polygons_painted(
            polygons_painted(raster, front, color),
            back,
            color,
        ),
    decreases back.len(),
{
    if back.len() == 0 {
        assert(front + back =~= front);
    } else {
        lemma_polygons_painted_add(raster, front, back.drop_last(), color);
        assert((front + back).drop_last() =~= front + back.drop_last());
        assert((front + back).last() == back.last());
    }
}

/// Painting the first `n` quadrilaterals of the display list of an outline
/// is painting the strokes of its first `n` edges.
pub proof fn lemma_outline_prefix_painted(
    raster: RasterView,
    corners: Seq<Point2I>,
    style: OverlayStyle,
    n: nat,
)
    requires
        n <= corners.len(),
    ensures
        polygons_painted(raster, outline_ops(corners, style).take(n as int), style.color)
            == outline_painted(raster, corners, style, n),
    decreases n,
{
    let ops = outline_ops(corners, style);
    if n > 0 {
        lemma_outline_prefix_painted(raster, corners, style, (n - 1) as nat);
        assert(ops.take(n as int).drop_last() =~= ops.take(n - 1));
        assert(ops.take(n as int).last() == ops[n - 1]);
    }
}

/// What `paint_outline` paints for the corners of a kept detection is what
/// the display list of that detection names: its quadrilaterals, in order.
pub proof fn lemma_outline_follows_display_list(
    raster: RasterView,
    raw: RawDetection,
    filter: FilterConfig,
    style: OverlayStyle,
)
    requires
        is_accepted(raw, filter),
    ensures
        polygons_painted(raster, detection_ops(raw, filter, style), style.color)
            == outline_painted(raster, raw.corners@, style, raw.corners@.len()),
{
    let outline = outline_ops(raw.corners@, style);
    let ops = detection_ops(raw, filter, style);
    lemma_outline_prefix_painted(raster, raw.corners@, style, raw.corners@.len());
    assert(outline.take(outline.len() as int) =~= outline);
    assert(ops.drop_last() =~= outline);
    assert(ops.last() == label_op(raw));
}

/// The strokes of a corner loop can be painted whenever the raster has a
/// paintable size, the thickness is at least 2, and every corner keeps a
/// margin of half the thickness, rounded, from the paint limit.
pub proof fn lemma_outline_paintable(raster: RasterView, corners: Seq<Point2I>, style: OverlayStyle)
    requires
        has_paintable_size(raster),
        2 <= style.thickness,
        corners_within(corners, PAINT_LIMIT - (style.thickness + 1) / 2),
    ensures
        outline_verdict(raster, corners, style) is Ok,
{
    assert forall|i: int| 0 <= i < corners.len() implies in_paint_range(
        #[trigger] edge_outline(corners, i, style),
    ) && !is_closed_path(edge_outline(corners, i, style)) by {
        lemma_edge_end_is_corner(corners, i);
        lemma_offset_bounded(
            corners[i],
            edge_end(corners, i),
            style.thickness as int,
            style.cap,
        );
        lemma_offset_nonzero(corners[i], edge_end(corners, i), style.thickness as int, style.cap);
    }
}

/// Fills and outlines a quadrilateral in a buffer of `width * height` RGB
/// pixels by `imageproc::drawing::draw_polygon_mut`, which draws on an
/// `image::ImageBuffer` laid over the buffer.
///
/// Not proved, but taken from the source of `imageproc`: the fill writes
/// single pixels into the buffer in place, so the buffer keeps its length,
/// and what the buffer holds afterwards depends on nothing but the size,
/// the bytes before, the vertices and the colour. Nothing is claimed about
/// which pixels are set. The requirements keep away what the fill cannot
/// take: it panics on a path whose last vertex equals its first, it casts
/// the width and the height to `i32`, and it subtracts one vertex
/// coordinate from another and counts one past a coordinate in `i32`, which
/// stays in range for coordinates up to `PAINT_LIMIT`. It also walks row 0
/// of a raster that has no rows and panics when it writes there, so there
/// must be a row. The buffer is as long as the size asks, so the
/// `ImageBuffer` over it can be made.
#[verifier::external_body]
fn fill_polygon(width: u32, height: u32, pixels: &mut Vec<u8>, quad: &StrokeQuad, color: Rgb8)
    requires
        old(pixels)@.len() == 3 * width * height,
        width <= i32::MAX,
        0 < height <= i32::MAX,
        in_paint_range(quad@),
        !is_closed_path(quad@),
    ensures
        final(pixels)@ == polygon_painted(
            width as nat,
            height as nat,
            old(pixels)@,
            quad@,
            color.triple(),
        ),
        final(pixels)@.len() == old(pixels)@.len(),
{
    let v = &quad.vertices;
    let path = [
        Point::new(v[0].x, v[0].y),
        Point::new(v[1].x, v[1].y),
        Point::new(v[2].x, v[2].y),
        Point::new(v[3].x, v[3].y),
    ];
    let buffer = pixels.as_mut_slice();
    let mut canvas = ImageBuffer::<Rgb<u8>, &mut [u8]>::from_raw(width, height, buffer).unwrap();
    draw_polygon_mut(&mut canvas, &path, Rgb([color.r, color.g, color.b]));
}

/// Whether every vertex of a quadrilateral lies within `PAINT_LIMIT` of
/// both axes.
pub fn quad_in_paint_range(quad: &StrokeQuad) -> (within: bool)
    ensures
        within == in_paint_range(quad@),
{
    let mut i: usize = 0;
    while i < 4
        invariant
            i <= 4,
            forall|j: int|
                0 <= j < i ==> {
                    &&& -PAINT_LIMIT <= (#[trigger] quad@[j]).0 <= PAINT_LIMIT
                    &&& -PAINT_LIMIT <= quad@[j].1 <= PAINT_LIMIT
                },
        decreases 4 - i,
    {
        let p: Point2I = quad.vertices[i];
        if p.x < -PAINT_LIMIT || p.x > PAINT_LIMIT || p.y < -PAINT_LIMIT || p.y > PAINT_LIMIT {
            assert(quad@[i as int] == p.coords());
            return false;
        }
        i = i + 1;
    }
    true
}

/// Whether the last vertex of a quadrilateral is its first.
pub fn quad_is_closed(quad: &StrokeQuad) -> (closed: bool)
    ensures
        closed == is_closed_path(quad@),
{
    let first: Point2I = quad.vertices[0];
    let last: Point2I = quad.vertices[3];
    first.x == last.x && first.y == last.y
}

impl View for Raster {
    type V = RasterView;

    closed spec fn view(&self) -> RasterView {
        RasterView {
            width: self.width as nat,
            height: self.height as nat,
            pixels: self.pixels@,
        }
    }
}

impl Raster {
    /// The buffer holds three bytes for each pixel, and the width and the
    /// height are `u32` values. Every raster that `from_raw` hands out is
    /// well formed, and painting keeps it so.
    pub open spec fn wf(&self) -> bool {
        &&& self@.pixels.len() == 3 * self@.width * self@.height
        &&& self@.width <= u32::MAX
        &&& self@.height <= u32::MAX
    }

    /// Makes a raster of a buffer that holds the pixels row after row,
    /// three bytes each. A buffer of any other length than
    /// `3 * width * height` is refused.
    pub fn from_raw(width: u32, height: u32, pixels: Vec<u8>) -> (raster: Option<Raster>)
        ensures
            raster is Some <==> pixels@.len() == 3 * width * height,
            raster matches Some(r) ==> r.wf() && r@ == (RasterView {
                width: width as nat,
                height: height as nat,
                pixels: pixels@,
            }),
    {
        assert(width * height <= 0xffff_ffff * 0xffff_ffff) by (nonlinear_arith)
            requires
                0 <= width <= 0xffff_ffff,
                0 <= height <= 0xffff_ffff,
        ;
        let area: u64 = (width as u64) * (height as u64);
        let wanted: u128 = 3 * (area as u128);
        assert(wanted == 3 * width * height) by (nonlinear_arith)
            requires
                wanted == 3 * area,
                area == width * height,
        ;
        if pixels.len() as u128 == wanted {
            Some(Raster { width, height, pixels })
        } else {
            None
        }
    }

    /// The number of pixels in a row.
    pub fn width(&self) -> (width: u32)
        ensures
            width == self@.width,
    {
        self.width
    }

    /// The number of rows.
    pub fn height(&self) -> (height: u32)
        ensures
            height == self@.height,
    {
        self.height
    }

    /// The bytes of the raster, row after row.
    pub fn as_raw(&self) -> (pixels: &Vec<u8>)
        ensures
            pixels@ == self@.pixels,
    {
        &self.pixels
    }

    /// Gives up the raster for its bytes.
    pub fn into_raw(self) -> (pixels: Vec<u8>)
        ensures
            pixels@ == self@.pixels,
    {
        self.pixels
    }

    /// The colour of the pixel in column `x` of row `y`, if the raster has
    /// such a pixel.
    pub fn pixel(&self, x: u32, y: u32) -> (color: Option<Rgb8>)
        requires
            self.wf(),
        ensures
            color is Some <==> x < self@.width && y < self@.height,
            color matches Some(c) ==> {
                let at = 3 * (y * self@.width + x);
                &&& at + 2 < self@.pixels.len()
                &&& c.r == self@.pixels[at]
                &&& c.g == self@.pixels[at + 1]
                &&& c.b == self@.pixels[at + 2]
            },
    {
        if x >= self.width || y >= self.height {
            return None;
        }
        let len: usize = self.pixels.len();
        proof {
            let (w, h) = (self.width as int, self.height as int);
            assert(y * w + x < w * h) by (nonlinear_arith)
                requires
                    0 <= x < w,
                    0 <= y < h,
            ;
            assert(0 <= y * w) by (nonlinear_arith)
                requires
                    0 <= y,
                    0 <= w,
            ;
            assert(3 * (w * h) == 3 * w * h) by (nonlinear_arith);
        }
        let at: usize = 3 * ((y as usize) * (self.width as usize) + (x as usize));
        Some(Rgb8 { r: self.pixels[at], g: self.pixels[at + 1], b: self.pixels[at + 2] })
    }

    /// Fills and outlines a quadrilateral in one colour, or says why it
    /// cannot; the raster is then as it was. In a raster without rows there
    /// is nothing to paint.
    pub fn paint_quad(&mut self, quad: &StrokeQuad, color: Rgb8) -> (result: Result<
        (),
        PaintError,
    >)
        requires
            old(self).wf(),
        ensures
            final(self).wf(),
            result == quad_verdict(old(self)@, quad@),
            result is Ok ==> final(self)@ == painted(old(self)@, quad@, color),
            result is Err ==> final(self)@ == old(self)@,
            final(self)@.width == old(self)@.width,
            final(self)@.height == old(self)@.height,
    {
        if self.width > 0x7fff_ffff || self.height > 0x7fff_ffff {
            return Err(PaintError::RasterTooLarge);
        }
        if !quad_in_paint_range(quad) {
            return Err(PaintError::StrokeOutOfRange);
        }
        if quad_is_closed(quad) {
            return Err(PaintError::DegenerateStroke);
        }
        if self.height > 0 {
            fill_polygon(self.width, self.height, &mut self.pixels, quad, color);
        }
        Ok(())
    }

    /// Paints the strokes of all edges of a closed corner loop in the colour
    /// of the style, in edge order, or says why it cannot; the raster is then
    /// as it was.
    pub fn paint_outline(&mut self, corners: &Vec<Point2I>, style: &OverlayStyle) -> (result:
        Result<(), PaintError>)
        requires
            old(self).wf(),
            style.valid(),
        ensures
            final(self).wf(),
            result == outline_verdict(old(self)@, corners@, *style),
            result is Ok ==> final(self)@ == outline_painted(
                old(self)@,
                corners@,
                *style,
                corners@.len(),
            ),
            result is Err ==> final(self)@ == old(self)@,
            final(self)@.width == old(self)@.width,
            final(self)@.height == old(self)@.height,
    {
        if self.width > 0x7fff_ffff || self.height > 0x7fff_ffff {
            return Err(PaintError::RasterTooLarge);
        }
        if !outline_fits_i32(corners, style) {
            proof {
                let i = choose|i: int|
                    0 <= i < corners@.len() && !stroke_fits(
                        corners@[i],
                        #[trigger] edge_end(corners@, i),
                        style.thickness as int,
                        style.cap,
                    );
                let outline = edge_outline(corners@, i, *style);
                let k = choose|k: int| 0 <= k < 4 && !in_i32_range(#[trigger] outline[k]);
                assert(!in_paint_range(outline));
            }
            return Err(PaintError::StrokeOutOfRange);
        }
        let quads = outline_quads(corners, style);
        let n: usize = quads.len();
        let mut closed_seen: bool = false;
        let mut i: usize = 0;
        while i < n
            invariant
                *self == *old(self),
                self.wf(),
                has_paintable_size(self@),
                n == corners@.len(),
                quads@.len() == n,
                i <= n,
                forall|j: int|
                    0 <= j < n ==> (#[trigger] quads@[j])@ == edge_outline(corners@, j, *style),
                forall|j: int|
                    0 <= j < i ==> in_paint_range(#[trigger] edge_outline(corners@, j, *style)),
                closed_seen <==> exists|j: int|
                    0 <= j < i && is_closed_path(#[trigger] edge_outline(corners@, j, *style)),
            decreases n - i,
        {
            if !quad_in_paint_range(&quads[i]) {
                assert(!in_paint_range(edge_outline(corners@, i as int, *style)));
                return Err(PaintError::StrokeOutOfRange);
            }
            if quad_is_closed(&quads[i]) {
                closed_seen = true;
            }
            i = i + 1;
        }
        if closed_seen {
            return Err(PaintError::DegenerateStroke);
        }
        let ghost before = self@;
        proof {
            lemma_outline_painted_size(before, corners@, *style, n as nat);
        }
        let mut k: usize = 0;
        while k < n
            invariant
                n == corners@.len(),
                quads@.len() == n,
                k <= n,
                self.width <= i32::MAX,
                self.height <= i32::MAX,
                self.pixels@.len() == 3 * self.width * self.height,
                forall|j: int|
                    0 <= j < n ==> (#[trigger] quads@[j])@ == edge_outline(corners@, j, *style),
                forall|j: int|
                    0 <= j < n ==> in_paint_range(#[trigger] edge_outline(corners@, j, *style)),
                forall|j: int|
                    0 <= j < n ==> !is_closed_path(#[trigger] edge_outline(corners@, j, *style)),
                self@ == outline_painted(before, corners@, *style, k as nat),
            decreases n - k,
        {
            if self.height > 0 {
                fill_polygon(self.width, self.height, &mut self.pixels, &quads[k], style.color);
            }
            k = k + 1;
        }
        Ok(())
    }

    /// Does for one detection what the overlay asks for, as far as this
    /// crate can: if the filter keeps the detection, its outline is painted
    /// and its label is handed back, to be drawn next; if the filter rejects
    /// it, nothing is painted and nothing handed back. When the outline
    /// cannot be painted, the raster is as it was.
    pub fn paint_detection(
        &mut self,
        raw: &RawDetection,
        filter: &FilterConfig,
        style: &OverlayStyle,
    ) -> (result: Result<Option<DrawCommand>, PaintError>)
        requires
            old(self).wf(),
            style.valid(),
        ensures
            final(self).wf(),
            final(self)@.width == old(self)@.width,
            final(self)@.height == old(self)@.height,
            match result {
                Err(error) => {
                    &&& detection_verdict(old(self)@, *raw, *filter, *style) == Err::<
                        (),
                        PaintError,
                    >(error)
                    &&& final(self)@ == old(self)@
                },
                Ok(None) => {
                    &&& !is_accepted(*raw, *filter)
                    &&& final(self)@ == old(self)@
                },
                Ok(Some(label)) => {
                    &&& is_accepted(*raw, *filter)
                    &&& detection_verdict(old(self)@, *raw, *filter, *style) is Ok
                    &&& label@ == label_op(*raw)
                    &&& final(self)@ == polygons_painted(
                        old(self)@,
                        detection_ops(*raw, *filter, *style),
                        style.color,
                    )
                },
            },
    {
        match filter_detection(raw, filter) {
            FilterDecision::Rejected(_) => Ok(None),
            FilterDecision::Accepted(kept) => {
                match self.paint_outline(&kept.corners, style) {
                    Err(error) => Err(error),
                    Ok(()) => {
                        proof {
                            lemma_outline_follows_display_list(old(self)@, *raw, *filter, *style);
                        }
                        Ok(
                            Some(
                                DrawCommand::Label {
                                    text: decimal_string(kept.id),
                                    anchor: kept.center,
                                },
                            ),
                        )
                    },
                }
            },
        }
    }
}

/// Pixel `i` of the four-channel buffer `rgba` is pixel `i` of the
/// three-channel buffer `rgb`, fully opaque.
pub open spec fn is_opaque_copy_at(rgba: Seq<u8>, rgb: Seq<u8>, i: int) -> bool {
    &&& rgba[4 * i] == rgb[3 * i]
    &&& rgba[4 * i + 1] == rgb[3 * i + 1]
    &&& rgba[4 * i + 2] == rgb[3 * i + 2]
    &&& rgba[4 * i + 3] == 255
}

/// The pixels of a raster with a fourth channel added to each: red, green
/// and blue as they are, and an opacity of 255.
pub fn rgba_bytes(raster: &Raster) -> (bytes: Vec<u8>)
    requires
        raster.wf(),
    ensures
        bytes@.len() == 4 * raster@.width * raster@.height,
        forall|i: int|
            0 <= i < raster@.width * raster@.height ==> #[trigger] is_opaque_copy_at(
                bytes@,
                raster@.pixels,
                i,
            ),
{
    let count: usize = raster.pixels.len() / 3;
    proof {
        let (w, h) = (raster.width as int, raster.height as int);
        assert(3 * w * h == 3 * (w * h) && 4 * w * h == 4 * (w * h)) by (nonlinear_arith);
    }
    let mut bytes: Vec<u8> = Vec::new();
    let mut i: usize = 0;
    while i < count
        invariant
            i <= count,
            raster.pixels@.len() == 3 * count <= usize::MAX,
            bytes@.len() == 4 * i,
            forall|j: int| 0 <= j < i ==> #[trigger] is_opaque_copy_at(bytes@, raster.pixels@, j),
        decreases count - i,
    {
        let ghost before = bytes@;
        bytes.push(raster.pixels[3 * i]);
        bytes.push(raster.pixels[3 * i + 1]);
        bytes.push(raster.pixels[3 * i + 2]);
        bytes.push(255);
        proof {
            assert forall|j: int| 0 <= j < i + 1 implies #[trigger] is_opaque_copy_at(
                bytes@,
                raster.pixels@,
                j,
            ) by {
                if j < i {
                    assert(is_opaque_copy_at(before, raster.pixels@, j));
                }
            }
        }
        i = i + 1;
    }
    bytes
}

} // verus!
