//! The overlay: what is drawn for a list of detections.
//!
//! Every detection that the filter keeps is outlined, one stroke per edge
//! of its corner loop, and then labelled with its identifier at its centre.
//! The result is a display list in drawing order; what comes later in the
//! list is painted over what came earlier.

use crate::filter::{
    accepts, edge_end, is_accepted, lemma_edge_end_is_corner, next_index, FilterConfig,
    RawDetection,
};
use crate::img_utils::{
    lemma_stroke_fits_with_margin, stroke_fits, stroke_fits_i32, stroke_outline,
    thick_line_to_polygon, CapStyle, Point2I, StrokeQuad,
};
use crate::label::{decimal, decimal_string};
use crate::raster::Rgb8;
use vstd::prelude::*;

verus! {

/// The stroke thickness of the default style.
pub const DEFAULT_THICKNESS: i32 = 3;

/// How the outline of a detection is stroked.
#[derive(Clone, Copy, Debug, PartialEq, Eq)]
pub struct OverlayStyle {
    /// The thickness of each stroke; never negative in a valid style.
    pub thickness: i32,
    /// The cap style of each stroke.
    pub cap: CapStyle,
    /// The one colour of strokes and labels.
    pub color: Rgb8,
}

/// One entry of the display list.
#[derive(Clone, Debug, PartialEq, Eq)]
pub enum DrawCommand {
    /// Fill and outline this quadrilateral.
    Polygon(StrokeQuad),
    /// Write this text with its top left corner at the anchor.
    Label { text: String, anchor: Point2I },
}

/// A display list entry as a mathematical value.
pub enum DrawOp {
    /// A quadrilateral, by its vertices in drawing order.
    Polygon(Seq<(int, int)>),
    /// A text and where it is anchored.
    Label { text: Seq<char>, anchor: (int, int) },
}

impl View for DrawCommand {
    type V = DrawOp;

    open spec fn view(&self) -> DrawOp {
        match *self {
            DrawCommand::Polygon(quad) => DrawOp::Polygon(quad@),
            DrawCommand::Label { text, anchor } => DrawOp::Label {
                text: text@,
                anchor: anchor.coords(),
            },
        }
    }
}

impl OverlayStyle {
    /// A style is valid when its thickness is not negative.
    pub open spec fn valid(self) -> bool {
        0 <= self.thickness
    }
}

impl Default for OverlayStyle {
    /// Red strokes of thickness 3 with square caps.
    fn default() -> (style: OverlayStyle)
        ensures
            style.thickness == 3,
            style.cap == CapStyle::Square,
            style.color == (Rgb8 { r: 255, g: 0, b: 0 }),
            style.valid(),
    {
        OverlayStyle {
            thickness: DEFAULT_THICKNESS,
            cap: CapStyle::Square,
            color: Rgb8 { r: 255, g: 0, b: 0 },
        }
    }
}

/// The display list as a sequence of mathematical values.
pub open spec fn commands_view(commands: Seq<DrawCommand>) -> Seq<DrawOp> {
    commands.map_values(|c: DrawCommand| c@)
}

/// The outline of the stroke of edge `i` of a corner loop.
pub open spec fn edge_outline(corners: Seq<Point2I>, i: int, style: OverlayStyle) -> Seq<
    (int, int),
> {
    stroke_outline(corners[i], edge_end(corners, i), style.thickness as int, style.cap)
}

/// The stroke of every edge of a corner loop fits into `i32` coordinates.
pub open spec fn outline_fits(corners: Seq<Point2I>, style: OverlayStyle) -> bool {
    forall|i: int|
        0 <= i < corners.len() ==> stroke_fits(
            corners[i],
            #[trigger] edge_end(corners, i),
            style.thickness as int,
            style.cap,
        )
}

/// Every corner lies within `limit` of both axes.
pub open spec fn corners_within(corners: Seq<Point2I>, limit: int) -> bool {
    forall|i: int|
        0 <= i < corners.len() ==> {
            &&& -limit <= (#[trigger] corners[i]).x <= limit
            &&& -limit <= corners[i].y <= limit
        }
}

/// The strokes of a corner loop: one quadrilateral per edge, in edge order.
pub open spec fn outline_ops(corners: Seq<Point2I>, style: OverlayStyle) -> Seq<DrawOp> {
    Seq::new(corners.len(), |i: int| DrawOp::Polygon(edge_outline(corners, i, style)))
}

/// The label of a detection: its identifier in decimal, at its centre.
pub open spec fn label_op(raw: RawDetection) -> DrawOp {
    DrawOp::Label { text: decimal(raw.id as nat), anchor: raw.center.coords() }
}

/// What is drawn for one detection: nothing when the filter rejects it, and
/// else the strokes of its edges followed by its label.
pub open spec fn detection_ops(raw: RawDetection, filter: FilterConfig, style: OverlayStyle) -> Seq<
    DrawOp,
> {
    if is_accepted(raw, filter) {
        outline_ops(raw.corners@, style).push(label_op(raw))
    } else {
        Seq::empty()
    }
}

/// What is drawn for a list of detections: what is drawn for each, in the
/// order of the list.
pub open spec fn overlay_ops(
    detections: Seq<RawDetection>,
    filter: FilterConfig,
    style: OverlayStyle,
) -> Seq<DrawOp>
    decreases detections.len(),
{
    if detections.len() == 0 {
        Seq::empty()
    } else {
        overlay_ops(detections.drop_last(), filter, style) + detection_ops(
            detections.last(),
            filter,
            style,
        )
    }
}

/// The strokes of a detection can be held in `i32` coordinates, if the
/// filter keeps it at all.
pub open spec fn detection_fits(raw: RawDetection, filter: FilterConfig, style: OverlayStyle) -> bool {
    is_accepted(raw, filter) ==> outline_fits(raw.corners@, style)
}

/// The strokes of every kept detection of a list can be held in `i32`
/// coordinates.
pub open spec fn overlay_fits(
    detections: Seq<RawDetection>,
    filter: FilterConfig,
    style: OverlayStyle,
) -> bool {
    forall|i: int|
        0 <= i < detections.len() ==> detection_fits(#[trigger] detections[i], filter, style)
}

/// The number of quadrilaterals in a display list.
pub open spec fn polygon_count(ops: Seq<DrawOp>) -> nat
    decreases ops.len(),
{
    if ops.len() == 0 {
        0
    } else {
        polygon_count(ops.drop_last()) + if ops.last() is Polygon {
            1nat
        } else {
            0nat
        }
    }
}

/// The number of labels in a display list.
pub open spec fn label_count(ops: Seq<DrawOp>) -> nat
    decreases ops.len(),
{
    if ops.len() == 0 {
        0
    } else {
        label_count(ops.drop_last()) + if ops.last() is Label {
            1nat
        } else {
            0nat
        }
    }
}

/// The number of detections of a list that the filter keeps.
pub open spec fn accepted_count(detections: Seq<RawDetection>, filter: FilterConfig) -> nat
    decreases detections.len(),
{
    if detections.len() == 0 {
        0
    } else {
        accepted_count(detections.drop_last(), filter) + if is_accepted(
            detections.last(),
            filter,
        ) {
            1nat
        } else {
            0nat
        }
    }
}

/// Whether the stroke of every edge of a corner loop fits into `i32`
/// coordinates.
pub fn outline_fits_i32(corners: &Vec<Point2I>, style: &OverlayStyle) -> (fits: bool)
    requires
        style.valid(),
    ensures
        fits == outline_fits(corners@, *style),
{
    let n: usize = corners.len();
    let mut i: usize = 0;
    while i < n
        invariant
            style.valid(),
            n == corners@.len(),
            i <= n,
            forall|j: int|
                0 <= j < i ==> stroke_fits(
                    corners@[j],
                    #[trigger] edge_end(corners@, j),
                    style.thickness as int,
                    style.cap,
                ),
        decreases n - i,
    {
        let next: usize = next_index(i, n);
        if !stroke_fits_i32(corners[i], corners[next], style.thickness, style.cap) {
            assert(!stroke_fits(
                corners@[i as int],
                edge_end(corners@, i as int),
                style.thickness as int,
                style.cap,
            ));
            return false;
        }
        i = i + 1;
    }
    true
}

/// The strokes of a closed corner loop: one quadrilateral per edge, the
/// last edge running from the last corner back to the first.
pub fn outline_quads(corners: &Vec<Point2I>, style: &OverlayStyle) -> (quads: Vec<StrokeQuad>)
    requires
        style.valid(),
        outline_fits(corners@, *style),
    ensures
        quads@.len() == corners@.len(),
        forall|i: int|
            0 <= i < corners@.len() ==> (#[trigger] quads@[i])@ == edge_outline(
                corners@,
                i,
                *style,
            ),
{
    let n: usize = corners.len();
    let mut quads: Vec<StrokeQuad> = Vec::new();
    let mut i: usize = 0;
    while i < n
        invariant
            style.valid(),
            outline_fits(corners@, *style),
            n == corners@.len(),
            i <= n,
            quads@.len() == i,
            forall|j: int|
                0 <= j < i ==> (#[trigger] quads@[j])@ == edge_outline(corners@, j, *style),
        decreases n - i,
    {
        let next: usize = next_index(i, n);
        assert(corners@[next as int] == edge_end(corners@, i as int));
        let quad = thick_line_to_polygon(corners[i], corners[next], style.thickness, style.cap);
        quads.push(quad);
        i = i + 1;
    }
    quads
}

/// The display list of one detection: empty when the filter rejects it,
/// and else one quadrilateral per edge followed by one label.
pub fn detection_commands(raw: &RawDetection, filter: &FilterConfig, style: &OverlayStyle) -> (commands:
    Vec<DrawCommand>)
    requires
        style.valid(),
        detection_fits(*raw, *filter, *style),
    ensures
        commands_view(commands@) == detection_ops(*raw, *filter, *style),
        !is_accepted(*raw, *filter) ==> commands@.len() == 0,
        is_accepted(*raw, *filter) ==> {
            &&& raw.corners@.len() == 4
            &&& commands@.len() == 5
            &&& forall|i: int|
                0 <= i < 4 ==> (#[trigger] commands@[i])@ == DrawOp::Polygon(
                    edge_outline(raw.corners@, i, *style),
                )
            &&& commands@[4]@ == label_op(*raw)
        },
{
    proof {
        lemma_detection_counts(*raw, *filter, *style);
    }
    let mut commands: Vec<DrawCommand> = Vec::new();
    if !accepts(raw, filter) {
        assert(commands_view(commands@) =~= detection_ops(*raw, *filter, *style));
        return commands;
    }
    let quads = outline_quads(&raw.corners, style);
    let n: usize = quads.len();
    let mut i: usize = 0;
    while i < n
        invariant
            n == quads@.len(),
            i <= n,
            commands@.len() == i,
            forall|j: int| 0 <= j < i ==> #[trigger] commands@[j] == DrawCommand::Polygon(quads@[j]),
        decreases n - i,
    {
        commands.push(DrawCommand::Polygon(quads[i]));
        i = i + 1;
    }
    commands.push(DrawCommand::Label { text: decimal_string(raw.id), anchor: raw.center });
    assert(commands_view(commands@) =~= detection_ops(*raw, *filter, *style));
    commands
}

/// The display list of a list of detections, in the order of the list.
pub fn overlay_commands(
    detections: &Vec<RawDetection>,
    filter: &FilterConfig,
    style: &OverlayStyle,
) -> (commands: Vec<DrawCommand>)
    requires
        style.valid(),
        overlay_fits(detections@, *filter, *style),
    ensures
        commands_view(commands@) == overlay_ops(detections@, *filter, *style),
        commands@.len() == 5 * accepted_count(detections@, *filter),
        polygon_count(commands_view(commands@)) == 4 * accepted_count(detections@, *filter),
        label_count(commands_view(commands@)) == accepted_count(detections@, *filter),
{
    let mut commands: Vec<DrawCommand> = Vec::new();
    let n: usize = detections.len();
    let mut i: usize = 0;
    assert(commands_view(commands@) =~= overlay_ops(detections@.take(0), *filter, *style));
    while i < n
        invariant
            style.valid(),
            overlay_fits(detections@, *filter, *style),
            n == detections@.len(),
            i <= n,
            commands_view(commands@) == overlay_ops(detections@.take(i as int), *filter, *style),
        decreases n - i,
    {
        let mut more = detection_commands(&detections[i], filter, style);
        let ghost before = commands@;
        let ghost added = more@;
        commands.append(&mut more);
        proof {
            let upto = detections@.take(i + 1);
            assert(upto.drop_last() =~= detections@.take(i as int));
            assert(upto.last() == detections@[i as int]);
            assert(commands_view(before + added) =~= commands_view(before) + commands_view(added));
        }
        i = i + 1;
    }
    proof {
        assert(detections@.take(n as int) =~= detections@);
        lemma_overlay_counts(detections@, *filter, *style);
    }
    commands
}

/// Whether the strokes of every kept detection of a list fit into `i32`
/// coordinates.
pub fn overlay_fits_i32(
    detections: &Vec<RawDetection>,
    filter: &FilterConfig,
    style: &OverlayStyle,
) -> (fits: bool)
    requires
        style.valid(),
    ensures
        fits == overlay_fits(detections@, *filter, *style),
{
    let n: usize = detections.len();
    let mut i: usize = 0;
    while i < n
        invariant
            style.valid(),
            n == detections@.len(),
            i <= n,
            forall|j: int| 0 <= j < i ==> detection_fits(#[trigger] detections@[j], *filter, *style),
        decreases n - i,
    {
        if accepts(&detections[i], filter) && !outline_fits_i32(&detections[i].corners, style) {
            assert(!detection_fits(detections@[i as int], *filter, *style));
            return false;
        }
        i = i + 1;
    }
    true
}

/// The strokes of a corner loop fit into `i32` coordinates whenever every
/// corner keeps a margin of half the thickness, rounded, from the ends of
/// the `i32` range.
pub proof fn lemma_outline_fits_within(corners: Seq<Point2I>, style: OverlayStyle)
    requires
        style.valid(),
        corners_within(corners, i32::MAX - (style.thickness + 1) / 2),
    ensures
        outline_fits(corners, style),
{
    assert forall|i: int| 0 <= i < corners.len() implies stroke_fits(
        corners[i],
        #[trigger] edge_end(corners, i),
        style.thickness as int,
        style.cap,
    ) by {
        lemma_edge_end_is_corner(corners, i);
        lemma_stroke_fits_with_margin(
            corners[i],
            edge_end(corners, i),
            style.thickness as int,
            style.cap,
        );
    }
}

/// Counting is additive over lists that are joined.
pub proof fn lemma_counts_add(a: Seq<DrawOp>, b: Seq<DrawOp>)
    ensures
        polygon_count(a + b) == polygon_count(a) + polygon_count(b),
        label_count(a + b) == label_count(a) + label_count(b),
    decreases b.len(),
{
    if b.len() == 0 {
        assert(a + b =~= a);
    } else {
        lemma_counts_add(a, b.drop_last());
        assert((a + b).drop_last() =~= a + b.drop_last());
        assert((a + b).last() == b.last());
    }
}

/// The first `n` strokes of an outline are `n` quadrilaterals and no label.
proof fn lemma_outline_prefix_counts(corners: Seq<Point2I>, style: OverlayStyle, n: int)
    requires
        0 <= n <= corners.len(),
    ensures
        polygon_count(outline_ops(corners, style).take(n)) == n,
        label_count(outline_ops(corners, style).take(n)) == 0,
    decreases n,
{
    let ops = outline_ops(corners, style);
    if n > 0 {
        lemma_outline_prefix_counts(corners, style, n - 1);
        assert(ops.take(n).drop_last() =~= ops.take(n - 1));
        assert(ops.take(n).last() == ops[n - 1]);
    }
}

/// A kept detection is drawn as exactly one quadrilateral per edge, which
/// makes four, followed by exactly one label; a rejected detection is not
/// drawn at all.
pub proof fn lemma_detection_counts(raw: RawDetection, filter: FilterConfig, style: OverlayStyle)
    ensures
        is_accepted(raw, filter) ==> {
            &&& raw.corners@.len() == 4
            &&& detection_ops(raw, filter, style).len() == 5
            &&& forall|i: int|
                0 <= i < 4 ==> #[trigger] detection_ops(raw, filter, style)[i] == DrawOp::Polygon(
                    edge_outline(raw.corners@, i, style),
                )
            &&& detection_ops(raw, filter, style)[4] == label_op(raw)
            &&& polygon_count(detection_ops(raw, filter, style)) == 4
            &&& label_count(detection_ops(raw, filter, style)) == 1
        },
        !is_accepted(raw, filter) ==> {
            &&& detection_ops(raw, filter, style).len() == 0
            &&& polygon_count(detection_ops(raw, filter, style)) == 0
            &&& label_count(detection_ops(raw, filter, style)) == 0
        },
{
    if is_accepted(raw, filter) {
        let outline = outline_ops(raw.corners@, style);
        let ops = detection_ops(raw, filter, style);
        lemma_outline_prefix_counts(raw.corners@, style, 4);
        assert(outline.take(4) =~= outline);
        assert(ops.drop_last() =~= outline);
        assert(ops.last() == label_op(raw));
    }
}

/// A list of detections is drawn with four quadrilaterals and one label for
/// each detection that the filter keeps, and with nothing else: five entries
/// for each, and none at all when the filter keeps none.
pub proof fn lemma_overlay_counts(
    detections: Seq<RawDetection>,
    filter: FilterConfig,
    style: OverlayStyle,
)
    ensures
        overlay_ops(detections, filter, style).len() == 5 * accepted_count(detections, filter),
        polygon_count(overlay_ops(detections, filter, style)) == 4 * accepted_count(
            detections,
            filter,
        ),
        label_count(overlay_ops(detections, filter, style)) == accepted_count(detections, filter),
        accepted_count(detections, filter) == 0 ==> overlay_ops(detections, filter, style)
            =~= Seq::<DrawOp>::empty(),
    decreases detections.len(),
{
    if detections.len() > 0 {
        lemma_overlay_counts(detections.drop_last(), filter, style);
        lemma_detection_counts(detections.last(), filter, style);
        lemma_counts_add(
            overlay_ops(detections.drop_last(), filter, style),
            detection_ops(detections.last(), filter, style),
        );
    }
}

/// The display list of two lists of detections, one after the other, is the
/// display list of the first followed by that of the second: every
/// detection is drawn where it stands in the list, a rejected one leaves no
/// gap, and no detection changes what is drawn for another.
pub proof fn lemma_overlay_ops_add(
    front: Seq<RawDetection>,
    back: Seq<RawDetection>,
    filter: FilterConfig,
    style: OverlayStyle,
)
    ensures
        overlay_ops(front + back, filter, style) == overlay_ops(front, filter, style)
            + overlay_ops(back, filter, style),
    decreases back.len(),
{
    if back.len() == 0 {
        assert(front + back =~= front);
        assert(overlay_ops(front, filter, style) + overlay_ops(back, filter, style)
            =~= overlay_ops(front, filter, style));
    } else {
        lemma_overlay_ops_add(front, back.drop_last(), filter, style);
        assert((front + back).drop_last() =~= front + back.drop_last());
        assert((front + back).last() == back.last());
        assert(overlay_ops(front + back, filter, style) =~= overlay_ops(front, filter, style)
            + overlay_ops(back, filter, style));
    }
}

/// Drawing is repeatable: two display lists made from the same detections
/// under the same configuration are equal, entry by entry and vertex by
/// vertex.
pub proof fn lemma_overlay_repeatable(
    first: Seq<DrawCommand>,
    second: Seq<DrawCommand>,
    detections: Seq<RawDetection>,
    filter: FilterConfig,
    style: OverlayStyle,
)
    requires
        commands_view(first) == overlay_ops(detections, filter, style),
        commands_view(second) == overlay_ops(detections, filter, style),
    ensures
        first.len() == second.len(),
        forall|i: int| 0 <= i < first.len() ==> (#[trigger] first[i])@ == second[i]@,
{
    assert(commands_view(first).len() == first.len());
    assert(commands_view(second).len() == second.len());
    assert forall|i: int| 0 <= i < first.len() implies (#[trigger] first[i])@ == second[i]@ by {
        assert(commands_view(first)[i] == first[i]@);
        assert(commands_view(second)[i] == second[i]@);
    }
}

} // verus!
