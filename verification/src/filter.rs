//! The detection filter: which detections are worth drawing.
//!
//! A detection is kept when its identifier is small enough, it has four
//! corners, and the quadrilateral they span is not too small. The three
//! rules are tried in this order and the first that fails names the
//! rejection.

use crate::img_utils::Point2I;
use crate::rounding::magnitude;
use vstd::prelude::*;

verus! {

/// The largest identifier that the default configuration keeps.
pub const DEFAULT_MAX_ID: usize = 8;

/// The smallest enclosed area that the default configuration keeps.
pub const DEFAULT_MIN_AREA: u64 = 1000;

/// A marker as the detector reports it, with coordinates already coerced to
/// integers.
#[derive(Clone, Debug, PartialEq, Eq)]
pub struct RawDetection {
    /// The identifier decoded from the marker.
    pub id: usize,
    /// The corners of the marker, in the order in which they are joined.
    pub corners: Vec<Point2I>,
    /// The centre of the marker, where its label is anchored.
    pub center: Point2I,
}

/// The thresholds of the filter.
#[derive(Clone, Copy, Debug, PartialEq, Eq)]
pub struct FilterConfig {
    /// Detections with a larger identifier are rejected.
    pub max_id: usize,
    /// Detections that enclose a smaller area are rejected.
    pub min_area: u64,
}

/// Why a detection was rejected.
#[derive(Clone, Copy, Debug, PartialEq, Eq, Structural)]
pub enum Rejection {
    /// The identifier exceeds the configured maximum.
    IdTooLarge,
    /// The corner count is not four.
    NotQuadrilateral,
    /// The enclosed area is below the configured minimum.
    AreaTooSmall,
}

/// A detection that passed the filter.
#[derive(Clone, Debug, PartialEq, Eq)]
pub struct AcceptedDetection {
    /// The identifier of the marker.
    pub id: usize,
    /// The four corners of the marker.
    pub corners: Vec<Point2I>,
    /// The centre of the marker.
    pub center: Point2I,
    /// The shoelace sum of the corners: twice the enclosed area, positive or
    /// negative with the orientation of the corner loop.
    pub area: i128,
}

/// What the filter decided about one detection.
#[derive(Clone, Debug, PartialEq, Eq)]
pub enum FilterDecision {
    /// The detection is kept.
    Accepted(AcceptedDetection),
    /// The detection is dropped, for the given reason.
    Rejected(Rejection),
}

/// The corner at which edge `i` of a closed corner loop ends: the next
/// corner, and the first corner for the last edge.
pub open spec fn edge_end(corners: Seq<Point2I>, i: int) -> Point2I {
    corners[(i + 1) % (corners.len() as int)]
}

/// The shoelace term of the edge from `p` to `q`.
pub open spec fn cross(p: Point2I, q: Point2I) -> int {
    p.x * q.y - q.x * p.y
}

/// The shoelace terms of the first `n` edges of the closed corner loop,
/// added up. Edge `i` runs from corner `i` to corner `i + 1`, and the last
/// edge runs back to corner 0.
pub open spec fn shoelace_prefix(corners: Seq<Point2I>, n: nat) -> int
    decreases n,
{
    if n == 0 {
        0
    } else {
        shoelace_prefix(corners, (n - 1) as nat) + cross(corners[n - 1], edge_end(corners, n - 1))
    }
}

/// The shoelace sum of a closed corner loop: twice its signed area.
pub open spec fn shoelace_sum(corners: Seq<Point2I>) -> int {
    shoelace_prefix(corners, corners.len())
}

/// The first rule that a detection breaks, if it breaks any: the identifier
/// is tested first, then the corner count, then the area, which is too small
/// when half the magnitude of the shoelace sum is below the minimum.
pub open spec fn rejection_of(raw: RawDetection, config: FilterConfig) -> Option<Rejection> {
    if raw.id > config.max_id {
        Some(Rejection::IdTooLarge)
    } else if raw.corners@.len() != 4 {
        Some(Rejection::NotQuadrilateral)
    } else if magnitude(shoelace_sum(raw.corners@)) < 2 * config.min_area {
        Some(Rejection::AreaTooSmall)
    } else {
        None
    }
}

/// Whether the filter keeps a detection.
pub open spec fn is_accepted(raw: RawDetection, config: FilterConfig) -> bool {
    rejection_of(raw, config) is None
}

impl Default for FilterConfig {
    /// Identifiers up to 8 and areas from 1000 are kept.
    fn default() -> (config: FilterConfig)
        ensures
            config.max_id == 8,
            config.min_area == 1000,
    {
        FilterConfig { max_id: DEFAULT_MAX_ID, min_area: DEFAULT_MIN_AREA }
    }
}

/// The edges of a closed corner loop end at corners of the loop.
pub proof fn lemma_edge_end_is_corner(corners: Seq<Point2I>, i: int)
    requires
        0 <= i < corners.len(),
    ensures
        0 <= (i + 1) % (corners.len() as int) < corners.len(),
        edge_end(corners, i) == corners[(i + 1) % (corners.len() as int)],
{
    vstd::arithmetic::div_mod::lemma_mod_bound(i + 1, corners.len() as int);
}

/// The index of the corner that follows corner `i` in a closed loop of `n`
/// corners.
pub fn next_index(i: usize, n: usize) -> (next: usize)
    requires
        i < n,
    ensures
        next == (i + 1) % (n as int),
        next < n,
{
    if i + 1 == n {
        proof {
            vstd::arithmetic::div_mod::lemma_mod_self_0(n as int);
        }
        0
    } else {
        proof {
            vstd::arithmetic::div_mod::lemma_small_mod((i + 1) as nat, n as nat);
        }
        i + 1
    }
}

/// Each shoelace term is below `2^63` in magnitude, so a prefix of `n` terms
/// is below `n * 2^63`.
pub proof fn lemma_shoelace_bounded(corners: Seq<Point2I>, n: nat)
    ensures
        -(n * 0x8000_0000_0000_0000) <= shoelace_prefix(corners, n) <= n * 0x8000_0000_0000_0000,
    decreases n,
{
    if n > 0 {
        lemma_shoelace_bounded(corners, (n - 1) as nat);
        lemma_cross_bounded(corners[n - 1], edge_end(corners, n - 1));
    }
}

/// Either product of a shoelace term is at most `2^62` in magnitude, and so
/// the term is at most `2^63`.
pub proof fn lemma_cross_bounded(p: Point2I, q: Point2I)
    ensures
        -0x4000_0000_0000_0000 <= p.x * q.y <= 0x4000_0000_0000_0000,
        -0x4000_0000_0000_0000 <= q.x * p.y <= 0x4000_0000_0000_0000,
        -0x8000_0000_0000_0000 <= cross(p, q) <= 0x8000_0000_0000_0000,
{
    let (a, b, c, d) = (p.x as int, q.y as int, q.x as int, p.y as int);
    assert(-0x4000_0000_0000_0000 <= a * b <= 0x4000_0000_0000_0000) by (nonlinear_arith)
        requires
            -0x8000_0000 <= a <= 0x8000_0000,
            -0x8000_0000 <= b <= 0x8000_0000,
    ;
    assert(-0x4000_0000_0000_0000 <= c * d <= 0x4000_0000_0000_0000) by (nonlinear_arith)
        requires
            -0x8000_0000 <= c <= 0x8000_0000,
            -0x8000_0000 <= d <= 0x8000_0000,
    ;
}

/// The shoelace sum of a closed corner loop.
pub fn shoelace(corners: &Vec<Point2I>) -> (sum: i128)
    ensures
        sum == shoelace_sum(corners@),
{
    let n: usize = corners.len();
    let mut sum: i128 = 0;
    let mut i: usize = 0;
    while i < n
        invariant
            n == corners@.len(),
            i <= n,
            sum == shoelace_prefix(corners@, i as nat),
        decreases n - i,
    {
        let p: Point2I = corners[i];
        let q: Point2I = corners[next_index(i, n)];
        proof {
            assert(q == edge_end(corners@, i as int));
            lemma_shoelace_bounded(corners@, i as nat);
            lemma_cross_bounded(p, q);
            assert(i * 0x8000_0000_0000_0000 <= 0xffff_ffff_ffff_ffff * 0x8000_0000_0000_0000)
                by (nonlinear_arith)
                requires
                    0 <= i <= 0xffff_ffff_ffff_ffff,
            ;
        }
        let term: i128 = (p.x as i128) * (q.y as i128) - (q.x as i128) * (p.y as i128);
        sum = sum + term;
        i = i + 1;
    }
    sum
}

/// A copy of a list of points.
pub fn copy_points(points: &Vec<Point2I>) -> (copy: Vec<Point2I>)
    ensures
        copy@ == points@,
{
    let mut copy: Vec<Point2I> = Vec::new();
    let mut i: usize = 0;
    while i < points.len()
        invariant
            i <= points@.len(),
            copy@ == points@.take(i as int),
        decreases points@.len() - i,
    {
        copy.push(points[i]);
        assert(copy@ =~= points@.take(i + 1));
        i = i + 1;
    }
    assert(points@.take(points@.len() as int) =~= points@);
    copy
}

/// Decides whether a detection is kept, and says why when it is not.
///
/// A kept detection is handed on with its identifier, corners and centre,
/// and with the shoelace sum of its corners.
pub fn filter_detection(raw: &RawDetection, config: &FilterConfig) -> (decision: FilterDecision)
    ensures
        match decision {
            FilterDecision::Rejected(reason) => rejection_of(*raw, *config) == Some(reason),
            FilterDecision::Accepted(kept) => {
                &&& rejection_of(*raw, *config) is None
                &&& kept.id == raw.id
                &&& kept.corners@ == raw.corners@
                &&& kept.center == raw.center
                &&& kept.area == shoelace_sum(raw.corners@)
            },
        },
        raw.id > config.max_id ==> decision == FilterDecision::Rejected(Rejection::IdTooLarge),
        raw.corners@.len() != 4 ==> decision is Rejected,
        magnitude(shoelace_sum(raw.corners@)) < 2 * config.min_area ==> decision is Rejected,
{
    if raw.id > config.max_id {
        return FilterDecision::Rejected(Rejection::IdTooLarge);
    }
    if raw.corners.len() != 4 {
        return FilterDecision::Rejected(Rejection::NotQuadrilateral);
    }
    let area: i128 = shoelace(&raw.corners);
    proof {
        lemma_shoelace_bounded(raw.corners@, 4);
    }
    let size: i128 = if area < 0 {
        -area
    } else {
        area
    };
    if size < 2 * (config.min_area as i128) {
        return FilterDecision::Rejected(Rejection::AreaTooSmall);
    }
    FilterDecision::Accepted(
        AcceptedDetection {
            id: raw.id,
            corners: copy_points(&raw.corners),
            center: raw.center,
            area,
        },
    )
}

/// Whether the filter keeps a detection.
pub fn accepts(raw: &RawDetection, config: &FilterConfig) -> (kept: bool)
    ensures
        kept == is_accepted(*raw, *config),
{
    match filter_detection(raw, config) {
        FilterDecision::Accepted(_) => true,
        FilterDecision::Rejected(_) => false,
    }
}

} // verus!
