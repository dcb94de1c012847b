//! How a moving box lies to a single plane, decided from comparisons of
//! signed distances that the caller has made.
//!
//! `pad` is the half-width of the box along the plane's normal, and the
//! distances are those of the start and the end of the motion to the plane.
use vstd::prelude::*;

verus! {

/// The comparisons that place a motion against a plane on its own.
#[derive(Debug, Clone, Copy)]
pub struct SegmentFacts {
    /// The start is at least `pad` in front.
    pub start_front: bool,
    /// The end is at least `pad` in front.
    pub end_front: bool,
    /// The start is at least `pad` behind.
    pub start_back: bool,
    /// The end is at least `pad` behind.
    pub end_back: bool,
    /// Start and end are at the same distance.
    pub level: bool,
    /// The start is on the plane or in front of it.
    pub start_nonneg: bool,
}

/// Where a motion lies to a plane.
#[derive(Debug, Clone, Copy, PartialEq, Eq, Structural)]
pub enum PlaneSide {
    Front,
    Back,
    /// The box meets the plane on the way; a time of impact is due.
    Span,
}

/// Places a motion against a plane.  Clear of the plane at both ends on one
/// side, it lies on that side, the front tried first.  Otherwise a motion
/// along the plane lies on the side on which it starts, and any other spans
/// the plane.
pub fn test_ray(facts: SegmentFacts) -> (side: PlaneSide)
    ensures
        side == PlaneSide::Front <==> (facts.start_front && facts.end_front) || (!(facts.start_back
            && facts.end_back) && facts.level && facts.start_nonneg),
        side == PlaneSide::Back <==> !(facts.start_front && facts.end_front) && ((facts.start_back
            && facts.end_back) || (facts.level && !facts.start_nonneg)),
        side == PlaneSide::Span <==> !(facts.start_front && facts.end_front) && !(facts.start_back
            && facts.end_back) && !facts.level,
{
    if facts.start_front && facts.end_front {
        PlaneSide::Front
    } else if facts.start_back && facts.end_back {
        PlaneSide::Back
    } else if facts.level {
        if facts.start_nonneg {
            PlaneSide::Front
        } else {
            PlaneSide::Back
        }
    } else {
        PlaneSide::Span
    }
}

/// The comparisons that place a stretch of a sweep against a node's plane.
#[derive(Debug, Clone, Copy)]
pub struct SweepFacts {
    /// The stretch ends before it begins.
    pub reversed: bool,
    /// The start is more than `pad` in front.
    pub start_front: bool,
    /// The end is more than `pad` in front.
    pub end_front: bool,
    /// The start is more than `pad` behind.
    pub start_back: bool,
    /// The end is more than `pad` behind.
    pub end_back: bool,
    /// Start and end are at about the same distance.
    pub level: bool,
    /// The start is nearer the back than the end.
    pub rising: bool,
}

/// Where a stretch of a sweep lies to a node's plane.
#[derive(Debug, Clone, Copy, PartialEq, Eq, Structural)]
pub enum SweepKind {
    Empty,
    Front,
    Back,
    Parallel,
    /// The box meets the plane, going from the back to the front.
    Rising,
    /// The box meets the plane, going from the front to the back.
    Falling,
}

/// Places a stretch of a sweep against a node's plane.  An empty stretch
/// comes first; then clear in front, clear behind, and along the plane, in
/// that order; what is left meets the plane.
pub fn classify_sweep(facts: SweepFacts) -> (kind: SweepKind)
    ensures
        kind == SweepKind::Empty <==> facts.reversed,
        kind == SweepKind::Front <==> !facts.reversed && facts.start_front && facts.end_front,
        kind == SweepKind::Back <==> !facts.reversed && !(facts.start_front && facts.end_front)
            && facts.start_back && facts.end_back,
        kind == SweepKind::Parallel <==> !facts.reversed && !(facts.start_front && facts.end_front)
            && !(facts.start_back && facts.end_back) && facts.level,
        kind == SweepKind::Rising <==> !facts.reversed && !(facts.start_front && facts.end_front)
            && !(facts.start_back && facts.end_back) && !facts.level && facts.rising,
        kind == SweepKind::Falling <==> !facts.reversed && !(facts.start_front && facts.end_front)
            && !(facts.start_back && facts.end_back) && !facts.level && !facts.rising,
{
    if facts.reversed {
        SweepKind::Empty
    } else if facts.start_front && facts.end_front {
        SweepKind::Front
    } else if facts.start_back && facts.end_back {
        SweepKind::Back
    } else if facts.level {
        SweepKind::Parallel
    } else if facts.rising {
        SweepKind::Rising
    } else {
        SweepKind::Falling
    }
}

} // verus!
