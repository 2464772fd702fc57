//! What the simplification of an artifact asks for, and what it ends in.
//!
//! An artifact is simplified in steps. A step either asks for something to be
//! measured or drawn, and is taken again with the answer, or it ends with the
//! edges to drop and the lines to add.
use crate::types::{lines, Coord, LineString};
use crate::measure::Measure;
use vstd::prelude::*;

verus! {

/// A skeleton to be drawn between edges of the network: the edges, the lines to
/// snap to first and the edges to snap to second, and how much of the ends is
/// clipped.
#[derive(Debug)]
pub struct SkeletonRequest {
    pub edges: Vec<usize>,
    pub snap_to: Option<Vec<LineString>>,
    pub secondary: Option<Vec<usize>>,
    pub clip_limit: Measure,
}

/// What becomes of the lines of an outcome before they are added.
#[derive(Clone, Copy, PartialEq, Eq, Structural, Debug)]
pub enum FollowUp {
    /// They are added as they are.
    Keep,
    /// Lines with a loose end are removed.
    RemoveDangles,
    /// They are filtered, joined to the edges that stay, and lines with a loose
    /// end are removed.
    Reconnect,
}

/// The end of a simplification: the edges to drop, the lines to add, what becomes
/// of these first, and the nodes that they are meant to reach.
#[derive(Debug)]
pub struct Outcome {
    pub to_drop: Vec<usize>,
    pub to_add: Vec<LineString>,
    pub follow_up: FollowUp,
    pub targets: Vec<Coord>,
}

/// A step of the simplification of an artifact.
#[derive(Debug)]
pub enum Step {
    /// Tell of each line whether it lies within the artifact, up to a tolerance.
    TestWithin(Vec<LineString>, Measure),
    /// Measure the angle between two lines.
    MeasureAngle(LineString, LineString),
    /// Label the connected components of edges.
    LabelComponents(Vec<usize>),
    /// Measure how far nodes are from edges.
    MeasureNodes(Vec<Coord>, Vec<usize>),
    /// Find the shortest line from a node to edges, and whether it lies within the
    /// artifact, up to a tolerance.
    FindShortest(Coord, Vec<usize>, Measure),
    /// Draw a skeleton.
    Draw(SkeletonRequest),
    /// Label the connected components of the skeleton that was drawn.
    LabelSkeleton,
    /// Draw a skeleton again, with less clipped.
    Redraw(SkeletonRequest),
    /// The end.
    Finished(Outcome),
}

/// What a skeleton request asks for.
#[verifier::ext_equal]
pub struct Request {
    pub edges: Seq<usize>,
    pub snap_to: Option<Seq<Seq<Coord>>>,
    pub secondary: Option<Seq<usize>>,
    pub clip_limit: Measure,
}

impl View for SkeletonRequest {
    type V = Request;

    open spec fn view(&self) -> Request {
        Request {
            edges: self.edges@,
            snap_to: match self.snap_to {
                Some(targets) => Some(lines(targets@)),
                None => None,
            },
            secondary: match self.secondary {
                Some(edges) => Some(edges@),
                None => None,
            },
            clip_limit: self.clip_limit,
        }
    }
}

/// What a step asks for or ends in.
#[verifier::ext_equal]
pub enum Move {
    TestWithin(Seq<Seq<Coord>>, Measure),
    MeasureAngle(Seq<Coord>, Seq<Coord>),
    LabelComponents(Seq<usize>),
    MeasureNodes(Seq<Coord>, Seq<usize>),
    FindShortest(Coord, Seq<usize>, Measure),
    Draw(Request),
    LabelSkeleton,
    Redraw(Request),
    Finished { drop: Seq<usize>, add: Seq<Seq<Coord>>, follow_up: FollowUp, targets: Seq<Coord> },
}

impl View for Step {
    type V = Move;

    open spec fn view(&self) -> Move {
        match *self {
            Step::TestWithin(courses, eps) => Move::TestWithin(lines(courses@), eps),
            Step::MeasureAngle(first, second) => Move::MeasureAngle(first@, second@),
            Step::LabelComponents(edges) => Move::LabelComponents(edges@),
            Step::MeasureNodes(nodes, edges) => Move::MeasureNodes(nodes@, edges@),
            Step::FindShortest(node, edges, eps) => Move::FindShortest(node, edges@, eps),
            Step::Draw(request) => Move::Draw(request@),
            Step::LabelSkeleton => Move::LabelSkeleton,
            Step::Redraw(request) => Move::Redraw(request@),
            Step::Finished(outcome) => Move::Finished {
                drop: outcome.to_drop@,
                add: lines(outcome.to_add@),
                follow_up: outcome.follow_up,
                targets: outcome.targets@,
            },
        }
    }
}

/// The end with the given drops and additions.
pub open spec fn finished(drop: Seq<usize>, add: Seq<Seq<Coord>>, follow_up: FollowUp) -> Move {
    Move::Finished { drop, add, follow_up, targets: Seq::empty() }
}

/// Ends a simplification.
pub fn finish(to_drop: Vec<usize>, to_add: Vec<LineString>, follow_up: FollowUp) -> (r: Step)
    ensures
        r@ == finished(to_drop@, lines(to_add@), follow_up),
{
    let targets: Vec<Coord> = Vec::new();
    assert(targets@ =~= Seq::empty());
    Step::Finished(Outcome { to_drop, to_add, follow_up, targets })
}

/// Ends a simplification without a new line.
pub fn finish_without_lines(to_drop: Vec<usize>) -> (r: Step)
    ensures
        r@ == finished(to_drop@, Seq::empty(), FollowUp::Keep),
{
    let none: Vec<LineString> = Vec::new();
    assert(lines(none@) =~= Seq::empty());
    finish(to_drop, none, FollowUp::Keep)
}

/// Ends a simplification with one new line.
pub fn finish_with_line(to_drop: Vec<usize>, line: LineString) -> (r: Step)
    ensures
        r@ == finished(to_drop@, seq![line@], FollowUp::Keep),
{
    let mut one: Vec<LineString> = Vec::new();
    let ghost course = line@;
    one.push(line);
    assert(lines(one@) =~= seq![course]);
    finish(to_drop, one, FollowUp::Keep)
}

} // verus!
