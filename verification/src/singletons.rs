//! Artifacts that are simplified one by one.
use crate::ces::{identical, is_identical_ces};
use crate::connections::{node_coords_to_lines, node_line};
use crate::coverage::{close_by, find_nodes_near_polygon};
use crate::lists::{all_true, append_ids, copy_ids, every, select};
use crate::measure::Measure;
use crate::steps::{
    finish, finish_with_line, finish_without_lines, finished, FollowUp, Move, Request,
    SkeletonRequest, Step,
};
use crate::types::{copy_lines, extend_lines, lines, CesInfo, Changes, Coord, LineString};
use vstd::prelude::*;

verus! {

/// The tolerance with which connections lie within an artifact: a tenth.
pub const ONE_TENTH: u64 = 0x3fb9_9999_9999_999a;

/// The angle below which two connections are replaced by a direct one:
/// seventy-five degrees.
pub const SHARP: u64 = 0x4052_c000_0000_0000;

/// What decides how an artifact is simplified: how many edges it covers, how many
/// nodes these have, and how the strokes pass.
#[derive(Clone, Copy, Debug)]
pub struct SingletonFacts {
    pub n_covered: usize,
    pub n_nodes: usize,
    pub ces: CesInfo,
}

/// How an artifact is simplified.
#[derive(Clone, Copy, PartialEq, Eq, Structural, Debug)]
pub enum SingletonCase {
    /// Not at all.
    Skip,
    /// One node, one stroke.
    OneNode,
    /// Several nodes, all strokes of one kind.
    Identical,
    /// Several nodes, strokes of different kinds.
    Mixed,
}

/// How an artifact is simplified: not at all where it covers no edge or has more
/// strokes than nodes.
pub open spec fn singleton_case(facts: SingletonFacts) -> SingletonCase {
    let strokes = facts.ces.stroke_count;
    if facts.n_covered == 0 || strokes > facts.n_nodes {
        SingletonCase::Skip
    } else if facts.n_nodes == 1 && strokes == 1 {
        SingletonCase::OneNode
    } else if facts.n_nodes > 1 && identical(facts.ces) {
        SingletonCase::Identical
    } else if facts.n_nodes > 1 {
        SingletonCase::Mixed
    } else {
        SingletonCase::Skip
    }
}

/// Decides for each artifact how it is simplified.
pub fn neatify_singletons(facts: &Vec<SingletonFacts>) -> (r: Vec<SingletonCase>)
    ensures
        r@ == Seq::new(facts@.len(), |k: int| singleton_case(facts@[k])),
{
    let mut r: Vec<SingletonCase> = Vec::new();
    let mut k: usize = 0;
    while k < facts.len()
        invariant
            k <= facts@.len(),
            r@.len() == k,
            forall|j: int| 0 <= j < k ==> #[trigger] r@[j] == singleton_case(facts@[j]),
        decreases facts.len() - k,
    {
        let own = &facts[k];
        let strokes = own.ces.stroke_count;
        if own.n_covered == 0 || strokes > own.n_nodes {
            r.push(SingletonCase::Skip);
        } else if own.n_nodes == 1 && strokes == 1 {
            r.push(SingletonCase::OneNode);
        } else if own.n_nodes > 1 && is_identical_ces(&own.ces) {
            r.push(SingletonCase::Identical);
        } else if own.n_nodes > 1 {
            r.push(SingletonCase::Mixed);
        } else {
            r.push(SingletonCase::Skip);
        }
        k = k + 1;
    }
    assert(r@ =~= Seq::new(facts@.len(), |k: int| singleton_case(facts@[k])));
    r
}

/// The edges that the first `n` changes drop.
pub open spec fn all_drops(changes: Seq<Changes>, n: int) -> Seq<usize>
    decreases n,
{
    if n <= 0 {
        Seq::empty()
    } else {
        all_drops(changes, n - 1) + changes[n - 1].to_drop@
    }
}

/// The lines that the first `n` changes add.
pub open spec fn all_additions(changes: Seq<Changes>, n: int) -> Seq<Seq<Coord>>
    decreases n,
{
    if n <= 0 {
        Seq::empty()
    } else {
        all_additions(changes, n - 1) + lines(changes[n - 1].to_add@)
    }
}

/// Puts the changes of several artifacts together, in order.
pub fn gather_changes(changes: &Vec<Changes>) -> (r: Changes)
    ensures
        r.to_drop@ == all_drops(changes@, changes@.len() as int),
        lines(r.to_add@) == all_additions(changes@, changes@.len() as int),
{
    let mut to_drop: Vec<usize> = Vec::new();
    let mut to_add: Vec<LineString> = Vec::new();
    assert(lines(to_add@) =~= Seq::empty());
    let mut k: usize = 0;
    while k < changes.len()
        invariant
            k <= changes@.len(),
            to_drop@ == all_drops(changes@, k as int),
            lines(to_add@) == all_additions(changes@, k as int),
        decreases changes.len() - k,
    {
        append_ids(&mut to_drop, &changes[k].to_drop);
        extend_lines(&mut to_add, &changes[k].to_add);
        k = k + 1;
    }
    Changes { to_drop, to_add }
}

/// The nodes as lines to snap to.
pub open spec fn snap_lines(nodes: Seq<Coord>) -> Seq<Seq<Coord>> {
    Seq::new(nodes.len(), |k: int| node_line(nodes[k]))
}

/// The step that draws a skeleton between edges, snapped to nodes and to edges
/// that stay, and then drops edges and adds the skeleton without loose ends.
pub open spec fn skeleton_move(
    edges: Seq<usize>,
    nodes: Seq<Coord>,
    secondary: Option<Seq<usize>>,
    clip_limit: Measure,
    drop: Seq<usize>,
    skeleton: Option<Vec<LineString>>,
) -> Move {
    match skeleton {
        None => Move::Draw(
            Request { edges, snap_to: Some(snap_lines(nodes)), secondary, clip_limit },
        ),
        Some(drawn) => finished(drop, lines(drawn@), FollowUp::RemoveDangles),
    }
}

pub(crate) fn skeleton_step(
    edges: &Vec<usize>,
    nodes: &Vec<Coord>,
    secondary: &Option<Vec<usize>>,
    clip_limit: Measure,
    drop: &Vec<usize>,
    skeleton: &Option<Vec<LineString>>,
) -> (r: Step)
    ensures
        r@ == skeleton_move(
            edges@,
            nodes@,
            (match *secondary {
                Some(own) => Some(own@),
                None => None,
            }),
            clip_limit,
            drop@,
            *skeleton,
        ),
{
    match skeleton {
        None => {
            let snap_to = Some(node_coords_to_lines(nodes));
            let secondary = match secondary {
                Some(own) => Some(copy_ids(own)),
                None => None,
            };
            Step::Draw(SkeletonRequest { edges: copy_ids(edges), snap_to, secondary, clip_limit })
        },
        Some(drawn) => finish(copy_ids(drop), copy_lines(drawn), FollowUp::RemoveDangles),
    }
}

/// The step for an artifact with one node and one stroke.
pub open spec fn one_node_move(
    covered: Seq<usize>,
    nodes: Seq<Coord>,
    clip_limit: Measure,
    skeleton: Option<Vec<LineString>>,
) -> Move {
    skeleton_move(covered, nodes, None, clip_limit, covered, skeleton)
}

/// Simplifies an artifact with one node and one stroke: the covered edges are
/// replaced by their skeleton, snapped to the node.
pub fn process_n1_g1_identical(
    covered_edges: &Vec<usize>,
    node_coords: &Vec<Coord>,
    clip_limit: Measure,
    skeleton: &Option<Vec<LineString>>,
) -> (r: Step)
    ensures
        r@ == one_node_move(covered_edges@, node_coords@, clip_limit, *skeleton),
        r@ == skeleton_move(
            covered_edges@,
            node_coords@,
            None,
            clip_limit,
            covered_edges@,
            *skeleton,
        ),
{
    skeleton_step(covered_edges, node_coords, &None, clip_limit, covered_edges, skeleton)
}

/// An artifact with several nodes and strokes of one kind: the edges that it
/// covers, their nodes, how far these are from it, and its centroid.
#[derive(Debug)]
pub struct IdenticalCase {
    pub covered_edges: Vec<usize>,
    pub node_coords: Vec<Coord>,
    pub node_distances: Vec<Measure>,
    pub centroid: Option<Coord>,
}

/// What was answered so far: which spokes lie within the artifact, the angle
/// between two spokes, and the skeleton.
#[derive(Debug)]
pub struct IdenticalAnswers {
    pub within: Option<Vec<bool>>,
    pub angle: Option<Measure>,
    pub skeleton: Option<Vec<LineString>>,
}

impl IdenticalCase {
    /// The nodes on the artifact.
    pub open spec fn nodes(&self, eps: Measure) -> Seq<Coord> {
        select(
            self.node_coords@,
            close_by(self.node_distances@, eps),
            self.node_coords@.len() as int,
        )
    }
}

/// The lines from nodes to a centre.
pub open spec fn spokes(nodes: Seq<Coord>, centre: Coord) -> Seq<Seq<Coord>> {
    Seq::new(nodes.len(), |k: int| seq![nodes[k], centre])
}

/// The step for an artifact whose strokes are of one kind.
pub open spec fn identical_move(
    case: IdenticalCase,
    eps: Measure,
    clip_limit: Measure,
    answers: IdenticalAnswers,
) -> Move {
    let nodes = case.nodes(eps);
    let covered = case.covered_edges@;
    if nodes.len() == 0 || case.centroid is None {
        finished(Seq::empty(), Seq::empty(), FollowUp::Keep)
    } else if answers.within is None {
        Move::TestWithin(spokes(nodes, case.centroid->0), Measure { bits: ONE_TENTH })
    } else if all_true(answers.within->0@) {
        let own = spokes(nodes, case.centroid->0);
        if own.len() == 2 && answers.angle is None {
            Move::MeasureAngle(own[0], own[1])
        } else if own.len() == 2 && answers.angle->0.below(Measure { bits: SHARP }) {
            finished(covered, seq![seq![nodes[0], nodes[1]]], FollowUp::Keep)
        } else {
            finished(covered, own, FollowUp::Keep)
        }
    } else {
        skeleton_move(covered, nodes, None, clip_limit, covered, answers.skeleton)
    }
}

fn make_spokes(nodes: &Vec<Coord>, centre: Coord) -> (r: Vec<LineString>)
    ensures
        lines(r@) == spokes(nodes@, centre),
{
    let mut r: Vec<LineString> = Vec::new();
    let mut k: usize = 0;
    while k < nodes.len()
        invariant
            k <= nodes@.len(),
            r@.len() == k,
            forall|j: int| 0 <= j < k ==> (#[trigger] r@[j])@ == seq![nodes@[j], centre],
        decreases nodes.len() - k,
    {
        r.push(LineString::segment(nodes[k], centre));
        k = k + 1;
    }
    assert(lines(r@) =~= spokes(nodes@, centre));
    r
}

/// Simplifies an artifact whose strokes are of one kind. The nodes on it are
/// connected to its centroid, or, where there are two and the connections meet in
/// a sharp angle, to each other. Where a connection would leave the artifact, the
/// covered edges are replaced by their skeleton. Without a node or a centroid
/// nothing changes.
pub fn process_nx_gx_identical(
    case: &IdenticalCase,
    eps: Measure,
    clip_limit: Measure,
    answers: &IdenticalAnswers,
) -> (r: Step)
    requires
        case.node_distances@.len() == case.node_coords@.len(),
    ensures
        r@ == identical_move(*case, eps, clip_limit, *answers),
{
    let nodes = find_nodes_near_polygon(&case.node_coords, &case.node_distances, eps);
    let centre = match case.centroid {
        Some(centre) if nodes.len() > 0 => centre,
        _ => {
            let none: Vec<usize> = Vec::new();
            assert(none@ =~= Seq::empty());
            return finish_without_lines(none);
        },
    };
    let own = make_spokes(&nodes, centre);
    let ghost courses = lines(own@);
    assert(own@.len() == courses.len());
    let flags = match &answers.within {
        Some(flags) => flags,
        None => {
            return Step::TestWithin(own, Measure::from_bits(ONE_TENTH));
        },
    };
    if every(flags) {
        if own.len() == 2 {
            assert(courses[0] == own@[0]@ && courses[1] == own@[1]@);
            match &answers.angle {
                None => {
                    return Step::MeasureAngle(own[0].clone(), own[1].clone());
                },
                Some(angle) => {
                    if angle.lt(&Measure::from_bits(SHARP)) {
                        return finish_with_line(
                            copy_ids(&case.covered_edges),
                            LineString::segment(nodes[0], nodes[1]),
                        );
                    }
                },
            }
        }
        return finish(copy_ids(&case.covered_edges), own, FollowUp::Keep);
    }
    skeleton_step(
        &case.covered_edges,
        &nodes,
        &None,
        clip_limit,
        &case.covered_edges,
        &answers.skeleton,
    )
}

/// An artifact whose strokes are of one kind loses all the edges that it covers
/// or none, and none only where it has no node or no centroid.
pub proof fn identical_drops_all_or_none(
    case: IdenticalCase,
    eps: Measure,
    clip_limit: Measure,
    answers: IdenticalAnswers,
)
    ensures
        identical_move(case, eps, clip_limit, answers) matches Move::Finished {
            drop,
            add,
            ..
        } ==> {
            ||| drop == case.covered_edges@ && case.nodes(eps).len() > 0 && case.centroid is Some
            ||| drop.len() == 0 && add.len() == 0 && (case.nodes(eps).len() == 0
                || case.centroid is None)
        },
{
}

/// A step asks only for what was not answered yet: with all answers given the
/// simplification ends.
pub proof fn identical_ends_when_answered(
    case: IdenticalCase,
    eps: Measure,
    clip_limit: Measure,
    answers: IdenticalAnswers,
)
    ensures
        match identical_move(case, eps, clip_limit, answers) {
            Move::TestWithin(_, _) => answers.within is None,
            Move::MeasureAngle(_, _) => answers.angle is None,
            Move::Draw(_) => answers.skeleton is None,
            Move::Finished { .. } => true,
            _ => false,
        },
{
}

} // verus!
