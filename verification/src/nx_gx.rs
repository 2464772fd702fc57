//! Artifacts with several nodes whose strokes pass in different ways.
//!
//! The strokes that end here or stand alone are dropped, those that continue
//! stay. What falls apart is connected again.
use crate::ces::{ces_type, classify_ces_edges, continuing, not_continuing, roundabout};
use crate::connections::{degree, node_coords_to_lines, node_degree, LineEnd};
use crate::coverage::{close_by, find_nodes_near_polygon};
use crate::lists::{copy_ids, count_distinct, select};
use crate::measure::Measure;
use crate::pairs::{solution, PairMember};
use crate::singletons::{skeleton_move, skeleton_step, snap_lines};
use crate::steps::{
    finish_with_line, finish_without_lines, finished, FollowUp, Move, Outcome, Request,
    SkeletonRequest, Step,
};
use crate::types::{copy_lines, lines, CoinsResult, Coord, LineString, NodeKey};
use vstd::prelude::*;

verus! {

/// The artifact: the edges that it covers, their nodes, the keys of these, and
/// how far they are from it.
#[derive(Debug)]
pub struct MixedCase {
    pub covered_edges: Vec<usize>,
    pub node_coords: Vec<Coord>,
    pub node_keys: Vec<NodeKey>,
    pub node_distances: Vec<Measure>,
}

/// The shortest line to an edge, if there is one, and whether it lies within the
/// artifact.
#[derive(Debug)]
pub struct ShortestLine {
    pub line: Option<LineString>,
    pub within: bool,
}

/// What was answered so far.
#[derive(Debug)]
pub struct MixedAnswers {
    /// Whether the line between the two nodes of a loop lies within the artifact.
    pub shortcut: Option<bool>,
    /// The components of the edges that stay.
    pub labels: Option<Vec<usize>>,
    /// How far each node on the artifact is from each edge that stays.
    pub node_gaps: Option<Vec<Vec<Measure>>>,
    pub shortest: Option<ShortestLine>,
    pub skeleton: Option<Vec<LineString>>,
    pub skeleton_labels: Option<Vec<usize>>,
    pub redrawn: Option<Vec<LineString>>,
}

impl MixedCase {
    pub open spec fn wf(&self) -> bool {
        &&& self.node_keys@.len() == self.node_coords@.len()
        &&& self.node_distances@.len() == self.node_coords@.len()
    }

    /// The nodes on the artifact.
    pub open spec fn nodes(&self, eps: Measure) -> Seq<Coord> {
        select(
            self.node_coords@,
            close_by(self.node_distances@, eps),
            self.node_coords@.len() as int,
        )
    }

    /// The keys of the nodes on the artifact.
    pub open spec fn keys(&self, eps: Measure) -> Seq<NodeKey> {
        select(
            self.node_keys@,
            close_by(self.node_distances@, eps),
            self.node_keys@.len() as int,
        )
    }

    /// The edges that stay: their strokes continue.
    pub open spec fn kept(&self, coins: &CoinsResult) -> Seq<usize> {
        select(
            self.covered_edges@,
            continuing(self.covered_edges@, coins),
            self.covered_edges@.len() as int,
        )
    }

    /// The edges that go: their strokes end here.
    pub open spec fn dropped(&self, coins: &CoinsResult) -> Seq<usize> {
        select(
            self.covered_edges@,
            not_continuing(self.covered_edges@, coins),
            self.covered_edges@.len() as int,
        )
    }

    /// How many strokes the covered edges belong to.
    pub open spec fn strokes(&self, coins: &CoinsResult) -> nat {
        groups_of(self.covered_edges@, coins).to_set().len()
    }
}

/// The group of each edge.
pub open spec fn groups_of(edges: Seq<usize>, coins: &CoinsResult) -> Seq<usize> {
    Seq::new(edges.len(), |k: int| coins.group@[edges[k] as int])
}

/// Whether a node is on one of the edges that stay.
pub open spec fn on_kept(gaps: Seq<Measure>, eps: Measure) -> bool {
    exists|h: int| 0 <= h < gaps.len() && (#[trigger] gaps[h]).below(eps)
}

/// The nodes that share their place with no node on an edge that stays.
pub open spec fn is_cut_off(keys: Seq<NodeKey>, gaps: Seq<Vec<Measure>>, eps: Measure) -> spec_fn(
    int,
) -> bool {
    |r: int|
        forall|q: int|
            0 <= q < keys.len() && on_kept((#[trigger] gaps[q])@, eps) ==> keys[q] != keys[r]
}

/// The nodes on an edge that stays in which more than three line ends meet.
pub open spec fn is_target(
    keys: Seq<NodeKey>,
    gaps: Seq<Vec<Measure>>,
    ends: Seq<LineEnd>,
    eps: Measure,
) -> spec_fn(int) -> bool {
    |r: int| on_kept(gaps[r]@, eps) && degree(ends, keys[r]) > 3
}

/// A loop: one edge stays, one goes, and there are two nodes.
pub open spec fn is_loop(kept: Seq<usize>, dropped: Seq<usize>, nodes: Seq<Coord>) -> bool {
    kept.len() == 1 && dropped.len() == 1 && nodes.len() == 2
}

/// A sausage: two nodes and two strokes, at least one of which stays.
pub open spec fn is_sausage(case: MixedCase, coins: &CoinsResult) -> bool {
    case.node_coords@.len() == 2 && case.strokes(coins) == 2 && case.kept(coins).len() > 0
}

/// The step that connects several edges that stay: a skeleton between all covered
/// edges, snapped to the targets. A skeleton in pieces is drawn again with less
/// clipped.
pub open spec fn junction_move(
    covered: Seq<usize>,
    dropped: Seq<usize>,
    targets: Seq<Coord>,
    clip_limit: Measure,
    eps: Measure,
    answers: MixedAnswers,
) -> Move {
    let request = Request {
        edges: covered,
        snap_to: if targets.len() == 0 {
            None
        } else {
            Some(snap_lines(targets))
        },
        secondary: None,
        clip_limit,
    };
    if answers.skeleton is None {
        Move::Draw(request)
    } else {
        let drawn = lines(answers.skeleton->0@);
        if drawn.len() > 1 && answers.skeleton_labels is None {
            Move::LabelSkeleton
        } else {
            let in_pieces = drawn.len() > 1 && answers.skeleton_labels->0@.to_set().len() > 1;
            if in_pieces && answers.redrawn is None {
                Move::Redraw(Request { clip_limit: eps, ..request })
            } else {
                let used = if in_pieces && answers.redrawn->0@.len() > 0 {
                    lines(answers.redrawn->0@)
                } else {
                    drawn
                };
                Move::Finished { drop: dropped, add: used, follow_up: FollowUp::Reconnect, targets }
            }
        }
    }
}

/// The step that connects cut off nodes to a single edge that stays: a shortest
/// line for one node, as long as it lies within the artifact, a skeleton
/// otherwise.
pub open spec fn spur_move(
    kept: Seq<usize>,
    dropped: Seq<usize>,
    cut_off: Seq<Coord>,
    clip_limit: Measure,
    eps: Measure,
    answers: MixedAnswers,
) -> Move {
    if cut_off.len() == 1 && answers.shortest is None {
        Move::FindShortest(cut_off[0], kept, eps)
    } else if cut_off.len() == 1 && answers.shortest->0.line is Some && answers.shortest->0.within {
        finished(dropped, seq![answers.shortest->0.line->0@], FollowUp::Keep)
    } else {
        skeleton_move(dropped, cut_off, Some(kept), clip_limit, dropped, answers.skeleton)
    }
}

/// The step once the edges that stay have fallen apart, or where a single one stays.
pub open spec fn reconnect_move(
    case: MixedCase,
    coins: &CoinsResult,
    ends: Seq<LineEnd>,
    clip_limit: Measure,
    eps: Measure,
    answers: MixedAnswers,
) -> Move {
    let kept = case.kept(coins);
    let dropped = case.dropped(coins);
    let nodes = case.nodes(eps);
    let keys = case.keys(eps);
    if answers.node_gaps is None {
        Move::MeasureNodes(nodes, kept)
    } else {
        let gaps = answers.node_gaps->0@;
        let cut_off = select(nodes, is_cut_off(keys, gaps, eps), nodes.len() as int);
        if cut_off.len() == 0 {
            finished(dropped, Seq::empty(), FollowUp::Keep)
        } else if kept.len() > 1 {
            junction_move(
                case.covered_edges@,
                dropped,
                select(nodes, is_target(keys, gaps, ends, eps), nodes.len() as int),
                clip_limit,
                eps,
                answers,
            )
        } else {
            spur_move(kept, dropped, cut_off, clip_limit, eps, answers)
        }
    }
}

/// The step for an artifact whose strokes are of different kinds.
pub open spec fn mixed_move(
    case: MixedCase,
    coins: &CoinsResult,
    ends: Seq<LineEnd>,
    clip_limit: Measure,
    eps: Measure,
    answers: MixedAnswers,
) -> Move {
    let kept = case.kept(coins);
    let dropped = case.dropped(coins);
    let nodes = case.nodes(eps);
    if is_loop(kept, dropped, nodes) && answers.shortcut is None {
        Move::TestWithin(seq![seq![nodes[0], nodes[1]]], eps)
    } else if is_loop(kept, dropped, nodes) && answers.shortcut == Some(true) {
        finished(dropped, seq![seq![nodes[0], nodes[1]]], FollowUp::Keep)
    } else if is_sausage(case, coins) {
        finished(
            dropped,
            seq![seq![case.node_coords@[0], case.node_coords@[1]]],
            FollowUp::Keep,
        )
    } else if kept.len() == 0 && dropped.len() > 0 {
        skeleton_move(dropped, nodes, None, clip_limit, dropped, answers.skeleton)
    } else if kept.len() > 1 && answers.labels is None {
        Move::LabelComponents(kept)
    } else if kept.len() > 1 && answers.labels->0@.to_set().len() <= 1 {
        finished(dropped, Seq::empty(), FollowUp::Keep)
    } else {
        reconnect_move(case, coins, ends, clip_limit, eps, answers)
    }
}

fn count_strokes(edges: &Vec<usize>, coins: &CoinsResult) -> (r: usize)
    requires
        coins.knows(edges@),
    ensures
        r == groups_of(edges@, coins).to_set().len(),
{
    let mut groups: Vec<usize> = Vec::new();
    let mut k: usize = 0;
    while k < edges.len()
        invariant
            k <= edges@.len(),
            coins.knows(edges@),
            groups@.len() == k,
            forall|j: int| 0 <= j < k ==> #[trigger] groups@[j] == coins.group@[edges@[j] as int],
        decreases edges.len() - k,
    {
        assert(coins.has(edges@[k as int]));
        groups.push(coins.group[edges[k]]);
        k = k + 1;
    }
    assert(groups@ =~= groups_of(edges@, coins));
    count_distinct(&groups)
}

fn keys_near(case: &MixedCase, eps: Measure) -> (r: Vec<NodeKey>)
    requires
        case.wf(),
    ensures
        r@ == case.keys(eps),
{
    let ghost keep = close_by(case.node_distances@, eps);
    let mut r: Vec<NodeKey> = Vec::new();
    let mut k: usize = 0;
    while k < case.node_keys.len()
        invariant
            k <= case.node_keys@.len(),
            case.wf(),
            keep == close_by(case.node_distances@, eps),
            r@ == select(case.node_keys@, keep, k as int),
        decreases case.node_keys.len() - k,
    {
        let close = case.node_distances[k].le(&eps);
        assert(keep(k as int) == close);
        if close {
            r.push(case.node_keys[k]);
        }
        k = k + 1;
    }
    r
}

fn is_on_kept(gaps: &Vec<Measure>, eps: &Measure) -> (r: bool)
    ensures
        r == on_kept(gaps@, *eps),
{
    let mut h: usize = 0;
    while h < gaps.len()
        invariant
            h <= gaps@.len(),
            forall|k: int| 0 <= k < h ==> !(#[trigger] gaps@[k]).below(*eps),
        decreases gaps.len() - h,
    {
        if gaps[h].lt(eps) {
            assert(gaps@[h as int].below(*eps));
            return true;
        }
        h = h + 1;
    }
    false
}

fn find_cut_off(nodes: &Vec<Coord>, keys: &Vec<NodeKey>, gaps: &Vec<Vec<Measure>>, eps: Measure)
    -> (r: Vec<Coord>)
    requires
        keys@.len() == nodes@.len(),
        gaps@.len() == nodes@.len(),
    ensures
        r@ == select(nodes@, is_cut_off(keys@, gaps@, eps), nodes@.len() as int),
{
    let ghost keep = is_cut_off(keys@, gaps@, eps);
    let mut r: Vec<Coord> = Vec::new();
    let mut k: usize = 0;
    while k < nodes.len()
        invariant
            k <= nodes@.len(),
            keys@.len() == nodes@.len(),
            gaps@.len() == nodes@.len(),
            keep == is_cut_off(keys@, gaps@, eps),
            r@ == select(nodes@, keep, k as int),
        decreases nodes.len() - k,
    {
        let mut cut_off = true;
        let mut q: usize = 0;
        while q < keys.len()
            invariant
                q <= keys@.len(),
                k < keys@.len(),
                gaps@.len() == keys@.len(),
                cut_off <==> forall|j: int|
                    0 <= j < q && on_kept((#[trigger] gaps@[j])@, eps) ==> keys@[j] != keys@[k as int],
            decreases keys.len() - q,
        {
            if is_on_kept(&gaps[q], &eps) && keys[q] == keys[k] {
                cut_off = false;
                assert(on_kept(gaps@[q as int]@, eps));
            }
            q = q + 1;
        }
        assert(keep(k as int) == cut_off);
        if cut_off {
            r.push(nodes[k]);
        }
        k = k + 1;
    }
    r
}

fn find_targets(
    nodes: &Vec<Coord>,
    keys: &Vec<NodeKey>,
    gaps: &Vec<Vec<Measure>>,
    ends: &Vec<LineEnd>,
    eps: Measure,
) -> (r: Vec<Coord>)
    requires
        keys@.len() == nodes@.len(),
        gaps@.len() == nodes@.len(),
    ensures
        r@ == select(nodes@, is_target(keys@, gaps@, ends@, eps), nodes@.len() as int),
{
    let ghost keep = is_target(keys@, gaps@, ends@, eps);
    let mut r: Vec<Coord> = Vec::new();
    let mut k: usize = 0;
    while k < nodes.len()
        invariant
            k <= nodes@.len(),
            keys@.len() == nodes@.len(),
            gaps@.len() == nodes@.len(),
            keep == is_target(keys@, gaps@, ends@, eps),
            r@ == select(nodes@, keep, k as int),
        decreases nodes.len() - k,
    {
        let target = is_on_kept(&gaps[k], &eps) && node_degree(ends, keys[k]) > 3;
        assert(keep(k as int) == target);
        if target {
            r.push(nodes[k]);
        }
        k = k + 1;
    }
    r
}

fn junction_step(
    covered: &Vec<usize>,
    dropped: Vec<usize>,
    targets: Vec<Coord>,
    clip_limit: Measure,
    eps: Measure,
    answers: &MixedAnswers,
) -> (r: Step)
    ensures
        r@ == junction_move(covered@, dropped@, targets@, clip_limit, eps, *answers),
{
    let snap_to = if targets.len() == 0 {
        None
    } else {
        Some(node_coords_to_lines(&targets))
    };
    let drawn = match &answers.skeleton {
        Some(drawn) => drawn,
        None => {
            return Step::Draw(
                SkeletonRequest { edges: copy_ids(covered), snap_to, secondary: None, clip_limit },
            );
        },
    };
    assert(lines(drawn@).len() == drawn@.len());
    let mut used = copy_lines(drawn);
    if drawn.len() > 1 {
        let labels = match &answers.skeleton_labels {
            Some(labels) => labels,
            None => {
                return Step::LabelSkeleton;
            },
        };
        if count_distinct(labels) > 1 {
            match &answers.redrawn {
                None => {
                    return Step::Redraw(
                        SkeletonRequest {
                            edges: copy_ids(covered),
                            snap_to,
                            secondary: None,
                            clip_limit: eps,
                        },
                    );
                },
                Some(redrawn) => {
                    if redrawn.len() > 0 {
                        used = copy_lines(redrawn);
                    }
                },
            }
        }
    }
    Step::Finished(
        Outcome { to_drop: dropped, to_add: used, follow_up: FollowUp::Reconnect, targets },
    )
}

fn spur_step(
    kept: Vec<usize>,
    dropped: Vec<usize>,
    cut_off: &Vec<Coord>,
    clip_limit: Measure,
    eps: Measure,
    answers: &MixedAnswers,
) -> (r: Step)
    ensures
        r@ == spur_move(kept@, dropped@, cut_off@, clip_limit, eps, *answers),
{
    if cut_off.len() == 1 {
        match &answers.shortest {
            None => {
                return Step::FindShortest(cut_off[0], kept, eps);
            },
            Some(found) => {
                if found.within {
                    match &found.line {
                        Some(line) => {
                            return finish_with_line(dropped, line.clone());
                        },
                        None => {},
                    }
                }
            },
        }
    }
    let secondary = Some(kept);
    skeleton_step(&dropped, cut_off, &secondary, clip_limit, &dropped, &answers.skeleton)
}

/// Simplifies an artifact whose strokes pass in different ways. The edges whose
/// strokes end here are dropped. The nodes of a loop are joined by a straight line,
/// if that lies within the artifact, and so are those of a sausage. Where nothing
/// stays, the dropped edges are replaced by their skeleton. What is cut off by the
/// drops is connected again: several edges that fall apart by a skeleton between
/// all covered edges; nodes off a single edge by a shortest line or a skeleton.
/// `ends` holds the ends of all edges of the network.
pub fn process_nx_gx(
    case: &MixedCase,
    coins: &CoinsResult,
    ends: &Vec<LineEnd>,
    clip_limit: Measure,
    eps: Measure,
    answers: &MixedAnswers,
) -> (r: Step)
    requires
        case.wf(),
        coins.knows(case.covered_edges@),
        answers.node_gaps matches Some(gaps) ==> gaps@.len() == case.nodes(eps).len(),
    ensures
        r@ == mixed_move(*case, coins, ends@, clip_limit, eps, *answers),
{
    let (_c_edges, _e_edges, _s_edges, dropped, kept) = classify_ces_edges(
        &case.covered_edges,
        coins,
    );
    let nodes = find_nodes_near_polygon(&case.node_coords, &case.node_distances, eps);
    if kept.len() == 1 && dropped.len() == 1 && nodes.len() == 2 {
        match &answers.shortcut {
            None => {
                let mut own: Vec<LineString> = Vec::new();
                own.push(LineString::segment(nodes[0], nodes[1]));
                assert(lines(own@) =~= seq![seq![nodes@[0], nodes@[1]]]);
                return Step::TestWithin(own, eps);
            },
            Some(within) => {
                if *within {
                    return finish_with_line(dropped, LineString::segment(nodes[0], nodes[1]));
                }
            },
        }
    }
    if case.node_coords.len() == 2 && count_strokes(&case.covered_edges, coins) == 2 && kept.len()
        > 0 {
        let line = LineString::segment(case.node_coords[0], case.node_coords[1]);
        return finish_with_line(dropped, line);
    }
    if kept.len() == 0 && dropped.len() > 0 {
        return skeleton_step(&dropped, &nodes, &None, clip_limit, &dropped, &answers.skeleton);
    }
    if kept.len() > 1 {
        let labels = match &answers.labels {
            Some(labels) => labels,
            None => {
                return Step::LabelComponents(kept);
            },
        };
        if count_distinct(labels) <= 1 {
            return finish_without_lines(dropped);
        }
    }
    let gaps = match &answers.node_gaps {
        Some(gaps) => gaps,
        None => {
            return Step::MeasureNodes(nodes, kept);
        },
    };
    let keys = keys_near(case, eps);
    proof {
        selected_alike(
            case.node_coords@,
            case.node_keys@,
            close_by(case.node_distances@, eps),
            case.node_coords@.len() as int,
        );
    }
    let cut_off = find_cut_off(&nodes, &keys, gaps, eps);
    if cut_off.len() == 0 {
        return finish_without_lines(dropped);
    }
    if kept.len() > 1 {
        let targets = find_targets(&nodes, &keys, gaps, ends, eps);
        return junction_step(&case.covered_edges, dropped, targets, clip_limit, eps, answers);
    }
    spur_step(kept, dropped, &cut_off, clip_limit, eps, answers)
}

pub(crate) proof fn selected_alike<S, T>(a: Seq<S>, b: Seq<T>, keep: spec_fn(int) -> bool, n: int)
    ensures
        select(a, keep, n).len() == select(b, keep, n).len(),
    decreases n,
{
    if n > 0 {
        selected_alike(a, b, keep, n - 1);
    }
}

/// However it ends, the simplification drops exactly the covered edges whose
/// strokes end here: no edge of a stroke that continues is ever dropped.
pub proof fn only_ending_strokes_are_dropped(
    case: MixedCase,
    coins: &CoinsResult,
    ends: Seq<LineEnd>,
    clip_limit: Measure,
    eps: Measure,
    answers: MixedAnswers,
)
    ensures
        mixed_move(case, coins, ends, clip_limit, eps, answers) matches Move::Finished {
            drop,
            ..
        } ==> drop == case.dropped(coins),
{
}

/// A step asks only for what was not answered yet: with all answers given the
/// simplification ends.
pub proof fn mixed_ends_when_answered(
    case: MixedCase,
    coins: &CoinsResult,
    ends: Seq<LineEnd>,
    clip_limit: Measure,
    eps: Measure,
    answers: MixedAnswers,
)
    ensures
        match mixed_move(case, coins, ends, clip_limit, eps, answers) {
            Move::TestWithin(_, _) => answers.shortcut is None,
            Move::LabelComponents(_) => answers.labels is None,
            Move::MeasureNodes(_, _) => answers.node_gaps is None,
            Move::FindShortest(_, _, _) => answers.shortest is None,
            Move::Draw(_) => answers.skeleton is None,
            Move::LabelSkeleton => answers.skeleton_labels is None,
            Move::Redraw(_) => answers.redrawn is None,
            Move::Finished { .. } => true,
            _ => false,
        },
{
}

/// Where several edges stay and hold together, nothing is added, but for the line
/// between the two nodes of a sausage.
pub proof fn what_holds_together_needs_no_line(
    case: MixedCase,
    coins: &CoinsResult,
    ends: Seq<LineEnd>,
    clip_limit: Measure,
    eps: Measure,
    answers: MixedAnswers,
)
    requires
        case.kept(coins).len() > 1,
        answers.labels matches Some(labels) && labels@.to_set().len() <= 1,
    ensures
        mixed_move(case, coins, ends, clip_limit, eps, answers) matches Move::Finished {
            add,
            ..
        } && add == (if is_sausage(case, coins) {
            seq![seq![case.node_coords@[0], case.node_coords@[1]]]
        } else {
            Seq::empty()
        }),
{
}

/// A node that the drops cut off from the single edge that stays is connected to it
/// again: by the shortest line where it is the only one and that line lies within the
/// artifact, by a skeleton otherwise.
pub proof fn cut_off_nodes_are_reconnected(
    case: MixedCase,
    coins: &CoinsResult,
    ends: Seq<LineEnd>,
    clip_limit: Measure,
    eps: Measure,
    answers: MixedAnswers,
)
    requires
        case.kept(coins).len() == 1,
        !is_loop(case.kept(coins), case.dropped(coins), case.nodes(eps)),
        !is_sausage(case, coins),
        answers.node_gaps is Some,
        answers.shortest is Some,
        answers.skeleton is Some,
        ({
            let nodes = case.nodes(eps);
            let keep = is_cut_off(case.keys(eps), answers.node_gaps->0@, eps);
            select(nodes, keep, nodes.len() as int).len() > 0
        }),
    ensures
        ({
            let nodes = case.nodes(eps);
            let keep = is_cut_off(case.keys(eps), answers.node_gaps->0@, eps);
            let cut_off = select(nodes, keep, nodes.len() as int);
            let found = answers.shortest->0;
            let direct = cut_off.len() == 1 && found.line is Some && found.within;
            mixed_move(case, coins, ends, clip_limit, eps, answers) == finished(
                case.dropped(coins),
                if direct {
                    seq![found.line->0@]
                } else {
                    lines(answers.skeleton->0@)
                },
                if direct {
                    FollowUp::Keep
                } else {
                    FollowUp::RemoveDangles
                },
            )
        }),
{
}

/// Two sets of strokes that agree on the groups of the edges, on where these end and
/// on how many edges they have.
pub open spec fn same_strokes(a: &CoinsResult, b: &CoinsResult) -> bool {
    &&& a.group@ == b.group@
    &&& a.is_end@ == b.is_end@
    &&& a.stroke_count@ == b.stroke_count@
}

/// It makes no difference whether strokes are computed during a simplification or
/// before it: strokes that agree give the same steps and the same solutions.
pub proof fn strokes_can_be_reused(
    a: &CoinsResult,
    b: &CoinsResult,
    case: MixedCase,
    ends: Seq<LineEnd>,
    clip_limit: Measure,
    eps: Measure,
    answers: MixedAnswers,
    i: usize,
    first: PairMember,
    j: usize,
    second: PairMember,
)
    requires
        same_strokes(a, b),
    ensures
        mixed_move(case, a, ends, clip_limit, eps, answers) == mixed_move(
            case,
            b,
            ends,
            clip_limit,
            eps,
            answers,
        ),
        solution(i, first, j, second, a) == solution(i, first, j, second, b),
{
    let covered = case.covered_edges@;
    assert forall|g: usize| #[trigger] crate::ces::ends(covered, a, g) == crate::ces::ends(
        covered,
        b,
        g,
    ) by {
        same_ends(covered, a, b, g);
    }
    assert(continuing(covered, a) =~= continuing(covered, b));
    assert(not_continuing(covered, a) =~= not_continuing(covered, b));
    assert(groups_of(covered, a) =~= groups_of(covered, b));
    same_types(first.covered@, a, b);
    same_types(second.covered@, a, b);
}

proof fn same_ends(covered: Seq<usize>, a: &CoinsResult, b: &CoinsResult, g: usize)
    requires
        same_strokes(a, b),
    ensures
        crate::ces::ends(covered, a, g) == crate::ces::ends(covered, b, g),
{
    if crate::ces::ends(covered, a, g) {
        let k = choose|k: int|
            0 <= k < covered.len() && a.is_end@[#[trigger] covered[k] as int]
                && a.group@[covered[k] as int] == g;
        assert(b.is_end@[covered[k] as int] && b.group@[covered[k] as int] == g);
    }
    if crate::ces::ends(covered, b, g) {
        let k = choose|k: int|
            0 <= k < covered.len() && b.is_end@[#[trigger] covered[k] as int]
                && b.group@[covered[k] as int] == g;
        assert(a.is_end@[covered[k] as int] && a.group@[covered[k] as int] == g);
    }
}

proof fn same_types(covered: Seq<usize>, a: &CoinsResult, b: &CoinsResult)
    requires
        same_strokes(a, b),
    ensures
        forall|shared: usize| #[trigger] ces_type(covered, shared, a) == ces_type(covered, shared, b),
{
    assert forall|shared: usize| #[trigger] ces_type(covered, shared, a) == ces_type(
        covered,
        shared,
        b,
    ) by {
        same_ends(covered, a, b, a.group@[shared as int]);
        assert(roundabout(covered, a) == roundabout(covered, b));
    }
}

} // verus!
