//! How a single artifact is simplified.
use crate::ces::{continuing, not_continuing};
use crate::connections::{degree, end_keys, LineEnd};
use crate::coverage::close_by;
use crate::laws::selections::{
    list_is_selection, listed_are_wanted, lists_exactly, occurrences_are_filtered, one_kind,
    two_kinds,
};
use crate::laws::strokes::{ends_or_passes, passes_on};
use crate::measure::Measure;
use crate::nx_gx::{
    groups_of, is_cut_off, is_target, mixed_move, on_kept, MixedAnswers, MixedCase,
};
use crate::singletons::{
    all_additions, all_drops, identical_move, one_node_move, singleton_case, spokes,
    IdenticalAnswers, IdenticalCase, SingletonCase, SingletonFacts,
};
use crate::steps::{FollowUp, Move, Request};
use crate::types::{lines, Changes, CoinsResult, Coord, LineString, NodeKey};
use vstd::prelude::*;

verus! {

/// What there is to tell of an artifact: the covered edges whose strokes pass on, and
/// those whose strokes do not; the nodes within the tolerance, and their keys.
pub struct Scene {
    pub stay: Seq<usize>,
    pub go: Seq<usize>,
    pub near: Seq<Coord>,
    pub keys: Seq<NodeKey>,
}

/// The scene is that of the artifact.
pub open spec fn depicts(scene: Scene, case: MixedCase, coins: &CoinsResult, eps: Measure) -> bool {
    let covered = case.covered_edges@;
    &&& case.wf()
    &&& lists_exactly(scene.stay, covered, |k: int| passes_on(covered, coins, covered[k]))
    &&& lists_exactly(scene.go, covered, |k: int| !passes_on(covered, coins, covered[k]))
    &&& lists_exactly(
        scene.near,
        case.node_coords@,
        |k: int| case.node_distances@[k].at_most(eps),
    )
    &&& lists_exactly(scene.keys, case.node_keys@, |k: int| case.node_distances@[k].at_most(eps))
}

/// The covered edges belong to two strokes.
pub open spec fn two_strokes(covered: Seq<usize>, coins: &CoinsResult) -> bool {
    exists|i: int, j: int|
        {
            &&& 0 <= i < j < covered.len()
            &&& coins.group@[#[trigger] covered[i] as int]
                != coins.group@[#[trigger] covered[j] as int]
            &&& forall|k: int|
                0 <= k < covered.len() ==> coins.group@[#[trigger] covered[k] as int]
                    == coins.group@[covered[i] as int] || coins.group@[covered[k] as int]
                    == coins.group@[covered[j] as int]
        }
}

/// The node `r` shares its key with no node that is at an edge that stays.
pub open spec fn stranded(
    keys: Seq<NodeKey>,
    gaps: Seq<Vec<Measure>>,
    eps: Measure,
    r: int,
) -> bool {
    forall|q: int, h: int|
        0 <= q < keys.len() && keys[q] == keys[r] && 0 <= h < gaps[q]@.len()
            ==> !(#[trigger] gaps[q]@[h]).below(eps)
}

/// The node `r` is at an edge that stays, and more than three line ends meet in it.
pub open spec fn busy(
    keys: Seq<NodeKey>,
    gaps: Seq<Vec<Measure>>,
    ends: Seq<LineEnd>,
    eps: Measure,
    r: int,
) -> bool {
    &&& exists|h: int| 0 <= h < gaps[r]@.len() && (#[trigger] gaps[r]@[h]).below(eps)
    &&& ends.filter(|end: LineEnd| end.key == keys[r]).len() > 3
}

/// One edge stays, one goes, and two nodes are near.
pub open spec fn is_ring(scene: Scene) -> bool {
    scene.stay.len() == 1 && scene.go.len() == 1 && scene.near.len() == 2
}

proof fn scene_is_seen(scene: Scene, case: MixedCase, coins: &CoinsResult, eps: Measure)
    requires
        depicts(scene, case, coins, eps),
    ensures
        case.kept(coins) == scene.stay,
        case.dropped(coins) == scene.go,
        case.nodes(eps) == scene.near,
        case.keys(eps) == scene.keys,
        scene.keys.len() == scene.near.len(),
        case.strokes(coins) == 2 <==> two_strokes(case.covered_edges@, coins),
{
    let covered = case.covered_edges@;
    let stays = |k: int| passes_on(covered, coins, covered[k]);
    let goes = |k: int| !passes_on(covered, coins, covered[k]);
    let close = |k: int| case.node_distances@[k].at_most(eps);
    assert forall|k: int| 0 <= k < covered.len() implies (#[trigger] continuing(covered, coins)(k)
        <==> stays(k)) by {
        ends_or_passes(covered, coins, covered[k]);
    }
    assert forall|k: int| 0 <= k < covered.len() implies (#[trigger] not_continuing(
        covered,
        coins,
    )(k) <==> goes(k)) by {
        ends_or_passes(covered, coins, covered[k]);
    }
    list_is_selection(scene.stay, covered, continuing(covered, coins), stays);
    list_is_selection(scene.go, covered, not_continuing(covered, coins), goes);
    let near = close_by(case.node_distances@, eps);
    list_is_selection(scene.near, case.node_coords@, near, close);
    list_is_selection(scene.keys, case.node_keys@, near, close);
    crate::nx_gx::selected_alike(
        case.node_coords@,
        case.node_keys@,
        near,
        case.node_coords@.len() as int,
    );
    let groups = groups_of(covered, coins);
    two_kinds(groups);
    if two_strokes(covered, coins) {
        let (i, j) = choose|i: int, j: int|
            {
                &&& 0 <= i < j < covered.len()
                &&& coins.group@[#[trigger] covered[i] as int]
                    != coins.group@[#[trigger] covered[j] as int]
                &&& forall|k: int|
                    0 <= k < covered.len() ==> coins.group@[#[trigger] covered[k] as int]
                        == coins.group@[covered[i] as int] || coins.group@[covered[k] as int]
                        == coins.group@[covered[j] as int]
            };
        assert(groups[i] != groups[j]);
        assert forall|k: int| 0 <= k < groups.len() implies #[trigger] groups[k] == groups[i]
            || groups[k] == groups[j] by {
            assert(coins.group@[covered[k] as int] == groups[k]);
        }
    }
    if groups.to_set().len() == 2 {
        let (i, j) = choose|i: int, j: int|
            0 <= i < j < groups.len() && #[trigger] groups[i] != #[trigger] groups[j] && forall|
                k: int,
            |
                0 <= k < groups.len() ==> #[trigger] groups[k] == groups[i] || groups[k]
                    == groups[j];
        assert(coins.group@[covered[i] as int] != coins.group@[covered[j] as int]);
        assert forall|k: int| 0 <= k < covered.len() implies coins.group@[
            #[trigger] covered[k] as int] == coins.group@[covered[i] as int]
            || coins.group@[covered[k] as int] == coins.group@[covered[j] as int] by {
            assert(groups[k] == groups[i] || groups[k] == groups[j]);
        }
    }
}

/// Where the stroke of every covered edge ends at the artifact, nothing stays to hold
/// the streets together. So a skeleton is asked for between all covered edges, snapped
/// to the nodes nearby, and once it is drawn, it takes the place of all of them:
/// exactly the lines that were drawn are added, less those with a loose end.
pub proof fn ending_strokes_give_way_to_their_skeleton(
    scene: Scene,
    case: MixedCase,
    coins: &CoinsResult,
    ends: Seq<LineEnd>,
    clip_limit: Measure,
    eps: Measure,
    answers: MixedAnswers,
)
    requires
        depicts(scene, case, coins, eps),
        case.covered_edges@.len() > 0,
        forall|k: int|
            0 <= k < case.covered_edges@.len() ==> !(#[trigger] passes_on(
                case.covered_edges@,
                coins,
                case.covered_edges@[k],
            )),
    ensures
        ({
            let next = mixed_move(case, coins, ends, clip_limit, eps, answers);
            match answers.skeleton {
                Some(drawn) => next == (Move::Finished {
                    drop: case.covered_edges@,
                    add: lines(drawn@),
                    follow_up: FollowUp::RemoveDangles,
                    targets: Seq::empty(),
                }),
                None => next == Move::Draw(
                    Request {
                        edges: case.covered_edges@,
                        snap_to: Some(
                            Seq::new(scene.near.len(), |k: int| seq![scene.near[k], scene.near[k]]),
                        ),
                        secondary: None,
                        clip_limit,
                    },
                ),
            }
        }),
{
    scene_is_seen(scene, case, coins, eps);
    let covered = case.covered_edges@;
    let stays = |k: int| passes_on(covered, coins, covered[k]);
    let goes = |k: int| !passes_on(covered, coins, covered[k]);
    listed_are_wanted(scene.stay, covered, stays);
    listed_are_wanted(scene.go, covered, goes);
    assert(scene.stay.len() == 0) by {
        assert forall|k: int| 0 <= k < covered.len() implies !(#[trigger] stays(k)) by {
            assert(!passes_on(covered, coins, covered[k]));
        }
    }
    assert(scene.go == covered) by {
        assert forall|k: int| 0 <= k < covered.len() implies #[trigger] goes(k) by {
            assert(!passes_on(covered, coins, covered[k]));
        }
    }
    assert(crate::singletons::snap_lines(scene.near) =~= Seq::new(
        scene.near.len(),
        |k: int| seq![scene.near[k], scene.near[k]],
    ));
}

/// Where one edge stays, one goes and two nodes are near, the straight line between the
/// two nodes is tried first. If it lies within the artifact, it takes the place of the
/// edge that goes.
pub proof fn a_ring_is_cut_short(
    scene: Scene,
    case: MixedCase,
    coins: &CoinsResult,
    ends: Seq<LineEnd>,
    clip_limit: Measure,
    eps: Measure,
    answers: MixedAnswers,
)
    requires
        depicts(scene, case, coins, eps),
        is_ring(scene),
    ensures
        ({
            let next = mixed_move(case, coins, ends, clip_limit, eps, answers);
            let straight = seq![seq![scene.near[0], scene.near[1]]];
            &&& answers.shortcut is None ==> next == Move::TestWithin(straight, eps)
            &&& answers.shortcut == Some(true) ==> next == (Move::Finished {
                drop: scene.go,
                add: straight,
                follow_up: FollowUp::Keep,
                targets: Seq::empty(),
            })
            &&& next is TestWithin ==> answers.shortcut is None
        }),
{
    scene_is_seen(scene, case, coins, eps);
}

/// Two nodes, two strokes, and one of the strokes stays: the two nodes are joined by a
/// straight line, unless a ring was cut short before.
pub proof fn a_sausage_is_straightened(
    scene: Scene,
    case: MixedCase,
    coins: &CoinsResult,
    ends: Seq<LineEnd>,
    clip_limit: Measure,
    eps: Measure,
    answers: MixedAnswers,
)
    requires
        depicts(scene, case, coins, eps),
        case.node_coords@.len() == 2,
        two_strokes(case.covered_edges@, coins),
        scene.stay.len() > 0,
        is_ring(scene) ==> answers.shortcut == Some(false),
    ensures
        mixed_move(case, coins, ends, clip_limit, eps, answers) == (Move::Finished {
            drop: scene.go,
            add: seq![seq![case.node_coords@[0], case.node_coords@[1]]],
            follow_up: FollowUp::Keep,
            targets: Seq::empty(),
        }),
{
    scene_is_seen(scene, case, coins, eps);
}

/// Neither a ring that can be cut short nor a sausage.
pub open spec fn is_plain(
    scene: Scene,
    case: MixedCase,
    coins: &CoinsResult,
    answers: MixedAnswers,
) -> bool {
    &&& is_ring(scene) ==> answers.shortcut == Some(false)
    &&& !(case.node_coords@.len() == 2 && two_strokes(case.covered_edges@, coins))
}

/// Where several edges stay, it is asked whether they hold together. If they do, the
/// others are dropped and no line is added; if not, it is asked how far the nodes are
/// from them.
pub proof fn edges_that_hold_together_need_no_line(
    scene: Scene,
    case: MixedCase,
    coins: &CoinsResult,
    ends: Seq<LineEnd>,
    clip_limit: Measure,
    eps: Measure,
    answers: MixedAnswers,
)
    requires
        depicts(scene, case, coins, eps),
        is_plain(scene, case, coins, answers),
        scene.stay.len() > 1,
    ensures
        ({
            let next = mixed_move(case, coins, ends, clip_limit, eps, answers);
            match answers.labels {
                None => next == Move::LabelComponents(scene.stay),
                Some(labels) => if forall|i: int, j: int|
                    0 <= i < labels@.len() && 0 <= j < labels@.len() ==> #[trigger] labels@[i]
                        == #[trigger] labels@[j] {
                    next == (Move::Finished {
                        drop: scene.go,
                        add: Seq::empty(),
                        follow_up: FollowUp::Keep,
                        targets: Seq::empty(),
                    })
                } else {
                    answers.node_gaps is None ==> next == Move::MeasureNodes(
                        scene.near,
                        scene.stay,
                    )
                },
            }
        }),
{
    scene_is_seen(scene, case, coins, eps);
    if answers.labels is Some {
        one_kind(answers.labels->0@);
    }
}

/// Edges stay, and it is known how far the nodes are from them; where several stay, they
/// have fallen apart.
pub open spec fn is_measured(
    scene: Scene,
    case: MixedCase,
    coins: &CoinsResult,
    answers: MixedAnswers,
) -> bool {
    &&& is_plain(scene, case, coins, answers)
    &&& scene.stay.len() > 0
    &&& scene.stay.len() > 1 ==> answers.labels is Some && exists|i: int, j: int|
        0 <= i < answers.labels->0@.len() && 0 <= j < answers.labels->0@.len()
            && #[trigger] answers.labels->0@[i] != #[trigger] answers.labels->0@[j]
    &&& answers.node_gaps is Some
}

/// Which nodes are cut off from the edges that stay.
pub open spec fn finds_lost(
    lost: Seq<Coord>,
    scene: Scene,
    answers: MixedAnswers,
    eps: Measure,
) -> bool {
    lists_exactly(
        lost,
        scene.near,
        |r: int| stranded(scene.keys, answers.node_gaps->0@, eps, r),
    )
}

/// Which nodes a skeleton between the edges that stay is snapped to.
pub open spec fn finds_busy(
    targets: Seq<Coord>,
    scene: Scene,
    ends: Seq<LineEnd>,
    answers: MixedAnswers,
    eps: Measure,
) -> bool {
    lists_exactly(
        targets,
        scene.near,
        |r: int| busy(scene.keys, answers.node_gaps->0@, ends, eps, r),
    )
}

proof fn lost_are_cut_off(lost: Seq<Coord>, scene: Scene, answers: MixedAnswers, eps: Measure)
    requires
        finds_lost(lost, scene, answers, eps),
        scene.keys.len() == scene.near.len(),
    ensures
        lost == crate::lists::select(
            scene.near,
            is_cut_off(scene.keys, answers.node_gaps->0@, eps),
            scene.near.len() as int,
        ),
{
    let gaps = answers.node_gaps->0@;
    let keep = is_cut_off(scene.keys, gaps, eps);
    let wanted = |r: int| stranded(scene.keys, gaps, eps, r);
    assert forall|r: int| 0 <= r < scene.near.len() implies (#[trigger] keep(r) <==> wanted(r)) by {
        if keep(r) {
            assert forall|q: int, h: int|
                0 <= q < scene.keys.len() && scene.keys[q] == scene.keys[r] && 0 <= h
                    < gaps[q]@.len() implies !(#[trigger] gaps[q]@[h]).below(eps) by {
                if gaps[q]@[h].below(eps) {
                    assert(on_kept(gaps[q]@, eps));
                }
            }
        }
        if wanted(r) {
            assert forall|q: int|
                0 <= q < scene.keys.len() && on_kept((#[trigger] gaps[q])@, eps) implies
                scene.keys[q] != scene.keys[r] by {
                let h = choose|h: int| 0 <= h < gaps[q]@.len() && (#[trigger] gaps[q]@[h]).below(eps);
                assert(gaps[q]@[h].below(eps));
            }
        }
    }
    list_is_selection(lost, scene.near, keep, wanted);
}

proof fn busy_are_targets(
    targets: Seq<Coord>,
    scene: Scene,
    ends: Seq<LineEnd>,
    answers: MixedAnswers,
    eps: Measure,
)
    requires
        finds_busy(targets, scene, ends, answers, eps),
    ensures
        targets == crate::lists::select(
            scene.near,
            is_target(scene.keys, answers.node_gaps->0@, ends, eps),
            scene.near.len() as int,
        ),
{
    let gaps = answers.node_gaps->0@;
    let keep = is_target(scene.keys, gaps, ends, eps);
    let wanted = |r: int| busy(scene.keys, gaps, ends, eps, r);
    assert forall|r: int| 0 <= r < scene.near.len() implies (#[trigger] keep(r) <==> wanted(r)) by {
        ends_are_counted(ends, scene.keys[r]);
    }
    list_is_selection(targets, scene.near, keep, wanted);
}

/// The degree of a node is the number of line ends with its key.
pub proof fn ends_are_counted(ends: Seq<LineEnd>, key: NodeKey)
    ensures
        degree(ends, key) == ends.filter(|end: LineEnd| end.key == key).len(),
{
    occurrences_are_filtered(
        ends,
        end_keys(ends),
        key,
        |end: LineEnd| end.key == key,
        ends.len() as int,
    );
    assert(ends.take(ends.len() as int) =~= ends);
}

/// As long as every node shares its place with one at an edge that stays, nothing has to
/// be reconnected: the others are dropped and no line is added.
pub proof fn nodes_that_stay_connected_need_no_line(
    scene: Scene,
    lost: Seq<Coord>,
    case: MixedCase,
    coins: &CoinsResult,
    ends: Seq<LineEnd>,
    clip_limit: Measure,
    eps: Measure,
    answers: MixedAnswers,
)
    requires
        depicts(scene, case, coins, eps),
        is_measured(scene, case, coins, answers),
        finds_lost(lost, scene, answers, eps),
        lost.len() == 0,
    ensures
        mixed_move(case, coins, ends, clip_limit, eps, answers) == (Move::Finished {
            drop: scene.go,
            add: Seq::empty(),
            follow_up: FollowUp::Keep,
            targets: Seq::empty(),
        }),
{
    scene_is_seen(scene, case, coins, eps);
    lost_are_cut_off(lost, scene, answers, eps);
    if scene.stay.len() > 1 {
        one_kind(answers.labels->0@);
    }
}

/// Where nodes are cut off and several edges stay that have fallen apart, a skeleton is
/// drawn between all covered edges, snapped to the busy nodes, if there are any. A
/// skeleton in pieces is drawn again with no more clipped than the tolerance, and what
/// that gives is used unless it is nothing. The lines are to be filtered and joined to
/// the edges that stay.
pub proof fn lost_nodes_are_joined_by_a_skeleton(
    scene: Scene,
    lost: Seq<Coord>,
    targets: Seq<Coord>,
    case: MixedCase,
    coins: &CoinsResult,
    ends: Seq<LineEnd>,
    clip_limit: Measure,
    eps: Measure,
    answers: MixedAnswers,
)
    requires
        depicts(scene, case, coins, eps),
        is_measured(scene, case, coins, answers),
        finds_lost(lost, scene, answers, eps),
        finds_busy(targets, scene, ends, answers, eps),
        lost.len() > 0,
        scene.stay.len() > 1,
    ensures
        ({
            let next = mixed_move(case, coins, ends, clip_limit, eps, answers);
            let request = |clip: Measure|
                Request {
                    edges: case.covered_edges@,
                    snap_to: if targets.len() > 0 {
                        Some(Seq::new(targets.len(), |k: int| seq![targets[k], targets[k]]))
                    } else {
                        None
                    },
                    secondary: None,
                    clip_limit: clip,
                };
            let done = |drawn: Seq<LineString>|
                Move::Finished {
                    drop: scene.go,
                    add: lines(drawn),
                    follow_up: FollowUp::Reconnect,
                    targets,
                };
            match answers.skeleton {
                None => next == Move::Draw(request(clip_limit)),
                Some(drawn) => if drawn@.len() <= 1 {
                    next == done(drawn@)
                } else {
                    match answers.skeleton_labels {
                        None => next == Move::LabelSkeleton,
                        Some(labels) => if forall|i: int, j: int|
                            0 <= i < labels@.len() && 0 <= j < labels@.len()
                                ==> #[trigger] labels@[i] == #[trigger] labels@[j] {
                            next == done(drawn@)
                        } else {
                            match answers.redrawn {
                                None => next == Move::Redraw(request(eps)),
                                Some(redrawn) => if redrawn@.len() > 0 {
                                    next == done(redrawn@)
                                } else {
                                    next == done(drawn@)
                                },
                            }
                        },
                    }
                },
            }
        }),
{
    scene_is_seen(scene, case, coins, eps);
    lost_are_cut_off(lost, scene, answers, eps);
    busy_are_targets(targets, scene, ends, answers, eps);
    one_kind(answers.labels->0@);
    if answers.skeleton_labels is Some {
        one_kind(answers.skeleton_labels->0@);
    }
    if targets.len() > 0 {
        assert(crate::singletons::snap_lines(targets) =~= Seq::new(
            targets.len(),
            |k: int| seq![targets[k], targets[k]],
        ));
    }
}

/// Where nodes are cut off from the one edge that stays, they are connected to it. For a
/// single node the shortest line is tried first, and used if there is one that lies
/// within the artifact. Otherwise a skeleton is drawn between the edges that go, snapped
/// to the nodes and to the edge that stays, and takes their place.
pub proof fn lost_nodes_are_joined_to_the_edge_that_stays(
    scene: Scene,
    lost: Seq<Coord>,
    case: MixedCase,
    coins: &CoinsResult,
    ends: Seq<LineEnd>,
    clip_limit: Measure,
    eps: Measure,
    answers: MixedAnswers,
)
    requires
        depicts(scene, case, coins, eps),
        is_measured(scene, case, coins, answers),
        finds_lost(lost, scene, answers, eps),
        lost.len() > 0,
        scene.stay.len() == 1,
    ensures
        ({
            let next = mixed_move(case, coins, ends, clip_limit, eps, answers);
            let direct = lost.len() == 1 && answers.shortest is Some
                && answers.shortest->0.line is Some && answers.shortest->0.within;
            if lost.len() == 1 && answers.shortest is None {
                next == Move::FindShortest(lost[0], scene.stay, eps)
            } else if direct {
                next == (Move::Finished {
                    drop: scene.go,
                    add: seq![answers.shortest->0.line->0@],
                    follow_up: FollowUp::Keep,
                    targets: Seq::empty(),
                })
            } else {
                match answers.skeleton {
                    None => next == Move::Draw(
                        Request {
                            edges: scene.go,
                            snap_to: Some(Seq::new(lost.len(), |k: int| seq![lost[k], lost[k]])),
                            secondary: Some(scene.stay),
                            clip_limit,
                        },
                    ),
                    Some(drawn) => next == (Move::Finished {
                        drop: scene.go,
                        add: lines(drawn@),
                        follow_up: FollowUp::RemoveDangles,
                        targets: Seq::empty(),
                    }),
                }
            }
        }),
{
    scene_is_seen(scene, case, coins, eps);
    lost_are_cut_off(lost, scene, answers, eps);
    assert(crate::singletons::snap_lines(lost) =~= Seq::new(
        lost.len(),
        |k: int| seq![lost[k], lost[k]],
    ));
}

/// Where one edge stays, or several that have fallen apart, it is asked how far the nodes
/// nearby are from them.
pub proof fn nodes_are_measured_against_what_stays(
    scene: Scene,
    case: MixedCase,
    coins: &CoinsResult,
    ends: Seq<LineEnd>,
    clip_limit: Measure,
    eps: Measure,
    answers: MixedAnswers,
)
    requires
        depicts(scene, case, coins, eps),
        is_plain(scene, case, coins, answers),
        scene.stay.len() == 1,
        answers.node_gaps is None,
    ensures
        mixed_move(case, coins, ends, clip_limit, eps, answers) == Move::MeasureNodes(
            scene.near,
            scene.stay,
        ),
{
    scene_is_seen(scene, case, coins, eps);
}

/// However the simplification ends, the edges whose strokes pass on stay, and all other
/// covered edges are dropped.
pub proof fn only_strokes_that_end_are_dropped(
    scene: Scene,
    case: MixedCase,
    coins: &CoinsResult,
    ends: Seq<LineEnd>,
    clip_limit: Measure,
    eps: Measure,
    answers: MixedAnswers,
)
    requires
        depicts(scene, case, coins, eps),
    ensures
        mixed_move(case, coins, ends, clip_limit, eps, answers) matches Move::Finished {
            drop,
            ..
        } ==> drop == scene.go && forall|k: int|
            0 <= k < case.covered_edges@.len() && #[trigger] passes_on(
                case.covered_edges@,
                coins,
                case.covered_edges@[k],
            ) ==> !drop.contains(case.covered_edges@[k]),
{
    scene_is_seen(scene, case, coins, eps);
    let covered = case.covered_edges@;
    let goes = |k: int| !passes_on(covered, coins, covered[k]);
    listed_are_wanted(scene.go, covered, goes);
}

/// The nodes of an artifact with strokes of one kind that are within the tolerance.
pub open spec fn finds_near(near: Seq<Coord>, case: IdenticalCase, eps: Measure) -> bool {
    lists_exactly(near, case.node_coords@, |k: int| case.node_distances@[k].at_most(eps))
}

proof fn near_is_found(near: Seq<Coord>, case: IdenticalCase, eps: Measure)
    requires
        finds_near(near, case, eps),
    ensures
        case.nodes(eps) == near,
{
    let close = |k: int| case.node_distances@[k].at_most(eps);
    list_is_selection(near, case.node_coords@, close_by(case.node_distances@, eps), close);
}

/// Without a node nearby or without a centroid an artifact is left as it is.
pub proof fn nothing_to_connect(
    near: Seq<Coord>,
    case: IdenticalCase,
    eps: Measure,
    clip_limit: Measure,
    answers: IdenticalAnswers,
)
    requires
        finds_near(near, case, eps),
        near.len() == 0 || case.centroid is None,
    ensures
        identical_move(case, eps, clip_limit, answers) == (Move::Finished {
            drop: Seq::empty(),
            add: Seq::empty(),
            follow_up: FollowUp::Keep,
            targets: Seq::empty(),
        }),
{
    near_is_found(near, case, eps);
}

/// The straight lines from the nodes to the centroid are tried first, with a tolerance of
/// a tenth. If they all lie within the artifact, they take the place of all covered
/// edges: one for each node, in the order of the nodes. Only where there are two nodes,
/// and the lines meet at less than seventy-five degrees, the nodes are joined directly.
pub proof fn nodes_meet_in_the_centroid(
    near: Seq<Coord>,
    case: IdenticalCase,
    eps: Measure,
    clip_limit: Measure,
    answers: IdenticalAnswers,
)
    requires
        finds_near(near, case, eps),
        near.len() > 0,
        case.centroid is Some,
        answers.within matches Some(flags) ==> forall|k: int|
            0 <= k < flags@.len() ==> #[trigger] flags@[k],
    ensures
        ({
            let next = identical_move(case, eps, clip_limit, answers);
            let centre = case.centroid->0;
            let own = Seq::new(near.len(), |k: int| seq![near[k], centre]);
            let done = |added: Seq<Seq<Coord>>|
                Move::Finished {
                    drop: case.covered_edges@,
                    add: added,
                    follow_up: FollowUp::Keep,
                    targets: Seq::empty(),
                };
            if answers.within is None {
                next == Move::TestWithin(own, Measure { bits: 0x3fb9_9999_9999_999a })
            } else if near.len() != 2 {
                next == done(own)
            } else {
                match answers.angle {
                    None => next == Move::MeasureAngle(
                        seq![near[0], centre],
                        seq![near[1], centre],
                    ),
                    Some(angle) => if angle.below(Measure { bits: 0x4052_c000_0000_0000 }) {
                        next == done(seq![seq![near[0], near[1]]])
                    } else {
                        next == done(own)
                    },
                }
            }
        }),
{
    near_is_found(near, case, eps);
    assert(spokes(near, case.centroid->0) =~= Seq::new(
        near.len(),
        |k: int| seq![near[k], case.centroid->0],
    ));
}

/// The line begins or ends in the point.
pub open spec fn joins(line: Seq<Coord>, point: Coord) -> bool {
    line.len() >= 2 && (line.first() == point || line.last() == point)
}

/// Each of the lines begins or ends in the point.
pub open spec fn all_join(list: Seq<Seq<Coord>>, point: Coord) -> bool {
    forall|i: int| 0 <= i < list.len() ==> joins(#[trigger] list[i], point)
}

/// No node nearby is cut off: where the lines to the centroid all lie within the
/// artifact, each node is an end of a line that is added, and all lines that are added
/// meet in one point.
pub proof fn no_node_is_cut_off(
    near: Seq<Coord>,
    case: IdenticalCase,
    eps: Measure,
    clip_limit: Measure,
    answers: IdenticalAnswers,
)
    requires
        finds_near(near, case, eps),
        near.len() > 0,
        case.centroid is Some,
        answers.within matches Some(flags) && forall|k: int|
            0 <= k < flags@.len() ==> #[trigger] flags@[k],
    ensures
        identical_move(case, eps, clip_limit, answers) matches Move::Finished { add, .. } ==> {
            &&& forall|k: int|
                0 <= k < near.len() ==> exists|i: int|
                    0 <= i < add.len() && joins(#[trigger] add[i], #[trigger] near[k])
            &&& exists|hub: Coord| #[trigger] all_join(add, hub)
        },
{
    nodes_meet_in_the_centroid(near, case, eps, clip_limit, answers);
    let next = identical_move(case, eps, clip_limit, answers);
    let own = Seq::new(near.len(), |k: int| seq![near[k], case.centroid->0]);
    let straight = seq![seq![near[0], near[1]]];
    if let Move::Finished { add, .. } = next {
        if add == own {
            assert forall|k: int| 0 <= k < near.len() implies exists|i: int|
                0 <= i < add.len() && joins(#[trigger] add[i], #[trigger] near[k]) by {
                assert(joins(add[k], near[k]));
            }
            let hub = case.centroid->0;
            assert(all_join(add, hub));
        } else {
            assert(add == straight);
            let hub = near[0];
            assert(joins(add[0], near[0]) && joins(add[0], near[1]));
            assert forall|k: int| 0 <= k < near.len() implies exists|i: int|
                0 <= i < add.len() && joins(#[trigger] add[i], #[trigger] near[k]) by {
                assert(joins(add[0], near[k]));
            }
            assert(all_join(add, hub));
        }
    }
}

/// Where one of the lines to the centroid leaves the artifact, a skeleton between the
/// covered edges, snapped to the nodes, takes the place of all of them.
pub proof fn a_skeleton_where_lines_leave(
    near: Seq<Coord>,
    case: IdenticalCase,
    eps: Measure,
    clip_limit: Measure,
    answers: IdenticalAnswers,
)
    requires
        finds_near(near, case, eps),
        near.len() > 0,
        case.centroid is Some,
        answers.within matches Some(flags) && exists|k: int|
            0 <= k < flags@.len() && !#[trigger] flags@[k],
    ensures
        ({
            let next = identical_move(case, eps, clip_limit, answers);
            match answers.skeleton {
                None => next == Move::Draw(
                    Request {
                        edges: case.covered_edges@,
                        snap_to: Some(Seq::new(near.len(), |k: int| seq![near[k], near[k]])),
                        secondary: None,
                        clip_limit,
                    },
                ),
                Some(drawn) => next == (Move::Finished {
                    drop: case.covered_edges@,
                    add: lines(drawn@),
                    follow_up: FollowUp::RemoveDangles,
                    targets: Seq::empty(),
                }),
            }
        }),
{
    near_is_found(near, case, eps);
    assert(crate::singletons::snap_lines(near) =~= Seq::new(
        near.len(),
        |k: int| seq![near[k], near[k]],
    ));
}

/// An artifact with one node and one stroke: a skeleton is asked for between its edges,
/// snapped to its node, and takes the place of all of them.
pub proof fn one_node_is_kept_by_the_skeleton(
    covered: Seq<usize>,
    nodes: Seq<Coord>,
    clip_limit: Measure,
    skeleton: Option<Vec<LineString>>,
)
    ensures
        ({
            let next = one_node_move(covered, nodes, clip_limit, skeleton);
            match skeleton {
                None => next == Move::Draw(
                    Request {
                        edges: covered,
                        snap_to: Some(Seq::new(nodes.len(), |k: int| seq![nodes[k], nodes[k]])),
                        secondary: None,
                        clip_limit,
                    },
                ),
                Some(drawn) => next == (Move::Finished {
                    drop: covered,
                    add: lines(drawn@),
                    follow_up: FollowUp::RemoveDangles,
                    targets: Seq::empty(),
                }),
            }
        }),
{
    assert(crate::singletons::snap_lines(nodes) =~= Seq::new(
        nodes.len(),
        |k: int| seq![nodes[k], nodes[k]],
    ));
}

/// An artifact is simplified exactly when it covers an edge, has no more strokes than
/// nodes, and has several nodes or one node and one stroke. With several nodes it matters
/// whether strokes of two kinds pass.
pub proof fn which_artifacts_are_simplified(facts: SingletonFacts)
    ensures
        ({
            let ces = facts.ces;
            let planar = facts.n_covered > 0 && ces.stroke_count <= facts.n_nodes;
            let mixed = ces.c > 0 && ces.e > 0 || ces.c > 0 && ces.s > 0 || ces.e > 0 && ces.s
                > 0;
            let case = singleton_case(facts);
            &&& case == SingletonCase::OneNode <==> planar && facts.n_nodes == 1
                && ces.stroke_count == 1
            &&& case == SingletonCase::Identical <==> planar && facts.n_nodes >= 2 && !mixed
            &&& case == SingletonCase::Mixed <==> planar && facts.n_nodes >= 2 && mixed
            &&& case == SingletonCase::Skip <==> !planar || facts.n_nodes == 0 || (facts.n_nodes
                == 1 && ces.stroke_count != 1)
        }),
{
}

/// Changes are gathered one after the other: a further change brings its drops and its
/// lines after those of the others, and no change brings nothing.
pub proof fn changes_are_gathered_in_order(changes: Seq<Changes>, more: Changes)
    ensures
        all_drops(Seq::empty(), 0).len() == 0,
        all_additions(Seq::empty(), 0).len() == 0,
        all_drops(changes.push(more), (changes.len() + 1) as int) == all_drops(
            changes,
            changes.len() as int,
        ) + more.to_drop@,
        all_additions(changes.push(more), (changes.len() + 1) as int) == all_additions(
            changes,
            changes.len() as int,
        ) + lines(more.to_add@),
{
    gathered_alike(changes, changes.push(more), changes.len() as int);
}

proof fn gathered_alike(a: Seq<Changes>, b: Seq<Changes>, n: int)
    requires
        forall|k: int| 0 <= k < n ==> #[trigger] a[k] == b[k],
    ensures
        all_drops(a, n) == all_drops(b, n),
        all_additions(a, n) == all_additions(b, n),
    decreases n,
{
    if n > 0 {
        gathered_alike(a, b, n - 1);
        assert(a[n - 1] == b[n - 1]);
    }
}

} // verus!
