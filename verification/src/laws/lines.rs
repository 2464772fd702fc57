//! What becomes of new lines, and how rings are cut.
use crate::additions::{addition_move, AdditionAnswers, AdditionMove, AdditionStep};
use crate::clusters::{ClusterMove, ClusterStep};
use crate::connections::{all_bridges, chosen, exploded};
use crate::follow_up::{
    filtered, follow_up_move, reconnected, BridgeFacts, FilterFacts, FollowUpAnswers, FollowUpMove,
    FollowUpStep,
};
use crate::laws::connections::{holds_the_fast, loose_ends_are_removed};
use crate::laws::dedup::{is_repeated, the_first_of_each_line_is_left};
use crate::laws::measures::{all_infinite, is_first_least, the_closest_is_the_first_least};
use crate::laws::selections::{lists_exactly, selection_lists};
use crate::lists::{positions_are_kept, strictly_ascending};
use crate::measure::Measure;
use crate::ring::{
    arc, cuts, has_length, is_cut, meeting_points, meets, next_cut, onward, ring_parts, sides, span,
    Crossing,
};
use crate::steps::{FollowUp, Move, Outcome, SkeletonRequest, Step};
use crate::types::{contents, lines, Changes, Coord, LineString};
use vstd::prelude::*;

verus! {

/// Lines are taken as they are given, one by one, and so are lists.
pub proof fn lines_by_their_points(list: Seq<LineString>, lists: Seq<Vec<usize>>)
    ensures
        lines(list).len() == list.len(),
        forall|i: int| 0 <= i < list.len() ==> #[trigger] lines(list)[i] == list[i].coords@,
        contents(lists).len() == lists.len(),
        forall|i: int| 0 <= i < lists.len() ==> #[trigger] contents(lists)[i] == lists[i]@,
{
}

/// The lines that are left after filtering are those that were chosen, and a line that comes
/// through unfiltered is as it was drawn.
pub proof fn chosen_lines_are_left(drawn: Seq<Seq<Coord>>, facts: FilterFacts)
    ensures
        ({
            let ids = chosen(
                facts.touches@,
                facts.to_targets@,
                facts.lengths@,
                drawn.len() as int,
            );
            &&& filtered(drawn, facts).len() == ids.len()
            &&& forall|k: int|
                0 <= k < ids.len() ==> #[trigger] filtered(drawn, facts)[k] == drawn[ids[k] as int]
        }),
{
}

/// Bridges are added after the connections, all of which stay. Without a connection there is
/// nothing to join.
pub proof fn bridges_join_connections(
    connections: Seq<Seq<Coord>>,
    facts: BridgeFacts,
    eps: Measure,
)
    ensures
        ({
            let r = reconnected(connections, facts, eps);
            let n = connections.len() as int;
            &&& n == 0 ==> r.len() == 0
            &&& n > 0 ==> r.len() >= n && r.take(n) == connections && r.skip(n) == all_bridges(
                facts.gaps@,
                facts.bridges@,
                eps,
                facts.gaps@.len() as int,
            )
        }),
{
    let n = connections.len() as int;
    if n > 0 {
        let more = all_bridges(facts.gaps@, facts.bridges@, eps, facts.gaps@.len() as int);
        let r = reconnected(connections, facts, eps);
        assert(r.take(n) =~= connections);
        assert(r.skip(n) =~= more);
    }
}

/// The lines `connections` are merged and their loose ends removed, step by step.
pub open spec fn comes_to_trim(
    next: FollowUpMove,
    connections: Seq<Seq<Coord>>,
    answers: FollowUpAnswers,
    eps: Measure,
) -> bool {
    if connections.len() <= 1 {
        next == FollowUpMove::Settled(connections)
    } else {
        match answers.merged {
            None => next == FollowUpMove::Merge(connections),
            Some(merged) => {
                let courses = if merged@.len() > 0 {
                    lines(merged@)
                } else {
                    connections
                };
                if courses.len() == 1 {
                    next == FollowUpMove::Settled(courses)
                } else {
                    match answers.ends {
                        None => next == FollowUpMove::MeasureEnds(courses),
                        Some(ends) => next matches FollowUpMove::Settled(added) && holds_the_fast(
                            added,
                            courses,
                            ends@,
                            eps,
                        ),
                    }
                }
            },
        }
    }
}

/// Lines that are kept are added as they were drawn. Those whose loose ends are to be removed
/// are merged and trimmed. Those that are to be reconnected are measured, filtered and bridged
/// first, and what comes of that is merged and trimmed.
pub proof fn lines_are_followed_up(
    drawn: Seq<Seq<Coord>>,
    follow_up: FollowUp,
    answers: FollowUpAnswers,
    eps: Measure,
)
    ensures
        ({
            let next = follow_up_move(drawn, follow_up, answers, eps);
            match follow_up {
                FollowUp::Keep => next == FollowUpMove::Settled(drawn),
                FollowUp::RemoveDangles => comes_to_trim(next, drawn, answers, eps),
                FollowUp::Reconnect => match answers.filter {
                    None => next == FollowUpMove::MeasureLines(drawn),
                    Some(facts) => match answers.bridge {
                        None => next == FollowUpMove::FindBridges(filtered(drawn, facts)),
                        Some(lanes) => comes_to_trim(
                            next,
                            reconnected(filtered(drawn, facts), lanes, eps),
                            answers,
                            eps,
                        ),
                    },
                },
            }
        }),
{
    let connections = crate::follow_up::to_trim(drawn, follow_up, answers, eps);
    if answers.merged is Some && answers.ends is Some {
        loose_ends_are_removed(connections, lines(answers.merged->0@), answers.ends->0@, eps);
    }
}

/// Lines to add are merged first, then brought into normal form, and of those that are the same
/// the first is kept. Nothing to add stays nothing.
pub proof fn additions_are_merged_and_told_apart(
    to_add: Seq<Seq<Coord>>,
    answers: AdditionAnswers,
)
    requires
        to_add.len() > 0 && answers.merged is Some && answers.normalized is Some
            ==> answers.normalized->0@.len() == exploded(to_add, lines(answers.merged->0@)).len(),
    ensures
        ({
            let next = addition_move(to_add, answers);
            if to_add.len() == 0 {
                next == AdditionMove::Simplify(Seq::empty())
            } else {
                match answers.merged {
                    None => next == AdditionMove::Merge(to_add),
                    Some(merged) => {
                        let all = if merged@.len() > 0 {
                            lines(merged@)
                        } else {
                            to_add
                        };
                        match answers.normalized {
                            None => next == AdditionMove::Normalize(all),
                            Some(normalized) => next matches AdditionMove::Simplify(left)
                                && lists_exactly(
                                left,
                                all,
                                |i: int| !is_repeated(lines(normalized@), i),
                            ),
                        }
                    },
                }
            }
        }),
{
    if to_add.len() > 0 && answers.merged is Some && answers.normalized is Some {
        the_first_of_each_line_is_left(
            exploded(to_add, lines(answers.merged->0@)),
            lines(answers.normalized->0@),
        );
    }
}

/// The position along a segment lies on it, with a billionth of slack at either end.
pub open spec fn is_along(position: Measure) -> bool {
    &&& (Measure { bits: 0xbe11_2e0b_e826_d695 }).at_most(position)
    &&& position.at_most(Measure { bits: 0x3ff0_0000_0044_b830 })
}

/// Segments meet unless they are parallel or the point in question lies off one of them.
pub proof fn segments_meet_on_both(crossing: Crossing)
    ensures
        meets(crossing) <==> is_along(crossing.along_first) && is_along(crossing.along_second)
            && !crossing.denominator.below(Measure { bits: 0x3d71_9799_812d_ea11 }),
{
}

/// The connection points are the points of those crossings in which segments meet, in order.
pub proof fn connection_points_are_where_segments_meet(crossings: Seq<Crossing>, more: Crossing)
    ensures
        meeting_points(Seq::empty(), 0).len() == 0,
        meeting_points(crossings.push(more), (crossings.len() + 1) as int) == meeting_points(
            crossings,
            crossings.len() as int,
        ) + (if meets(more) {
            seq![more.point]
        } else {
            Seq::empty()
        }),
{
    let n = crossings.len() as int;
    points_alike(crossings, crossings.push(more), n);
    assert(crossings.push(more)[n] == more);
    let before = meeting_points(crossings, n);
    assert(before + Seq::empty() =~= before);
    assert(before.push(more.point) =~= before + seq![more.point]);
}

proof fn points_alike(a: Seq<Crossing>, b: Seq<Crossing>, n: int)
    requires
        forall|k: int| 0 <= k < n ==> #[trigger] a[k] == b[k],
    ensures
        meeting_points(a, n) == meeting_points(b, n),
    decreases n,
{
    if n > 0 {
        points_alike(a, b, n - 1);
        assert(a[n - 1] == b[n - 1]);
    }
}

/// The vertex `v` is the nearest one for a split point.
pub open spec fn is_struck(distances: Seq<Measure>, v: int) -> bool {
    is_first_least(distances, v) || (all_infinite(distances) && v == 0)
}

/// A ring is cut at the vertices that are nearest to a split point, in ascending order, each
/// once.
pub proof fn rings_are_cut_next_to_split_points(distances: Seq<Vec<Measure>>, n: int)
    requires
        0 < n <= usize::MAX,
        forall|s: int| 0 <= s < distances.len() ==> (#[trigger] distances[s])@.len() >= n,
    ensures
        strictly_ascending(cuts(distances, n)),
        forall|v: usize| #[trigger]
            cuts(distances, n).contains(v) <==> exists|s: int|
                0 <= s < distances.len() && is_struck((#[trigger] distances[s])@.take(n), v as int),
{
    positions_are_kept(is_cut(distances, n), n);
    assert forall|v: usize| #[trigger] cuts(distances, n).contains(v) <==> exists|s: int|
        0 <= s < distances.len() && is_struck((#[trigger] distances[s])@.take(n), v as int) by {
        if cuts(distances, n).contains(v) {
            let s = choose|s: int|
                0 <= s < distances.len() && crate::measure::nearest(
                    #[trigger] distances[s]@,
                    n,
                ) == v;
            struck_is_nearest(distances[s]@, n, v as int);
            assert(is_struck(distances[s]@.take(n), v as int));
        }
        if exists|s: int|
            0 <= s < distances.len() && is_struck((#[trigger] distances[s])@.take(n), v as int) {
            let s = choose|s: int|
                0 <= s < distances.len() && is_struck(
                    (#[trigger] distances[s])@.take(n),
                    v as int,
                );
            struck_is_nearest(distances[s]@, n, v as int);
            assert(is_cut(distances, n)(v as int));
        }
    }
}

proof fn closest_among_first(d: Seq<Measure>, n: int, m: int)
    requires
        0 <= m <= n <= d.len(),
    ensures
        crate::measure::closest(d, m) == crate::measure::closest(d.take(n), m),
        crate::measure::least(d, m) == crate::measure::least(d.take(n), m),
    decreases m,
{
    if m > 0 {
        closest_among_first(d, n, m - 1);
        assert(d.take(n)[m - 1] == d[m - 1]);
    }
}

proof fn struck_is_nearest(d: Seq<Measure>, n: int, v: int)
    requires
        0 < n <= d.len(),
    ensures
        crate::measure::nearest(d, n) == v <==> is_struck(d.take(n), v),
        is_struck(d.take(n), v) ==> 0 <= v < n,
{
    let row = d.take(n);
    closest_among_first(d, n, n);
    the_closest_is_the_first_least(row);
    if !all_infinite(row) {
        assert(is_first_least(row, crate::measure::nearest(row, n)));
        if is_first_least(row, v) {
            assert(crate::measure::closest(row, n) == Some(v));
        }
    } else if is_first_least(row, v) {
        assert(row[v].below(Measure { bits: 0x7ff0_0000_0000_0000 }));
    }
}

/// A ring with two cuts or more falls into as many parts. Each begins at a cut, runs along the
/// ring from vertex to vertex, past its closing vertex where need be, and ends at the next cut.
/// Any other ring stays whole.
pub proof fn parts_run_from_cut_to_cut(
    ring: Seq<Coord>,
    distances: Seq<Vec<Measure>>,
    w: int,
    k: int,
)
    requires
        ring.len() <= usize::MAX,
    ensures
        ({
            let n = ring.len() - 1;
            let at = cuts(distances, n);
            let parts = ring_parts(ring, distances);
            let is_whole = distances.len() == 0 || ring.len() < 4 || at.len() < 2;
            &&& is_whole ==> parts == seq![ring]
            &&& !is_whole ==> parts.len() == at.len()
            &&& !is_whole && 0 <= w < at.len() ==> {
                let next = at[(w + 1) % (at.len() as int)] as int;
                &&& parts[w].len() >= 2
                &&& (at[w] + parts[w].len() - 1) % n == next
                &&& parts[w].len() <= n
                &&& 0 <= k < parts[w].len() ==> parts[w][k] == ring[(at[w] + k) % n]
            }
        }),
{
    let n = ring.len() - 1;
    let at = cuts(distances, n);
    let parts = ring_parts(ring, distances);
    let is_whole = distances.len() == 0 || ring.len() < 4 || at.len() < 2;
    if !is_whole && 0 <= w < at.len() {
        positions_are_kept(is_cut(distances, n), n);
        let start = at[w] as int;
        let end = next_cut(at, w);
        assert(at.contains(at[w]) && at.contains(at[0]));
        if w + 1 < at.len() {
            assert((w + 1) % (at.len() as int) == w + 1) by (nonlinear_arith)
                requires
                    0 <= w + 1 < at.len(),
            ;
            assert(at.contains(at[w + 1]));
            assert(at[w] < at[w + 1]);
        } else {
            assert((w + 1) % (at.len() as int) == 0) by (nonlinear_arith)
                requires
                    w + 1 == at.len(),
                    at.len() > 0,
            ;
            assert(at[0] < at[w]);
        }
        let steps = span(n, start, end);
        assert(parts[w] == arc(ring, n, start, end));
        around(n, start, steps);
        if 0 <= k < parts[w].len() {
            around(n, start, k);
        }
    }
}

proof fn around(n: int, start: int, k: int)
    requires
        0 <= start < n,
        0 <= k <= n,
    ensures
        onward(n, start, k) == (start + k) % n,
{
    if start + k < n {
        assert((start + k) % n == start + k) by (nonlinear_arith)
            requires
                0 <= start + k < n,
        ;
    } else {
        assert((start + k) % n == start + k - n) by (nonlinear_arith)
            requires
                n <= start + k < 2 * n,
        ;
    }
}

/// The sides of a ring are its parts of two points or more that have some length, in order, as
/// long as there are two parts or more. A whole ring is its only side.
pub proof fn sides_have_some_length(
    ring: Seq<Coord>,
    distances: Seq<Vec<Measure>>,
    lengths: Seq<Measure>,
)
    ensures
        ({
            let parts = ring_parts(ring, distances);
            let r = sides(ring, distances, lengths);
            &&& parts.len() == 1 ==> r == parts
            &&& parts.len() >= 2 ==> lists_exactly(
                r,
                parts,
                |k: int| parts[k].len() >= 2 && (Measure { bits: 0 }).below(lengths[k]),
            )
        }),
{
    let parts = ring_parts(ring, distances);
    selection_lists(
        parts,
        has_length(parts, lengths),
        |k: int| parts[k].len() >= 2 && (Measure { bits: 0 }).below(lengths[k]),
    );
}

/// What a step ends in or asks for is what it holds: no line, edge or node is left out, moved or
/// changed.
pub proof fn steps_are_seen_as_they_are(
    outcome: Outcome,
    request: SkeletonRequest,
    list: Vec<LineString>,
    edges: Vec<usize>,
    nodes: Vec<Coord>,
    first: LineString,
    second: LineString,
    node: Coord,
    eps: Measure,
)
    ensures
        Step::Finished(outcome)@ == (Move::Finished {
            drop: outcome.to_drop@,
            add: lines(outcome.to_add@),
            follow_up: outcome.follow_up,
            targets: outcome.targets@,
        }),
        Step::Draw(request)@ == Move::Draw(request@),
        Step::Redraw(request)@ == Move::Redraw(request@),
        request@.edges == request.edges@,
        request@.clip_limit == request.clip_limit,
        request.snap_to is None <==> request@.snap_to is None,
        request.snap_to matches Some(given) ==> request@.snap_to == Some(lines(given@)),
        request.secondary is None <==> request@.secondary is None,
        request.secondary matches Some(given) ==> request@.secondary == Some(given@),
        Step::TestWithin(list, eps)@ == Move::TestWithin(lines(list@), eps),
        Step::MeasureAngle(first, second)@ == Move::MeasureAngle(first.coords@, second.coords@),
        Step::LabelComponents(edges)@ == Move::LabelComponents(edges@),
        Step::MeasureNodes(nodes, edges)@ == Move::MeasureNodes(nodes@, edges@),
        Step::FindShortest(node, edges, eps)@ == Move::FindShortest(node, edges@, eps),
        Step::LabelSkeleton@ == Move::LabelSkeleton,
{
}

/// The same holds of the steps that lines to add go through, and of the decision on a cluster.
pub proof fn later_steps_are_seen_as_they_are(
    list: Vec<LineString>,
    changes: Changes,
    clip_limit: Measure,
)
    ensures
        FollowUpStep::MeasureLines(list)@ == FollowUpMove::MeasureLines(lines(list@)),
        FollowUpStep::FindBridges(list)@ == FollowUpMove::FindBridges(lines(list@)),
        FollowUpStep::Merge(list)@ == FollowUpMove::Merge(lines(list@)),
        FollowUpStep::MeasureEnds(list)@ == FollowUpMove::MeasureEnds(lines(list@)),
        FollowUpStep::Settled(list)@ == FollowUpMove::Settled(lines(list@)),
        AdditionStep::Merge(list)@ == AdditionMove::Merge(lines(list@)),
        AdditionStep::Normalize(list)@ == AdditionMove::Normalize(lines(list@)),
        AdditionStep::Simplify(list)@ == AdditionMove::Simplify(lines(list@)),
        ClusterStep::Leave@ == ClusterMove::Leave,
        ClusterStep::Draw(clip_limit)@ == ClusterMove::Draw(clip_limit),
        ClusterStep::Replace(changes)@ == (ClusterMove::Replace {
            drop: changes.to_drop@,
            add: lines(changes.to_add@),
        }),
{
}

} // verus!
