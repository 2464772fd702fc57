//! New connections across an artifact.
use crate::connections::{
    all_bridges, bridges_to, chosen, connections_stay_once, crowded, dissolved, end_coords, ends_of, exploded, full_rows,
    is_fast, is_prime, is_reaching, is_wanted, kept, loose, picked, reaches, reaching, shared_end,
    shortest, shortest_is_listed, shortest_line, straight_line, touching, trimmed, Bridge, EndGap,
    LineEnd, LineGaps,
};
use crate::coverage::marked_true;
use crate::laws::measures::{all_infinite, is_first_least, the_closest_is_the_first_least};
use crate::laws::selections::{lists_exactly, selection_lists};
use crate::lists::{positions, positions_are_kept, select, strictly_ascending};
use crate::measure::Measure;
use crate::types::{lines, Coord, LineString, NodeKey};
use vstd::prelude::*;

verus! {

/// A merge that gave something stands for the lines; one that gave nothing leaves them as they
/// are.
pub proof fn an_empty_merge_loses_nothing(geoms: Seq<Seq<Coord>>, merged: Seq<Seq<Coord>>)
    ensures
        geoms.len() > 0 && merged.len() > 0 ==> exploded(geoms, merged) == merged,
        geoms.len() == 0 || merged.len() == 0 ==> exploded(geoms, merged) == geoms,
        geoms.len() > 0 ==> exploded(geoms, merged).len() > 0,
{
}

/// The ends of lines are listed line by line: a further line of two points or more brings its
/// first and its last point, with their keys, a shorter one nothing.
pub proof fn a_line_has_two_ends(
    geoms: Seq<Seq<Coord>>,
    keys: Seq<(NodeKey, NodeKey)>,
    more: Seq<Coord>,
    own: (NodeKey, NodeKey),
)
    requires
        keys.len() == geoms.len() < usize::MAX,
    ensures
        ends_of(Seq::empty(), Seq::empty(), 0).len() == 0,
        ends_of(geoms.push(more), keys.push(own), (geoms.len() + 1) as int) == ends_of(
            geoms,
            keys,
            geoms.len() as int,
        ) + (if more.len() >= 2 {
            seq![
                LineEnd { line: geoms.len() as usize, key: own.0, coord: more[0] },
                LineEnd { line: geoms.len() as usize, key: own.1, coord: more[more.len() - 1] },
            ]
        } else {
            Seq::empty()
        }),
{
    let n = geoms.len() as int;
    let all = geoms.push(more);
    ends_alike(geoms, all, keys, keys.push(own), n);
    assert(all[n] == more && keys.push(own)[n] == own);
    let before = ends_of(geoms, keys, n);
    if more.len() >= 2 {
        assert(ends_of(all, keys.push(own), n + 1) =~= before + seq![
            LineEnd { line: n as usize, key: own.0, coord: more[0] },
            LineEnd { line: n as usize, key: own.1, coord: more[more.len() - 1] },
        ]);
    } else {
        assert(before + Seq::empty() =~= before);
    }
}

proof fn ends_alike(
    a: Seq<Seq<Coord>>,
    b: Seq<Seq<Coord>>,
    p: Seq<(NodeKey, NodeKey)>,
    q: Seq<(NodeKey, NodeKey)>,
    n: int,
)
    requires
        forall|k: int| 0 <= k < n ==> #[trigger] a[k] == b[k],
        forall|k: int| 0 <= k < n ==> #[trigger] p[k] == q[k],
    ensures
        ends_of(a, p, n) == ends_of(b, q, n),
    decreases n,
{
    if n > 0 {
        ends_alike(a, b, p, q, n - 1);
        assert(a[n - 1] == b[n - 1] && p[n - 1] == q[n - 1]);
    }
}

/// The points in which lines meet are those where ends of two different lines have the same
/// key: one point for each key, that of the first end with it.
pub proof fn lines_meet_where_ends_share_a_key(ends: Seq<LineEnd>)
    ensures
        lists_exactly(
            select(end_coords(ends), is_prime(ends), ends.len() as int),
            Seq::new(ends.len(), |k: int| ends[k].coord),
            |k: int|
                {
                    &&& exists|j: int|
                        0 <= j < ends.len() && (#[trigger] ends[j]).key == ends[k].key
                            && ends[j].line != ends[k].line
                    &&& !exists|j: int| 0 <= j < k && (#[trigger] ends[j]).key == ends[k].key
                },
        ),
{
    let wanted = |k: int|
        {
            &&& exists|j: int|
                0 <= j < ends.len() && (#[trigger] ends[j]).key == ends[k].key && ends[j].line
                    != ends[k].line
            &&& !exists|j: int| 0 <= j < k && (#[trigger] ends[j]).key == ends[k].key
        };
    let all = end_coords(ends);
    assert(all =~= Seq::new(ends.len(), |k: int| ends[k].coord));
    assert forall|k: int| 0 <= k < all.len() implies (#[trigger] is_prime(ends)(k)
        <==> wanted(k)) by {
        if wanted(k) {
            assert forall|j: int| 0 <= j < k implies (#[trigger] ends[j]).key != ends[k].key by {}
            assert(shared_end(ends, k));
        }
    }
    selection_lists(all, is_prime(ends), wanted);
}

/// Lines are dissolved component by component: a further component brings its line, where it
/// has just one, or else what merging its lines gave.
pub proof fn components_are_dissolved_in_order(
    geoms: Seq<Seq<Coord>>,
    groups: Seq<Seq<usize>>,
    merged: Seq<Vec<LineString>>,
    group: Seq<usize>,
    own: Vec<LineString>,
)
    requires
        merged.len() == groups.len(),
    ensures
        dissolved(geoms, Seq::empty(), Seq::empty(), 0).len() == 0,
        dissolved(geoms, groups.push(group), merged.push(own), (groups.len() + 1) as int)
            == dissolved(geoms, groups, merged, groups.len() as int) + (if group.len() == 1 {
            seq![geoms[group[0] as int]]
        } else {
            lines(own@)
        }),
{
    let n = groups.len() as int;
    dissolved_alike(geoms, groups, groups.push(group), merged, merged.push(own), n);
    assert(groups.push(group)[n] == group && merged.push(own)[n] == own);
}

proof fn dissolved_alike(
    geoms: Seq<Seq<Coord>>,
    a: Seq<Seq<usize>>,
    b: Seq<Seq<usize>>,
    p: Seq<Vec<LineString>>,
    q: Seq<Vec<LineString>>,
    n: int,
)
    requires
        forall|k: int| 0 <= k < n ==> #[trigger] a[k] == b[k],
        forall|k: int| 0 <= k < n ==> #[trigger] p[k] == q[k],
    ensures
        dissolved(geoms, a, p, n) == dissolved(geoms, b, q, n),
    decreases n,
{
    if n > 0 {
        dissolved_alike(geoms, a, b, p, q, n - 1);
        assert(a[n - 1] == b[n - 1] && p[n - 1] == q[n - 1]);
    }
}

/// More than one connection touches the group.
pub open spec fn is_contested(touches: Seq<bool>) -> bool {
    exists|i: int, j: int|
        0 <= i < j < touches.len() && #[trigger] touches[i] && #[trigger] touches[j]
}

/// The connection touches the group and comes nearer than five to one of the targets.
pub open spec fn is_eligible(touches: Seq<bool>, to_targets: Seq<Vec<Measure>>, i: int) -> bool {
    &&& 0 <= i < touches.len()
    &&& touches[i]
    &&& exists|t: int|
        0 <= t < to_targets[i]@.len() && (#[trigger] to_targets[i]@[t]).below(
            Measure { bits: 0x4014_0000_0000_0000 },
        )
}

/// The connection is the shortest eligible one of the group, the first of several.
pub open spec fn is_best(
    touches: Seq<bool>,
    to_targets: Seq<Vec<Measure>>,
    lengths: Seq<Measure>,
    i: int,
) -> bool {
    &&& is_eligible(touches, to_targets, i)
    &&& forall|j: int| #[trigger]
        is_eligible(touches, to_targets, j) ==> {
            &&& lengths[i].at_most(lengths[j])
            &&& j < i ==> lengths[i].below(lengths[j])
        }
}

/// The connection touches no group that several touch.
pub open spec fn is_free(touches: Seq<Vec<bool>>, i: int) -> bool {
    forall|g: int|
        0 <= g < touches.len() && is_contested((#[trigger] touches[g])@) ==> !touches[g]@[i]
}

proof fn crowds_are_contested(touches: Seq<bool>)
    requires
        touches.len() <= usize::MAX,
    ensures
        crowded(touches) <==> is_contested(touches),
{
    let n = touches.len() as int;
    positions_are_kept(marked_true(touches), n);
    let at = touching(touches);
    if at.len() > 1 {
        assert(at.contains(at[0]) && at.contains(at[1]));
        assert(at[0] < at[1]);
        assert(touches[at[0] as int] && touches[at[1] as int]);
    }
    if is_contested(touches) {
        let (i, j) = choose|i: int, j: int|
            0 <= i < j < touches.len() && #[trigger] touches[i] && #[trigger] touches[j];
        assert(marked_true(touches)(i) && marked_true(touches)(j));
        assert(at.contains(i as usize) && at.contains(j as usize));
        let p = choose|p: int| 0 <= p < at.len() && at[p] == i as usize;
        let q = choose|q: int| 0 <= q < at.len() && at[q] == j as usize;
        assert(p != q);
    }
}

proof fn shortest_comes_first(list: Seq<usize>, lengths: Seq<Measure>, n: int)
    requires
        1 <= n <= list.len(),
        strictly_ascending(list),
        forall|k: int| 0 <= k < n ==> !lengths[#[trigger] list[k] as int].nan(),
    ensures
        exists|k: int| 0 <= k < n && list[k] == shortest(list, lengths, n),
        forall|k: int|
            0 <= k < n ==> {
                let best = shortest(list, lengths, n);
                &&& lengths[best as int].at_most(lengths[#[trigger] list[k] as int])
                &&& list[k] < best ==> lengths[best as int].below(lengths[list[k] as int])
            },
    decreases n,
{
    assert(!lengths[list[n - 1] as int].nan());
    if n > 1 {
        shortest_comes_first(list, lengths, n - 1);
        let before = shortest(list, lengths, n - 1);
        let p = choose|p: int| 0 <= p < n - 1 && list[p] == before;
        assert(!lengths[list[p] as int].nan());
        assert(list[p] < list[n - 1]);
        if lengths[list[n - 1] as int].below(lengths[before as int]) {
            assert(list[n - 1] == shortest(list, lengths, n));
        } else {
            assert(list[p] == shortest(list, lengths, n));
        }
    } else {
        assert(list[0] == shortest(list, lengths, n));
    }
}

proof fn best_is_shortest(
    touches: Seq<bool>,
    to_targets: Seq<Vec<Measure>>,
    lengths: Seq<Measure>,
)
    requires
        touches.len() <= usize::MAX,
        lengths.len() == touches.len(),
        forall|k: int| 0 <= k < lengths.len() ==> !(#[trigger] lengths[k]).nan(),
    ensures
        ({
            let list = reaching(touches, to_targets);
            let best = shortest(list, lengths, list.len() as int);
            &&& list.len() > 0 ==> best < touches.len()
            &&& forall|i: int| #[trigger]
                is_best(touches, to_targets, lengths, i) <==> list.len() > 0 && i == best
        }),
{
    let n = touches.len() as int;
    let list = reaching(touches, to_targets);
    let best = shortest(list, lengths, list.len() as int);
    positions_are_kept(is_reaching(touches, to_targets), n);
    assert forall|i: int| #[trigger]
        is_eligible(touches, to_targets, i) <==> 0 <= i < n && list.contains(i as usize) by {
        if is_eligible(touches, to_targets, i) {
            let t = choose|t: int|
                0 <= t < to_targets[i]@.len() && (#[trigger] to_targets[i]@[t]).below(
                    Measure { bits: 0x4014_0000_0000_0000 },
                );
            assert(reaches(to_targets[i]@));
            assert(is_reaching(touches, to_targets)(i));
        }
        if 0 <= i < n && list.contains(i as usize) {
            assert(is_reaching(touches, to_targets)(i));
            let t = choose|t: int|
                0 <= t < to_targets[i]@.len() && (#[trigger] to_targets[i]@[t]).below(
                    Measure { bits: 0x4014_0000_0000_0000 },
                );
            assert(to_targets[i]@[t].below(Measure { bits: 0x4014_0000_0000_0000 }));
        }
    }
    if list.len() > 0 {
        assert forall|k: int| 0 <= k < list.len() implies !lengths[#[trigger] list[k] as int].nan() by {
            assert(list.contains(list[k]));
            assert(!lengths[list[k] as int].nan());
        }
        shortest_comes_first(list, lengths, list.len() as int);
        shortest_is_listed(list, lengths, list.len() as int);
        assert(list.contains(best));
        assert(is_eligible(touches, to_targets, best as int));
        assert(is_best(touches, to_targets, lengths, best as int)) by {
            assert forall|j: int| #[trigger] is_eligible(touches, to_targets, j) implies {
                &&& lengths[best as int].at_most(lengths[j])
                &&& j < best ==> lengths[best as int].below(lengths[j])
            } by {
                assert(list.contains(j as usize));
                let k = choose|k: int| 0 <= k < list.len() && list[k] == j as usize;
                assert(lengths[best as int].at_most(lengths[list[k] as int]));
            }
        }
    }
    assert forall|i: int| #[trigger] is_best(touches, to_targets, lengths, i) implies list.len() > 0
        && i == best by {
        assert(is_eligible(touches, to_targets, i));
        assert(list.contains(i as usize));
        assert(list.len() > 0);
        assert(is_eligible(touches, to_targets, best as int));
        assert(lengths[i].at_most(lengths[best as int]));
        assert(lengths[best as int].at_most(lengths[i]));
    }
}

proof fn kept_are_best(
    touches: Seq<Vec<bool>>,
    to_targets: Seq<Vec<Measure>>,
    lengths: Seq<Measure>,
    n: int,
)
    requires
        0 <= n <= touches.len(),
        lengths.len() <= usize::MAX,
        full_rows(touches, lengths.len()),
        forall|k: int| 0 <= k < lengths.len() ==> !(#[trigger] lengths[k]).nan(),
    ensures
        forall|id: usize| #[trigger]
            kept(touches, to_targets, lengths, n).contains(id) <==> exists|g: int|
                0 <= g < n && is_contested((#[trigger] touches[g])@) && is_best(
                    touches[g]@,
                    to_targets,
                    lengths,
                    id as int,
                ),
    decreases n,
{
    if n > 0 {
        kept_are_best(touches, to_targets, lengths, n - 1);
        let row = touches[n - 1]@;
        assert(row.len() == lengths.len());
        crowds_are_contested(row);
        best_is_shortest(row, to_targets, lengths);
        let before = kept(touches, to_targets, lengths, n - 1);
        let now = kept(touches, to_targets, lengths, n);
        let list = reaching(row, to_targets);
        let best = shortest(list, lengths, list.len() as int);
        assert forall|id: usize| #[trigger] now.contains(id) <==> exists|g: int|
            0 <= g < n && is_contested((#[trigger] touches[g])@) && is_best(
                touches[g]@,
                to_targets,
                lengths,
                id as int,
            ) by {
            if before.contains(id) {
                let k = choose|k: int| 0 <= k < before.len() && before[k] == id;
                assert(now[k] == id);
                let g = choose|g: int|
                    0 <= g < n - 1 && is_contested((#[trigger] touches[g])@) && is_best(
                        touches[g]@,
                        to_targets,
                        lengths,
                        id as int,
                    );
                assert(0 <= g < n && is_contested(touches[g]@));
            }
            if now.contains(id) && !before.contains(id) {
                let k = choose|k: int| 0 <= k < now.len() && now[k] == id;
                if k < before.len() {
                    assert(before[k] == id);
                }
                assert(id == best);
                assert(is_best(row, to_targets, lengths, id as int));
                assert(is_contested(touches[n - 1]@));
            }
            if exists|g: int|
                0 <= g < n && is_contested((#[trigger] touches[g])@) && is_best(
                    touches[g]@,
                    to_targets,
                    lengths,
                    id as int,
                ) {
                let g = choose|g: int|
                    0 <= g < n && is_contested((#[trigger] touches[g])@) && is_best(
                        touches[g]@,
                        to_targets,
                        lengths,
                        id as int,
                    );
                if g == n - 1 {
                    assert(id == best && list.len() > 0);
                    if !before.contains(best) {
                        assert(now[now.len() - 1] == id);
                    }
                } else {
                    assert(before.contains(id));
                }
            }
        }
    }
}

/// A connection is left after filtering exactly when it touches no group that several touch, or
/// when it is the shortest of those that touch such a group and come near a target. The former
/// come first, in order.
pub proof fn who_is_left_after_filtering(
    touches: Seq<Vec<bool>>,
    to_targets: Seq<Vec<Measure>>,
    lengths: Seq<Measure>,
    i: usize,
)
    requires
        i < lengths.len() <= usize::MAX,
        full_rows(touches, lengths.len()),
        forall|k: int| 0 <= k < lengths.len() ==> !(#[trigger] lengths[k]).nan(),
    ensures
        ({
            let n = lengths.len() as int;
            let left = chosen(touches, to_targets, lengths, n);
            let free = is_free(touches, i as int);
            let best = exists|g: int|
                0 <= g < touches.len() && is_contested((#[trigger] touches[g])@) && is_best(
                    touches[g]@,
                    to_targets,
                    lengths,
                    i as int,
                );
            &&& left.contains(i) <==> free || best
            &&& left.no_duplicates()
            &&& exists|m: int|
                {
                    &&& 0 <= m <= left.len()
                    &&& strictly_ascending(#[trigger] left.take(m))
                    &&& forall|x: usize| #[trigger]
                        left.take(m).contains(x) <==> x < n && is_free(touches, x as int)
                }
        }),
{
    let n = lengths.len() as int;
    let m = touches.len() as int;
    let wanted = positions(is_wanted(touches), n);
    let rest = kept(touches, to_targets, lengths, m);
    let left = chosen(touches, to_targets, lengths, n);
    positions_are_kept(is_wanted(touches), n);
    kept_are_best(touches, to_targets, lengths, m);
    assert forall|g: int| 0 <= g < m implies (crowded((#[trigger] touches[g])@) <==> is_contested(
        touches[g]@,
    )) by {
        crowds_are_contested(touches[g]@);
    }
    connections_stay_once(touches, to_targets, lengths, lengths.len());
    assert forall|x: usize| #[trigger] wanted.contains(x) <==> x < n && is_free(
        touches,
        x as int,
    ) by {
        assert(is_wanted(touches)(x as int) <==> is_free(touches, x as int));
    }
    assert(left.take(wanted.len() as int) =~= wanted);
    assert(left.contains(i) <==> wanted.contains(i) || rest.contains(i)) by {
        if wanted.contains(i) {
            let k = choose|k: int| 0 <= k < wanted.len() && wanted[k] == i;
            assert(left[k] == i);
        }
        if rest.contains(i) {
            let k = choose|k: int| 0 <= k < rest.len() && rest[k] == i;
            assert(left[wanted.len() + k] == i);
        }
        if left.contains(i) {
            let k = choose|k: int| 0 <= k < left.len() && left[k] == i;
            if k < wanted.len() {
                assert(wanted[k] == i);
            } else {
                assert(rest[k - wanted.len()] == i);
            }
        }
    }
}

/// The connections that are picked are those at the listed positions.
pub proof fn listed_lines_are_picked(courses: Seq<Seq<Coord>>, ids: Seq<usize>)
    ensures
        picked(courses, ids).len() == ids.len(),
        forall|k: int|
            0 <= k < ids.len() ==> #[trigger] picked(courses, ids)[k] == courses[ids[k] as int],
{
}

/// A component that is farther from a group than the tolerance is joined to it, if there is a
/// bridge and it lies within the artifact; any other component is not. The bridges come in the
/// order of the components, and group by group.
pub proof fn components_are_bridged_in_order(
    gaps: Seq<Measure>,
    bridges: Seq<Bridge>,
    gap: Measure,
    bridge: Bridge,
    eps: Measure,
)
    requires
        bridges.len() == gaps.len(),
    ensures
        bridges_to(Seq::empty(), Seq::empty(), eps, 0).len() == 0,
        bridges_to(gaps.push(gap), bridges.push(bridge), eps, (gaps.len() + 1) as int)
            == bridges_to(gaps, bridges, eps, gaps.len() as int) + (match bridge.line {
            Some(line) => if bridge.within && !gap.at_most(eps) {
                seq![line@]
            } else {
                Seq::empty()
            },
            None => Seq::empty(),
        }),
{
    let n = gaps.len() as int;
    bridged_alike(gaps, gaps.push(gap), bridges, bridges.push(bridge), eps, n);
    assert(gaps.push(gap)[n] == gap && bridges.push(bridge)[n] == bridge);
    let before = bridges_to(gaps, bridges, eps, n);
    assert(before + Seq::empty() =~= before);
    if bridge.line is Some {
        assert(before.push(bridge.line->0@) =~= before + seq![bridge.line->0@]);
    }
}

proof fn bridged_alike(
    a: Seq<Measure>,
    b: Seq<Measure>,
    p: Seq<Bridge>,
    q: Seq<Bridge>,
    eps: Measure,
    n: int,
)
    requires
        forall|k: int| 0 <= k < n ==> #[trigger] a[k] == b[k],
        forall|k: int| 0 <= k < n ==> #[trigger] p[k] == q[k],
    ensures
        bridges_to(a, p, eps, n) == bridges_to(b, q, eps, n),
    decreases n,
{
    if n > 0 {
        bridged_alike(a, b, p, q, eps, n - 1);
        assert(a[n - 1] == b[n - 1] && p[n - 1] == q[n - 1]);
    }
}

/// The bridges to a further group come after those to the others.
pub proof fn groups_are_bridged_in_order(
    gaps: Seq<Vec<Measure>>,
    bridges: Seq<Vec<Bridge>>,
    row: Vec<Measure>,
    lanes: Vec<Bridge>,
    eps: Measure,
)
    requires
        bridges.len() == gaps.len(),
    ensures
        all_bridges(Seq::empty(), Seq::empty(), eps, 0).len() == 0,
        all_bridges(gaps.push(row), bridges.push(lanes), eps, (gaps.len() + 1) as int)
            == all_bridges(gaps, bridges, eps, gaps.len() as int) + bridges_to(
            row@,
            lanes@,
            eps,
            row@.len() as int,
        ),
{
    let n = gaps.len() as int;
    rows_alike(gaps, gaps.push(row), bridges, bridges.push(lanes), eps, n);
    assert(gaps.push(row)[n] == row && bridges.push(lanes)[n] == lanes);
}

proof fn rows_alike(
    a: Seq<Vec<Measure>>,
    b: Seq<Vec<Measure>>,
    p: Seq<Vec<Bridge>>,
    q: Seq<Vec<Bridge>>,
    eps: Measure,
    n: int,
)
    requires
        forall|k: int| 0 <= k < n ==> #[trigger] a[k] == b[k],
        forall|k: int| 0 <= k < n ==> #[trigger] p[k] == q[k],
    ensures
        all_bridges(a, p, eps, n) == all_bridges(b, q, eps, n),
    decreases n,
{
    if n > 0 {
        rows_alike(a, b, p, q, eps, n - 1);
        assert(a[n - 1] == b[n - 1] && p[n - 1] == q[n - 1]);
    }
}

/// The end of the line `i` is near another line or near the boundary.
pub open spec fn is_held(gap: EndGap, i: int, tolerance: Measure) -> bool {
    ||| exists|j: int|
        0 <= j < gap.others@.len() && j != i && (#[trigger] gap.others@[j]).below(tolerance)
    ||| gap.boundary.below(tolerance)
}

/// What is left of merged connections: those of which both ends are nearer than the tolerance
/// to another one or to the boundary, in order. The tolerance is at least one.
pub open spec fn holds_the_fast(
    r: Seq<Seq<Coord>>,
    courses: Seq<Seq<Coord>>,
    gaps: Seq<LineGaps>,
    eps: Measure,
) -> bool {
    let one = Measure { bits: 0x3ff0_0000_0000_0000 };
    let tolerance = if one.below(eps) {
        eps
    } else {
        one
    };
    lists_exactly(
        r,
        courses,
        |i: int|
            courses[i].len() < 2 || (is_held(gaps[i].start, i, tolerance) && is_held(
                gaps[i].end,
                i,
                tolerance,
            )),
    )
}

/// Connections with a loose end are removed, unless there is only one.
pub proof fn loose_ends_are_removed(
    connections: Seq<Seq<Coord>>,
    merged: Seq<Seq<Coord>>,
    gaps: Seq<LineGaps>,
    eps: Measure,
)
    ensures
        ({
            let r = trimmed(connections, merged, gaps, eps);
            let courses = if merged.len() > 0 {
                merged
            } else {
                connections
            };
            &&& connections.len() <= 1 ==> r == connections
            &&& connections.len() > 1 && courses.len() == 1 ==> r == courses
            &&& connections.len() > 1 && courses.len() > 1 ==> holds_the_fast(r, courses, gaps, eps)
        }),
{
    let one = Measure { bits: 0x3ff0_0000_0000_0000 };
    let courses = exploded(connections, merged);
    if connections.len() > 1 && courses.len() > 1 {
        let tolerance = if one.below(eps) {
            eps
        } else {
            one
        };
        let used = eps.greater(one);
        let keep = is_fast(courses, gaps, used);
        let wanted = |i: int|
            courses[i].len() < 2 || (is_held(gaps[i].start, i, tolerance) && is_held(
                gaps[i].end,
                i,
                tolerance,
            ));
        assert forall|i: int| 0 <= i < courses.len() implies (#[trigger] keep(i) <==> wanted(i)) by {
            assert(loose(gaps[i].start, i, used) <==> !is_held(gaps[i].start, i, tolerance));
            assert(loose(gaps[i].end, i, used) <==> !is_held(gaps[i].end, i, tolerance));
        }
        selection_lists(courses, keep, wanted);
    }
}

/// Two points are joined by the straight line between them, unless there are none or they are less
/// than a ten-billionth apart.
pub proof fn points_apart_are_joined(a: Coord, b: Coord, distance: Measure)
    ensures
        ({
            let joined = straight_line(Some((a, b)), distance);
            let apart = !distance.below(Measure { bits: 0x3ddb_7cdf_d9d7_bdbb });
            &&& apart ==> joined == Some(seq![a, b])
            &&& !apart ==> joined is None
        }),
        straight_line(None, distance) is None,
{
}

/// The shortest line to an edge is one of those that there are, none of these is shorter, and those
/// before it are longer. There is none exactly where no length is below infinity.
pub proof fn no_line_is_shorter(
    candidates: Seq<Option<LineString>>,
    lengths: Seq<Measure>,
    at: int,
)
    requires
        lengths.len() == candidates.len(),
        forall|k: int|
            0 <= k < candidates.len() && (#[trigger] candidates[k]) is None ==> lengths[k].bits
                == 0x7ff0_0000_0000_0000,
    ensures
        shortest_line(candidates, lengths) is None <==> all_infinite(lengths),
        is_first_least(lengths, at) ==> candidates[at] is Some && shortest_line(candidates, lengths)
            == Some(candidates[at]->0@),
{
    the_closest_is_the_first_least(lengths);
    if !all_infinite(lengths) {
        let found = crate::measure::closest(lengths, lengths.len() as int)->0;
        assert(is_first_least(lengths, found));
        assert(candidates[found] is Some);
    }
    if is_first_least(lengths, at) {
        assert(crate::measure::closest(lengths, lengths.len() as int) == Some(at));
        assert(candidates[at] is Some);
    }
}

} // verus!
