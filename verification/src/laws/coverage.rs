//! Which edges and nodes an artifact covers, touches or swallows.
use crate::coverage::{
    apart, close_by, coverage, dangles, is_boundary, is_covered, is_near, marked_true, near,
    quick_coverage, LineDistances, Rect,
};
use crate::laws::selections::{lists_exactly, selection_lists};
use crate::lists::select;
use crate::measure::Measure;
use crate::types::Coord;
use vstd::prelude::*;

verus! {

/// The point lies in the box.
pub open spec fn in_box(area: Rect, p: Coord) -> bool {
    &&& area.min.x.at_most(p.x) && p.x.at_most(area.max.x)
    &&& area.min.y.at_most(p.y) && p.y.at_most(area.max.y)
}

/// Boxes are apart exactly when no point lies in both, as long as each holds a point. Where
/// there is no box, nothing is apart.
pub proof fn boxes_are_apart_without_a_common_point(a: Rect, b: Rect, p: Coord, q: Coord)
    requires
        in_box(a, p),
        in_box(b, q),
    ensures
        apart(Some(a), Some(b)) <==> forall|r: Coord| !(in_box(a, r) && #[trigger] in_box(b, r)),
        !apart(None, Some(b)),
        !apart(Some(a), None),
        !apart(None, None),
{
    let r = Coord {
        x: if a.min.x.below(b.min.x) {
            b.min.x
        } else {
            a.min.x
        },
        y: if a.min.y.below(b.min.y) {
            b.min.y
        } else {
            a.min.y
        },
    };
    if !apart(Some(a), Some(b)) {
        assert(in_box(a, r) && in_box(b, r));
    }
}

/// A point of the line is too far out.
pub open spec fn strays(line: LineDistances, eps: Measure) -> bool {
    ||| exists|k: int| 0 <= k < line.vertices@.len() && !(#[trigger] line.vertices@[k]).at_most(eps)
    ||| exists|k: int|
        0 <= k < line.midpoints@.len() && !(#[trigger] line.midpoints@[k]).at_most(eps)
}

/// A line with a vertex or a midpoint too far out is not covered, whatever is known of it as a
/// whole. Of any other line, what is known of it as a whole is the answer.
pub proof fn a_line_that_strays_is_not_covered(line: LineDistances, eps: Measure)
    ensures
        strays(line, eps) ==> coverage(line, eps) == Some(false),
        !strays(line, eps) ==> coverage(line, eps) == line.whole,
{
}

/// A line is covered without further question where all its vertices and all midpoints lie
/// inside; otherwise the relation decides, once it is known.
pub proof fn a_line_inside_is_covered(
    vertices_inside: Seq<bool>,
    midpoints_inside: Seq<bool>,
    relation_covers: Option<bool>,
)
    ensures
        ({
            let some_outside = (exists|k: int|
                0 <= k < vertices_inside.len() && !(#[trigger] vertices_inside[k])) || (exists|
                k: int,
            |
                0 <= k < midpoints_inside.len() && !(#[trigger] midpoints_inside[k]));
            let r = quick_coverage(vertices_inside, midpoints_inside, relation_covers);
            &&& !some_outside ==> r == Some(true)
            &&& some_outside ==> r == relation_covers
        }),
{
}

/// The edges that an artifact covers are the candidates that do not stray and are covered as a
/// whole. Its boundary edges are the other ones that come within the tolerance of its exterior.
pub proof fn edges_are_covered_or_on_the_boundary(
    candidates: Seq<usize>,
    distances: Seq<LineDistances>,
    to_exterior: Seq<Measure>,
    eps: Measure,
)
    ensures
        ({
            let n = candidates.len() as int;
            let inside = |k: int| !strays(distances[k], eps) && distances[k].whole == Some(true);
            &&& lists_exactly(select(candidates, is_covered(distances, eps), n), candidates, inside)
            &&& lists_exactly(
                select(candidates, is_boundary(distances, to_exterior, eps), n),
                candidates,
                |k: int| !inside(k) && to_exterior[k].at_most(eps),
            )
        }),
{
    let inside = |k: int| !strays(distances[k], eps) && distances[k].whole == Some(true);
    let on_edge = |k: int| !inside(k) && to_exterior[k].at_most(eps);
    assert forall|k: int| 0 <= k < candidates.len() implies (#[trigger] is_covered(
        distances,
        eps,
    )(k) <==> inside(k)) by {
        a_line_that_strays_is_not_covered(distances[k], eps);
    }
    assert forall|k: int| 0 <= k < candidates.len() implies (#[trigger] is_boundary(
        distances,
        to_exterior,
        eps,
    )(k) <==> on_edge(k)) by {
        a_line_that_strays_is_not_covered(distances[k], eps);
    }
    selection_lists(candidates, is_covered(distances, eps), inside);
    selection_lists(candidates, is_boundary(distances, to_exterior, eps), on_edge);
}

/// The nodes near an artifact are those within the tolerance, in order.
pub proof fn nodes_within_the_tolerance_are_near(
    node_coords: Seq<Coord>,
    distances: Seq<Measure>,
    eps: Measure,
)
    ensures
        lists_exactly(
            select(node_coords, close_by(distances, eps), node_coords.len() as int),
            node_coords,
            |k: int| distances[k].at_most(eps),
        ),
{
    selection_lists(node_coords, close_by(distances, eps), |k: int| distances[k].at_most(eps));
}

/// For each artifact those candidates are tested whose boxes are not apart from its own.
pub proof fn only_lines_nearby_are_tested(
    candidates: Seq<Seq<usize>>,
    line_boxes: Seq<Option<Rect>>,
    artifact_boxes: Seq<Option<Rect>>,
)
    ensures
        near(candidates, line_boxes, artifact_boxes).len() == candidates.len(),
        forall|a: int|
            0 <= a < candidates.len() ==> lists_exactly(
                #[trigger] near(candidates, line_boxes, artifact_boxes)[a],
                candidates[a],
                |k: int| !apart(line_boxes[candidates[a][k] as int], artifact_boxes[a]),
            ),
{
    assert forall|a: int| 0 <= a < candidates.len() implies lists_exactly(
        #[trigger] near(candidates, line_boxes, artifact_boxes)[a],
        candidates[a],
        |k: int| !apart(line_boxes[candidates[a][k] as int], artifact_boxes[a]),
    ) by {
        selection_lists(
            candidates[a],
            is_near(candidates[a], line_boxes, artifact_boxes[a]),
            |k: int| !apart(line_boxes[candidates[a][k] as int], artifact_boxes[a]),
        );
    }
}

/// The edges within artifacts are gathered artifact by artifact: a further one brings those of
/// its edges that lie inside it, in order and after all others.
pub proof fn dangles_are_gathered_in_order(
    edges: Seq<Seq<usize>>,
    inside: Seq<Seq<bool>>,
    more: Seq<usize>,
    flags: Seq<bool>,
    own: Seq<usize>,
)
    requires
        inside.len() == edges.len(),
        lists_exactly(own, more, |k: int| flags[k]),
    ensures
        dangles(Seq::empty(), Seq::empty(), 0).len() == 0,
        dangles(edges.push(more), inside.push(flags), (edges.len() + 1) as int) == dangles(
            edges,
            inside,
            edges.len() as int,
        ) + own,
{
    let n = edges.len() as int;
    gathered_alike(edges, edges.push(more), inside, inside.push(flags), n);
    crate::laws::selections::list_is_selection(
        own,
        more,
        marked_true(flags),
        |k: int| flags[k],
    );
    assert(edges.push(more)[n] == more && inside.push(flags)[n] == flags);
}

proof fn gathered_alike(
    a: Seq<Seq<usize>>,
    b: Seq<Seq<usize>>,
    p: Seq<Seq<bool>>,
    q: Seq<Seq<bool>>,
    n: int,
)
    requires
        forall|k: int| 0 <= k < n ==> #[trigger] a[k] == b[k],
        forall|k: int| 0 <= k < n ==> #[trigger] p[k] == q[k],
    ensures
        dangles(a, p, n) == dangles(b, q, n),
    decreases n,
{
    if n > 0 {
        gathered_alike(a, b, p, q, n - 1);
        assert(a[n - 1] == b[n - 1] && p[n - 1] == q[n - 1]);
    }
}

} // verus!
