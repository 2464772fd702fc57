//! Which edges an artifact covers, touches or swallows.
use crate::lists::{all_true, append_ids, every, select, select_holds_kept};
use crate::measure::Measure;
use crate::types::{contents, Coord};
use vstd::prelude::*;

verus! {

/// A box along the axes.
#[derive(Clone, Copy, Debug)]
pub struct Rect {
    pub min: Coord,
    pub max: Coord,
}

/// Whether two boxes are apart. Without a box nothing is known, and they are not.
pub open spec fn apart(a: Option<Rect>, b: Option<Rect>) -> bool {
    match (a, b) {
        (Some(a), Some(b)) => {
            ||| b.max.x.below(a.min.x)
            ||| a.max.x.below(b.min.x)
            ||| b.max.y.below(a.min.y)
            ||| a.max.y.below(b.min.y)
        },
        _ => false,
    }
}

fn boxes_apart(a: &Option<Rect>, b: &Option<Rect>) -> (r: bool)
    ensures
        r == apart(*a, *b),
{
    match (a, b) {
        (Some(a), Some(b)) => {
            b.max.x.lt(&a.min.x) || a.max.x.lt(&b.min.x) || b.max.y.lt(&a.min.y) || a.max.y.lt(
                &b.min.y,
            )
        },
        _ => false,
    }
}

/// How a line lies to an artifact: how far its vertices and the midpoints of its
/// segments are from it, and whether the artifact, widened by the tolerance, covers
/// the whole line. The last is not asked where one of the points lies too far out.
#[derive(Debug)]
pub struct LineDistances {
    pub vertices: Vec<Measure>,
    pub midpoints: Vec<Measure>,
    pub whole: Option<bool>,
}

/// All of the distances are within the tolerance.
pub open spec fn within_tolerance(distances: Seq<Measure>, eps: Measure) -> bool {
    forall|k: int| 0 <= k < distances.len() ==> (#[trigger] distances[k]).at_most(eps)
}

/// The vertices of a line and the midpoints of its segments are within the
/// tolerance.
pub open spec fn points_covered(line: LineDistances, eps: Measure) -> bool {
    within_tolerance(line.vertices@, eps) && within_tolerance(line.midpoints@, eps)
}

/// Whether the artifact, widened by the tolerance, covers the line. None where that
/// is still to be found out for the line as a whole.
pub open spec fn coverage(line: LineDistances, eps: Measure) -> Option<bool> {
    if points_covered(line, eps) {
        line.whole
    } else {
        Some(false)
    }
}

/// The artifact, widened by the tolerance, covers all of the line: its vertices, the
/// midpoints of its segments and what lies between these.
pub open spec fn covered(line: LineDistances, eps: Measure) -> bool {
    coverage(line, eps) == Some(true)
}

/// It is known of each line whether it is covered.
pub open spec fn all_decided(distances: Seq<LineDistances>, eps: Measure) -> bool {
    forall|k: int| 0 <= k < distances.len() ==> coverage(#[trigger] distances[k], eps) is Some
}

fn all_within(distances: &Vec<Measure>, eps: &Measure) -> (r: bool)
    ensures
        r == within_tolerance(distances@, *eps),
{
    let mut k: usize = 0;
    while k < distances.len()
        invariant
            k <= distances@.len(),
            forall|j: int| 0 <= j < k ==> (#[trigger] distances@[j]).at_most(*eps),
        decreases distances.len() - k,
    {
        if !distances[k].le(eps) {
            assert(!distances@[k as int].at_most(*eps));
            return false;
        }
        k = k + 1;
    }
    true
}

/// Whether an artifact covers a line, up to the tolerance. A line with a vertex or
/// a midpoint too far out is not covered; of any other line the answer is that for
/// the line as a whole, and `None` asks for it where it is not given yet.
pub fn line_covered_by_distance(line: &LineDistances, eps: Measure) -> (r: Option<bool>)
    ensures
        r == coverage(*line, eps),
{
    if all_within(&line.vertices, &eps) && all_within(&line.midpoints, &eps) {
        line.whole
    } else {
        Some(false)
    }
}

/// Which of the candidates are covered.
pub open spec fn is_covered(distances: Seq<LineDistances>, eps: Measure) -> spec_fn(int) -> bool {
    |k: int| covered(distances[k], eps)
}

/// The candidates that the artifact covers. `distances` holds how each candidate
/// lies to the artifact.
pub fn find_covered_edges(candidates: &Vec<usize>, distances: &Vec<LineDistances>, eps: Measure)
    -> (r: Vec<usize>)
    requires
        distances@.len() == candidates@.len(),
        all_decided(distances@, eps),
    ensures
        r@ == select(candidates@, is_covered(distances@, eps), candidates@.len() as int),
{
    let ghost keep = is_covered(distances@, eps);
    let mut r: Vec<usize> = Vec::new();
    let mut k: usize = 0;
    while k < candidates.len()
        invariant
            k <= candidates@.len(),
            distances@.len() == candidates@.len(),
            keep == is_covered(distances@, eps),
            r@ == select(candidates@, keep, k as int),
        decreases candidates.len() - k,
    {
        let inside = line_covered_by_distance(&distances[k], eps) == Some(true);
        assert(keep(k as int) == inside);
        if inside {
            r.push(candidates[k]);
        }
        k = k + 1;
    }
    r
}

/// Which of the candidates reach the boundary without being covered.
pub open spec fn is_boundary(
    distances: Seq<LineDistances>,
    to_exterior: Seq<Measure>,
    eps: Measure,
) -> spec_fn(int) -> bool {
    |k: int| !covered(distances[k], eps) && to_exterior[k].at_most(eps)
}

/// The candidates that come within the tolerance of the artifact's exterior ring
/// and are not covered. `to_exterior` holds the distance of each candidate from
/// that ring.
pub fn find_boundary_edges(
    candidates: &Vec<usize>,
    distances: &Vec<LineDistances>,
    to_exterior: &Vec<Measure>,
    eps: Measure,
) -> (r: Vec<usize>)
    requires
        distances@.len() == candidates@.len(),
        to_exterior@.len() == candidates@.len(),
        all_decided(distances@, eps),
    ensures
        r@ == select(
            candidates@,
            is_boundary(distances@, to_exterior@, eps),
            candidates@.len() as int,
        ),
{
    let ghost keep = is_boundary(distances@, to_exterior@, eps);
    let mut r: Vec<usize> = Vec::new();
    let mut k: usize = 0;
    while k < candidates.len()
        invariant
            k <= candidates@.len(),
            distances@.len() == candidates@.len(),
            to_exterior@.len() == candidates@.len(),
            keep == is_boundary(distances@, to_exterior@, eps),
            r@ == select(candidates@, keep, k as int),
        decreases candidates.len() - k,
    {
        let inside = line_covered_by_distance(&distances[k], eps) == Some(true);
        let touches = !inside && to_exterior[k].le(&eps);
        assert(keep(k as int) == touches);
        if touches {
            r.push(candidates[k]);
        }
        k = k + 1;
    }
    r
}

/// No edge both is covered by an artifact and crosses its boundary, as long as
/// no candidate is given twice.
pub proof fn covered_or_boundary(
    candidates: Seq<usize>,
    distances: Seq<LineDistances>,
    to_exterior: Seq<Measure>,
    eps: Measure,
    edge: usize,
)
    requires
        candidates.no_duplicates(),
    ensures
        !(select(candidates, is_covered(distances, eps), candidates.len() as int).contains(edge)
            && select(
            candidates,
            is_boundary(distances, to_exterior, eps),
            candidates.len() as int,
        ).contains(edge)),
{
    let n = candidates.len() as int;
    select_holds_kept(candidates, is_covered(distances, eps), n);
    select_holds_kept(candidates, is_boundary(distances, to_exterior, eps), n);
}

/// A greater tolerance covers every line that a smaller one covers, as long as that
/// holds of what is found out for the line as a whole: `widely` holds the answer for
/// the greater tolerance.
pub proof fn covering_grows_with_tolerance(
    line: LineDistances,
    widely: LineDistances,
    eps: Measure,
    wider: Measure,
)
    requires
        covered(line, eps),
        eps.at_most(wider),
        widely.vertices@ == line.vertices@,
        widely.midpoints@ == line.midpoints@,
        line.whole == Some(true) ==> widely.whole == Some(true),
    ensures
        covered(widely, wider),
{
    assert forall|k: int| 0 <= k < line.vertices@.len() implies (
    #[trigger] widely.vertices@[k]).at_most(wider) by {
        assert(line.vertices@[k].at_most(eps));
    }
    assert forall|k: int| 0 <= k < line.midpoints@.len() implies (
    #[trigger] widely.midpoints@[k]).at_most(wider) by {
        assert(line.midpoints@[k].at_most(eps));
    }
}

/// A line is covered only as a whole, and only where its vertices and the midpoints
/// of its segments are within the tolerance.
pub proof fn covered_lines_are_near(line: LineDistances, eps: Measure)
    requires
        covered(line, eps),
    ensures
        line.whole == Some(true),
        forall|k: int|
            0 <= k < line.vertices@.len() ==> (#[trigger] line.vertices@[k]).at_most(eps),
        forall|k: int|
            0 <= k < line.midpoints@.len() ==> (#[trigger] line.midpoints@[k]).at_most(eps),
{
}

/// Whether a polygon covers a line, as far as that is known.
pub open spec fn quick_coverage(
    vertices_inside: Seq<bool>,
    midpoints_inside: Seq<bool>,
    relation_covers: Option<bool>,
) -> Option<bool> {
    if all_true(vertices_inside) && all_true(midpoints_inside) {
        Some(true)
    } else {
        relation_covers
    }
}

/// Whether a polygon covers a line. A line whose vertices and whose segments'
/// midpoints all lie inside is covered; for any other line the relation between
/// the two decides, and `None` asks for it where it is not given yet.
pub fn line_covered_by_polygon_fast(
    vertices_inside: &Vec<bool>,
    midpoints_inside: &Vec<bool>,
    relation_covers: Option<bool>,
) -> (r: Option<bool>)
    ensures
        r == quick_coverage(vertices_inside@, midpoints_inside@, relation_covers),
        r == (if all_true(vertices_inside@) && all_true(midpoints_inside@) {
            Some(true)
        } else {
            relation_covers
        }),
{
    if every(vertices_inside) && every(midpoints_inside) {
        Some(true)
    } else {
        relation_covers
    }
}

/// The candidates of an artifact whose box is not apart from the artifact's.
pub open spec fn is_near(
    candidates: Seq<usize>,
    line_boxes: Seq<Option<Rect>>,
    artifact_box: Option<Rect>,
) -> spec_fn(int) -> bool {
    |k: int| !apart(line_boxes[candidates[k] as int], artifact_box)
}

/// The candidates of each artifact that have to be tested against it.
pub open spec fn near(
    candidates: Seq<Seq<usize>>,
    line_boxes: Seq<Option<Rect>>,
    artifact_boxes: Seq<Option<Rect>>,
) -> Seq<Seq<usize>> {
    Seq::new(
        candidates.len(),
        |a: int|
            select(
                candidates[a],
                is_near(candidates[a], line_boxes, artifact_boxes[a]),
                candidates[a].len() as int,
            ),
    )
}

/// For each artifact, the candidate edges that may lie within it: those whose box
/// is not apart from that of the artifact.
pub fn dangle_candidates(
    candidates: &Vec<Vec<usize>>,
    line_boxes: &Vec<Option<Rect>>,
    artifact_boxes: &Vec<Option<Rect>>,
) -> (r: Vec<Vec<usize>>)
    requires
        artifact_boxes@.len() == candidates@.len(),
        forall|a: int, k: int|
            0 <= a < candidates@.len() && 0 <= k < candidates@[a]@.len()
                ==> #[trigger] candidates@[a]@[k] < line_boxes@.len(),
    ensures
        contents(r@) == near(contents(candidates@), line_boxes@, artifact_boxes@),
{
    let ghost sets = contents(candidates@);
    let ghost wanted = near(sets, line_boxes@, artifact_boxes@);
    let mut r: Vec<Vec<usize>> = Vec::new();
    let mut a: usize = 0;
    while a < candidates.len()
        invariant
            a <= candidates@.len(),
            artifact_boxes@.len() == candidates@.len(),
            sets == contents(candidates@),
            wanted == near(sets, line_boxes@, artifact_boxes@),
            forall|b: int, k: int|
                0 <= b < candidates@.len() && 0 <= k < candidates@[b]@.len()
                    ==> #[trigger] candidates@[b]@[k] < line_boxes@.len(),
            r@.len() == a,
            forall|b: int| 0 <= b < a ==> (#[trigger] r@[b])@ == wanted[b],
        decreases candidates.len() - a,
    {
        let list = &candidates[a];
        let ghost keep = is_near(list@, line_boxes@, artifact_boxes@[a as int]);
        assert(sets[a as int] == list@);
        let mut own: Vec<usize> = Vec::new();
        let mut k: usize = 0;
        while k < list.len()
            invariant
                k <= list@.len(),
                a < artifact_boxes@.len(),
                a < candidates@.len(),
                list@ == candidates@[a as int]@,
                forall|j: int| 0 <= j < list@.len() ==> #[trigger] list@[j] < line_boxes@.len(),
                keep == is_near(list@, line_boxes@, artifact_boxes@[a as int]),
                own@ == select(list@, keep, k as int),
            decreases list.len() - k,
        {
            assert(list@[k as int] < line_boxes@.len());
            let meets = !boxes_apart(&line_boxes[list[k]], &artifact_boxes[a]);
            assert(keep(k as int) == meets);
            if meets {
                own.push(list[k]);
            }
            k = k + 1;
        }
        r.push(own);
        a = a + 1;
    }
    assert(contents(r@) =~= wanted);
    r
}

pub open spec fn marked_true(flags: Seq<bool>) -> spec_fn(int) -> bool {
    |k: int| flags[k]
}

/// The edges within one of the first `n` artifacts.
pub open spec fn dangles(edges: Seq<Seq<usize>>, inside: Seq<Seq<bool>>, n: int) -> Seq<usize>
    decreases n,
{
    if n <= 0 {
        Seq::empty()
    } else {
        dangles(edges, inside, n - 1) + select(
            edges[n - 1],
            marked_true(inside[n - 1]),
            edges[n - 1].len() as int,
        )
    }
}

/// The edges that lie within an artifact. `inside` tells for each tested edge of
/// each artifact whether it does. An edge within two artifacts is named twice.
pub fn collect_dangles(edges: &Vec<Vec<usize>>, inside: &Vec<Vec<bool>>) -> (r: Vec<usize>)
    requires
        inside@.len() == edges@.len(),
        forall|a: int|
            0 <= a < edges@.len() ==> (#[trigger] inside@[a])@.len() == edges@[a]@.len(),
    ensures
        r@ == dangles(contents(edges@), contents(inside@), edges@.len() as int),
{
    let ghost sets = contents(edges@);
    let ghost flags = contents(inside@);
    let mut r: Vec<usize> = Vec::new();
    let mut a: usize = 0;
    while a < edges.len()
        invariant
            a <= edges@.len(),
            inside@.len() == edges@.len(),
            forall|b: int|
                0 <= b < edges@.len() ==> (#[trigger] inside@[b])@.len() == edges@[b]@.len(),
            sets == contents(edges@),
            flags == contents(inside@),
            r@ == dangles(sets, flags, a as int),
        decreases edges.len() - a,
    {
        let list = &edges[a];
        let hits = &inside[a];
        assert(inside@[a as int]@.len() == edges@[a as int]@.len());
        assert(sets[a as int] == list@ && flags[a as int] == hits@);
        let ghost keep = marked_true(hits@);
        let mut own: Vec<usize> = Vec::new();
        let mut k: usize = 0;
        while k < list.len()
            invariant
                k <= list@.len(),
                hits@.len() == list@.len(),
                keep == marked_true(hits@),
                own@ == select(list@, keep, k as int),
            decreases list.len() - k,
        {
            assert(keep(k as int) == hits@[k as int]);
            if hits[k] {
                own.push(list[k]);
            }
            k = k + 1;
        }
        append_ids(&mut r, &own);
        a = a + 1;
    }
    r
}

/// Which nodes lie within the tolerance.
pub open spec fn close_by(distances: Seq<Measure>, eps: Measure) -> spec_fn(int) -> bool {
    |k: int| distances[k].at_most(eps)
}

/// The nodes that lie within the tolerance of a polygon. `distances` holds how
/// far each node is from it.
pub fn find_nodes_near_polygon(node_coords: &Vec<Coord>, distances: &Vec<Measure>, eps: Measure)
    -> (r: Vec<Coord>)
    requires
        distances@.len() == node_coords@.len(),
    ensures
        r@ == select(node_coords@, close_by(distances@, eps), node_coords@.len() as int),
{
    let ghost keep = close_by(distances@, eps);
    let mut r: Vec<Coord> = Vec::new();
    let mut k: usize = 0;
    while k < node_coords.len()
        invariant
            k <= node_coords@.len(),
            distances@.len() == node_coords@.len(),
            keep == close_by(distances@, eps),
            r@ == select(node_coords@, keep, k as int),
        decreases node_coords.len() - k,
    {
        let close = distances[k].le(&eps);
        assert(keep(k as int) == close);
        if close {
            r.push(node_coords[k]);
        }
        k = k + 1;
    }
    r
}

} // verus!
