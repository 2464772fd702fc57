//! How clusters of artifacts are split, merged and redrawn.
use crate::clusters::{
    by_cell, clamped, cluster_move, is_in, is_nearest_to, is_oversized, is_unplaced, joined, large,
    members, orphans, split_parts, union_pair, union_round, unplaced, used, used_once, work_clusters,
    Cell, ClusterCase, ClusterMove, ClusterSkeleton, Grid, WorkCluster,
};
use crate::components::{grouped, is_large};
use crate::laws::components::{grouped_by, groups_are_by_label};
use crate::laws::measures::{all_infinite, is_first_least, the_closest_is_the_first_least};
use crate::laws::selections::{
    list_is_selection, listed_are_wanted, lists_exactly, selection_lists,
};
use crate::measure::Measure;
use crate::types::lines;
use vstd::prelude::*;

verus! {

/// An end of the skeleton is within the tolerance of the connection point `k`.
pub open spec fn is_reached(skeleton: ClusterSkeleton, k: int) -> bool {
    exists|j: int|
        0 <= j < skeleton.end_distances@[k]@.len() && (
        #[trigger] skeleton.end_distances@[k]@[j]).at_most(skeleton.tolerance)
}

/// The edges of a cluster are replaced exactly when there are edges to replace, edges that
/// cross its boundary and two sides or more, and a skeleton has been drawn that is not
/// shorter than a tenth of what it replaces and reaches every connection point. All covered
/// edges then give way to the lines that were drawn.
pub proof fn edges_are_replaced_only_if_all_stay_connected(
    case: ClusterCase,
    skeleton: Option<ClusterSkeleton>,
)
    ensures
        ({
            let next = cluster_move(case, skeleton);
            let possible = case.covered_edges@.len() >= 1 && case.boundary_edges@.len() >= 1
                && case.ring_sides@.len() >= 2;
            match skeleton {
                None => if possible {
                    next == ClusterMove::Draw(Measure { bits: 0x3f1a_36e2_eb1c_432d })
                } else {
                    next == ClusterMove::Leave
                },
                Some(s) => {
                    let all_reached = forall|k: int|
                        0 <= k < s.end_distances@.len() ==> #[trigger] is_reached(s, k);
                    let too_short = (Measure { bits: 0 }).below(s.covered_length)
                        && s.length.below(s.tenth_of_covered);
                    if possible && all_reached && !too_short {
                        next == (ClusterMove::Replace {
                            drop: case.covered_edges@,
                            add: lines(s.drawn@),
                        })
                    } else {
                        next == ClusterMove::Leave
                    }
                },
            }
        }),
{
    if let Some(s) = skeleton {
        if forall|k: int| 0 <= k < s.end_distances@.len() ==> #[trigger] is_reached(s, k) {
            assert forall|k: int| 0 <= k < s.end_distances@.len() implies crate::clusters::connected(
                (#[trigger] s.end_distances@[k])@,
                s.tolerance,
            ) by {
                assert(is_reached(s, k));
                let j = choose|j: int|
                    0 <= j < s.end_distances@[k]@.len() && (
                    #[trigger] s.end_distances@[k]@[j]).at_most(s.tolerance);
                assert(s.end_distances@[k]@[j].at_most(s.tolerance));
            }
        } else {
            let k = choose|k: int| 0 <= k < s.end_distances@.len() && !(#[trigger] is_reached(s, k));
            assert(!crate::clusters::connected(s.end_distances@[k]@, s.tolerance)) by {
                if crate::clusters::connected(s.end_distances@[k]@, s.tolerance) {
                    let j = choose|j: int|
                        0 <= j < s.end_distances@[k]@.len() && (
                        #[trigger] s.end_distances@[k]@[j]).at_most(s.tolerance);
                    assert(is_reached(s, k));
                }
            }
        }
    }
}

/// A connection point that no end of the skeleton comes near saves the edges of a cluster:
/// whatever else is known, nothing is replaced.
pub proof fn an_orphaned_connection_saves_the_edges(
    case: ClusterCase,
    skeleton: ClusterSkeleton,
    k: int,
)
    requires
        0 <= k < skeleton.end_distances@.len(),
        forall|j: int|
            0 <= j < skeleton.end_distances@[k]@.len() ==> !(
            #[trigger] skeleton.end_distances@[k]@[j]).at_most(skeleton.tolerance),
    ensures
        cluster_move(case, Some(skeleton)) == ClusterMove::Leave,
{
    edges_are_replaced_only_if_all_stay_connected(case, Some(skeleton));
    assert(!is_reached(skeleton, k));
}

/// The artifacts of a cluster are those that it holds.
pub proof fn clusters_by_their_artifacts(clusters: Seq<WorkCluster>)
    ensures
        members(clusters).len() == clusters.len(),
        forall|k: int|
            0 <= k < clusters.len() ==> #[trigger] members(clusters)[k] == clusters[k].artifacts@,
{
}

/// A grid has at least two rows and columns. A place within it stays, one beyond its end
/// moves to the last row or column.
pub proof fn places_stay_within_the_grid(k: usize, n_cells: usize)
    ensures
        ({
            let n: int = if n_cells > 2 {
                n_cells as int
            } else {
                2
            };
            &&& clamped(k, n_cells) < n
            &&& k < n ==> clamped(k, n_cells) == k
            &&& k >= n ==> clamped(k, n_cells) == n - 1
        }),
{
}

/// Each artifact with a place has a cell of the grid, by row and by column, and one without
/// has none. A cluster spreads unless its extent in one of the directions is zero or less.
pub proof fn artifacts_are_placed_in_the_grid(grid: Grid)
    ensures
        grid.cells().len() == grid.places@.len(),
        forall|k: int|
            0 <= k < grid.places@.len() ==> match #[trigger] grid.places@[k] {
                Some(place) => grid.cells()[k] == Some(
                    Cell {
                        row: clamped(place.row, grid.n_cells),
                        col: clamped(place.col, grid.n_cells),
                    },
                ),
                None => grid.cells()[k] is None,
            },
        grid.spreads() <==> (grid.range_x.nan() || (Measure { bits: 0 }).below(grid.range_x)) && (
        grid.range_y.nan() || (Measure { bits: 0 }).below(grid.range_y)),
{
}

/// The parts are the cells `at`: all that an artifact is in, each once, and a part lists the
/// artifacts of its cell, in the order of the cluster. The cells come in the order in which
/// their first artifacts do.
pub open spec fn sorted_into(
    parts: Seq<Seq<usize>>,
    cluster: Seq<usize>,
    places: Seq<Option<Cell>>,
    at: Seq<Cell>,
) -> bool {
    &&& at.len() == parts.len()
    &&& at.no_duplicates()
    &&& forall|k: int|
        0 <= k < places.len() && (#[trigger] places[k]) is Some ==> at.contains(places[k]->0)
    &&& forall|g: int|
        0 <= g < at.len() ==> exists|k: int| 0 <= k < places.len() && places[k] == Some(#[trigger] at[g])
    &&& forall|g: int|
        0 <= g < at.len() ==> lists_exactly(
            #[trigger] parts[g],
            cluster,
            |k: int| places[k] == Some(at[g]),
        )
    &&& forall|h: int, g: int, k: int|
        0 <= h < g < at.len() && 0 <= k < places.len() && #[trigger] places[k] == Some(
            #[trigger] at[g],
        ) ==> occurs_before(places, #[trigger] at[h], k)
}

/// Some artifact before the artifact `k` is in the cell.
pub open spec fn occurs_before(places: Seq<Option<Cell>>, cell: Cell, k: int) -> bool {
    exists|i: int| 0 <= i < k && #[trigger] places[i] == Some(cell)
}

proof fn used_in_order(places: Seq<Option<Cell>>, n: int)
    requires
        0 <= n <= places.len(),
    ensures
        forall|h: int, g: int, k: int|
            0 <= h < g < used(places, n).len() && 0 <= k < n && #[trigger] places[k] == Some(
                #[trigger] used(places, n)[g],
            ) ==> occurs_before(places, #[trigger] used(places, n)[h], k),
    decreases n,
{
    if n > 0 {
        used_in_order(places, n - 1);
        used_once(places, n - 1);
        let rest = used(places, n - 1);
        let all = used(places, n);
        assert forall|h: int, g: int, k: int|
            0 <= h < g < all.len() && 0 <= k < n && #[trigger] places[k] == Some(
                #[trigger] all[g],
            ) implies occurs_before(places, #[trigger] all[h], k) by {
            assert(rest[h] == all[h]);
            if k < n - 1 {
                assert(places[k] is Some);
                assert(rest.contains(all[g]));
                if g == rest.len() {
                    assert(false);
                }
                assert(places[k] == Some(rest[g]));
                assert(occurs_before(places, rest[h], k));
            } else {
                assert(rest.contains(rest[h]));
                let i = choose|i: int| 0 <= i < n - 1 && places[i] == Some(rest[h]);
                assert(places[i] == Some(all[h]));
            }
        }
    }
}

/// A cluster is sorted into the cells of the grid.
pub proof fn clusters_are_sorted_by_cell(cluster: Seq<usize>, places: Seq<Option<Cell>>)
    requires
        places.len() == cluster.len(),
    ensures
        exists|at: Seq<Cell>| #[trigger]
            sorted_into(by_cell(cluster, places), cluster, places, at),
{
    let n = cluster.len() as int;
    let at = used(places, n);
    let parts = by_cell(cluster, places);
    used_once(places, n);
    used_in_order(places, n);
    assert forall|g: int| 0 <= g < at.len() implies exists|k: int|
        0 <= k < places.len() && places[k] == Some(#[trigger] at[g]) by {
        assert(at.contains(at[g]));
    }
    assert forall|g: int| 0 <= g < at.len() implies lists_exactly(
        #[trigger] parts[g],
        cluster,
        |k: int| places[k] == Some(at[g]),
    ) by {
        selection_lists(cluster, is_in(places, at[g]), |k: int| places[k] == Some(at[g]));
    }
    assert(sorted_into(parts, cluster, places, at));
}

/// Cells of three artifacts or more stand alone. The artifacts of the other cells are left
/// over, cell by cell: a further cell brings its own after those of the others.
pub proof fn small_cells_are_left_over(parts: Seq<Seq<usize>>, more: Seq<usize>)
    ensures
        lists_exactly(large(parts), parts, |g: int| parts[g].len() >= 3),
        orphans(Seq::empty(), 0).len() == 0,
        orphans(parts.push(more), (parts.len() + 1) as int) == orphans(parts, parts.len() as int)
            + (if more.len() < 3 {
            more
        } else {
            Seq::empty()
        }),
{
    selection_lists(parts, is_large(parts), |g: int| parts[g].len() >= 3);
    let n = parts.len() as int;
    let all = parts.push(more);
    left_alike(parts, all, n);
    assert(is_large(all)(n) <==> more.len() >= 3);
    assert(orphans(all, n + 1) =~= orphans(parts, n) + (if more.len() < 3 {
        more
    } else {
        Seq::empty()
    }));
}

proof fn left_alike(a: Seq<Seq<usize>>, b: Seq<Seq<usize>>, n: int)
    requires
        forall|g: int| 0 <= g < n ==> #[trigger] a[g] == b[g],
    ensures
        orphans(a, n) == orphans(b, n),
    decreases n,
{
    if n > 0 {
        left_alike(a, b, n - 1);
        assert(a[n - 1] == b[n - 1]);
        assert(is_large(a)(n - 1) == is_large(b)(n - 1));
    }
}

/// The part `g` is nearest by the distances: the first of the least, or the first of all
/// where none is below infinity.
pub open spec fn goes_to(distances: Seq<Measure>, g: int) -> bool {
    is_first_least(distances, g) || (all_infinite(distances) && g == 0)
}

/// A cluster that spreads and has a cell of three artifacts or more is split into these
/// cells. Each keeps its artifacts and takes those of the small cells that it is nearest to;
/// the first one also takes the artifacts without a place. Any other cluster stays whole.
pub proof fn clusters_are_split_by_cell(
    cluster: Seq<usize>,
    grid: Grid,
    distances: Seq<Vec<Measure>>,
    near: Seq<usize>,
    homeless: Seq<usize>,
    g: int,
)
    requires
        ({
            let parts = by_cell(cluster, grid.cells());
            let left = orphans(parts, parts.len() as int);
            &&& grid.places@.len() == cluster.len()
            &&& distances.len() == left.len()
            &&& forall|k: int|
                0 <= k < distances.len() ==> (#[trigger] distances[k])@.len() == large(parts).len()
            &&& 0 <= g < large(parts).len()
            &&& lists_exactly(near, left, |k: int| goes_to(distances[k]@, g))
            &&& lists_exactly(homeless, cluster, |k: int| grid.places@[k] is None)
        }),
    ensures
        ({
            let parts = by_cell(cluster, grid.cells());
            let split = split_parts(cluster, grid, distances);
            if grid.spreads() {
                &&& split.len() == large(parts).len()
                &&& split[g] == large(parts)[g] + near + (if g == 0 {
                    homeless
                } else {
                    Seq::empty()
                })
            } else {
                split.len() == 1 && split[0] == cluster
            }
        }),
{
    let parts = by_cell(cluster, grid.cells());
    let big = large(parts);
    let m = big.len() as int;
    let left = orphans(parts, parts.len() as int);
    let keep = is_nearest_to(distances, m, g);
    let wanted = |k: int| goes_to(distances[k]@, g);
    assert forall|k: int| 0 <= k < left.len() implies (#[trigger] keep(k) <==> wanted(k)) by {
        let row = distances[k]@;
        assert(distances[k]@.len() == m);
        the_closest_is_the_first_least(row);
        let at = crate::measure::nearest(row, m);
        if !all_infinite(row) {
            assert(is_first_least(row, at));
            if is_first_least(row, g) {
                assert(crate::measure::closest(row, m) == Some(g));
            }
        } else if is_first_least(row, g) {
            assert(row[g].below(Measure { bits: 0x7ff0_0000_0000_0000 }));
        }
    }
    list_is_selection(near, left, keep, wanted);
    let places = grid.cells();
    let gone = |k: int| grid.places@[k] is None;
    assert forall|k: int| 0 <= k < cluster.len() implies (#[trigger] is_unplaced(places)(k)
        <==> gone(k)) by {
        assert(places[k] is None <==> grid.places@[k] is None);
    }
    list_is_selection(homeless, cluster, is_unplaced(places), gone);
    assert(unplaced(cluster, places) == homeless);
    if grid.spreads() {
        let full = joined(big, left, distances, left.len() as int);
        assert(full[g] == big[g] + near);
        let split = split_parts(cluster, grid, distances);
        assert(split[g] =~= big[g] + near + (if g == 0 {
            homeless
        } else {
            Seq::empty()
        }));
    }
}

/// A cluster in which no cell holds three artifacts, or which does not spread, stays whole.
pub proof fn clusters_without_a_large_cell_stay_whole(
    cluster: Seq<usize>,
    grid: Grid,
    distances: Seq<Vec<Measure>>,
)
    requires
        !grid.spreads() || forall|g: int|
            0 <= g < by_cell(cluster, grid.cells()).len() ==> (#[trigger] by_cell(
                cluster,
                grid.cells(),
            )[g]).len() < 3,
    ensures
        split_parts(cluster, grid, distances) == seq![cluster],
{
    let parts = by_cell(cluster, grid.cells());
    if grid.spreads() {
        small_cells_are_left_over(parts, Seq::empty());
        let wanted = |g: int| parts[g].len() >= 3;
        listed_are_wanted(large(parts), parts, wanted);
    }
}

/// A round of unions takes the polygons in order, each with the one after it; the last one
/// stays alone where their number is odd.
pub proof fn neighbours_are_united(n: int, k: int)
    requires
        0 <= 2 * k < n,
    ensures
        union_pair(n, k).0 == 2 * k,
        union_pair(n, k).1 matches Some(other) ==> other == 2 * k + 1 && other < n,
        union_pair(n, k).1 is None <==> 2 * k == n - 1,
{
}

/// The clusters that are simplified are the groups of three artifacts or more that carry the same
/// label, by ascending label; those of more than five hundred artifacts are split first.
pub proof fn clusters_are_large_components(
    artifact_indices: Seq<usize>,
    comp_labels: Seq<usize>,
    size: nat,
)
    ensures
        exists|keys: Seq<usize>, groups: Seq<Seq<usize>>|
            {
                &&& #[trigger] grouped_by(groups, artifact_indices, comp_labels, keys)
                &&& lists_exactly(
                    work_clusters(artifact_indices, comp_labels),
                    groups,
                    |g: int| groups[g].len() >= 3,
                )
            },
        is_oversized(size) <==> size >= 501,
{
    groups_are_by_label(artifact_indices, comp_labels);
    let groups = grouped(artifact_indices, comp_labels);
    let keys = choose|keys: Seq<usize>| #[trigger]
        grouped_by(groups, artifact_indices, comp_labels, keys);
    selection_lists(groups, is_large(groups), |g: int| groups[g].len() >= 3);
    assert(grouped_by(groups, artifact_indices, comp_labels, keys));
}

/// A round of unions leaves half the polygons, rounded up. It takes every polygon once, and each
/// only together with its neighbour.
pub proof fn a_round_unites_every_polygon(n: int, i: int)
    requires
        0 <= i < n,
    ensures
        ({
            let round = union_round(n);
            &&& n <= 2 * round.len() <= n + 1
            &&& exists|k: int|
                0 <= k < round.len() && ((#[trigger] round[k]).0 == i || round[k].1 == Some(i))
            &&& forall|k: int, l: int|
                0 <= k < round.len() && 0 <= l < round.len() && ((#[trigger] round[k]).0 == i
                    || round[k].1 == Some(i)) && ((#[trigger] round[l]).0 == i || round[l].1
                    == Some(i)) ==> k == l
            &&& forall|k: int|
                0 <= k < round.len() ==> ((#[trigger] round[k]).1 matches Some(other) ==> other
                    == round[k].0 + 1)
            &&& forall|k: int|
                0 <= k < round.len() && (#[trigger] round[k]).1 is None ==> round[k].0 == n - 1
        }),
{
    let round = union_round(n);
    assert(round[i / 2].0 == i || round[i / 2].1 == Some(i));
}

} // verus!
