//! Clusters of artifacts: how they are split, merged and redrawn.
use crate::components::{group_by_label, grouped, is_large, labelled};
use crate::lists::{append_ids, copy_ids, select, select_holds_kept};
use crate::measure::{closest_is_least, find_closest, nearest, Measure};
use crate::types::{
    contents, copy_lines, lines, Changes, Coord, LineString, ONE_TEN_THOUSANDTH,
};
use vstd::multiset::Multiset;
use vstd::prelude::*;

verus! {

/// Clusters of more artifacts than this are split.
pub const CLUSTER_SPLIT_THRESHOLD: usize = 500;

/// How many artifacts a part of a split cluster should hold.
pub const CLUSTER_SPLIT_TARGET_SIZE: usize = 100;

/// A cluster that is simplified, and whether it is to be split first.
#[derive(Debug)]
pub struct WorkCluster {
    pub artifacts: Vec<usize>,
    pub split: bool,
}

/// The artifacts of clusters.
pub open spec fn members(clusters: Seq<WorkCluster>) -> Seq<Seq<usize>> {
    Seq::new(clusters.len(), |k: int| clusters[k].artifacts@)
}

/// A cluster of this many artifacts is split first.
pub open spec fn is_oversized(size: nat) -> bool {
    size > CLUSTER_SPLIT_THRESHOLD
}

/// The clusters that are simplified: the groups that are large enough.
pub open spec fn work_clusters(artifact_indices: Seq<usize>, comp_labels: Seq<usize>) -> Seq<
    Seq<usize>,
> {
    let groups = grouped(artifact_indices, comp_labels);
    select(groups, is_large(groups), groups.len() as int)
}

/// Groups artifacts into clusters, by ascending label. Groups of fewer than three
/// are left out; those that are too large are marked to be split.
pub fn neatify_clusters(artifact_indices: &Vec<usize>, comp_labels: &Vec<usize>) -> (r: Vec<
    WorkCluster,
>)
    requires
        labelled(artifact_indices@, comp_labels@),
    ensures
        ({
            let groups = grouped(artifact_indices@, comp_labels@);
            members(r@) == select(groups, is_large(groups), groups.len() as int)
        }),
        members(r@) == work_clusters(artifact_indices@, comp_labels@),
        forall|k: int|
            0 <= k < r@.len() ==> (#[trigger] r@[k]).split == is_oversized(r@[k].artifacts@.len()),
        forall|k: int|
            0 <= k < r@.len() ==> (#[trigger] r@[k]).split == (r@[k].artifacts@.len()
                > CLUSTER_SPLIT_THRESHOLD),
{
    let groups = group_by_label(artifact_indices, comp_labels);
    let ghost sets = contents(groups@);
    let ghost keep = is_large(sets);
    let mut r: Vec<WorkCluster> = Vec::new();
    let mut g: usize = 0;
    assert(members(r@) =~= select(sets, keep, 0));
    while g < groups.len()
        invariant
            g <= groups@.len(),
            sets == contents(groups@),
            keep == is_large(sets),
            members(r@) == select(sets, keep, g as int),
            forall|k: int|
                0 <= k < r@.len() ==> (#[trigger] r@[k]).split == (r@[k].artifacts@.len()
                    > CLUSTER_SPLIT_THRESHOLD),
        decreases groups.len() - g,
    {
        let size = groups[g].len();
        assert(sets[g as int] == groups@[g as int]@);
        assert(keep(g as int) == (size >= 3));
        if size >= 3 {
            let ghost before = members(r@);
            r.push(
                WorkCluster {
                    artifacts: copy_ids(&groups[g]),
                    split: size > CLUSTER_SPLIT_THRESHOLD,
                },
            );
            assert(members(r@) =~= before.push(sets[g as int]));
        }
        g = g + 1;
    }
    r
}

/// A cell of the grid over a cluster.
#[derive(Clone, Copy, PartialEq, Eq, Structural, Debug)]
pub struct Cell {
    pub row: usize,
    pub col: usize,
}

/// A grid over the centroids of a cluster: how far they spread, how many rows and
/// columns the grid should have, and the cell of each centroid, for the artifacts
/// that have one.
#[derive(Debug)]
pub struct Grid {
    pub range_x: Measure,
    pub range_y: Measure,
    pub n_cells: usize,
    pub places: Vec<Option<Cell>>,
}

/// A row or column, at most the last of the grid.
pub open spec fn clamped(k: usize, n_cells: usize) -> usize {
    let n = if n_cells < 2 {
        2
    } else {
        n_cells
    };
    if k < n {
        k
    } else {
        (n - 1) as usize
    }
}

impl Grid {
    /// The centroids spread in both directions.
    pub open spec fn spreads(&self) -> bool {
        !self.range_x.at_most(Measure { bits: 0 }) && !self.range_y.at_most(Measure { bits: 0 })
    }

    /// The cells of the artifacts, within the grid.
    pub open spec fn cells(&self) -> Seq<Option<Cell>> {
        Seq::new(
            self.places@.len(),
            |k: int|
                match self.places@[k] {
                    Some(cell) => Some(
                        Cell {
                            row: clamped(cell.row, self.n_cells),
                            col: clamped(cell.col, self.n_cells),
                        },
                    ),
                    None => None,
                },
        )
    }
}

/// The cells that the first `n` artifacts are in, in the order in which they
/// first occur.
pub open spec fn used(places: Seq<Option<Cell>>, n: int) -> Seq<Cell>
    decreases n,
{
    if n <= 0 {
        Seq::empty()
    } else {
        let rest = used(places, n - 1);
        match places[n - 1] {
            Some(cell) => if rest.contains(cell) {
                rest
            } else {
                rest.push(cell)
            },
            None => rest,
        }
    }
}

/// The artifacts that are in the cell.
pub open spec fn is_in(places: Seq<Option<Cell>>, cell: Cell) -> spec_fn(int) -> bool {
    |k: int| places[k] == Some(cell)
}

/// What the cells hold of the first `n` artifacts of the cluster.
pub open spec fn filled(
    cluster: Seq<usize>,
    places: Seq<Option<Cell>>,
    at: Seq<Cell>,
    n: int,
) -> Seq<Seq<usize>> {
    Seq::new(at.len(), |g: int| select(cluster, is_in(places, at[g]), n))
}

/// The artifacts of the cluster by cell.
pub open spec fn by_cell(cluster: Seq<usize>, places: Seq<Option<Cell>>) -> Seq<Seq<usize>> {
    filled(cluster, places, used(places, cluster.len() as int), cluster.len() as int)
}

/// The parts that are large enough to stand alone.
pub open spec fn large(parts: Seq<Seq<usize>>) -> Seq<Seq<usize>> {
    select(parts, is_large(parts), parts.len() as int)
}

/// The artifacts of the other ones of the first `n` parts.
pub open spec fn orphans(parts: Seq<Seq<usize>>, n: int) -> Seq<usize>
    decreases n,
{
    if n <= 0 {
        Seq::empty()
    } else if is_large(parts)(n - 1) {
        orphans(parts, n - 1)
    } else {
        orphans(parts, n - 1) + parts[n - 1]
    }
}

/// A cluster in parts: those large enough to stand alone, and the artifacts that
/// are left.
#[derive(Debug)]
pub struct Parts {
    pub large: Vec<Vec<usize>>,
    pub orphans: Vec<usize>,
}

fn clamp(k: usize, n_cells: usize) -> (r: usize)
    ensures
        r == clamped(k, n_cells),
{
    let n: usize = if n_cells < 2 {
        2
    } else {
        n_cells
    };
    if k < n {
        k
    } else {
        n - 1
    }
}

fn find_cell(at: &Vec<Cell>, cell: Cell) -> (r: Option<usize>)
    ensures
        match r {
            Some(g) => g < at@.len() && at@[g as int] == cell,
            None => !at@.contains(cell),
        },
{
    let mut g: usize = 0;
    while g < at.len()
        invariant
            g <= at@.len(),
            forall|h: int| 0 <= h < g ==> at@[h] != cell,
        decreases at.len() - g,
    {
        if at[g] == cell {
            return Some(g);
        }
        g = g + 1;
    }
    None
}

pub(crate) proof fn used_once(places: Seq<Option<Cell>>, n: int)
    requires
        0 <= n <= places.len(),
    ensures
        used(places, n).no_duplicates(),
        forall|k: int|
            0 <= k < n && (#[trigger] places[k]) is Some ==> used(places, n).contains(places[k]->0),
        forall|c: Cell| #[trigger]
            used(places, n).contains(c) ==> exists|k: int| 0 <= k < n && places[k] == Some(c),
    decreases n,
{
    if n > 0 {
        used_once(places, n - 1);
        let rest = used(places, n - 1);
        let all = used(places, n);
        assert forall|k: int| 0 <= k < n && (#[trigger] places[k]) is Some implies all.contains(
            places[k]->0,
        ) by {
            if k < n - 1 {
                let g = choose|g: int| 0 <= g < rest.len() && rest[g] == places[k]->0;
                assert(all[g] == places[k]->0);
            } else if !rest.contains(places[k]->0) {
                assert(all[rest.len() as int] == places[k]->0);
            }
        }
        assert forall|c: Cell| #[trigger] all.contains(c) implies exists|k: int|
            0 <= k < n && places[k] == Some(c) by {
            let g = choose|g: int| 0 <= g < all.len() && all[g] == c;
            if g < rest.len() {
                assert(rest[g] == c);
                assert(rest.contains(c));
                let k = choose|k: int| 0 <= k < n - 1 && places[k] == Some(c);
                assert(0 <= k < n && places[k] == Some(c));
            } else {
                assert(places[n - 1] == Some(c));
            }
        }
    }
}

proof fn select_nothing<T>(s: Seq<T>, keep: spec_fn(int) -> bool, n: int)
    requires
        forall|k: int| 0 <= k < n ==> !(#[trigger] keep(k)),
    ensures
        select(s, keep, n) == Seq::<T>::empty(),
    decreases n,
{
    if n > 0 {
        select_nothing(s, keep, n - 1);
    }
}

/// Sorts the artifacts of a cluster into the cells of the grid.
fn fill_cells(cluster: &Vec<usize>, grid: &Grid) -> (r: Vec<Vec<usize>>)
    requires
        grid.places@.len() == cluster@.len(),
    ensures
        contents(r@) == by_cell(cluster@, grid.cells()),
{
    let ghost places = grid.cells();
    let mut at: Vec<Cell> = Vec::new();
    let mut r: Vec<Vec<usize>> = Vec::new();
    assert(contents(r@) =~= filled(cluster@, places, at@, 0));
    let mut k: usize = 0;
    while k < cluster.len()
        invariant
            k <= cluster@.len(),
            grid.places@.len() == cluster@.len(),
            places == grid.cells(),
            at@ == used(places, k as int),
            contents(r@) == filled(cluster@, places, at@, k as int),
        decreases cluster.len() - k,
    {
        proof {
            used_once(places, k as int);
        }
        let ghost before = contents(r@);
        assert(r@.len() == at@.len()) by {
            assert(before.len() == at@.len());
        }
        match grid.places[k] {
            Some(raw) => {
                let cell = Cell {
                    row: clamp(raw.row, grid.n_cells),
                    col: clamp(raw.col, grid.n_cells),
                };
                assert(places[k as int] == Some(cell));
                match find_cell(&at, cell) {
                    Some(slot) => {
                        let ghost lists = r@;
                        let mut held: Vec<usize> = Vec::new();
                        std::mem::swap(&mut held, &mut r[slot]);
                        held.push(cluster[k]);
                        std::mem::swap(&mut held, &mut r[slot]);
                        assert(at@.contains(cell));
                        assert forall|g: int| 0 <= g < r@.len() implies contents(r@)[g] == filled(
                            cluster@,
                            places,
                            at@,
                            k + 1,
                        )[g] by {
                            assert(before[g] == lists[g]@);
                            assert(before[g] == select(
                                cluster@,
                                is_in(places, at@[g]),
                                k as int,
                            ));
                            assert(is_in(places, at@[g])(k as int) <==> at@[g] == cell);
                        }
                    },
                    None => {
                        let ghost lists = r@;
                        let ghost old_at = at@;
                        let mut held: Vec<usize> = Vec::new();
                        held.push(cluster[k]);
                        at.push(cell);
                        r.push(held);
                        assert forall|g: int| 0 <= g < r@.len() implies contents(r@)[g] == filled(
                            cluster@,
                            places,
                            at@,
                            k + 1,
                        )[g] by {
                            if g < lists.len() {
                                assert(before[g] == lists[g]@);
                                assert(before[g] == select(
                                    cluster@,
                                    is_in(places, old_at[g]),
                                    k as int,
                                ));
                                assert(old_at[g] != cell);
                                assert(!is_in(places, at@[g])(k as int));
                            } else {
                                let keep = is_in(places, cell);
                                assert forall|j: int| 0 <= j < k implies !(#[trigger] keep(j)) by {
                                    if places[j] == Some(cell) {
                                        assert(places[j] is Some);
                                        assert(old_at.contains(cell));
                                    }
                                }
                                select_nothing(cluster@, keep, k as int);
                                assert(keep(k as int));
                                assert(contents(r@)[g] =~= seq![cluster@[k as int]]);
                            }
                        }
                    },
                }
                assert(contents(r@) =~= filled(cluster@, places, at@, k + 1));
            },
            None => {
                assert(places[k as int] is None);
                assert forall|g: int| 0 <= g < r@.len() implies before[g] == filled(
                    cluster@,
                    places,
                    at@,
                    k + 1,
                )[g] by {
                    assert(!is_in(places, at@[g])(k as int));
                }
                assert(contents(r@) =~= filled(cluster@, places, at@, k + 1));
            },
        }
        k = k + 1;
    }
    r
}

/// Splits a cluster along the grid. None where the centroids do not spread, or
/// where no cell holds enough artifacts.
pub fn split_by_grid(cluster: &Vec<usize>, grid: &Grid) -> (r: Option<Parts>)
    requires
        grid.places@.len() == cluster@.len(),
    ensures
        ({
            let parts = by_cell(cluster@, grid.cells());
            match r {
                Some(split) => {
                    &&& grid.spreads()
                    &&& large(parts).len() > 0
                    &&& contents(split.large@) == large(parts)
                    &&& split.orphans@ == orphans(parts, parts.len() as int)
                },
                None => !grid.spreads() || large(parts).len() == 0,
            }
        }),
{
    let zero = Measure::from_bits(0);
    if grid.range_x.le(&zero) || grid.range_y.le(&zero) {
        return None;
    }
    let cells = fill_cells(cluster, grid);
    let ghost parts = contents(cells@);
    let ghost keep = is_large(parts);
    let mut big: Vec<Vec<usize>> = Vec::new();
    let mut rest: Vec<usize> = Vec::new();
    assert(contents(big@) =~= select(parts, keep, 0));
    let mut g: usize = 0;
    while g < cells.len()
        invariant
            g <= cells@.len(),
            parts == contents(cells@),
            keep == is_large(parts),
            contents(big@) == select(parts, keep, g as int),
            rest@ == orphans(parts, g as int),
        decreases cells.len() - g,
    {
        assert(parts[g as int] == cells@[g as int]@);
        assert(keep(g as int) == (cells@[g as int]@.len() >= 3));
        if cells[g].len() >= 3 {
            let ghost before = contents(big@);
            big.push(copy_ids(&cells[g]));
            assert(contents(big@) =~= before.push(parts[g as int]));
        } else {
            append_ids(&mut rest, &cells[g]);
        }
        g = g + 1;
    }
    assert(contents(big@).len() == big@.len());
    if big.len() == 0 {
        return None;
    }
    Some(Parts { large: big, orphans: rest })
}

/// The orphans that are nearest to the part `g` of `n`.
pub open spec fn is_nearest_to(distances: Seq<Vec<Measure>>, n: int, g: int) -> spec_fn(
    int,
) -> bool {
    |k: int| nearest(distances[k]@, n) == g
}

/// The large parts, each with the first `n` orphans that are nearest to it.
pub open spec fn joined(
    parts: Seq<Seq<usize>>,
    left: Seq<usize>,
    distances: Seq<Vec<Measure>>,
    n: int,
) -> Seq<Seq<usize>> {
    Seq::new(
        parts.len(),
        |g: int| parts[g] + select(left, is_nearest_to(distances, parts.len() as int, g), n),
    )
}

/// The artifacts that have no cell.
pub open spec fn is_unplaced(places: Seq<Option<Cell>>) -> spec_fn(int) -> bool {
    |k: int| places[k] is None
}

/// The artifacts of the cluster that have no cell.
pub open spec fn unplaced(cluster: Seq<usize>, places: Seq<Option<Cell>>) -> Seq<usize> {
    select(cluster, is_unplaced(places), cluster.len() as int)
}

/// The parts with more artifacts in the first one.
pub open spec fn with_first(parts: Seq<Seq<usize>>, more: Seq<usize>) -> Seq<Seq<usize>> {
    parts.update(0, parts[0] + more)
}

/// The parts that a cluster is split into: the cells that hold at least three
/// artifacts, the other artifacts with the nearest of these, those without a cell
/// with the first of them; or all of it where it cannot be split.
pub open spec fn split_parts(
    cluster: Seq<usize>,
    grid: Grid,
    distances: Seq<Vec<Measure>>,
) -> Seq<Seq<usize>> {
    let parts = by_cell(cluster, grid.cells());
    if grid.spreads() && large(parts).len() > 0 {
        let left = orphans(parts, parts.len() as int);
        with_first(
            joined(large(parts), left, distances, left.len() as int),
            unplaced(cluster, grid.cells()),
        )
    } else {
        seq![cluster]
    }
}

fn list_unplaced(cluster: &Vec<usize>, grid: &Grid) -> (r: Vec<usize>)
    requires
        grid.places@.len() == cluster@.len(),
    ensures
        r@ == unplaced(cluster@, grid.cells()),
{
    let ghost keep = is_unplaced(grid.cells());
    let mut r: Vec<usize> = Vec::new();
    let mut k: usize = 0;
    while k < cluster.len()
        invariant
            k <= cluster@.len(),
            grid.places@.len() == cluster@.len(),
            keep == is_unplaced(grid.cells()),
            r@ == select(cluster@, keep, k as int),
        decreases cluster.len() - k,
    {
        let none = grid.places[k].is_none();
        assert(keep(k as int) == none);
        if none {
            r.push(cluster[k]);
        }
        k = k + 1;
    }
    r
}

/// Splits a large cluster along a grid. `distances` holds how far each artifact
/// outside the large cells is from the first artifact of each large cell, both as
/// `split_by_grid` lists them.
pub fn split_cluster_spatially(
    cluster: &Vec<usize>,
    grid: &Grid,
    distances: &Vec<Vec<Measure>>,
) -> (r: Vec<Vec<usize>>)
    requires
        grid.places@.len() == cluster@.len(),
        ({
            let parts = by_cell(cluster@, grid.cells());
            grid.spreads() && large(parts).len() > 0 ==> {
                &&& distances@.len() == orphans(parts, parts.len() as int).len()
                &&& forall|k: int|
                    0 <= k < distances@.len() ==> (#[trigger] distances@[k])@.len() == large(
                        parts,
                    ).len()
            }
        }),
    ensures
        contents(r@) == split_parts(cluster@, *grid, distances@),
{
    let ghost whole = by_cell(cluster@, grid.cells());
    let split = match split_by_grid(cluster, grid) {
        Some(split) => split,
        None => {
            let mut r: Vec<Vec<usize>> = Vec::new();
            r.push(copy_ids(cluster));
            assert(contents(r@) =~= seq![cluster@]);
            return r;
        },
    };
    let ghost big = contents(split.large@);
    let left = split.orphans;
    let mut r = split.large;
    let n = r.len();
    assert(big.len() == n);
    assert(contents(r@) =~= joined(big, left@, distances@, 0));
    let mut k: usize = 0;
    while k < left.len()
        invariant
            k <= left@.len(),
            n == big.len(),
            n > 0,
            r@.len() == n,
            distances@.len() == left@.len(),
            forall|j: int| 0 <= j < distances@.len() ==> (#[trigger] distances@[j])@.len() == n,
            contents(r@) == joined(big, left@, distances@, k as int),
        decreases left.len() - k,
    {
        assert(distances@[k as int]@.len() == n);
        let slot: usize = match find_closest(&distances[k], n) {
            Some(g) => g,
            None => 0,
        };
        assert(slot == nearest(distances@[k as int]@, n as int));
        let ghost lists = r@;
        let mut held: Vec<usize> = Vec::new();
        std::mem::swap(&mut held, &mut r[slot]);
        held.push(left[k]);
        std::mem::swap(&mut held, &mut r[slot]);
        assert forall|g: int| 0 <= g < n implies contents(r@)[g] == joined(
            big,
            left@,
            distances@,
            k + 1,
        )[g] by {
            assert(contents(lists)[g] == lists[g]@);
            assert(is_nearest_to(distances@, n as int, g)(k as int) <==> g == slot);
            assert(contents(r@)[g] =~= joined(big, left@, distances@, k + 1)[g]);
        }
        assert(contents(r@) =~= joined(big, left@, distances@, k + 1));
        k = k + 1;
    }
    let rest = list_unplaced(cluster, grid);
    let ghost lists = r@;
    let mut held: Vec<usize> = Vec::new();
    std::mem::swap(&mut held, &mut r[0]);
    append_ids(&mut held, &rest);
    std::mem::swap(&mut held, &mut r[0]);
    assert(contents(r@) =~= with_first(contents(lists), rest@)) by {
        assert(contents(lists)[0] == lists[0]@);
    }
    r
}

/// All artifacts of the first `m` parts.
pub open spec fn pooled(parts: Seq<Seq<usize>>, m: int) -> Multiset<usize>
    decreases m,
{
    if m <= 0 {
        Multiset::empty()
    } else {
        pooled(parts, m - 1).add(parts[m - 1].to_multiset())
    }
}

/// The artifacts that have a cell.
pub open spec fn is_placed(places: Seq<Option<Cell>>) -> spec_fn(int) -> bool {
    |k: int| places[k] is Some
}

proof fn pooled_alike(a: Seq<Seq<usize>>, b: Seq<Seq<usize>>, m: int)
    requires
        forall|g: int| 0 <= g < m ==> #[trigger] a[g] == b[g],
    ensures
        pooled(a, m) == pooled(b, m),
    decreases m,
{
    if m > 0 {
        pooled_alike(a, b, m - 1);
        assert(a[m - 1] == b[m - 1]);
    }
}

proof fn pooled_grows(a: Seq<Seq<usize>>, b: Seq<Seq<usize>>, at: int, x: usize, m: int)
    requires
        0 <= at < a.len(),
        a.len() == b.len(),
        0 <= m <= a.len(),
        forall|g: int| 0 <= g < a.len() && g != at ==> #[trigger] a[g] == b[g],
        b[at] == a[at].push(x),
    ensures
        pooled(b, m) == (if at < m {
            pooled(a, m).insert(x)
        } else {
            pooled(a, m)
        }),
    decreases m,
{
    broadcast use vstd::seq_lib::group_to_multiset_ensures;

    if m > 0 {
        pooled_grows(a, b, at, x, m - 1);
        if at == m - 1 {
            assert(pooled(b, m) =~= pooled(a, m).insert(x));
        } else {
            assert(a[m - 1] == b[m - 1]);
            if at < m {
                assert(pooled(b, m) =~= pooled(a, m).insert(x));
            }
        }
    }
}

proof fn cells_pool(cluster: Seq<usize>, places: Seq<Option<Cell>>, n: int)
    requires
        places.len() == cluster.len(),
        0 <= n <= cluster.len(),
    ensures
        ({
            let at = used(places, cluster.len() as int);
            pooled(filled(cluster, places, at, n), at.len() as int) == select(
                cluster,
                is_placed(places),
                n,
            ).to_multiset()
        }),
    decreases n,
{
    broadcast use vstd::seq_lib::group_to_multiset_ensures;

    let at = used(places, cluster.len() as int);
    let full = filled(cluster, places, at, n);
    let m = at.len() as int;
    used_once(places, cluster.len() as int);
    if n == 0 {
        cells_start_empty(cluster, places, at, m);
        assert(select(cluster, is_placed(places), 0) =~= Seq::<usize>::empty());
        assert(Seq::<usize>::empty().to_multiset() =~= Multiset::<usize>::empty());
    } else {
        cells_pool(cluster, places, n - 1);
        let less = filled(cluster, places, at, n - 1);
        match places[n - 1] {
            Some(cell) => {
                assert(places[n - 1] is Some);
                assert(at.contains(cell));
                let g0 = choose|g: int| 0 <= g < at.len() && at[g] == cell;
                assert forall|g: int| 0 <= g < less.len() && g != g0 implies #[trigger] less[g]
                    == full[g] by {
                    assert(at[g] != at[g0]);
                    assert(!is_in(places, at[g])(n - 1));
                }
                assert(is_in(places, at[g0])(n - 1));
                assert(full[g0] == less[g0].push(cluster[n - 1]));
                pooled_grows(less, full, g0, cluster[n - 1], m);
                assert(is_placed(places)(n - 1));
            },
            None => {
                assert forall|g: int| 0 <= g < m implies #[trigger] less[g] == full[g] by {
                    assert(!is_in(places, at[g])(n - 1));
                }
                pooled_alike(less, full, m);
                assert(!is_placed(places)(n - 1));
            },
        }
    }
}

proof fn cells_start_empty(
    cluster: Seq<usize>,
    places: Seq<Option<Cell>>,
    at: Seq<Cell>,
    m: int,
)
    requires
        0 <= m <= at.len(),
    ensures
        pooled(filled(cluster, places, at, 0), m) == Multiset::<usize>::empty(),
    decreases m,
{
    broadcast use vstd::seq_lib::group_to_multiset_ensures;

    if m > 0 {
        cells_start_empty(cluster, places, at, m - 1);
        assert(filled(cluster, places, at, 0)[m - 1] =~= Seq::<usize>::empty());
        assert(Seq::<usize>::empty().to_multiset() =~= Multiset::<usize>::empty());
        assert(pooled(filled(cluster, places, at, 0), m) =~= Multiset::<usize>::empty());
    }
}

proof fn parts_pool(parts: Seq<Seq<usize>>, m: int)
    requires
        0 <= m <= parts.len(),
    ensures
        ({
            let big = select(parts, is_large(parts), m);
            pooled(parts, m) == pooled(big, big.len() as int).add(orphans(parts, m).to_multiset())
        }),
    decreases m,
{
    broadcast use vstd::seq_lib::group_to_multiset_ensures;

    if m == 0 {
        assert(Seq::<usize>::empty().to_multiset() =~= Multiset::<usize>::empty());
        assert(pooled(parts, 0) =~= Multiset::<usize>::empty().add(Multiset::empty()));
    } else {
        parts_pool(parts, m - 1);
        let less = select(parts, is_large(parts), m - 1);
        let big = select(parts, is_large(parts), m);
        let left = orphans(parts, m - 1);
        if is_large(parts)(m - 1) {
            pooled_alike(less, big, less.len() as int);
            assert(pooled(parts, m) =~= pooled(big, big.len() as int).add(
                orphans(parts, m).to_multiset(),
            ));
        } else {
            vstd::seq_lib::lemma_multiset_commutative(left, parts[m - 1]);
            assert(pooled(parts, m) =~= pooled(big, big.len() as int).add(
                orphans(parts, m).to_multiset(),
            ));
        }
    }
}

proof fn joined_pool(
    parts: Seq<Seq<usize>>,
    left: Seq<usize>,
    distances: Seq<Vec<Measure>>,
    n: int,
)
    requires
        parts.len() > 0,
        0 <= n <= left.len(),
        distances.len() == left.len(),
        forall|k: int|
            0 <= k < distances.len() ==> (#[trigger] distances[k])@.len() == parts.len(),
    ensures
        pooled(joined(parts, left, distances, n), parts.len() as int) == pooled(
            parts,
            parts.len() as int,
        ).add(left.take(n).to_multiset()),
    decreases n,
{
    broadcast use vstd::seq_lib::group_to_multiset_ensures;

    let m = parts.len() as int;
    if n == 0 {
        assert forall|g: int| 0 <= g < m implies #[trigger] joined(parts, left, distances, 0)[g]
            == parts[g] by {
            assert(joined(parts, left, distances, 0)[g] =~= parts[g]);
        }
        pooled_alike(joined(parts, left, distances, 0), parts, m);
        assert(left.take(0) =~= Seq::<usize>::empty());
        assert(Seq::<usize>::empty().to_multiset() =~= Multiset::<usize>::empty());
        assert(pooled(parts, m) =~= pooled(parts, m).add(Multiset::empty()));
    } else {
        joined_pool(parts, left, distances, n - 1);
        let less = joined(parts, left, distances, n - 1);
        let more = joined(parts, left, distances, n);
        assert(distances[n - 1]@.len() == parts.len());
        let slot = nearest(distances[n - 1]@, m);
        closest_is_least(distances[n - 1]@, m);
        assert forall|g: int| 0 <= g < less.len() && g != slot implies #[trigger] less[g]
            == more[g] by {
            assert(!is_nearest_to(distances, m, g)(n - 1));
        }
        assert(is_nearest_to(distances, m, slot)(n - 1));
        assert(more[slot] =~= less[slot].push(left[n - 1]));
        pooled_grows(less, more, slot, left[n - 1], m);
        assert(left.take(n) =~= left.take(n - 1).push(left[n - 1]));
        assert(pooled(more, m) =~= pooled(parts, m).add(left.take(n).to_multiset()));
    }
}

proof fn placed_or_not(cluster: Seq<usize>, places: Seq<Option<Cell>>, n: int)
    requires
        0 <= n <= cluster.len(),
    ensures
        select(cluster, is_placed(places), n).to_multiset().add(
            select(cluster, is_unplaced(places), n).to_multiset(),
        ) == cluster.take(n).to_multiset(),
    decreases n,
{
    broadcast use vstd::seq_lib::group_to_multiset_ensures;

    let placed = select(cluster, is_placed(places), n).to_multiset();
    let rest = select(cluster, is_unplaced(places), n).to_multiset();
    if n == 0 {
        assert(cluster.take(0) =~= Seq::<usize>::empty());
        assert(Seq::<usize>::empty().to_multiset() =~= Multiset::<usize>::empty());
        assert(placed.add(rest) =~= Multiset::<usize>::empty());
    } else {
        placed_or_not(cluster, places, n - 1);
        assert(cluster.take(n) =~= cluster.take(n - 1).push(cluster[n - 1]));
        assert(is_placed(places)(n - 1) != is_unplaced(places)(n - 1));
        assert(placed.add(rest) =~= cluster.take(n).to_multiset());
    }
}

proof fn first_pools(parts: Seq<Seq<usize>>, more: Seq<usize>, m: int)
    requires
        1 <= m <= parts.len(),
    ensures
        pooled(with_first(parts, more), m) == pooled(parts, m).add(more.to_multiset()),
    decreases m,
{
    let wider = with_first(parts, more);
    if m == 1 {
        vstd::seq_lib::lemma_multiset_commutative(parts[0], more);
        assert(pooled(wider, 0) == pooled(parts, 0));
        assert(wider[0] == parts[0] + more);
    } else {
        first_pools(parts, more, m - 1);
        assert(wider[m - 1] == parts[m - 1]);
    }
    assert(pooled(wider, m) =~= pooled(parts, m).add(more.to_multiset()));
}

/// Splitting a cluster keeps every artifact, as often as it was there: no part takes
/// or loses one.
pub proof fn splitting_keeps_all(cluster: Seq<usize>, grid: Grid, distances: Seq<Vec<Measure>>)
    requires
        grid.places@.len() == cluster.len(),
        ({
            let parts = by_cell(cluster, grid.cells());
            grid.spreads() && large(parts).len() > 0 ==> {
                &&& distances.len() == orphans(parts, parts.len() as int).len()
                &&& forall|k: int|
                    0 <= k < distances.len() ==> (#[trigger] distances[k])@.len() == large(
                        parts,
                    ).len()
            }
        }),
    ensures
        ({
            let parts = split_parts(cluster, grid, distances);
            pooled(parts, parts.len() as int) == cluster.to_multiset()
        }),
{
    broadcast use vstd::seq_lib::group_to_multiset_ensures;

    let places = grid.cells();
    let n = cluster.len() as int;
    let whole = by_cell(cluster, places);
    let parts = split_parts(cluster, grid, distances);
    if grid.spreads() && large(whole).len() > 0 {
        let left = orphans(whole, whole.len() as int);
        let full = joined(large(whole), left, distances, left.len() as int);
        cells_pool(cluster, places, n);
        parts_pool(whole, whole.len() as int);
        joined_pool(large(whole), left, distances, left.len() as int);
        first_pools(full, unplaced(cluster, places), full.len() as int);
        placed_or_not(cluster, places, n);
        assert(left.take(left.len() as int) =~= left);
        assert(cluster.take(n) =~= cluster);
    } else {
        assert(parts[0] == cluster);
        assert(pooled(parts, 1) =~= pooled(parts, 0).add(cluster.to_multiset()));
        assert(pooled(parts, 1) =~= cluster.to_multiset());
    }
}

/// A cluster that is split falls into parts of at least three artifacts.
pub proof fn parts_are_large(
    cluster: Seq<usize>,
    grid: Grid,
    distances: Seq<Vec<Measure>>,
    g: int,
)
    requires
        grid.spreads(),
        large(by_cell(cluster, grid.cells())).len() > 0,
        0 <= g < split_parts(cluster, grid, distances).len(),
    ensures
        split_parts(cluster, grid, distances)[g].len() >= 3,
{
    let whole = by_cell(cluster, grid.cells());
    select_holds_kept(whole, is_large(whole), whole.len() as int);
    let big = large(whole);
    assert(big.contains(big[g]));
    let k = choose|k: int| 0 <= k < whole.len() && is_large(whole)(k) && whole[k] == big[g];
    assert(whole[k].len() >= 3);
}

/// What a round of unions puts together: each polygon with the next one,
/// the last one alone where their number is odd.
pub open spec fn union_pair(n: int, k: int) -> (int, Option<int>) {
    (2 * k, if 2 * k + 1 < n {
        Some(2 * k + 1)
    } else {
        None
    })
}

/// What a round of unions of `n` polygons puts together.
pub open spec fn union_round(n: int) -> Seq<(int, Option<int>)> {
    Seq::new((n / 2 + n % 2) as nat, |k: int| union_pair(n, k))
}

/// The unions of one round of a cascaded union of `n` polygons.
pub fn cascaded_union(n: usize) -> (r: Vec<(usize, Option<usize>)>)
    ensures
        r@.len() == union_round(n as int).len(),
        forall|k: int|
            0 <= k < r@.len() ==> {
                let (first, second) = #[trigger] r@[k];
                (first as int, match second {
                    Some(other) => Some(other as int),
                    None => None,
                }) == union_round(n as int)[k]
            },
        r@.len() == n / 2 + n % 2,
        forall|k: int|
            0 <= k < r@.len() ==> {
                let (first, second) = #[trigger] r@[k];
                (first as int, match second {
                    Some(other) => Some(other as int),
                    None => None,
                }) == union_pair(n as int, k)
            },
{
    let mut r: Vec<(usize, Option<usize>)> = Vec::new();
    let mut i: usize = 0;
    while n - i >= 2
        invariant
            i <= n,
            i == 2 * r@.len(),
            forall|k: int|
                0 <= k < r@.len() ==> {
                    let (first, second) = #[trigger] r@[k];
                    (first as int, match second {
                        Some(other) => Some(other as int),
                        None => None,
                    }) == union_pair(n as int, k)
                },
        decreases n - i,
    {
        r.push((i, Some(i + 1)));
        i = i + 2;
    }
    if i < n {
        r.push((i, None));
    }
    r
}

/// In a round of unions every polygon is used once, and fewer polygons are left as
/// long as there are several.
pub proof fn unions_use_all(n: int, i: int)
    requires
        0 <= i < n,
    ensures
        ({
            let (first, second) = union_pair(n, i / 2);
            0 <= i / 2 < n / 2 + n % 2 && (first == i || second == Some(i))
        }),
        forall|k: int|
            {
                let (first, second) = #[trigger] union_pair(n, k);
                (first == i || second == Some(i)) ==> k == i / 2
            },
        n >= 2 ==> n / 2 + n % 2 < n,
{
}

/// A merged cluster: the edges that it covers, those that cross its boundary, and
/// the sides that its ring is split into.
#[derive(Debug)]
pub struct ClusterCase {
    pub covered_edges: Vec<usize>,
    pub boundary_edges: Vec<usize>,
    pub ring_sides: Vec<LineString>,
}

/// The skeleton of a merged cluster: its lines, their length, that of the covered
/// edges and a tenth of the latter, the squared distance from each connection point
/// to each end of the lines, and the square of the tolerance for it.
#[derive(Debug)]
pub struct ClusterSkeleton {
    pub drawn: Vec<LineString>,
    pub length: Measure,
    pub covered_length: Measure,
    pub tenth_of_covered: Measure,
    pub end_distances: Vec<Vec<Measure>>,
    pub tolerance: Measure,
}

/// What to do with a merged cluster.
#[derive(Debug)]
pub enum ClusterStep {
    /// Leave its edges as they are.
    Leave,
    /// Draw a skeleton between the sides of the ring, with little clipped: they are
    /// on the boundary.
    Draw(Measure),
    /// Replace its edges.
    Replace(Changes),
}

/// What to do with a merged cluster, by what it changes.
#[verifier::ext_equal]
pub enum ClusterMove {
    Leave,
    Draw(Measure),
    Replace { drop: Seq<usize>, add: Seq<Seq<Coord>> },
}

impl View for ClusterStep {
    type V = ClusterMove;

    open spec fn view(&self) -> ClusterMove {
        match *self {
            ClusterStep::Leave => ClusterMove::Leave,
            ClusterStep::Draw(clip_limit) => ClusterMove::Draw(clip_limit),
            ClusterStep::Replace(changes) => ClusterMove::Replace {
                drop: changes.to_drop@,
                add: lines(changes.to_add@),
            },
        }
    }
}

/// The skeleton has collapsed: it is shorter than a tenth of what it replaces.
pub open spec fn collapsed(skeleton: ClusterSkeleton) -> bool {
    (Measure { bits: 0 }).below(skeleton.covered_length) && skeleton.length.below(
        skeleton.tenth_of_covered,
    )
}

/// An end of the skeleton is at the connection point.
pub open spec fn connected(to_ends: Seq<Measure>, tolerance: Measure) -> bool {
    exists|j: int| 0 <= j < to_ends.len() && (#[trigger] to_ends[j]).at_most(tolerance)
}

/// The skeleton would cut off a connection point.
pub open spec fn disconnects(skeleton: ClusterSkeleton) -> bool {
    exists|k: int|
        0 <= k < skeleton.end_distances@.len() && !connected(
            (#[trigger] skeleton.end_distances@[k])@,
            skeleton.tolerance,
        )
}

/// A skeleton can be drawn: there are edges to replace, connections, and at least
/// two sides.
pub open spec fn drawable(case: ClusterCase) -> bool {
    &&& case.covered_edges@.len() > 0
    &&& case.boundary_edges@.len() > 0
    &&& case.ring_sides@.len() >= 2
}

/// What is done with a merged cluster, given its skeleton once that is drawn.
pub open spec fn cluster_move(case: ClusterCase, skeleton: Option<ClusterSkeleton>) -> ClusterMove {
    if !drawable(case) {
        ClusterMove::Leave
    } else {
        match skeleton {
            None => ClusterMove::Draw(Measure { bits: ONE_TEN_THOUSANDTH }),
            Some(s) => if collapsed(s) || disconnects(s) {
                ClusterMove::Leave
            } else {
                ClusterMove::Replace { drop: case.covered_edges@, add: lines(s.drawn@) }
            },
        }
    }
}

fn is_connected(to_ends: &Vec<Measure>, tolerance: &Measure) -> (r: bool)
    ensures
        r == connected(to_ends@, *tolerance),
{
    let mut j: usize = 0;
    while j < to_ends.len()
        invariant
            j <= to_ends@.len(),
            forall|i: int| 0 <= i < j ==> !(#[trigger] to_ends@[i]).at_most(*tolerance),
        decreases to_ends.len() - j,
    {
        if to_ends[j].le(tolerance) {
            assert(to_ends@[j as int].at_most(*tolerance));
            return true;
        }
        j = j + 1;
    }
    false
}

fn is_disconnecting(skeleton: &ClusterSkeleton) -> (r: bool)
    ensures
        r == disconnects(*skeleton),
{
    let mut k: usize = 0;
    while k < skeleton.end_distances.len()
        invariant
            k <= skeleton.end_distances@.len(),
            forall|i: int|
                0 <= i < k ==> connected(
                    (#[trigger] skeleton.end_distances@[i])@,
                    skeleton.tolerance,
                ),
        decreases skeleton.end_distances.len() - k,
    {
        if !is_connected(&skeleton.end_distances[k], &skeleton.tolerance) {
            assert(!connected(skeleton.end_distances@[k as int]@, skeleton.tolerance));
            return true;
        }
        k = k + 1;
    }
    false
}

/// Simplifies a merged cluster. Its edges are replaced by a skeleton, unless none
/// can be drawn, it has collapsed, or it would cut off a connection.
pub fn process_cluster(case: &ClusterCase, skeleton: &Option<ClusterSkeleton>) -> (r: ClusterStep)
    ensures
        r@ == cluster_move(*case, *skeleton),
        match r {
            ClusterStep::Leave => !drawable(*case) || (skeleton matches Some(s) && (collapsed(*s)
                || disconnects(*s))),
            ClusterStep::Draw(clip_limit) => drawable(*case) && *skeleton is None && clip_limit.bits
                == ONE_TEN_THOUSANDTH,
            ClusterStep::Replace(changes) => drawable(*case) && (skeleton matches Some(s)
                && !collapsed(*s) && !disconnects(*s) && changes.to_drop@ == case.covered_edges@
                && lines(changes.to_add@) == lines(s.drawn@)),
        },
{
    if case.covered_edges.len() == 0 || case.boundary_edges.len() == 0 || case.ring_sides.len()
        < 2 {
        return ClusterStep::Leave;
    }
    match skeleton {
        None => ClusterStep::Draw(Measure::from_bits(ONE_TEN_THOUSANDTH)),
        Some(s) => {
            let zero = Measure::from_bits(0);
            if zero.lt(&s.covered_length) && s.length.lt(&s.tenth_of_covered) {
                return ClusterStep::Leave;
            }
            if is_disconnecting(s) {
                return ClusterStep::Leave;
            }
            ClusterStep::Replace(
                Changes { to_drop: copy_ids(&case.covered_edges), to_add: copy_lines(&s.drawn) },
            )
        },
    }
}

} // verus!
