//! Artifacts by connected component.
use crate::components::{
    all_below, carried, carrying, component_size, counts_fit_together, detected,
    every_artifact_once, group_is_component, grouped, is_clustered, is_large, is_paired, is_single,
    largest, occurs, sums_up, Detection, LoopPlan, LoopStage, NeatifyDiagnostics,
};
use crate::laws::selections::{lists_exactly, selection_lists};
use crate::lists::{occurrences, positions, positions_are_kept, select};
use crate::pairs::{component_groups, labels_of};
use vstd::prelude::*;

verus! {

/// The groups are those of the labels `keys`: these are the labels that occur, in
/// ascending order, and a group lists the indices that carry its label, in the order in
/// which they are given.
pub open spec fn grouped_by(
    groups: Seq<Seq<usize>>,
    indices: Seq<usize>,
    labels: Seq<usize>,
    keys: Seq<usize>,
) -> bool {
    &&& keys.len() == groups.len()
    &&& forall|g: int, h: int| 0 <= g < h < keys.len() ==> #[trigger] keys[g] < #[trigger] keys[h]
    &&& forall|l: usize| #[trigger]
        keys.contains(l) <==> exists|k: int|
            0 <= k < indices.len() && labels[#[trigger] indices[k] as int] == l
    &&& forall|g: int|
        0 <= g < groups.len() ==> lists_exactly(
            #[trigger] groups[g],
            indices,
            |k: int| labels[indices[k] as int] == keys[g],
        )
}

/// Indices are grouped by their labels.
pub proof fn groups_are_by_label(indices: Seq<usize>, labels: Seq<usize>)
    ensures
        exists|keys: Seq<usize>| #[trigger]
            grouped_by(grouped(indices, labels), indices, labels, keys),
{
    let keys = carried(indices, labels);
    let groups = grouped(indices, labels);
    positions_are_kept(occurs(indices, labels), usize::MAX + 1);
    assert forall|l: usize| #[trigger] keys.contains(l) <==> exists|k: int|
        0 <= k < indices.len() && labels[#[trigger] indices[k] as int] == l by {
        if keys.contains(l) {
            assert(occurs(indices, labels)(l as int));
            let k = choose|k: int|
                0 <= k < indices.len() && labels[#[trigger] indices[k] as int] == l as int;
            assert(labels[indices[k] as int] == l);
        }
        if exists|k: int| 0 <= k < indices.len() && labels[#[trigger] indices[k] as int] == l {
            let k = choose|k: int|
                0 <= k < indices.len() && labels[#[trigger] indices[k] as int] == l;
            assert(labels[indices[k] as int] == l as int);
            assert(occurs(indices, labels)(l as int));
        }
    }
    assert forall|g: int| 0 <= g < groups.len() implies lists_exactly(
        #[trigger] groups[g],
        indices,
        |k: int| labels[indices[k] as int] == keys[g],
    ) by {
        selection_lists(
            indices,
            carrying(indices, labels, keys[g]),
            |k: int| labels[indices[k] as int] == keys[g],
        );
    }
    assert(grouped_by(groups, indices, labels, keys));
}

/// The artifacts of a pass are grouped by the components that they belong to, by their
/// position in the pass.
pub proof fn artifacts_are_grouped_by_component(
    artifact_indices: Seq<usize>,
    comp_labels: Seq<usize>,
)
    requires
        artifact_indices.len() <= usize::MAX,
    ensures
        exists|keys: Seq<usize>, labels: Seq<usize>, all: Seq<usize>|
            {
                &&& #[trigger] grouped_by(
                    component_groups(artifact_indices, comp_labels),
                    all,
                    labels,
                    keys,
                )
                &&& all.len() == artifact_indices.len()
                &&& labels.len() == artifact_indices.len()
                &&& forall|k: int| 0 <= k < all.len() ==> #[trigger] all[k] == k
                &&& forall|k: int|
                    0 <= k < labels.len() ==> #[trigger] labels[k]
                        == comp_labels[artifact_indices[k] as int]
            },
{
    let all = all_below(artifact_indices.len());
    let labels = labels_of(artifact_indices, comp_labels);
    groups_are_by_label(all, labels);
    let groups = component_groups(artifact_indices, comp_labels);
    let keys = choose|keys: Seq<usize>| #[trigger] grouped_by(groups, all, labels, keys);
    assert(grouped_by(groups, all, labels, keys));
}

proof fn places_are_counted(s: Seq<usize>, x: usize, n: int)
    requires
        0 <= n <= s.len(),
    ensures
        occurrences(s, x, n) == positions(|k: int| s[k] == x, n).len(),
    decreases n,
{
    if n > 0 {
        places_are_counted(s, x, n - 1);
    }
}

/// An artifact is alone exactly when no other one carries its label, in a pair exactly when
/// one other does, and in a cluster exactly when at least two others do.
pub proof fn artifacts_are_sorted_by_company(labels: Seq<usize>, i: usize)
    requires
        i < labels.len() <= usize::MAX,
    ensures
        ({
            let n = labels.len() as int;
            let mate = |j: int| 0 <= j < n && j != i && labels[j] == labels[i as int];
            &&& positions(is_single(labels), n).contains(i) <==> forall|j: int|
                !(#[trigger] mate(j))
            &&& positions(is_paired(labels), n).contains(i) <==> exists|j: int|
                #[trigger] mate(j) && forall|m: int| #[trigger] mate(m) ==> m == j
            &&& positions(is_clustered(labels), n).contains(i) <==> exists|j: int, m: int|
                j != m && #[trigger] mate(j) && #[trigger] mate(m)
        }),
{
    let n = labels.len() as int;
    let x = labels[i as int];
    let same = |k: int| labels[k] == x;
    let mate = |j: int| 0 <= j < n && j != i && labels[j] == labels[i as int];
    positions_are_kept(is_single(labels), n);
    positions_are_kept(is_paired(labels), n);
    positions_are_kept(is_clustered(labels), n);
    positions_are_kept(same, n);
    places_are_counted(labels, x, n);
    let at = positions(same, n);
    assert(component_size(labels, i as int) == at.len());
    assert(at.contains(i));
    let p = choose|p: int| 0 <= p < at.len() && at[p] == i;
    assert forall|j: int| #[trigger] mate(j) implies exists|q: int|
        0 <= q < at.len() && q != p && at[q] == j by {
        assert(at.contains(j as usize));
        let q = choose|q: int| 0 <= q < at.len() && at[q] == j as usize;
        assert(q != p);
    }
    assert forall|q: int| 0 <= q < at.len() && q != p implies mate(#[trigger] at[q] as int) by {
        assert(at.contains(at[q]));
        if q < p {
            assert(at[q] < at[p]);
        } else {
            assert(at[p] < at[q]);
        }
    }
    if at.len() >= 2 {
        let q: int = if p == 0 {
            1
        } else {
            0
        };
        assert(mate(at[q] as int));
    }
    if at.len() >= 3 {
        let q: int = if p == 0 {
            1
        } else {
            0
        };
        let r: int = if p == 2 {
            1
        } else {
            2
        };
        assert(mate(at[q] as int) && mate(at[r] as int));
        assert(at[q] < at[r]);
    }
    if at.len() == 2 {
        let q: int = if p == 0 {
            1
        } else {
            0
        };
        assert forall|m: int| #[trigger] mate(m) implies m == at[q] as int by {
            let r = choose|r: int| 0 <= r < at.len() && r != p && at[r] == m;
            assert(r == q);
        }
    }
}

/// Each kind of artifacts is listed in ascending order, each artifact once.
pub proof fn artifacts_are_listed_in_order(labels: Seq<usize>)
    requires
        labels.len() <= usize::MAX,
    ensures
        ({
            let n = labels.len() as int;
            &&& crate::lists::strictly_ascending(positions(is_single(labels), n))
            &&& crate::lists::strictly_ascending(positions(is_paired(labels), n))
            &&& crate::lists::strictly_ascending(positions(is_clustered(labels), n))
        }),
{
    let n = labels.len() as int;
    positions_are_kept(is_single(labels), n);
    positions_are_kept(is_paired(labels), n);
    positions_are_kept(is_clustered(labels), n);
}

/// The groups that count as clusters are those of three artifacts or more, in order.
pub proof fn clusters_are_groups_of_three(groups: Seq<Seq<usize>>)
    ensures
        lists_exactly(
            select(groups, is_large(groups), groups.len() as int),
            groups,
            |g: int| groups[g].len() >= 3,
        ),
{
    selection_lists(groups, is_large(groups), |g: int| groups[g].len() >= 3);
}

/// The size of the largest cluster is that of a group of three or more, and no group is
/// larger; it is zero where all groups are smaller than three.
pub proof fn the_largest_cluster_is_largest(groups: Seq<Seq<usize>>, n: int)
    requires
        0 <= n <= groups.len(),
    ensures
        ({
            let size = largest(groups, n);
            &&& forall|g: int| 0 <= g < n && (#[trigger] groups[g]).len() >= 3 ==> groups[g].len() <= size
            &&& size > 0 ==> size >= 3 && exists|g: int|
                0 <= g < n && (#[trigger] groups[g]).len() == size
        }),
    decreases n,
{
    if n > 0 {
        the_largest_cluster_is_largest(groups, n - 1);
        let before = largest(groups, n - 1);
        if largest(groups, n) == before && before > 0 {
            let g = choose|g: int| 0 <= g < n - 1 && (#[trigger] groups[g]).len() == before;
            assert(0 <= g < n && groups[g].len() == before);
        } else if largest(groups, n) > 0 {
            assert(groups[n - 1].len() == largest(groups, n));
        }
    }
}

/// The counts of a dry run are those of the artifacts: each is counted once, alone, in a pair or in
/// a cluster; artifacts in pairs come in twos; a cluster holds three artifacts or more, and no
/// more than the largest.
pub proof fn a_dry_run_counts_every_artifact_once(
    d: NeatifyDiagnostics,
    detection: Option<Detection>,
)
    requires
        sums_up(d, detected(detection)),
    ensures
        d.n_artifacts == (match detection {
            Some(found) => found.comp_labels@.len(),
            None => 0,
        }),
        d.n_singles + d.n_pairs + d.n_cluster_artifacts == d.n_artifacts,
        d.n_pairs % 2 == 0,
        3 * d.n_cluster_groups <= d.n_cluster_artifacts,
        d.n_cluster_artifacts <= d.n_cluster_groups * d.max_cluster_size,
        d.max_cluster_size <= d.n_cluster_artifacts,
        d.n_cluster_artifacts > 0 ==> d.n_cluster_groups > 0 && d.max_cluster_size >= 3,
{
    let labels = detected(detection);
    let n = labels.len() as int;
    counts_fit_together(labels);
    if n > 0 {
        every_artifact_once(labels, 0);
    }
    let all = all_below(labels.len());
    let groups = grouped(all, labels);
    the_largest_cluster_is_largest(groups, groups.len() as int);
    if d.max_cluster_size > 0 {
        let g = choose|g: int|
            0 <= g < groups.len() && (#[trigger] groups[g]).len() == d.max_cluster_size;
        cluster_is_counted(labels, g);
    }
}

/// The artifacts of one cluster are counted among those in clusters.
proof fn cluster_is_counted(labels: Seq<usize>, g: int)
    requires
        labels.len() <= usize::MAX,
        0 <= g < grouped(all_below(labels.len()), labels).len(),
        grouped(all_below(labels.len()), labels)[g].len() >= 3,
    ensures
        grouped(all_below(labels.len()), labels)[g].len() <= positions(
            is_clustered(labels),
            labels.len() as int,
        ).len(),
{
    let n = labels.len() as int;
    let all = all_below(labels.len());
    let label = carried(all, labels)[g];
    group_is_component(labels, label, n);
    assert(occurrences(labels, label, n) >= 3);
    fewer_selected(all, labels, label, n);
}

proof fn fewer_selected(all: Seq<usize>, labels: Seq<usize>, label: usize, m: int)
    requires
        all == all_below(labels.len()),
        labels.len() <= usize::MAX,
        0 <= m <= labels.len(),
        occurrences(labels, label, labels.len() as int) >= 3,
    ensures
        select(all, carrying(all, labels, label), m).len() <= positions(
            is_clustered(labels),
            m,
        ).len(),
    decreases m,
{
    if m > 0 {
        fewer_selected(all, labels, label, m - 1);
        if carrying(all, labels, label)(m - 1) {
            assert(labels[m - 1] == label);
            assert(is_clustered(labels)(m - 1));
        }
    }
}

/// A pass has a stage for each kind of artifacts that occurs, and no other: first those that are
/// alone, then the pairs, then the clusters.
pub proof fn stages_are_those_that_are_needed(plan: LoopPlan)
    ensures
        ({
            let stages = plan.in_stages();
            &&& stages.contains(LoopStage::Singletons) <==> plan.singles@.len() > 0
            &&& stages.contains(LoopStage::Pairs) <==> plan.pairs@.len() > 0
            &&& stages.contains(LoopStage::Clusters) <==> plan.clusters@.len() > 0
            &&& stages.no_duplicates()
            &&& forall|i: int, j: int|
                0 <= i < j < stages.len() ==> #[trigger] stages[j] != LoopStage::Singletons
                    && #[trigger] stages[i] != LoopStage::Clusters
        }),
{
    let stages = plan.in_stages();
    let s: int = if plan.singles@.len() > 0 {
        1
    } else {
        0
    };
    let p: int = if plan.pairs@.len() > 0 {
        1
    } else {
        0
    };
    if s == 1 {
        assert(stages[0] == LoopStage::Singletons);
    }
    if p == 1 {
        assert(stages[s] == LoopStage::Pairs);
    }
    if plan.clusters@.len() > 0 {
        assert(stages[s + p] == LoopStage::Clusters);
    }
}

} // verus!
