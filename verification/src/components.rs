//! Artifacts by connected component: alone, in pairs and in clusters.
use crate::lists::{
    occurrences, positions, positions_are_kept, select, select_holds_kept, sorted_distinct,
    strictly_ascending_is_unique,
};
use crate::measure::Measure;
use crate::types::{contents, NeatifyError};
use std::collections::HashMap;
use vstd::prelude::*;

verus! {

/// Whether one of the indices carries the label.
pub open spec fn occurs(indices: Seq<usize>, labels: Seq<usize>) -> spec_fn(int) -> bool {
    |label: int|
        exists|k: int| 0 <= k < indices.len() && labels[#[trigger] indices[k] as int] == label
}

/// The labels that the indices carry, in ascending order.
pub open spec fn carried(indices: Seq<usize>, labels: Seq<usize>) -> Seq<usize> {
    positions(occurs(indices, labels), usize::MAX + 1)
}

/// The positions of the indices that carry the label.
pub open spec fn carrying(indices: Seq<usize>, labels: Seq<usize>, label: usize) -> spec_fn(
    int,
) -> bool {
    |k: int| labels[indices[k] as int] == label
}

/// The indices, grouped by label: the groups in ascending order of their labels,
/// the indices of a group in the order given.
pub open spec fn grouped(indices: Seq<usize>, labels: Seq<usize>) -> Seq<Seq<usize>> {
    Seq::new(
        carried(indices, labels).len(),
        |g: int|
            select(
                indices,
                carrying(indices, labels, carried(indices, labels)[g]),
                indices.len() as int,
            ),
    )
}

/// Each index has a label.
pub open spec fn labelled(indices: Seq<usize>, labels: Seq<usize>) -> bool {
    forall|k: int| 0 <= k < indices.len() ==> #[trigger] indices[k] < labels.len()
}

/// Groups the indices by label.
pub fn group_by_label(indices: &Vec<usize>, labels: &Vec<usize>) -> (r: Vec<Vec<usize>>)
    requires
        labelled(indices@, labels@),
    ensures
        contents(r@) == grouped(indices@, labels@),
{
    broadcast use vstd::std_specs::hash::group_hash_axioms;

    let n = indices.len();
    let mut all: Vec<usize> = Vec::new();
    let mut k: usize = 0;
    while k < n
        invariant
            k <= n,
            n == indices@.len(),
            labelled(indices@, labels@),
            all@.len() == k,
            forall|j: int| 0 <= j < k ==> #[trigger] all@[j] == labels@[indices@[j] as int],
        decreases n - k,
    {
        assert(indices@[k as int] < labels@.len());
        all.push(labels[indices[k]]);
        k = k + 1;
    }
    let keys = sorted_distinct(&all);
    proof {
        positions_are_kept(occurs(indices@, labels@), usize::MAX + 1);
        let wanted = carried(indices@, labels@);
        assert forall|x: usize| keys@.contains(x) <==> wanted.contains(x) by {
            if all@.contains(x) {
                let j = choose|j: int| 0 <= j < all@.len() && all@[j] == x;
                assert(labels@[indices@[j] as int] == x);
                assert(occurs(indices@, labels@)(x as int));
            }
            if occurs(indices@, labels@)(x as int) {
                let j = choose|j: int|
                    0 <= j < indices@.len() && labels@[#[trigger] indices@[j] as int] == x as int;
                assert(all@[j] == x);
                assert(all@.contains(x));
            }
        }
        strictly_ascending_is_unique(keys@, wanted);
    }
    let mut slots: HashMap<usize, usize> = HashMap::new();
    let mut r: Vec<Vec<usize>> = Vec::new();
    let mut g: usize = 0;
    while g < keys.len()
        invariant
            g <= keys@.len(),
            crate::lists::strictly_ascending(keys@),
            r@.len() == g,
            forall|h: int| 0 <= h < g ==> (#[trigger] r@[h])@ == Seq::<usize>::empty(),
            forall|h: int| 0 <= h < g ==> slots@.contains_key(#[trigger] keys@[h]) && slots@[keys@[h]] == h,
        decreases keys.len() - g,
    {
        slots.insert(keys[g], g);
        r.push(Vec::new());
        g = g + 1;
    }
    k = 0;
    while k < n
        invariant
            k <= n,
            n == indices@.len(),
            labelled(indices@, labels@),
            keys@ == carried(indices@, labels@),
            forall|x: usize| keys@.contains(x) <==> all@.contains(x),
            all@.len() == n,
            forall|j: int| 0 <= j < n ==> #[trigger] all@[j] == labels@[indices@[j] as int],
            crate::lists::strictly_ascending(keys@),
            r@.len() == keys@.len(),
            forall|h: int|
                0 <= h < keys@.len() ==> slots@.contains_key(#[trigger] keys@[h]) && slots@[keys@[h]]
                    == h,
            forall|h: int|
                0 <= h < keys@.len() ==> (#[trigger] r@[h])@ == select(
                    indices@,
                    carrying(indices@, labels@, keys@[h]),
                    k as int,
                ),
        decreases n - k,
    {
        let i = indices[k];
        assert(indices@[k as int] < labels@.len());
        let label = labels[i];
        assert(all@[k as int] == label);
        assert(all@.contains(label));
        let ghost h0 = choose|h: int| 0 <= h < keys@.len() && keys@[h] == label;
        assert(keys@[h0] == label);
        let slot = *slots.get(&label).unwrap();
        let ghost before = r@;
        let mut group: Vec<usize> = Vec::new();
        std::mem::swap(&mut group, &mut r[slot]);
        group.push(i);
        std::mem::swap(&mut group, &mut r[slot]);
        assert forall|h: int| 0 <= h < keys@.len() implies (#[trigger] r@[h])@ == select(
            indices@,
            carrying(indices@, labels@, keys@[h]),
            k + 1,
        ) by {
            assert(before[h]@ == select(indices@, carrying(indices@, labels@, keys@[h]), k as int));
            assert(carrying(indices@, labels@, keys@[h])(k as int) <==> h == slot);
        }
        k = k + 1;
    }
    assert(contents(r@) =~= grouped(indices@, labels@));
    r
}

/// How many artifacts share the component of the artifact `i`.
pub open spec fn component_size(labels: Seq<usize>, i: int) -> nat {
    occurrences(labels, labels[i], labels.len() as int)
}

pub open spec fn is_single(labels: Seq<usize>) -> spec_fn(int) -> bool {
    |i: int| component_size(labels, i) == 1
}

pub open spec fn is_paired(labels: Seq<usize>) -> spec_fn(int) -> bool {
    |i: int| component_size(labels, i) == 2
}

pub open spec fn is_clustered(labels: Seq<usize>) -> spec_fn(int) -> bool {
    |i: int| component_size(labels, i) >= 3
}

/// How often each label occurs.
fn component_sizes(labels: &Vec<usize>) -> (r: HashMap<usize, usize>)
    ensures
        forall|i: int|
            0 <= i < labels@.len() ==> r@.contains_key(#[trigger] labels@[i]) && r@[labels@[i]]
                == component_size(labels@, i),
{
    broadcast use vstd::std_specs::hash::group_hash_axioms;

    let mut r: HashMap<usize, usize> = HashMap::new();
    let mut k: usize = 0;
    while k < labels.len()
        invariant
            k <= labels@.len(),
            forall|l: usize|
                if #[trigger] r@.contains_key(l) {
                    r@[l] == occurrences(labels@, l, k as int) && r@[l] <= k
                } else {
                    occurrences(labels@, l, k as int) == 0
                },
        decreases labels.len() - k,
    {
        let label = labels[k];
        let known: usize = match r.get(&label) {
            Some(count) => *count,
            None => 0,
        };
        let ghost before = r@;
        assert(known == occurrences(labels@, label, k as int)) by {
            assert(before.contains_key(label) || !before.contains_key(label));
        }
        r.insert(label, known + 1);
        assert forall|l: usize|
            if #[trigger] r@.contains_key(l) {
                r@[l] == occurrences(labels@, l, k + 1) && r@[l] <= k + 1
            } else {
                occurrences(labels@, l, k + 1) == 0
            } by {
            assert(before.contains_key(l) || !before.contains_key(l));
        }
        k = k + 1;
    }
    assert forall|i: int| 0 <= i < labels@.len() implies r@.contains_key(#[trigger] labels@[i])
        && r@[labels@[i]] == component_size(labels@, i) by {
        occurs_once(labels@, i, labels@.len() as int);
        assert(r@.contains_key(labels@[i]) || !r@.contains_key(labels@[i]));
    }
    r
}

proof fn occurs_once(s: Seq<usize>, i: int, n: int)
    requires
        0 <= i < n <= s.len(),
    ensures
        occurrences(s, s[i], n) >= 1,
    decreases n,
{
    if i < n - 1 {
        occurs_once(s, i, n - 1);
    }
}

/// The artifacts of a pass: those alone in their component, those in pairs and
/// those in clusters of three or more.
#[derive(Debug)]
pub struct LoopPlan {
    pub singles: Vec<usize>,
    pub pairs: Vec<usize>,
    pub clusters: Vec<usize>,
}

/// What a pass simplifies next.
#[derive(Clone, Copy, PartialEq, Eq, Structural, Debug)]
pub enum LoopStage {
    Singletons,
    Pairs,
    Clusters,
}

/// Sorts the artifacts of one pass by the size of their component.
pub fn neatify_loop(comp_labels: &Vec<usize>) -> (r: LoopPlan)
    ensures
        r.singles@ == positions(is_single(comp_labels@), comp_labels@.len() as int),
        r.pairs@ == positions(is_paired(comp_labels@), comp_labels@.len() as int),
        r.clusters@ == positions(is_clustered(comp_labels@), comp_labels@.len() as int),
{
    broadcast use vstd::std_specs::hash::group_hash_axioms;

    let sizes = component_sizes(comp_labels);
    let ghost single = is_single(comp_labels@);
    let ghost paired = is_paired(comp_labels@);
    let ghost clustered = is_clustered(comp_labels@);
    let mut singles: Vec<usize> = Vec::new();
    let mut pairs: Vec<usize> = Vec::new();
    let mut clusters: Vec<usize> = Vec::new();
    let mut i: usize = 0;
    while i < comp_labels.len()
        invariant
            i <= comp_labels@.len(),
            single == is_single(comp_labels@),
            paired == is_paired(comp_labels@),
            clustered == is_clustered(comp_labels@),
            forall|k: int|
                0 <= k < comp_labels@.len() ==> sizes@.contains_key(#[trigger] comp_labels@[k])
                    && sizes@[comp_labels@[k]] == component_size(comp_labels@, k),
            singles@ == positions(single, i as int),
            pairs@ == positions(paired, i as int),
            clusters@ == positions(clustered, i as int),
        decreases comp_labels.len() - i,
    {
        assert(sizes@.contains_key(comp_labels@[i as int]));
        let size = *sizes.get(&comp_labels[i]).unwrap();
        proof {
            occurs_once(comp_labels@, i as int, comp_labels@.len() as int);
        }
        assert(single(i as int) == (size == 1));
        assert(paired(i as int) == (size == 2));
        assert(clustered(i as int) == (size >= 3));
        if size == 1 {
            singles.push(i);
        } else if size == 2 {
            pairs.push(i);
        } else {
            clusters.push(i);
        }
        i = i + 1;
    }
    LoopPlan { singles, pairs, clusters }
}

impl LoopPlan {
    /// The stages of the pass.
    pub open spec fn in_stages(&self) -> Seq<LoopStage> {
        let singles = if self.singles@.len() > 0 {
            seq![LoopStage::Singletons]
        } else {
            Seq::empty()
        };
        let pairs = if self.pairs@.len() > 0 {
            seq![LoopStage::Pairs]
        } else {
            Seq::empty()
        };
        let clusters = if self.clusters@.len() > 0 {
            seq![LoopStage::Clusters]
        } else {
            Seq::empty()
        };
        singles + pairs + clusters
    }

    /// The stages of the pass, in order: none for a kind that does not occur.
    pub fn stages(&self) -> (r: Vec<LoopStage>)
        ensures
            r@ == self.in_stages(),
            r@ == (if self.singles@.len() > 0 {
                seq![LoopStage::Singletons]
            } else {
                Seq::empty()
            }) + (if self.pairs@.len() > 0 {
                seq![LoopStage::Pairs]
            } else {
                Seq::empty()
            }) + (if self.clusters@.len() > 0 {
                seq![LoopStage::Clusters]
            } else {
                Seq::empty()
            }),
    {
        let mut r: Vec<LoopStage> = Vec::new();
        if self.singles.len() > 0 {
            r.push(LoopStage::Singletons);
        }
        if self.pairs.len() > 0 {
            r.push(LoopStage::Pairs);
        }
        if self.clusters.len() > 0 {
            r.push(LoopStage::Clusters);
        }
        r
    }
}

/// Every artifact is dealt with once in a pass: it is alone, in a pair or in a
/// cluster, and only one of these.
pub proof fn every_artifact_once(labels: Seq<usize>, i: int)
    requires
        0 <= i < labels.len() <= usize::MAX,
    ensures
        ({
            let n = labels.len() as int;
            let single = positions(is_single(labels), n).contains(i as usize);
            let paired = positions(is_paired(labels), n).contains(i as usize);
            let clustered = positions(is_clustered(labels), n).contains(i as usize);
            &&& single || paired || clustered
            &&& !(single && paired)
            &&& !(single && clustered)
            &&& !(paired && clustered)
        }),
        positions(is_single(labels), labels.len() as int).len() + positions(
            is_paired(labels),
            labels.len() as int,
        ).len() + positions(is_clustered(labels), labels.len() as int).len() == labels.len(),
{
    let n = labels.len() as int;
    positions_are_kept(is_single(labels), n);
    positions_are_kept(is_paired(labels), n);
    positions_are_kept(is_clustered(labels), n);
    occurs_once(labels, i, n);
    kinds_add_up(labels, n);
}

proof fn kinds_add_up(labels: Seq<usize>, n: int)
    requires
        0 <= n <= labels.len(),
    ensures
        positions(is_single(labels), n).len() + positions(is_paired(labels), n).len() + positions(
            is_clustered(labels),
            n,
        ).len() == n,
    decreases n,
{
    if n > 0 {
        kinds_add_up(labels, n - 1);
        occurs_once(labels, n - 1, labels.len() as int);
        assert(is_single(labels)(n - 1) || is_paired(labels)(n - 1) || is_clustered(labels)(n - 1));
    }
}

/// The measurements of a dry run.
#[derive(Clone, Copy, Debug)]
pub struct NeatifyDiagnostics {
    pub n_input_edges: usize,
    pub n_edges_after_topology: usize,
    pub n_artifacts: usize,
    pub fai_threshold: Measure,
    pub n_singles: usize,
    pub n_pairs: usize,
    pub n_cluster_artifacts: usize,
    pub n_cluster_groups: usize,
    pub max_cluster_size: usize,
    pub fix_topology_secs: Measure,
    pub consolidate_secs: Measure,
    pub artifact_detection_secs: Measure,
}

/// What artifact detection found: the component of each artifact, and the
/// threshold that tells artifacts from blocks.
#[derive(Debug)]
pub struct Detection {
    pub comp_labels: Vec<usize>,
    pub threshold: Measure,
}

/// How long the steps of the preparation took.
#[derive(Clone, Copy, Debug)]
pub struct Timings {
    pub fix_topology_secs: Measure,
    pub consolidate_secs: Measure,
    pub artifact_detection_secs: Measure,
}

/// All indices below `n`.
pub open spec fn all_below(n: nat) -> Seq<usize> {
    Seq::new(n, |i: int| i as usize)
}

/// The groups of three or more.
pub open spec fn is_large(groups: Seq<Seq<usize>>) -> spec_fn(int) -> bool {
    |g: int| groups[g].len() >= 3
}

/// The size of the largest of the first `n` groups, groups below three left out.
pub open spec fn largest(groups: Seq<Seq<usize>>, n: int) -> nat
    decreases n,
{
    if n <= 0 {
        0
    } else if groups[n - 1].len() >= 3 && groups[n - 1].len() > largest(groups, n - 1) {
        groups[n - 1].len()
    } else {
        largest(groups, n - 1)
    }
}

/// The components of the artifacts that were detected, none where nothing was.
pub open spec fn detected(detection: Option<Detection>) -> Seq<usize> {
    match detection {
        Some(found) => found.comp_labels@,
        None => Seq::empty(),
    }
}

/// The counts are those of the artifacts that were detected.
pub open spec fn sums_up(d: NeatifyDiagnostics, labels: Seq<usize>) -> bool {
    let n = labels.len() as int;
    let groups = grouped(all_below(labels.len()), labels);
    &&& d.n_artifacts == n
    &&& d.n_singles == positions(is_single(labels), n).len()
    &&& d.n_pairs == positions(is_paired(labels), n).len()
    &&& d.n_cluster_artifacts == positions(is_clustered(labels), n).len()
    &&& d.n_cluster_groups == select(groups, is_large(groups), groups.len() as int).len()
    &&& d.max_cluster_size == largest(groups, groups.len() as int)
}

/// Sums up a dry run: how many artifacts there are, alone, in pairs and in
/// clusters, how many clusters there are and how large the largest is. Where
/// detection found nothing, all of these are zero.
pub fn diagnostics(
    n_input_edges: usize,
    n_edges_after_topology: usize,
    detection: &Option<Detection>,
    timings: Timings,
) -> (r: Result<NeatifyDiagnostics, NeatifyError>)
    ensures
        r matches Ok(d) && sums_up(d, detected(*detection)),
        r matches Ok(d) && {
            let labels = match *detection {
                Some(found) => found.comp_labels@,
                None => Seq::empty(),
            };
            let n = labels.len() as int;
            let groups = grouped(all_below(labels.len()), labels);
            &&& d.n_input_edges == n_input_edges
            &&& d.n_edges_after_topology == n_edges_after_topology
            &&& d.n_artifacts == n
            &&& d.fai_threshold == (match *detection {
                Some(found) => found.threshold,
                None => Measure { bits: 0 },
            })
            &&& d.n_singles == positions(is_single(labels), n).len()
            &&& d.n_pairs == positions(is_paired(labels), n).len()
            &&& d.n_cluster_artifacts == positions(is_clustered(labels), n).len()
            &&& d.n_cluster_groups == select(groups, is_large(groups), groups.len() as int).len()
            &&& d.max_cluster_size == largest(groups, groups.len() as int)
            &&& d.fix_topology_secs == timings.fix_topology_secs
            &&& d.consolidate_secs == timings.consolidate_secs
            &&& d.artifact_detection_secs == timings.artifact_detection_secs
        },
{
    let empty: Vec<usize> = Vec::new();
    let (labels, threshold) = match detection {
        Some(found) => (&found.comp_labels, found.threshold),
        None => (&empty, Measure::from_bits(0)),
    };
    assert(empty@ =~= Seq::empty());
    let n = labels.len();
    let mut all: Vec<usize> = Vec::new();
    let mut i: usize = 0;
    while i < n
        invariant
            i <= n,
            all@ == all_below(i as nat),
        decreases n - i,
    {
        all.push(i);
        i = i + 1;
        assert(all@ =~= all_below(i as nat));
    }
    let plan = neatify_loop(labels);
    let groups = group_by_label(&all, labels);
    let ghost sets = contents(groups@);
    let mut n_cluster_groups: usize = 0;
    let mut max_cluster_size: usize = 0;
    let mut g: usize = 0;
    while g < groups.len()
        invariant
            g <= groups@.len(),
            sets == contents(groups@),
            n_cluster_groups <= g,
            n_cluster_groups == select(sets, is_large(sets), g as int).len(),
            max_cluster_size == largest(sets, g as int),
        decreases groups.len() - g,
    {
        let size = groups[g].len();
        assert(size == sets[g as int].len());
        assert(is_large(sets)(g as int) == (size >= 3));
        if size >= 3 {
            n_cluster_groups = n_cluster_groups + 1;
            if size > max_cluster_size {
                max_cluster_size = size;
            }
        }
        g = g + 1;
    }
    Ok(
        NeatifyDiagnostics {
            n_input_edges,
            n_edges_after_topology,
            n_artifacts: n,
            fai_threshold: threshold,
            n_singles: plan.singles.len(),
            n_pairs: plan.pairs.len(),
            n_cluster_artifacts: plan.clusters.len(),
            n_cluster_groups,
            max_cluster_size,
            fix_topology_secs: timings.fix_topology_secs,
            consolidate_secs: timings.consolidate_secs,
            artifact_detection_secs: timings.artifact_detection_secs,
        },
    )
}

/// A group holds given indices that carry its label.
pub proof fn groups_hold_given(indices: Seq<usize>, labels: Seq<usize>, g: int, q: int)
    requires
        0 <= g < grouped(indices, labels).len(),
        0 <= q < grouped(indices, labels)[g].len(),
    ensures
        indices.contains(grouped(indices, labels)[g][q]),
        labels[grouped(indices, labels)[g][q] as int] == carried(indices, labels)[g],
{
    let keep = carrying(indices, labels, carried(indices, labels)[g]);
    select_holds_kept(indices, keep, indices.len() as int);
    let group = grouped(indices, labels)[g];
    assert(group.contains(group[q]));
    let k = choose|k: int| 0 <= k < indices.len() && keep(k) && indices[k] == group[q];
    assert(indices[k] == group[q]);
}

/// Grouping loses nothing: every index is in a group, and in no group but the
/// one of its label.
pub proof fn grouping_loses_nothing(indices: Seq<usize>, labels: Seq<usize>, k: int)
    requires
        0 <= k < indices.len(),
    ensures
        exists|g: int|
            0 <= g < grouped(indices, labels).len() && (#[trigger] grouped(
                indices,
                labels,
            )[g]).contains(indices[k]),
        forall|g: int, h: int|
            0 <= g < grouped(indices, labels).len() && 0 <= h < grouped(indices, labels).len()
                && (#[trigger] grouped(indices, labels)[g]).contains(indices[k])
                && (#[trigger] grouped(indices, labels)[h]).contains(indices[k]) ==> g == h,
{
    let label = labels[indices[k] as int];
    let keys = carried(indices, labels);
    let groups = grouped(indices, labels);
    positions_are_kept(occurs(indices, labels), usize::MAX + 1);
    assert(occurs(indices, labels)(label as int));
    assert(keys.contains(label));
    let g = choose|g: int| 0 <= g < keys.len() && keys[g] == label;
    let keep = carrying(indices, labels, label);
    select_holds_kept(indices, keep, indices.len() as int);
    assert(keep(k));
    assert(groups[g].contains(indices[k]));
    assert forall|g: int, h: int|
        0 <= g < groups.len() && 0 <= h < groups.len() && (#[trigger] groups[g]).contains(
            indices[k],
        ) && (#[trigger] groups[h]).contains(indices[k]) implies g == h by {
        let p = choose|p: int| 0 <= p < groups[g].len() && groups[g][p] == indices[k];
        let q = choose|q: int| 0 <= q < groups[h].len() && groups[h][q] == indices[k];
        groups_hold_given(indices, labels, g, p);
        groups_hold_given(indices, labels, h, q);
    }
}

/// The artifacts in a group of the kind `wanted`.
spec fn of_kind(labels: Seq<usize>, wanted: spec_fn(nat) -> bool) -> spec_fn(int) -> bool {
    |i: int| wanted(component_size(labels, i))
}

/// How many of the first `n` artifacts the first `m` groups of the kind `wanted` hold.
spec fn held(
    labels: Seq<usize>,
    keys: Seq<usize>,
    wanted: spec_fn(nat) -> bool,
    n: int,
    m: int,
) -> nat
    decreases m,
{
    if m <= 0 {
        0
    } else if wanted(occurrences(labels, keys[m - 1], labels.len() as int)) {
        held(labels, keys, wanted, n, m - 1) + occurrences(labels, keys[m - 1], n)
    } else {
        held(labels, keys, wanted, n, m - 1)
    }
}

proof fn held_grows(
    labels: Seq<usize>,
    keys: Seq<usize>,
    wanted: spec_fn(nat) -> bool,
    n: int,
    at: int,
    m: int,
)
    requires
        0 < n <= labels.len(),
        0 <= at < keys.len(),
        keys[at] == labels[n - 1],
        forall|i: int, j: int| 0 <= i < j < keys.len() ==> #[trigger] keys[i] < #[trigger] keys[j],
        0 <= m <= keys.len(),
    ensures
        held(labels, keys, wanted, n, m) == held(labels, keys, wanted, n - 1, m) + (if at < m
            && wanted(component_size(labels, n - 1)) {
            1int
        } else {
            0
        }),
    decreases m,
{
    if m > 0 {
        held_grows(labels, keys, wanted, n, at, m - 1);
        if m - 1 < at {
            assert(keys[m - 1] < keys[at]);
        } else if at < m - 1 {
            assert(keys[at] < keys[m - 1]);
        }
    }
}

proof fn held_all(
    labels: Seq<usize>,
    keys: Seq<usize>,
    wanted: spec_fn(nat) -> bool,
    n: int,
)
    requires
        0 <= n <= labels.len(),
        forall|i: int, j: int| 0 <= i < j < keys.len() ==> #[trigger] keys[i] < #[trigger] keys[j],
        forall|i: int| 0 <= i < labels.len() ==> keys.contains(#[trigger] labels[i]),
    ensures
        held(labels, keys, wanted, n, keys.len() as int) == positions(
            of_kind(labels, wanted),
            n,
        ).len(),
    decreases n,
{
    if n == 0 {
        nothing_held(labels, keys, wanted, keys.len() as int);
    } else {
        held_all(labels, keys, wanted, n - 1);
        assert(keys.contains(labels[n - 1]));
        let at = choose|at: int| 0 <= at < keys.len() && keys[at] == labels[n - 1];
        held_grows(labels, keys, wanted, n, at, keys.len() as int);
        assert(of_kind(labels, wanted)(n - 1) == wanted(component_size(labels, n - 1)));
    }
}

proof fn nothing_held(labels: Seq<usize>, keys: Seq<usize>, wanted: spec_fn(nat) -> bool, m: int)
    ensures
        held(labels, keys, wanted, 0, m) == 0,
    decreases m,
{
    if m > 0 {
        nothing_held(labels, keys, wanted, m - 1);
    }
}

pub(crate) proof fn group_is_component(labels: Seq<usize>, label: usize, n: int)
    requires
        0 <= n <= labels.len() <= usize::MAX,
    ensures
        select(
            all_below(labels.len()),
            carrying(all_below(labels.len()), labels, label),
            n,
        ).len() == occurrences(labels, label, n),
    decreases n,
{
    if n > 0 {
        group_is_component(labels, label, n - 1);
        let keep = carrying(all_below(labels.len()), labels, label);
        assert(keep(n - 1) == (labels[n - 1] == label));
    }
}

/// The groups of the components, and the labels that they carry.
proof fn components_are_groups(labels: Seq<usize>)
    requires
        labels.len() <= usize::MAX,
    ensures
        ({
            let all = all_below(labels.len());
            let keys = carried(all, labels);
            let groups = grouped(all, labels);
            &&& groups.len() == keys.len()
            &&& forall|g: int|
                0 <= g < groups.len() ==> (#[trigger] groups[g]).len() == occurrences(
                    labels,
                    keys[g],
                    labels.len() as int,
                )
            &&& forall|i: int, j: int|
                0 <= i < j < keys.len() ==> #[trigger] keys[i] < #[trigger] keys[j]
            &&& forall|i: int| 0 <= i < labels.len() ==> keys.contains(#[trigger] labels[i])
        }),
{
    let all = all_below(labels.len());
    let keys = carried(all, labels);
    let groups = grouped(all, labels);
    positions_are_kept(occurs(all, labels), usize::MAX + 1);
    assert forall|g: int| 0 <= g < groups.len() implies (#[trigger] groups[g]).len()
        == occurrences(labels, keys[g], labels.len() as int) by {
        group_is_component(labels, keys[g], labels.len() as int);
    }
    assert forall|i: int| 0 <= i < labels.len() implies keys.contains(#[trigger] labels[i]) by {
        assert(all[i] == i);
        assert(labels[all[i] as int] == labels[i] as int);
        assert(occurs(all, labels)(labels[i] as int));
    }
}

proof fn pairs_hold_two(labels: Seq<usize>, keys: Seq<usize>, m: int)
    ensures
        held(labels, keys, |size: nat| size == 2, labels.len() as int, m) % 2 == 0,
    decreases m,
{
    if m > 0 {
        pairs_hold_two(labels, keys, m - 1);
    }
}

proof fn clusters_hold_enough(
    labels: Seq<usize>,
    keys: Seq<usize>,
    groups: Seq<Seq<usize>>,
    m: int,
    most: nat,
)
    requires
        0 <= m <= groups.len(),
        groups.len() == keys.len(),
        forall|g: int|
            0 <= g < groups.len() ==> (#[trigger] groups[g]).len() == occurrences(
                labels,
                keys[g],
                labels.len() as int,
            ),
        largest(groups, m) <= most,
    ensures
        ({
            let n = held(labels, keys, |size: nat| size >= 3, labels.len() as int, m);
            let count = select(groups, is_large(groups), m).len();
            &&& 3 * count <= n <= count * most
            &&& count == 0 <==> n == 0
            &&& count == 0 <==> largest(groups, m) == 0
        }),
    decreases m,
{
    if m > 0 {
        clusters_hold_enough(labels, keys, groups, m - 1, most);
        let count = select(groups, is_large(groups), m - 1).len();
        assert(groups[m - 1].len() == occurrences(labels, keys[m - 1], labels.len() as int));
        assert(is_large(groups)(m - 1) == (groups[m - 1].len() >= 3));
        assert((count + 1) * most == count * most + most) by (nonlinear_arith);
    } else {
        assert(0 * most == 0) by (nonlinear_arith);
    }
}

/// The counts of a dry run fit together: artifacts in pairs come in twos; without a
/// cluster there are no clustered artifacts and no largest size; otherwise each
/// cluster holds three artifacts or more, and no more than the largest.
pub proof fn counts_fit_together(labels: Seq<usize>)
    requires
        labels.len() <= usize::MAX,
    ensures
        ({
            let n = labels.len() as int;
            let groups = grouped(all_below(labels.len()), labels);
            let n_pairs = positions(is_paired(labels), n).len();
            let n_clustered = positions(is_clustered(labels), n).len();
            let n_groups = select(groups, is_large(groups), groups.len() as int).len();
            let largest_size = largest(groups, groups.len() as int);
            &&& n_pairs % 2 == 0
            &&& n_groups == 0 <==> n_clustered == 0
            &&& n_groups == 0 <==> largest_size == 0
            &&& 3 * n_groups <= n_clustered <= n_groups * largest_size
        }),
{
    let n = labels.len() as int;
    let keys = carried(all_below(labels.len()), labels);
    let groups = grouped(all_below(labels.len()), labels);
    let m = groups.len() as int;
    let two = |size: nat| size == 2;
    let many = |size: nat| size >= 3;
    components_are_groups(labels);
    held_all(labels, keys, two, n);
    held_all(labels, keys, many, n);
    pairs_hold_two(labels, keys, m);
    clusters_hold_enough(labels, keys, groups, m, largest(groups, m));
    assert(of_kind(labels, two) =~= is_paired(labels));
    assert(of_kind(labels, many) =~= is_clustered(labels));
}

} // verus!
