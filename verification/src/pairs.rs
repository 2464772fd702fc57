//! Pairs of artifacts that share edges.
use crate::ces::{ces_type, get_ces_type};
use crate::components::{all_below, group_by_label, grouped, groups_hold_given, labelled};
use crate::lists::{append_ids, holds, select, select_holds_kept};
use crate::measure::Measure;
use crate::types::{contents, CoinsResult};
use vstd::prelude::*;

verus! {

/// What is known of one artifact of a pair: the edges that it covers, how many
/// nodes these have and how many strokes pass.
#[derive(Debug)]
pub struct PairMember {
    pub covered: Vec<usize>,
    pub n_nodes: usize,
    pub stroke_count: usize,
}

impl PairMember {
    /// More strokes than nodes: streets cross here without meeting.
    pub open spec fn non_planar(&self) -> bool {
        self.stroke_count > self.n_nodes
    }
}

/// How a pair is simplified.
#[derive(Clone, Copy, PartialEq, Eq, Structural, Debug)]
pub enum PairSolution {
    /// Not at all.
    Skip,
    /// It is handed on to the simplification of clusters, which draws skeletons. A
    /// pair is too small to be a cluster there, so that its edges stay as they are.
    Skeleton,
    /// The one planar artifact is simplified alone.
    Planar(usize),
    /// The shared edge is dropped and the two are simplified as one.
    DropInterline(usize),
    /// The first is simplified, then the second.
    Iterate,
}

/// The shared edges of two lists: the positions in `a` of its edges that are in
/// `b` too, each edge once.
pub open spec fn shared_in(a: Seq<usize>, b: Seq<usize>) -> spec_fn(int) -> bool {
    |k: int| b.contains(a[k]) && forall|j: int| 0 <= j < k ==> a[j] != a[k]
}

/// The edges that two artifacts share.
pub open spec fn shared(a: Seq<usize>, b: Seq<usize>) -> Seq<usize> {
    select(a, shared_in(a, b), a.len() as int)
}

/// The positions in `a` of its edges that are not in `b`.
pub open spec fn private_in(a: Seq<usize>, b: Seq<usize>) -> spec_fn(int) -> bool {
    |k: int| !b.contains(a[k])
}

/// The edges of `a` that are not in `b`.
pub open spec fn private(a: Seq<usize>, b: Seq<usize>) -> Seq<usize> {
    select(a, private_in(a, b), a.len() as int)
}

/// The solution for a planar pair.
pub open spec fn planar_solution(
    a: Seq<usize>,
    b: Seq<usize>,
    coins: &CoinsResult,
) -> PairSolution {
    let both = shared(a, b);
    if both.len() == 0 {
        PairSolution::Skip
    } else if both.len() > 1 {
        PairSolution::Skeleton
    } else if private(b, a).len() == 1 || private(a, b).len() == 1 {
        PairSolution::DropInterline(both[0])
    } else {
        let from_a = ces_type(a, both[0], coins);
        let from_b = ces_type(b, both[0], coins);
        if from_a == 'C' && from_b == 'C' {
            PairSolution::Iterate
        } else if from_a == from_b {
            PairSolution::DropInterline(both[0])
        } else {
            PairSolution::Skeleton
        }
    }
}

/// The solution for the pair of the artifacts `i` and `j`.
pub open spec fn solution(
    i: usize,
    a: PairMember,
    j: usize,
    b: PairMember,
    coins: &CoinsResult,
) -> PairSolution {
    if a.non_planar() && b.non_planar() {
        PairSolution::Skeleton
    } else if a.non_planar() {
        PairSolution::Planar(j)
    } else if b.non_planar() {
        PairSolution::Planar(i)
    } else {
        planar_solution(a.covered@, b.covered@, coins)
    }
}

fn shared_edges(a: &Vec<usize>, b: &Vec<usize>) -> (r: Vec<usize>)
    ensures
        r@ == shared(a@, b@),
{
    let ghost keep = shared_in(a@, b@);
    let mut r: Vec<usize> = Vec::new();
    let mut k: usize = 0;
    while k < a.len()
        invariant
            k <= a@.len(),
            keep == shared_in(a@, b@),
            r@ == select(a@, keep, k as int),
        decreases a.len() - k,
    {
        if holds(b, a[k], b.len()) && !holds(a, a[k], k) {
            assert(keep(k as int));
            r.push(a[k]);
        } else {
            assert(!keep(k as int));
        }
        k = k + 1;
    }
    r
}

fn count_private(a: &Vec<usize>, b: &Vec<usize>) -> (r: usize)
    ensures
        r == private(a@, b@).len(),
{
    let ghost keep = private_in(a@, b@);
    let mut r: usize = 0;
    let mut k: usize = 0;
    while k < a.len()
        invariant
            k <= a@.len(),
            keep == private_in(a@, b@),
            r <= k,
            r == select(a@, keep, k as int).len(),
        decreases a.len() - k,
    {
        if !holds(b, a[k], b.len()) {
            assert(keep(k as int));
            r = r + 1;
        } else {
            assert(!keep(k as int));
        }
        k = k + 1;
    }
    r
}

/// Decides how the pair of the artifacts `i` and `j` is simplified. Two artifacts
/// that are not planar go to the skeleton, one that is planar is simplified
/// alone. A planar pair is skipped without a shared edge and goes to the skeleton
/// with several. With one, the shared edge is dropped where one artifact has a
/// single other edge or both see the shared edge alike, unless both see it
/// continue: then they are simplified in turn.
pub fn solve_pair(i: usize, a: &PairMember, j: usize, b: &PairMember, coins: &CoinsResult) -> (r:
    PairSolution)
    requires
        coins.knows(a.covered@),
        coins.knows(b.covered@),
    ensures
        r == solution(i, *a, j, *b, coins),
{
    let np_a = a.stroke_count > a.n_nodes;
    let np_b = b.stroke_count > b.n_nodes;
    if np_a && np_b {
        return PairSolution::Skeleton;
    }
    if np_a {
        return PairSolution::Planar(j);
    }
    if np_b {
        return PairSolution::Planar(i);
    }
    let both = shared_edges(&a.covered, &b.covered);
    if both.len() == 0 {
        return PairSolution::Skip;
    }
    if both.len() > 1 {
        return PairSolution::Skeleton;
    }
    let edge = both[0];
    if count_private(&b.covered, &a.covered) == 1 || count_private(&a.covered, &b.covered) == 1 {
        return PairSolution::DropInterline(edge);
    }
    proof {
        shared_is_in_both(a.covered@, b.covered@);
        assert(a.covered@.contains(edge));
        let k = choose|k: int| 0 <= k < a.covered@.len() && a.covered@[k] == edge;
        assert(coins.has(a.covered@[k]));
    }
    let from_a = get_ces_type(&a.covered, edge, coins);
    let from_b = get_ces_type(&b.covered, edge, coins);
    if from_a == 'C' && from_b == 'C' {
        PairSolution::Iterate
    } else if from_a == from_b {
        PairSolution::DropInterline(edge)
    } else {
        PairSolution::Skeleton
    }
}

pub(crate) proof fn shared_is_in_both(a: Seq<usize>, b: Seq<usize>)
    ensures
        forall|k: int|
            0 <= k < shared(a, b).len() ==> a.contains(#[trigger] shared(a, b)[k]) && b.contains(
                shared(a, b)[k],
            ),
        forall|x: usize| a.contains(x) && b.contains(x) ==> #[trigger] shared(a, b).contains(x),
        shared(a, b).no_duplicates(),
{
    let keep = shared_in(a, b);
    select_holds_kept(a, keep, a.len() as int);
    assert forall|k: int| 0 <= k < shared(a, b).len() implies a.contains(
        #[trigger] shared(a, b)[k],
    ) && b.contains(shared(a, b)[k]) by {
        assert(shared(a, b).contains(shared(a, b)[k]));
        let i = choose|i: int| 0 <= i < a.len() && keep(i) && a[i] == shared(a, b)[k];
        assert(a[i] == shared(a, b)[k]);
    }
    assert forall|x: usize| a.contains(x) && b.contains(x) implies #[trigger] shared(
        a,
        b,
    ).contains(x) by {
        first_position(a, x, a.len() as int);
        let i = choose|i: int|
            0 <= i < a.len() && a[i] == x && forall|j: int| 0 <= j < i ==> a[j] != x;
        assert(keep(i));
        assert(shared(a, b).contains(a[i]));
    }
    shared_no_duplicates(a, b, a.len() as int);
}

proof fn first_position(a: Seq<usize>, x: usize, n: int)
    requires
        0 <= n <= a.len(),
        exists|i: int| 0 <= i < n && a[i] == x,
    ensures
        exists|i: int| 0 <= i < n && a[i] == x && forall|j: int| 0 <= j < i ==> a[j] != x,
    decreases n,
{
    if exists|i: int| 0 <= i < n - 1 && a[i] == x {
        first_position(a, x, n - 1);
    } else {
        assert(a[n - 1] == x);
    }
}

proof fn shared_no_duplicates(a: Seq<usize>, b: Seq<usize>, n: int)
    requires
        0 <= n <= a.len(),
    ensures
        select(a, shared_in(a, b), n).no_duplicates(),
    decreases n,
{
    if n > 0 {
        shared_no_duplicates(a, b, n - 1);
        let rest = select(a, shared_in(a, b), n - 1);
        select_holds_kept(a, shared_in(a, b), n - 1);
        if shared_in(a, b)(n - 1) {
            assert forall|k: int| 0 <= k < rest.len() implies rest[k] != a[n - 1] by {
                assert(rest.contains(rest[k]));
            }
        }
    }
}

/// The decision on one component: its artifacts, and how they are simplified.
#[derive(Debug)]
pub struct PairDecision {
    pub members: Vec<usize>,
    pub solution: PairSolution,
}

/// The label of each of the artifacts.
pub open spec fn labels_of(artifact_indices: Seq<usize>, comp_labels: Seq<usize>) -> Seq<usize> {
    Seq::new(artifact_indices.len(), |k: int| comp_labels[artifact_indices[k] as int])
}

/// The positions of the artifacts, grouped by component.
pub open spec fn component_groups(artifact_indices: Seq<usize>, comp_labels: Seq<usize>) -> Seq<
    Seq<usize>,
> {
    grouped(all_below(artifact_indices.len()), labels_of(artifact_indices, comp_labels))
}

/// Whether a decision is the one for a group of artifacts.
pub open spec fn decides(
    decision: PairDecision,
    group: Seq<usize>,
    artifact_indices: Seq<usize>,
    members: Seq<PairMember>,
    coins: &CoinsResult,
) -> bool {
    &&& decision.members@.len() == group.len()
    &&& forall|k: int|
        0 <= k < group.len() ==> #[trigger] decision.members@[k]
            == artifact_indices[group[k] as int]
    &&& decision.solution == if group.len() != 2 {
        PairSolution::Skip
    } else {
        solution(
            artifact_indices[group[0] as int],
            members[group[0] as int],
            artifact_indices[group[1] as int],
            members[group[1] as int],
            coins,
        )
    }
}

/// Decides for each component of the given artifacts how it is simplified, in
/// the order of the component labels. `members` holds what is known of each
/// artifact. A component that is not a pair is skipped.
pub fn neatify_pairs(
    artifact_indices: &Vec<usize>,
    comp_labels: &Vec<usize>,
    members: &Vec<PairMember>,
    coins: &CoinsResult,
) -> (r: Vec<PairDecision>)
    requires
        labelled(artifact_indices@, comp_labels@),
        members@.len() == artifact_indices@.len(),
        forall|k: int|
            0 <= k < members@.len() ==> coins.knows((#[trigger] members@[k]).covered@),
    ensures
        r@.len() == component_groups(artifact_indices@, comp_labels@).len(),
        forall|g: int|
            0 <= g < r@.len() ==> decides(
                #[trigger] r@[g],
                component_groups(artifact_indices@, comp_labels@)[g],
                artifact_indices@,
                members@,
                coins,
            ),
{
    let n = artifact_indices.len();
    let mut labels: Vec<usize> = Vec::new();
    let mut all: Vec<usize> = Vec::new();
    let mut k: usize = 0;
    while k < n
        invariant
            k <= n,
            n == artifact_indices@.len(),
            labelled(artifact_indices@, comp_labels@),
            labels@ == labels_of(artifact_indices@, comp_labels@).take(k as int),
            all@ == all_below(k as nat),
        decreases n - k,
    {
        assert(artifact_indices@[k as int] < comp_labels@.len());
        labels.push(comp_labels[artifact_indices[k]]);
        all.push(k);
        k = k + 1;
        assert(labels@ =~= labels_of(artifact_indices@, comp_labels@).take(k as int));
        assert(all@ =~= all_below(k as nat));
    }
    assert(labels@ =~= labels_of(artifact_indices@, comp_labels@));
    let groups = group_by_label(&all, &labels);
    let ghost sets = component_groups(artifact_indices@, comp_labels@);
    let mut r: Vec<PairDecision> = Vec::new();
    let mut g: usize = 0;
    while g < groups.len()
        invariant
            g <= groups@.len(),
            n == artifact_indices@.len(),
            members@.len() == n,
            all@ == all_below(n as nat),
            labels@ == labels_of(artifact_indices@, comp_labels@),
            forall|k: int|
                0 <= k < members@.len() ==> coins.knows((#[trigger] members@[k]).covered@),
            contents(groups@) == sets,
            sets == grouped(all@, labels@),
            r@.len() == g,
            forall|h: int|
                0 <= h < g ==> decides(
                    #[trigger] r@[h],
                    sets[h],
                    artifact_indices@,
                    members@,
                    coins,
                ),
        decreases groups.len() - g,
    {
        let group = &groups[g];
        assert(group@ == sets[g as int]);
        assert forall|q: int| 0 <= q < group@.len() implies #[trigger] group@[q] < n by {
            groups_hold_given(all@, labels@, g as int, q);
        }
        let mut own: Vec<usize> = Vec::new();
        let mut m: usize = 0;
        while m < group.len()
            invariant
                m <= group@.len(),
                n == artifact_indices@.len(),
                forall|q: int| 0 <= q < group@.len() ==> #[trigger] group@[q] < n,
                own@.len() == m,
                forall|q: int|
                    0 <= q < m ==> #[trigger] own@[q] == artifact_indices@[group@[q] as int],
            decreases group.len() - m,
        {
            assert(group@[m as int] < n);
            own.push(artifact_indices[group[m]]);
            m = m + 1;
        }
        let solution = if group.len() != 2 {
            PairSolution::Skip
        } else {
            let p = group[0];
            let q = group[1];
            assert(group@[0] < n && group@[1] < n);
            assert(coins.knows(members@[p as int].covered@));
            assert(coins.knows(members@[q as int].covered@));
            solve_pair(artifact_indices[p], &members[p], artifact_indices[q], &members[q], coins)
        };
        r.push(PairDecision { members: own, solution });
        g = g + 1;
    }
    r
}

/// The shared edges that the first `n` decisions drop.
pub open spec fn interlines_of(decisions: Seq<PairDecision>, n: int) -> Seq<usize>
    decreases n,
{
    if n <= 0 {
        Seq::empty()
    } else {
        match decisions[n - 1].solution {
            PairSolution::DropInterline(edge) => interlines_of(decisions, n - 1).push(edge),
            _ => interlines_of(decisions, n - 1),
        }
    }
}

/// The shared edges to drop before the pairs are simplified.
pub fn interlines(decisions: &Vec<PairDecision>) -> (r: Vec<usize>)
    ensures
        r@ == interlines_of(decisions@, decisions@.len() as int),
{
    let mut r: Vec<usize> = Vec::new();
    let mut k: usize = 0;
    while k < decisions.len()
        invariant
            k <= decisions@.len(),
            r@ == interlines_of(decisions@, k as int),
        decreases decisions.len() - k,
    {
        match decisions[k].solution {
            PairSolution::DropInterline(edge) => {
                r.push(edge);
            },
            _ => {},
        }
        k = k + 1;
    }
    r
}

/// The position of the greatest of the first `n` areas, the last where several
/// are greatest.
pub open spec fn greatest(areas: Seq<Measure>, n: int) -> int
    decreases n,
{
    if n <= 1 {
        0
    } else if areas[n - 1].below(areas[greatest(areas, n - 1)]) {
        greatest(areas, n - 1)
    } else {
        n - 1
    }
}

/// Which of the polygons of a union stands for it: the one with the greatest
/// area, the last of several; none where the union is empty.
pub fn largest_part(areas: &Vec<Measure>) -> (r: Option<usize>)
    ensures
        r == (if areas@.len() == 0 {
            None
        } else {
            Some(greatest(areas@, areas@.len() as int) as usize)
        }),
        r matches Some(at) ==> at < areas@.len() && at == greatest(areas@, areas@.len() as int),
{
    if areas.len() == 0 {
        return None;
    }
    let mut best: usize = 0;
    let mut k: usize = 1;
    while k < areas.len()
        invariant
            1 <= k <= areas@.len(),
            best < k,
            best == greatest(areas@, k as int),
        decreases areas.len() - k,
    {
        if !areas[k].lt(&areas[best]) {
            best = k;
        }
        k = k + 1;
    }
    Some(best)
}

/// No part of a union is larger than the one that stands for it, areas that are
/// not numbers aside.
pub proof fn greatest_is_greatest(areas: Seq<Measure>, n: int)
    requires
        1 <= n <= areas.len(),
        forall|k: int| 0 <= k < n ==> !(#[trigger] areas[k]).nan(),
    ensures
        0 <= greatest(areas, n) < n,
        forall|k: int| 0 <= k < n ==> (#[trigger] areas[k]).at_most(areas[greatest(areas, n)]),
    decreases n,
{
    if n > 1 {
        greatest_is_greatest(areas, n - 1);
        assert(!areas[n - 1].nan());
        assert(!areas[greatest(areas, n - 1)].nan());
    } else {
        assert(!areas[0].nan());
    }
}

/// The artifacts to simplify one by one in a first and in a second pass, and
/// those that go to the skeleton.
#[derive(Debug)]
pub struct PairPasses {
    pub first: Vec<usize>,
    pub second: Vec<usize>,
    pub skeleton: Vec<usize>,
}

/// The numbers of the merged artifacts among the first `n` interlines: a pair
/// that its union replaces gets the next number after the artifacts.
pub open spec fn merged_numbers(n_artifacts: usize, merged: Seq<bool>, n: int) -> Seq<usize>
    decreases n,
{
    if n <= 0 {
        Seq::empty()
    } else if merged[n - 1] {
        let before = merged_numbers(n_artifacts, merged, n - 1);
        before.push((n_artifacts + before.len()) as usize)
    } else {
        merged_numbers(n_artifacts, merged, n - 1)
    }
}

/// The artifacts of the first `n` decisions that are simplified in turn, those
/// at `place` in their pair.
pub open spec fn turns(decisions: Seq<PairDecision>, place: int, n: int) -> Seq<usize>
    decreases n,
{
    if n <= 0 {
        Seq::empty()
    } else if decisions[n - 1].solution == PairSolution::Iterate {
        turns(decisions, place, n - 1).push(decisions[n - 1].members@[place])
    } else {
        turns(decisions, place, n - 1)
    }
}

/// The planar artifacts of the first `n` decisions whose partner is not planar.
pub open spec fn planar_alone(decisions: Seq<PairDecision>, n: int) -> Seq<usize>
    decreases n,
{
    if n <= 0 {
        Seq::empty()
    } else {
        match decisions[n - 1].solution {
            PairSolution::Planar(member) => planar_alone(decisions, n - 1).push(member),
            _ => planar_alone(decisions, n - 1),
        }
    }
}

/// The artifacts of the first `n` decisions that go to the skeleton.
pub open spec fn skeletons(decisions: Seq<PairDecision>, n: int) -> Seq<usize>
    decreases n,
{
    if n <= 0 {
        Seq::empty()
    } else if decisions[n - 1].solution == PairSolution::Skeleton {
        skeletons(decisions, n - 1) + decisions[n - 1].members@
    } else {
        skeletons(decisions, n - 1)
    }
}

/// The artifacts of the first pass: the merged ones, then the first of each pair that is
/// simplified in turn, then the planar ones without a planar partner.
pub open spec fn first_pass(decisions: Seq<PairDecision>, n_artifacts: usize, merged: Seq<bool>) -> Seq<
    usize,
> {
    let n = decisions.len() as int;
    merged_numbers(n_artifacts, merged, merged.len() as int) + turns(decisions, 0, n)
        + planar_alone(decisions, n)
}

/// The artifacts of the second pass: the second of each pair that is simplified in turn.
pub open spec fn second_pass(decisions: Seq<PairDecision>) -> Seq<usize> {
    turns(decisions, 1, decisions.len() as int)
}

/// The artifacts that go to the skeleton.
pub open spec fn skeleton_pass(decisions: Seq<PairDecision>) -> Seq<usize> {
    skeletons(decisions, decisions.len() as int)
}

/// Lays out the passes over the pairs. `merged` tells for each interline whether
/// the union of its pair is a polygon; the merged polygons are numbered after
/// the artifacts. The first pass takes these, then the first of each pair that is
/// simplified in turn, then the planar artifacts without a planar partner; the
/// second pass takes the second of each pair that is simplified in turn.
pub fn pair_passes(decisions: &Vec<PairDecision>, n_artifacts: usize, merged: &Vec<bool>) -> (r:
    PairPasses)
    requires
        forall|k: int|
            0 <= k < decisions@.len() && (#[trigger] decisions@[k]).solution
                == PairSolution::Iterate ==> decisions@[k].members@.len() == 2,
        n_artifacts + merged@.len() <= usize::MAX,
    ensures
        r.first@ == first_pass(decisions@, n_artifacts, merged@),
        r.second@ == second_pass(decisions@),
        r.skeleton@ == skeleton_pass(decisions@),
        r.first@ == merged_numbers(n_artifacts, merged@, merged@.len() as int) + turns(
            decisions@,
            0,
            decisions@.len() as int,
        ) + planar_alone(decisions@, decisions@.len() as int),
        r.second@ == turns(decisions@, 1, decisions@.len() as int),
        r.skeleton@ == skeletons(decisions@, decisions@.len() as int),
{
    let mut first: Vec<usize> = Vec::new();
    let mut k: usize = 0;
    while k < merged.len()
        invariant
            k <= merged@.len(),
            n_artifacts + merged@.len() <= usize::MAX,
            first@.len() <= k,
            first@ == merged_numbers(n_artifacts, merged@, k as int),
        decreases merged.len() - k,
    {
        if merged[k] {
            let number = n_artifacts + first.len();
            first.push(number);
        }
        k = k + 1;
    }
    let mut starts: Vec<usize> = Vec::new();
    let mut planar: Vec<usize> = Vec::new();
    let mut second: Vec<usize> = Vec::new();
    let mut skeleton: Vec<usize> = Vec::new();
    k = 0;
    while k < decisions.len()
        invariant
            k <= decisions@.len(),
            forall|j: int|
                0 <= j < decisions@.len() && (#[trigger] decisions@[j]).solution
                    == PairSolution::Iterate ==> decisions@[j].members@.len() == 2,
            starts@ == turns(decisions@, 0, k as int),
            second@ == turns(decisions@, 1, k as int),
            planar@ == planar_alone(decisions@, k as int),
            skeleton@ == skeletons(decisions@, k as int),
        decreases decisions.len() - k,
    {
        let decision = &decisions[k];
        match decision.solution {
            PairSolution::Iterate => {
                assert(decisions@[k as int].members@.len() == 2);
                starts.push(decision.members[0]);
                second.push(decision.members[1]);
            },
            PairSolution::Planar(member) => {
                planar.push(member);
            },
            PairSolution::Skeleton => {
                append_ids(&mut skeleton, &decision.members);
            },
            _ => {},
        }
        k = k + 1;
    }
    append_ids(&mut first, &starts);
    append_ids(&mut first, &planar);
    PairPasses { first, second, skeleton }
}

/// The solution for a pair does not depend on which artifact comes first.
pub proof fn solution_is_symmetric(
    i: usize,
    a: PairMember,
    j: usize,
    b: PairMember,
    coins: &CoinsResult,
)
    ensures
        solution(i, a, j, b, coins) == solution(j, b, i, a, coins),
{
    let p = shared(a.covered@, b.covered@);
    let q = shared(b.covered@, a.covered@);
    shared_is_in_both(a.covered@, b.covered@);
    shared_is_in_both(b.covered@, a.covered@);
    assert(p.to_set() =~= q.to_set()) by {
        assert forall|x: usize| p.contains(x) <==> q.contains(x) by {
            if p.contains(x) {
                let k = choose|k: int| 0 <= k < p.len() && p[k] == x;
                assert(a.covered@.contains(p[k]) && b.covered@.contains(p[k]));
                assert(q.contains(x));
            }
            if q.contains(x) {
                let k = choose|k: int| 0 <= k < q.len() && q[k] == x;
                assert(b.covered@.contains(q[k]) && a.covered@.contains(q[k]));
                assert(p.contains(x));
            }
        }
    }
    p.unique_seq_to_set();
    q.unique_seq_to_set();
    if p.len() == 1 {
        assert(p.contains(p[0]));
        assert(p.to_set().contains(p[0]));
        assert(q.to_set().contains(p[0]));
        assert(q.contains(p[0]));
        assert(q[0] == p[0]);
    }
}

/// An edge is dropped between two artifacts only where both cover it and they
/// share no other.
pub proof fn interline_is_shared(a: Seq<usize>, b: Seq<usize>, coins: &CoinsResult, edge: usize)
    requires
        planar_solution(a, b, coins) == PairSolution::DropInterline(edge),
    ensures
        a.contains(edge),
        b.contains(edge),
        forall|x: usize| a.contains(x) && b.contains(x) ==> x == edge,
{
    shared_is_in_both(a, b);
    let both = shared(a, b);
    assert(a.contains(both[0]) && b.contains(both[0]));
    assert forall|x: usize| a.contains(x) && b.contains(x) implies x == edge by {
        assert(both.contains(x));
    }
}

} // verus!
