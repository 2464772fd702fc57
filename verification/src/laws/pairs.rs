//! How pairs of artifacts are simplified.
use crate::ces::ces_type;
use crate::laws::selections::selection_is_counted;
use crate::measure::Measure;
use crate::pairs::{
    decides, first_pass, greatest, interlines_of, merged_numbers, planar_alone, private, private_in,
    second_pass, shared, shared_is_in_both, skeleton_pass, skeletons, solution, turns, PairDecision,
    PairMember, PairSolution,
};
use crate::types::CoinsResult;
use vstd::prelude::*;

verus! {

/// The edge is covered by both.
pub open spec fn in_both(a: Seq<usize>, b: Seq<usize>, edge: usize) -> bool {
    a.contains(edge) && b.contains(edge)
}

/// How many of the edges of `a` are not among those of `b`.
pub open spec fn n_own(a: Seq<usize>, b: Seq<usize>) -> nat {
    a.filter(|e: usize| !b.contains(e)).len()
}

proof fn own_are_counted(a: Seq<usize>, b: Seq<usize>)
    ensures
        private(a, b).len() == n_own(a, b),
{
    selection_is_counted(a, private_in(a, b), |e: usize| !b.contains(e), a.len() as int);
    assert(a.take(a.len() as int) =~= a);
}

/// An artifact with more strokes than nodes is not planar. Two of them go to the
/// skeleton; beside one, the other is simplified alone.
pub proof fn crossing_streets_are_left_alone(
    i: usize,
    a: PairMember,
    j: usize,
    b: PairMember,
    coins: &CoinsResult,
)
    requires
        a.stroke_count > a.n_nodes || b.stroke_count > b.n_nodes,
    ensures
        solution(i, a, j, b, coins) == (if b.stroke_count <= b.n_nodes {
            PairSolution::Planar(j)
        } else if a.stroke_count <= a.n_nodes {
            PairSolution::Planar(i)
        } else {
            PairSolution::Skeleton
        }),
{
}

/// Planar artifacts without a common edge are skipped, those with several go to the
/// skeleton.
pub proof fn without_a_single_shared_edge(
    i: usize,
    a: PairMember,
    j: usize,
    b: PairMember,
    coins: &CoinsResult,
)
    requires
        a.stroke_count <= a.n_nodes,
        b.stroke_count <= b.n_nodes,
    ensures
        (forall|e: usize| !in_both(a.covered@, b.covered@, e)) ==> solution(i, a, j, b, coins)
            == PairSolution::Skip,
        (exists|e: usize, f: usize|
            e != f && #[trigger] in_both(a.covered@, b.covered@, e) && #[trigger] in_both(
                a.covered@,
                b.covered@,
                f,
            )) ==> solution(i, a, j, b, coins) == PairSolution::Skeleton,
{
    let p = a.covered@;
    let q = b.covered@;
    let both = shared(p, q);
    shared_is_in_both(p, q);
    if forall|e: usize| !in_both(p, q, e) {
        if both.len() > 0 {
            assert(p.contains(both[0]) && q.contains(both[0]));
            assert(in_both(p, q, both[0]));
        }
    }
    if exists|e: usize, f: usize| e != f && #[trigger] in_both(p, q, e) && #[trigger] in_both(p, q, f) {
        let (e, f) = choose|e: usize, f: usize|
            e != f && #[trigger] in_both(p, q, e) && #[trigger] in_both(p, q, f);
        assert(both.contains(e) && both.contains(f));
        let x = choose|x: int| 0 <= x < both.len() && both[x] == e;
        let y = choose|y: int| 0 <= y < both.len() && both[y] == f;
        assert(x != y);
    }
}

/// Two planar artifacts with one common edge. The edge is dropped where one of them has
/// just one other edge, or both see the common edge in the same way, unless both see it
/// continue: then they are simplified in turn. They go to the skeleton where they see the
/// edge differently, and only there.
pub proof fn a_single_shared_edge_decides(
    i: usize,
    a: PairMember,
    j: usize,
    b: PairMember,
    coins: &CoinsResult,
    edge: usize,
)
    requires
        a.stroke_count <= a.n_nodes,
        b.stroke_count <= b.n_nodes,
        in_both(a.covered@, b.covered@, edge),
        forall|e: usize| #[trigger] in_both(a.covered@, b.covered@, e) ==> e == edge,
    ensures
        ({
            let decided = solution(i, a, j, b, coins);
            let small = n_own(a.covered@, b.covered@) == 1 || n_own(b.covered@, a.covered@) == 1;
            let from_a = ces_type(a.covered@, edge, coins);
            let from_b = ces_type(b.covered@, edge, coins);
            &&& decided == PairSolution::DropInterline(edge) <==> small || (from_a == from_b
                && from_a != 'C')
            &&& decided == PairSolution::Iterate <==> !small && from_a == 'C' && from_b == 'C'
            &&& decided == PairSolution::Skeleton <==> !small && from_a != from_b
        }),
{
    let p = a.covered@;
    let q = b.covered@;
    let both = shared(p, q);
    shared_is_in_both(p, q);
    own_are_counted(p, q);
    own_are_counted(q, p);
    assert(both.contains(edge));
    assert forall|k: int| 0 <= k < both.len() implies #[trigger] both[k] == edge by {
        assert(in_both(p, q, both[k]));
    }
    assert(both.len() == 1) by {
        if both.len() > 1 {
            assert(both[0] == edge && both[1] == edge);
        }
    }
    assert(both[0] == edge);
}

/// Each decision is carried out and nothing else is done: the common edges to drop are
/// those of the decisions that drop one; of a pair that is simplified in turn the first
/// goes into the first pass and the second into the second; a planar artifact that is
/// simplified alone goes into the first pass; both artifacts of a pair that goes to the
/// skeleton go there.
pub proof fn decisions_are_carried_out(decisions: Seq<PairDecision>, place: int, n: int)
    requires
        0 <= n <= decisions.len(),
    ensures
        forall|e: usize| #[trigger]
            interlines_of(decisions, n).contains(e) <==> exists|k: int|
                0 <= k < n && (#[trigger] decisions[k]).solution == PairSolution::DropInterline(e),
        forall|x: usize| #[trigger]
            turns(decisions, place, n).contains(x) <==> exists|k: int|
                0 <= k < n && (#[trigger] decisions[k]).solution == PairSolution::Iterate
                    && decisions[k].members@[place] == x,
        forall|x: usize| #[trigger]
            planar_alone(decisions, n).contains(x) <==> exists|k: int|
                0 <= k < n && (#[trigger] decisions[k]).solution == PairSolution::Planar(x),
        forall|x: usize| #[trigger]
            skeletons(decisions, n).contains(x) <==> exists|k: int|
                0 <= k < n && (#[trigger] decisions[k]).solution == PairSolution::Skeleton
                    && decisions[k].members@.contains(x),
    decreases n,
{
    if n > 0 {
        decisions_are_carried_out(decisions, place, n - 1);
        let last = decisions[n - 1];
        assert forall|e: usize| #[trigger]
            interlines_of(decisions, n).contains(e) <==> exists|k: int|
                0 <= k < n && (#[trigger] decisions[k]).solution == PairSolution::DropInterline(
                    e,
                ) by {
            let before = interlines_of(decisions, n - 1);
            if last.solution is DropInterline {
                pushed(before, last.solution->DropInterline_0, e);
            }
            if before.contains(e) {
                let k = choose|k: int|
                    0 <= k < n - 1 && (#[trigger] decisions[k]).solution
                        == PairSolution::DropInterline(e);
                assert(0 <= k < n && decisions[k].solution == PairSolution::DropInterline(e));
            }
        }
        assert forall|x: usize| #[trigger]
            turns(decisions, place, n).contains(x) <==> exists|k: int|
                0 <= k < n && (#[trigger] decisions[k]).solution == PairSolution::Iterate
                    && decisions[k].members@[place] == x by {
            let before = turns(decisions, place, n - 1);
            pushed(before, last.members@[place], x);
            if before.contains(x) {
                let k = choose|k: int|
                    0 <= k < n - 1 && (#[trigger] decisions[k]).solution == PairSolution::Iterate
                        && decisions[k].members@[place] == x;
                assert(0 <= k < n && decisions[k].solution == PairSolution::Iterate);
            }
        }
        assert forall|x: usize| #[trigger]
            planar_alone(decisions, n).contains(x) <==> exists|k: int|
                0 <= k < n && (#[trigger] decisions[k]).solution == PairSolution::Planar(x) by {
            let before = planar_alone(decisions, n - 1);
            if last.solution is Planar {
                pushed(before, last.solution->Planar_0, x);
            }
            if before.contains(x) {
                let k = choose|k: int|
                    0 <= k < n - 1 && (#[trigger] decisions[k]).solution == PairSolution::Planar(
                        x,
                    );
                assert(0 <= k < n && decisions[k].solution == PairSolution::Planar(x));
            }
        }
        assert forall|x: usize| #[trigger]
            skeletons(decisions, n).contains(x) <==> exists|k: int|
                0 <= k < n && (#[trigger] decisions[k]).solution == PairSolution::Skeleton
                    && decisions[k].members@.contains(x) by {
            let before = skeletons(decisions, n - 1);
            joined_up(before, last.members@, x);
            if before.contains(x) {
                let k = choose|k: int|
                    0 <= k < n - 1 && (#[trigger] decisions[k]).solution == PairSolution::Skeleton
                        && decisions[k].members@.contains(x);
                assert(0 <= k < n && decisions[k].solution == PairSolution::Skeleton);
            }
        }
    }
}

proof fn pushed(s: Seq<usize>, last: usize, x: usize)
    ensures
        s.push(last).contains(x) <==> s.contains(x) || x == last,
{
    if s.contains(x) {
        let k = choose|k: int| 0 <= k < s.len() && s[k] == x;
        assert(s.push(last)[k] == x);
    }
    if x == last {
        assert(s.push(last)[s.len() as int] == x);
    }
    if s.push(last).contains(x) && x != last {
        let k = choose|k: int| 0 <= k < s.push(last).len() && s.push(last)[k] == x;
        assert(s[k] == x);
    }
}

proof fn joined_up(s: Seq<usize>, more: Seq<usize>, x: usize)
    ensures
        (s + more).contains(x) <==> s.contains(x) || more.contains(x),
{
    let all = s + more;
    if s.contains(x) {
        let k = choose|k: int| 0 <= k < s.len() && s[k] == x;
        assert(all[k] == x);
    }
    if more.contains(x) {
        let k = choose|k: int| 0 <= k < more.len() && more[k] == x;
        assert(all[s.len() + k] == x);
    }
    if all.contains(x) {
        let k = choose|k: int| 0 <= k < all.len() && all[k] == x;
        if k < s.len() {
            assert(s[k] == x);
        } else {
            assert(more[k - s.len()] == x);
        }
    }
}

/// A further decision is carried out after the others.
pub proof fn decisions_are_taken_in_order(
    decisions: Seq<PairDecision>,
    more: PairDecision,
    place: int,
)
    ensures
        ({
            let n = decisions.len() as int;
            let all = decisions.push(more);
            &&& interlines_of(all, n + 1) == interlines_of(decisions, n) + (match more.solution {
                PairSolution::DropInterline(edge) => seq![edge],
                _ => Seq::empty(),
            })
            &&& turns(all, place, n + 1) == turns(decisions, place, n) + (if more.solution
                == PairSolution::Iterate {
                seq![more.members@[place]]
            } else {
                Seq::empty()
            })
            &&& planar_alone(all, n + 1) == planar_alone(decisions, n) + (match more.solution {
                PairSolution::Planar(member) => seq![member],
                _ => Seq::empty(),
            })
            &&& skeletons(all, n + 1) == skeletons(decisions, n) + (if more.solution
                == PairSolution::Skeleton {
                more.members@
            } else {
                Seq::empty()
            })
        }),
{
    let n = decisions.len() as int;
    let all = decisions.push(more);
    taken_alike(decisions, all, place, n);
    assert(all[n] == more);
    assert(interlines_of(all, n + 1) =~= interlines_of(decisions, n) + (match more.solution {
        PairSolution::DropInterline(edge) => seq![edge],
        _ => Seq::empty(),
    }));
    assert(turns(all, place, n + 1) =~= turns(decisions, place, n) + (if more.solution
        == PairSolution::Iterate {
        seq![more.members@[place]]
    } else {
        Seq::empty()
    }));
    assert(planar_alone(all, n + 1) =~= planar_alone(decisions, n) + (match more.solution {
        PairSolution::Planar(member) => seq![member],
        _ => Seq::empty(),
    }));
    assert(skeletons(all, n + 1) =~= skeletons(decisions, n) + (if more.solution
        == PairSolution::Skeleton {
        more.members@
    } else {
        Seq::empty()
    }));
}

proof fn taken_alike(a: Seq<PairDecision>, b: Seq<PairDecision>, place: int, n: int)
    requires
        forall|k: int| 0 <= k < n ==> #[trigger] a[k] == b[k],
    ensures
        interlines_of(a, n) == interlines_of(b, n),
        turns(a, place, n) == turns(b, place, n),
        planar_alone(a, n) == planar_alone(b, n),
        skeletons(a, n) == skeletons(b, n),
    decreases n,
{
    if n > 0 {
        taken_alike(a, b, place, n - 1);
        assert(a[n - 1] == b[n - 1]);
    }
}

/// The merged artifacts are numbered without a gap after those that were there.
pub proof fn merged_artifacts_follow_the_others(n_artifacts: usize, merged: Seq<bool>, n: int)
    requires
        0 <= n <= merged.len(),
        n_artifacts + merged.len() <= usize::MAX,
    ensures
        merged_numbers(n_artifacts, merged, n).len() == merged.take(n).filter(
            |is_merged: bool| is_merged,
        ).len(),
        merged_numbers(n_artifacts, merged, n).len() <= n,
        forall|k: int|
            0 <= k < merged_numbers(n_artifacts, merged, n).len() ==> #[trigger] merged_numbers(
                n_artifacts,
                merged,
                n,
            )[k] == n_artifacts + k,
    decreases n,
{
    reveal(Seq::filter);
    if n > 0 {
        merged_artifacts_follow_the_others(n_artifacts, merged, n - 1);
        assert(merged.take(n).drop_last() =~= merged.take(n - 1));
        assert(merged.take(n).last() == merged[n - 1]);
        let before = merged_numbers(n_artifacts, merged, n - 1);
        assert forall|k: int|
            0 <= k < merged_numbers(n_artifacts, merged, n).len() implies #[trigger] merged_numbers(
            n_artifacts,
            merged,
            n,
        )[k] == n_artifacts + k by {
            if k < before.len() {
                assert(before[k] == n_artifacts + k);
            }
        }
    }
}

/// The polygon that stands for a union: none is larger, and those after it are smaller.
pub proof fn the_last_of_the_largest_stands_for_all(areas: Seq<Measure>, n: int)
    requires
        1 <= n <= areas.len(),
        forall|k: int| 0 <= k < n ==> !(#[trigger] areas[k]).nan(),
    ensures
        0 <= greatest(areas, n) < n,
        forall|k: int| 0 <= k < n ==> (#[trigger] areas[k]).at_most(areas[greatest(areas, n)]),
        forall|k: int|
            greatest(areas, n) < k < n ==> (#[trigger] areas[k]).below(areas[greatest(areas, n)]),
    decreases n,
{
    crate::pairs::greatest_is_greatest(areas, n);
    if n > 1 {
        the_last_of_the_largest_stands_for_all(areas, n - 1);
    }
}

/// Where each artifact goes. The first pass takes the merged ones, the first of each pair that is
/// simplified in turn and the planar one of each mixed pair, in this order; the second pass takes
/// the second of each pair that is simplified in turn; both artifacts of a pair that goes to the
/// skeleton go there. No pass takes anything else.
pub proof fn every_decision_finds_its_pass(
    decisions: Seq<PairDecision>,
    n_artifacts: usize,
    merged: Seq<bool>,
)
    requires
        n_artifacts + merged.len() <= usize::MAX,
    ensures
        ({
            let first = first_pass(decisions, n_artifacts, merged);
            let m = merged.filter(|is_merged: bool| is_merged).len() as int;
            &&& m <= first.len()
            &&& forall|k: int| 0 <= k < m ==> #[trigger] first[k] == n_artifacts + k
            &&& forall|x: usize| #[trigger]
                first.skip(m).contains(x) <==> exists|k: int|
                    0 <= k < decisions.len() && ((#[trigger] decisions[k]).solution
                        == PairSolution::Planar(x) || (decisions[k].solution
                        == PairSolution::Iterate && decisions[k].members@[0] == x))
            &&& forall|x: usize| #[trigger]
                second_pass(decisions).contains(x) <==> exists|k: int|
                    0 <= k < decisions.len() && (#[trigger] decisions[k]).solution
                        == PairSolution::Iterate && decisions[k].members@[1] == x
            &&& forall|x: usize| #[trigger]
                skeleton_pass(decisions).contains(x) <==> exists|k: int|
                    0 <= k < decisions.len() && (#[trigger] decisions[k]).solution
                        == PairSolution::Skeleton && decisions[k].members@.contains(x)
        }),
{
    let n = decisions.len() as int;
    let numbers = merged_numbers(n_artifacts, merged, merged.len() as int);
    let first = first_pass(decisions, n_artifacts, merged);
    let m = numbers.len() as int;
    merged_artifacts_follow_the_others(n_artifacts, merged, merged.len() as int);
    assert(merged.take(merged.len() as int) =~= merged);
    decisions_are_carried_out(decisions, 0, n);
    decisions_are_carried_out(decisions, 1, n);
    let starts = turns(decisions, 0, n);
    let alone = planar_alone(decisions, n);
    assert(first.skip(m) =~= starts + alone);
    assert forall|k: int| 0 <= k < m implies #[trigger] first[k] == n_artifacts + k by {
        assert(numbers[k] == n_artifacts + k);
    }
    assert forall|x: usize| #[trigger] first.skip(m).contains(x) <==> exists|k: int|
        0 <= k < decisions.len() && ((#[trigger] decisions[k]).solution == PairSolution::Planar(x)
            || (decisions[k].solution == PairSolution::Iterate && decisions[k].members@[0]
            == x)) by {
        joined_up(starts, alone, x);
        if starts.contains(x) {
            let k = choose|k: int|
                0 <= k < n && (#[trigger] decisions[k]).solution == PairSolution::Iterate
                    && decisions[k].members@[0] == x;
            assert(decisions[k].solution == PairSolution::Iterate);
        }
        if alone.contains(x) {
            let k = choose|k: int|
                0 <= k < n && (#[trigger] decisions[k]).solution == PairSolution::Planar(x);
            assert(decisions[k].solution == PairSolution::Planar(x));
        }
    }
}

/// A decision names the artifacts of its group. Only a pair is simplified, and as its two
/// artifacts ask for; any other group is skipped.
pub proof fn only_pairs_are_simplified(
    decision: PairDecision,
    group: Seq<usize>,
    artifact_indices: Seq<usize>,
    members: Seq<PairMember>,
    coins: &CoinsResult,
)
    requires
        decides(decision, group, artifact_indices, members, coins),
    ensures
        decision.members@ == Seq::new(
            group.len(),
            |k: int| artifact_indices[group[k] as int],
        ),
        group.len() != 2 ==> decision.solution == PairSolution::Skip,
        group.len() == 2 ==> decision.solution == solution(
            decision.members@[0],
            members[group[0] as int],
            decision.members@[1],
            members[group[1] as int],
            coins,
        ),
{
    assert(decision.members@ =~= Seq::new(
        group.len(),
        |k: int| artifact_indices[group[k] as int],
    ));
}

} // verus!
