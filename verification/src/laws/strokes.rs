//! How strokes pass an artifact.
use crate::ces::{
    ces_type, continuing, ending, ends, first_of_group, first_of_group_found, group_size,
    identical, not_continuing, roundabout, standing,
};
use crate::laws::selections::{lists_exactly, selection_lists};
use crate::lists::select;
use crate::types::{CesInfo, CoinsResult};
use vstd::prelude::*;

verus! {

/// The stroke of the edge `e` passes on: none of the covered edges that belong to it
/// is an end of it.
pub open spec fn passes_on(covered: Seq<usize>, coins: &CoinsResult, e: usize) -> bool {
    forall|j: int|
        0 <= j < covered.len() && coins.group@[#[trigger] covered[j] as int]
            == coins.group@[e as int] ==> !coins.is_end@[covered[j] as int]
}

/// The covered edges that belong to the stroke of the edge `e`.
pub open spec fn of_stroke(covered: Seq<usize>, coins: &CoinsResult, e: usize) -> Seq<usize> {
    covered.filter(|x: usize| coins.group@[x as int] == coins.group@[e as int])
}

/// The edge at `k` is the first of the covered ones that belongs to its stroke.
pub open spec fn leads(covered: Seq<usize>, coins: &CoinsResult, k: int) -> bool {
    forall|j: int|
        0 <= j < k ==> coins.group@[#[trigger] covered[j] as int]
            != coins.group@[covered[k] as int]
}

/// All covered edges belong to one stroke, which has no others.
pub open spec fn whole_stroke(covered: Seq<usize>, coins: &CoinsResult) -> bool {
    &&& covered.len() > 0
    &&& coins.stroke_count@[covered[0] as int] == covered.len()
    &&& forall|i: int, j: int|
        0 <= i < covered.len() && 0 <= j < covered.len()
            ==> coins.group@[#[trigger] covered[i] as int]
            == coins.group@[#[trigger] covered[j] as int]
}

proof fn group_is_counted(covered: Seq<usize>, coins: &CoinsResult, e: usize, n: int)
    requires
        0 <= n <= covered.len(),
    ensures
        group_size(covered, coins.group@, coins.group@[e as int], n) == of_stroke(
            covered.take(n),
            coins,
            e,
        ).len(),
    decreases n,
{
    reveal(Seq::filter);
    if n > 0 {
        group_is_counted(covered, coins, e, n - 1);
        assert(covered.take(n).drop_last() =~= covered.take(n - 1));
        assert(covered.take(n).last() == covered[n - 1]);
    }
}

proof fn counted_whole(covered: Seq<usize>, coins: &CoinsResult, e: usize)
    ensures
        group_size(covered, coins.group@, coins.group@[e as int], covered.len() as int)
            == of_stroke(covered, coins, e).len(),
{
    group_is_counted(covered, coins, e, covered.len() as int);
    assert(covered.take(covered.len() as int) =~= covered);
}

pub(crate) proof fn ends_or_passes(covered: Seq<usize>, coins: &CoinsResult, e: usize)
    ensures
        ends(covered, coins, coins.group@[e as int]) <==> !passes_on(covered, coins, e),
{
    if ends(covered, coins, coins.group@[e as int]) {
        let k = choose|k: int|
            0 <= k < covered.len() && coins.is_end@[#[trigger] covered[k] as int]
                && coins.group@[covered[k] as int] == coins.group@[e as int];
        assert(coins.is_end@[covered[k] as int]);
    }
}

/// An artifact sees an edge as continuing exactly where the edge's stroke passes on,
/// as standing alone where all edges of the stroke are covered, and as ending
/// otherwise. Where nothing is covered, or one whole stroke and nothing else, every
/// edge stands alone.
pub proof fn edges_are_seen_by_stroke(covered: Seq<usize>, shared: usize, coins: &CoinsResult)
    ensures
        ({
            let seen = ces_type(covered, shared, coins);
            let closed = covered.len() == 0 || whole_stroke(covered, coins);
            let all_inside = of_stroke(covered, coins, shared).len()
                == coins.stroke_count@[shared as int];
            let passing = passes_on(covered, coins, shared);
            &&& seen == 'C' <==> !closed && passing
            &&& seen == 'S' <==> closed || (!passing && all_inside)
            &&& seen == 'E' <==> !closed && !passing && !all_inside
        }),
{
    counted_whole(covered, coins, shared);
    ends_or_passes(covered, coins, shared);
    assert(roundabout(covered, coins) <==> whole_stroke(covered, coins)) by {
        if roundabout(covered, coins) {
            assert forall|i: int, j: int|
                0 <= i < covered.len() && 0 <= j < covered.len() implies coins.group@[
                #[trigger] covered[i] as int] == coins.group@[#[trigger] covered[j] as int] by {
                assert(coins.group@[covered[i] as int] == coins.group@[covered[0] as int]);
                assert(coins.group@[covered[j] as int] == coins.group@[covered[0] as int]);
            }
        }
        if whole_stroke(covered, coins) {
            assert forall|k: int| 0 <= k < covered.len() implies coins.group@[
                #[trigger] covered[k] as int] == coins.group@[covered[0] as int] by {
                assert(0 <= 0 < covered.len());
            }
        }
    }
}

/// The covered edges are sorted by their strokes. The edges of strokes that pass on
/// continue and stay; all others go. Of these, the edges of a stroke that is covered
/// as a whole stand alone, and the rest end.
pub proof fn edges_are_sorted_by_stroke(covered: Seq<usize>, coins: &CoinsResult)
    ensures
        ({
            let n = covered.len() as int;
            let alone_here = |k: int|
                exists|f: int|
                    0 <= f < covered.len() && leads(covered, coins, f) && coins.group@[
                    #[trigger] covered[f] as int] == coins.group@[covered[k] as int]
                        && coins.stroke_count@[covered[f] as int] == of_stroke(
                        covered,
                        coins,
                        covered[k],
                    ).len();
            &&& lists_exactly(
                select(covered, continuing(covered, coins), n),
                covered,
                |k: int| passes_on(covered, coins, covered[k]),
            )
            &&& lists_exactly(
                select(covered, not_continuing(covered, coins), n),
                covered,
                |k: int| !passes_on(covered, coins, covered[k]),
            )
            &&& lists_exactly(
                select(covered, standing(covered, coins), n),
                covered,
                |k: int| !passes_on(covered, coins, covered[k]) && alone_here(k),
            )
            &&& lists_exactly(
                select(covered, ending(covered, coins), n),
                covered,
                |k: int| !passes_on(covered, coins, covered[k]) && !alone_here(k),
            )
        }),
{
    let alone_here = |k: int|
        exists|f: int|
            0 <= f < covered.len() && leads(covered, coins, f) && coins.group@[
            #[trigger] covered[f] as int] == coins.group@[covered[k] as int]
                && coins.stroke_count@[covered[f] as int] == of_stroke(
                covered,
                coins,
                covered[k],
            ).len();
    let stays = |k: int| passes_on(covered, coins, covered[k]);
    let goes = |k: int| !passes_on(covered, coins, covered[k]);
    let stands = |k: int| !passes_on(covered, coins, covered[k]) && alone_here(k);
    let stops = |k: int| !passes_on(covered, coins, covered[k]) && !alone_here(k);
    assert forall|k: int| 0 <= k < covered.len() implies {
        &&& #[trigger] continuing(covered, coins)(k) == stays(k)
        &&& not_continuing(covered, coins)(k) == goes(k)
        &&& standing(covered, coins)(k) == stands(k)
        &&& ending(covered, coins)(k) == stops(k)
    } by {
        let e = covered[k];
        let g = coins.group@[e as int];
        ends_or_passes(covered, coins, e);
        counted_whole(covered, coins, e);
        first_of_group_found(covered, coins.group@, g, 0, k);
        let f = first_of_group(covered, coins.group@, g, 0);
        first_of_group_leads(covered, coins.group@, g, 0);
        assert(leads(covered, coins, f));
        if alone_here(k) {
            let h = choose|h: int|
                0 <= h < covered.len() && leads(covered, coins, h) && coins.group@[
                #[trigger] covered[h] as int] == coins.group@[covered[k] as int]
                    && coins.stroke_count@[covered[h] as int] == of_stroke(
                    covered,
                    coins,
                    covered[k],
                ).len();
            if h < f {
                assert(coins.group@[covered[h] as int] != g);
            } else if f < h {
                assert(coins.group@[covered[f] as int] != g);
            }
        }
    }
    assert forall|k: int| 0 <= k < covered.len() implies (#[trigger] not_continuing(
        covered,
        coins,
    )(k) <==> goes(k)) by {
        assert(continuing(covered, coins)(k) == stays(k));
    }
    assert forall|k: int| 0 <= k < covered.len() implies (#[trigger] standing(covered, coins)(k)
        <==> stands(k)) by {
        assert(continuing(covered, coins)(k) == stays(k));
    }
    assert forall|k: int| 0 <= k < covered.len() implies (#[trigger] ending(covered, coins)(k)
        <==> stops(k)) by {
        assert(continuing(covered, coins)(k) == stays(k));
    }
    selection_lists(covered, continuing(covered, coins), stays);
    selection_lists(covered, not_continuing(covered, coins), goes);
    selection_lists(covered, standing(covered, coins), stands);
    selection_lists(covered, ending(covered, coins), stops);
}

proof fn first_of_group_leads(covered: Seq<usize>, group: Seq<usize>, g: usize, from: int)
    requires
        0 <= from <= covered.len(),
    ensures
        forall|j: int|
            from <= j < first_of_group(covered, group, g, from)
                ==> group[#[trigger] covered[j] as int] != g,
    decreases covered.len() - from,
{
    if from < covered.len() && group[covered[from] as int] != g {
        first_of_group_leads(covered, group, g, from + 1);
    }
}

/// Strokes are of one kind unless two kinds occur.
pub proof fn one_kind_at_most(ces: CesInfo)
    ensures
        identical(ces) <==> !(ces.c > 0 && ces.e > 0) && !(ces.c > 0 && ces.s > 0) && !(ces.e > 0
            && ces.s > 0),
{
}

} // verus!
