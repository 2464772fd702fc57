//! How strokes pass an artifact: they continue (C), end (E) or stand alone (S).
use crate::lists::select;
use crate::types::{CesInfo, CoinsResult};
use vstd::prelude::*;

verus! {

/// How many of the first `n` covered edges belong to the group `g`.
pub open spec fn group_size(covered: Seq<usize>, group: Seq<usize>, g: usize, n: int) -> nat
    decreases n,
{
    if n <= 0 {
        0
    } else if group[covered[n - 1] as int] == g {
        group_size(covered, group, g, n - 1) + 1
    } else {
        group_size(covered, group, g, n - 1)
    }
}

/// Whether one of the covered edges ends the group `g`.
pub open spec fn ends(covered: Seq<usize>, coins: &CoinsResult, g: usize) -> bool {
    exists|k: int|
        0 <= k < covered.len() && coins.is_end@[#[trigger] covered[k] as int]
            && coins.group@[covered[k] as int] == g
}

/// Whether the covered edges all belong to one group.
pub open spec fn one_group(covered: Seq<usize>, coins: &CoinsResult) -> bool {
    forall|k: int|
        0 <= k < covered.len() ==> coins.group@[#[trigger] covered[k] as int]
            == coins.group@[covered[0] as int]
}

/// Whether the covered edges are one whole stroke, as around a roundabout.
pub open spec fn roundabout(covered: Seq<usize>, coins: &CoinsResult) -> bool {
    &&& covered.len() > 0
    &&& one_group(covered, coins)
    &&& covered.len() == coins.stroke_count@[covered[0] as int]
}

/// The first covered edge at or after position `k` that belongs to the group `g`.
pub open spec fn first_of_group(covered: Seq<usize>, group: Seq<usize>, g: usize, k: int) -> int
    decreases covered.len() - k,
{
    if k >= covered.len() || group[covered[k] as int] == g {
        k
    } else {
        first_of_group(covered, group, g, k + 1)
    }
}

/// Whether a group ends here with all its edges inside the artifact.
pub open spec fn alone(covered: Seq<usize>, coins: &CoinsResult, g: usize) -> bool {
    &&& ends(covered, coins, g)
    &&& group_size(covered, coins.group@, g, covered.len() as int)
        == coins.stroke_count@[covered[first_of_group(covered, coins.group@, g, 0)] as int]
}

/// The covered edges whose group passes on.
pub open spec fn continuing(covered: Seq<usize>, coins: &CoinsResult) -> spec_fn(int) -> bool {
    |k: int| !ends(covered, coins, coins.group@[covered[k] as int])
}

/// The covered edges whose group ends here and has edges elsewhere.
pub open spec fn ending(covered: Seq<usize>, coins: &CoinsResult) -> spec_fn(int) -> bool {
    |k: int|
        ends(covered, coins, coins.group@[covered[k] as int]) && !alone(
            covered,
            coins,
            coins.group@[covered[k] as int],
        )
}

/// The covered edges whose group lies within the artifact.
pub open spec fn standing(covered: Seq<usize>, coins: &CoinsResult) -> spec_fn(int) -> bool {
    |k: int| alone(covered, coins, coins.group@[covered[k] as int])
}

/// The covered edges whose group ends here.
pub open spec fn not_continuing(covered: Seq<usize>, coins: &CoinsResult) -> spec_fn(int) -> bool {
    |k: int| ends(covered, coins, coins.group@[covered[k] as int])
}

/// How a shared edge looks from an artifact: `'C'`, `'E'` or `'S'`.
pub open spec fn ces_type(covered: Seq<usize>, shared: usize, coins: &CoinsResult) -> char {
    let g = coins.group@[shared as int];
    if covered.len() == 0 || roundabout(covered, coins) {
        'S'
    } else if !ends(covered, coins, g) {
        'C'
    } else if coins.stroke_count@[shared as int] == group_size(
        covered,
        coins.group@,
        g,
        covered.len() as int,
    ) {
        'S'
    } else {
        'E'
    }
}

fn count_in_group(covered: &Vec<usize>, coins: &CoinsResult, g: usize) -> (r: usize)
    requires
        coins.knows(covered@),
    ensures
        r == group_size(covered@, coins.group@, g, covered@.len() as int),
{
    let mut r: usize = 0;
    let mut k: usize = 0;
    while k < covered.len()
        invariant
            k <= covered@.len(),
            coins.knows(covered@),
            r <= k,
            r == group_size(covered@, coins.group@, g, k as int),
        decreases covered.len() - k,
    {
        assert(coins.has(covered@[k as int]));
        if coins.group[covered[k]] == g {
            r = r + 1;
        }
        k = k + 1;
    }
    r
}

fn ends_here(covered: &Vec<usize>, coins: &CoinsResult, g: usize) -> (r: bool)
    requires
        coins.knows(covered@),
    ensures
        r == ends(covered@, coins, g),
{
    let mut k: usize = 0;
    while k < covered.len()
        invariant
            k <= covered@.len(),
            coins.knows(covered@),
            forall|j: int|
                0 <= j < k ==> !(coins.is_end@[#[trigger] covered@[j] as int]
                    && coins.group@[covered@[j] as int] == g),
        decreases covered.len() - k,
    {
        assert(coins.has(covered@[k as int]));
        if coins.is_end[covered[k]] && coins.group[covered[k]] == g {
            return true;
        }
        k = k + 1;
    }
    false
}

fn is_roundabout(covered: &Vec<usize>, coins: &CoinsResult) -> (r: bool)
    requires
        coins.knows(covered@),
    ensures
        r == roundabout(covered@, coins),
{
    if covered.len() == 0 {
        return false;
    }
    assert(coins.has(covered@[0]));
    let first = coins.group[covered[0]];
    let mut k: usize = 0;
    while k < covered.len()
        invariant
            k <= covered@.len(),
            covered@.len() > 0,
            coins.knows(covered@),
            first == coins.group@[covered@[0] as int],
            forall|j: int|
                0 <= j < k ==> coins.group@[#[trigger] covered@[j] as int] == first,
        decreases covered.len() - k,
    {
        assert(coins.has(covered@[k as int]));
        if coins.group[covered[k]] != first {
            return false;
        }
        k = k + 1;
    }
    covered.len() == coins.stroke_count[covered[0]]
}

fn is_alone(covered: &Vec<usize>, coins: &CoinsResult, g: usize) -> (r: bool)
    requires
        coins.knows(covered@),
    ensures
        r == alone(covered@, coins, g),
{
    if !ends_here(covered, coins, g) {
        return false;
    }
    let mut k: usize = 0;
    while k < covered.len() && coins.group[covered[k]] != g
        invariant
            k <= covered@.len(),
            coins.knows(covered@),
            first_of_group(covered@, coins.group@, g, k as int) == first_of_group(
                covered@,
                coins.group@,
                g,
                0,
            ),
            forall|j: int|
                0 <= j < k ==> coins.group@[#[trigger] covered@[j] as int] != g,
        decreases covered.len() - k,
    {
        k = k + 1;
    }
    assert(k < covered@.len());
    assert(coins.has(covered@[k as int]));
    count_in_group(covered, coins, g) == coins.stroke_count[covered[k]]
}

/// Classifies a shared edge from an artifact's point of view: `'C'` where its
/// stroke passes on, `'S'` where the stroke lies within the artifact or the
/// artifact is a roundabout, `'E'` where the stroke ends here.
pub fn get_ces_type(covered_indices: &Vec<usize>, shared_idx: usize, coins: &CoinsResult) -> (r:
    char)
    requires
        coins.knows(covered_indices@),
        covered_indices@.len() > 0 && !roundabout(covered_indices@, coins) ==> coins.has(
            shared_idx,
        ),
    ensures
        r == ces_type(covered_indices@, shared_idx, coins),
{
    if covered_indices.len() == 0 || is_roundabout(covered_indices, coins) {
        return 'S';
    }
    let g = coins.group[shared_idx];
    if !ends_here(covered_indices, coins, g) {
        return 'C';
    }
    if coins.stroke_count[shared_idx] == count_in_group(covered_indices, coins, g) {
        return 'S';
    }
    'E'
}

/// Sorts the covered edges of an artifact by their strokes: those that continue,
/// those that end, those that stand alone, then those that are to be dropped
/// (the second and the third kind) and those that are to be kept (the first).
pub fn classify_ces_edges(covered_edges: &Vec<usize>, coins_result: &CoinsResult) -> (r: (
    Vec<usize>,
    Vec<usize>,
    Vec<usize>,
    Vec<usize>,
    Vec<usize>,
))
    requires
        coins_result.knows(covered_edges@),
    ensures
        r.0@ == select(
            covered_edges@,
            continuing(covered_edges@, coins_result),
            covered_edges@.len() as int,
        ),
        r.1@ == select(
            covered_edges@,
            ending(covered_edges@, coins_result),
            covered_edges@.len() as int,
        ),
        r.2@ == select(
            covered_edges@,
            standing(covered_edges@, coins_result),
            covered_edges@.len() as int,
        ),
        r.3@ == select(
            covered_edges@,
            not_continuing(covered_edges@, coins_result),
            covered_edges@.len() as int,
        ),
        r.4@ == r.0@,
{
    let ghost c = continuing(covered_edges@, coins_result);
    let ghost e = ending(covered_edges@, coins_result);
    let ghost s = standing(covered_edges@, coins_result);
    let ghost es = not_continuing(covered_edges@, coins_result);
    let mut c_edges: Vec<usize> = Vec::new();
    let mut e_edges: Vec<usize> = Vec::new();
    let mut s_edges: Vec<usize> = Vec::new();
    let mut es_mask: Vec<usize> = Vec::new();
    let mut highest: Vec<usize> = Vec::new();
    let mut k: usize = 0;
    while k < covered_edges.len()
        invariant
            k <= covered_edges@.len(),
            coins_result.knows(covered_edges@),
            c == continuing(covered_edges@, coins_result),
            e == ending(covered_edges@, coins_result),
            s == standing(covered_edges@, coins_result),
            es == not_continuing(covered_edges@, coins_result),
            c_edges@ == select(covered_edges@, c, k as int),
            e_edges@ == select(covered_edges@, e, k as int),
            s_edges@ == select(covered_edges@, s, k as int),
            es_mask@ == select(covered_edges@, es, k as int),
            highest@ == c_edges@,
        decreases covered_edges.len() - k,
    {
        let i = covered_edges[k];
        assert(coins_result.has(covered_edges@[k as int]));
        let g = coins_result.group[i];
        if !ends_here(covered_edges, coins_result, g) {
            assert(c(k as int) && !e(k as int) && !s(k as int) && !es(k as int));
            c_edges.push(i);
            highest.push(i);
        } else if is_alone(covered_edges, coins_result, g) {
            assert(!c(k as int) && !e(k as int) && s(k as int) && es(k as int));
            s_edges.push(i);
            es_mask.push(i);
        } else {
            assert(!c(k as int) && e(k as int) && !s(k as int) && es(k as int));
            e_edges.push(i);
            es_mask.push(i);
        }
        k = k + 1;
    }
    (c_edges, e_edges, s_edges, es_mask, highest)
}

/// Whether all strokes pass in the same way: at most one of the three kinds
/// occurs.
pub open spec fn identical(ces: CesInfo) -> bool {
    &&& ces.c > 0 ==> ces.e == 0 && ces.s == 0
    &&& ces.e > 0 ==> ces.s == 0
}

/// Whether a classification holds strokes of one kind at most.
pub fn is_identical_ces(ces: &CesInfo) -> (r: bool)
    ensures
        r == identical(*ces),
{
    let c: u8 = if ces.c > 0 { 1 } else { 0 };
    let e: u8 = if ces.e > 0 { 1 } else { 0 };
    let s: u8 = if ces.s > 0 { 1 } else { 0 };
    c + e + s <= 1
}

/// Every covered edge is kept or dropped, and a dropped edge ends or stands
/// alone: the three kinds share the covered edges out among them.
pub proof fn kinds_share_out_the_edges(covered: Seq<usize>, coins: &CoinsResult)
    ensures
        ({
            let n = covered.len() as int;
            let c = select(covered, continuing(covered, coins), n);
            let e = select(covered, ending(covered, coins), n);
            let s = select(covered, standing(covered, coins), n);
            let es = select(covered, not_continuing(covered, coins), n);
            &&& c.len() + e.len() + s.len() == n
            &&& es.len() == e.len() + s.len()
            &&& c.to_multiset().add(es.to_multiset()) == covered.to_multiset()
            &&& e.to_multiset().add(s.to_multiset()) == es.to_multiset()
        }),
{
    kinds_share_out_first(covered, coins, covered.len() as int);
    assert(covered.take(covered.len() as int) =~= covered);
}

proof fn kinds_share_out_first(covered: Seq<usize>, coins: &CoinsResult, n: int)
    requires
        0 <= n <= covered.len(),
    ensures
        ({
            let c = select(covered, continuing(covered, coins), n);
            let e = select(covered, ending(covered, coins), n);
            let s = select(covered, standing(covered, coins), n);
            let es = select(covered, not_continuing(covered, coins), n);
            &&& c.len() + e.len() + s.len() == n
            &&& es.len() == e.len() + s.len()
            &&& c.to_multiset().add(es.to_multiset()) == covered.take(n).to_multiset()
            &&& e.to_multiset().add(s.to_multiset()) == es.to_multiset()
        }),
    decreases n,
{
    broadcast use vstd::multiset::group_multiset_axioms;
    let c = select(covered, continuing(covered, coins), n);
    let e = select(covered, ending(covered, coins), n);
    let s = select(covered, standing(covered, coins), n);
    let es = select(covered, not_continuing(covered, coins), n);
    if n == 0 {
        assert(covered.take(0) =~= Seq::empty());
        assert(c =~= Seq::empty() && e =~= Seq::empty() && s =~= Seq::empty() && es =~= Seq::empty());
        assert(Seq::<usize>::empty().to_multiset() =~= vstd::multiset::Multiset::empty()) by {
            broadcast use vstd::seq_lib::group_to_multiset_ensures;
            assert(Seq::<usize>::empty().to_multiset().len() == 0);
        }
        assert(c.to_multiset().add(es.to_multiset()) =~= covered.take(n).to_multiset());
        assert(e.to_multiset().add(s.to_multiset()) =~= es.to_multiset());
    } else {
        kinds_share_out_first(covered, coins, n - 1);
        let c0 = select(covered, continuing(covered, coins), n - 1);
        let e0 = select(covered, ending(covered, coins), n - 1);
        let s0 = select(covered, standing(covered, coins), n - 1);
        let es0 = select(covered, not_continuing(covered, coins), n - 1);
        let x = covered[n - 1];
        assert(covered.take(n) =~= covered.take(n - 1).push(x));
        vstd::seq_lib::to_multiset_build(covered.take(n - 1), x);
        vstd::seq_lib::to_multiset_build(c0, x);
        vstd::seq_lib::to_multiset_build(e0, x);
        vstd::seq_lib::to_multiset_build(s0, x);
        vstd::seq_lib::to_multiset_build(es0, x);
        assert(continuing(covered, coins)(n - 1) == !not_continuing(covered, coins)(n - 1));
        assert(not_continuing(covered, coins)(n - 1) == (ending(covered, coins)(n - 1) || standing(
            covered,
            coins,
        )(n - 1)));
        assert(!(ending(covered, coins)(n - 1) && standing(covered, coins)(n - 1)));
        assert(c.to_multiset().add(es.to_multiset()) =~= covered.take(n).to_multiset());
        assert(e.to_multiset().add(s.to_multiset()) =~= es.to_multiset());
    }
}

/// Two covered edges of one group are of the same kind.
pub proof fn groups_stay_together(covered: Seq<usize>, coins: &CoinsResult, i: int, j: int)
    requires
        0 <= i < covered.len(),
        0 <= j < covered.len(),
        coins.group@[covered[i] as int] == coins.group@[covered[j] as int],
    ensures
        continuing(covered, coins)(i) == continuing(covered, coins)(j),
        ending(covered, coins)(i) == ending(covered, coins)(j),
        standing(covered, coins)(i) == standing(covered, coins)(j),
{
}

/// The two classifications agree: as long as all edges of a group carry the same
/// stroke count, an artifact sees a covered edge as the kind that the edge is sorted
/// into. Around a roundabout, where a whole stroke is seen as standing alone, one of
/// the edges has to be an end.
pub proof fn seen_as_sorted(covered: Seq<usize>, coins: &CoinsResult, k: int)
    requires
        0 <= k < covered.len(),
        roundabout(covered, coins) ==> exists|j: int|
            0 <= j < covered.len() && coins.is_end@[#[trigger] covered[j] as int],
        forall|i: int, j: int|
            0 <= i < covered.len() && 0 <= j < covered.len()
                && coins.group@[#[trigger] covered[i] as int]
                == coins.group@[#[trigger] covered[j] as int]
                ==> coins.stroke_count@[covered[i] as int]
                == coins.stroke_count@[covered[j] as int],
    ensures
        ces_type(covered, covered[k], coins) == 'C' <==> continuing(covered, coins)(k),
        ces_type(covered, covered[k], coins) == 'E' <==> ending(covered, coins)(k),
        ces_type(covered, covered[k], coins) == 'S' <==> standing(covered, coins)(k),
{
    let g = coins.group@[covered[k] as int];
    first_of_group_found(covered, coins.group@, g, 0, k);
    let f = first_of_group(covered, coins.group@, g, 0);
    assert(coins.stroke_count@[covered[f] as int] == coins.stroke_count@[covered[k] as int]);
    if roundabout(covered, coins) {
        let j = choose|j: int|
            0 <= j < covered.len() && coins.is_end@[#[trigger] covered[j] as int];
        assert(coins.group@[covered[j] as int] == coins.group@[covered[0] as int]);
        assert(coins.group@[covered[k] as int] == coins.group@[covered[0] as int]);
        assert(ends(covered, coins, g));
        whole_group(covered, coins.group@, g, covered.len() as int);
        assert(coins.stroke_count@[covered[0] as int] == coins.stroke_count@[covered[k] as int]);
    }
}

proof fn whole_group(covered: Seq<usize>, group: Seq<usize>, g: usize, n: int)
    requires
        0 <= n <= covered.len(),
        forall|k: int| 0 <= k < n ==> group[#[trigger] covered[k] as int] == g,
    ensures
        group_size(covered, group, g, n) == n,
    decreases n,
{
    if n > 0 {
        whole_group(covered, group, g, n - 1);
        assert(group[covered[n - 1] as int] == g);
    }
}

pub(crate) proof fn first_of_group_found(covered: Seq<usize>, group: Seq<usize>, g: usize, from: int, k: int)
    requires
        0 <= from <= k < covered.len(),
        group[covered[k] as int] == g,
    ensures
        from <= first_of_group(covered, group, g, from) <= k,
        group[covered[first_of_group(covered, group, g, from)] as int] == g,
    decreases k - from,
{
    if group[covered[from] as int] != g {
        first_of_group_found(covered, group, g, from + 1, k);
    }
}

} // verus!
