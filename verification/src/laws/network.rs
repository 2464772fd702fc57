//! How edges of a network are dropped, added and cleaned up.
use crate::laws::selections::{list_is_selection, listed_are_wanted, lists_exactly};
use crate::lists::{
    select, select_holds_kept, strictly_ascending, swap_removed, sweep_keeps_unmarked, swept,
    swept_from, unmarked,
};
use crate::measure::Measure;
use crate::network::{
    changed, dropped_parents, dropped_parents_exist, drops_descendant, is_change, measured, named,
    proper, pruned, unmeasured,
};
use crate::types::{Coord, Edge, EdgeStatus, StreetNetwork};
use vstd::prelude::*;

verus! {

/// `r` holds the elements of `s` that are not gone, each once, from the positions `from`. An
/// element whose position is still there has not moved.
pub open spec fn leaves<T>(
    r: Seq<T>,
    s: Seq<T>,
    gone: spec_fn(int) -> bool,
    from: Seq<int>,
) -> bool {
    &&& from.len() == r.len()
    &&& forall|i: int|
        0 <= i < from.len() ==> 0 <= #[trigger] from[i] < s.len() && !gone(from[i]) && r[i]
            == s[from[i]]
    &&& forall|i: int, j: int|
        0 <= i < j < from.len() ==> #[trigger] from[i] != #[trigger] from[j]
    &&& forall|k: int| 0 <= k < s.len() && !(#[trigger] gone(k)) ==> from.contains(k)
    &&& forall|i: int| 0 <= i < from.len() && !gone(i) ==> #[trigger] from[i] == i
}

/// `r` holds the elements of `s` that are not gone, each once and as it was.
pub open spec fn holds_the_rest<T>(r: Seq<T>, s: Seq<T>, gone: spec_fn(int) -> bool) -> bool {
    exists|from: Seq<int>| #[trigger] leaves(r, s, gone, from)
}

proof fn swept_in_place<T>(t: Seq<T>, marked: Set<int>, n: int)
    requires
        0 <= n <= t.len(),
    ensures
        swept(t, marked, n).len() <= t.len(),
        forall|i: int|
            0 <= i < swept(t, marked, n).len() && (i >= n || !marked.contains(i))
                ==> #[trigger] swept(t, marked, n)[i] == t[i],
    decreases n,
{
    if n > 0 {
        if marked.contains(n - 1) {
            let u = swap_removed(t, n - 1);
            swept_in_place(u, marked, n - 1);
            assert forall|i: int|
                0 <= i < swept(t, marked, n).len() && (i >= n || !marked.contains(i)) implies
                #[trigger] swept(t, marked, n)[i] == t[i] by {
                assert(swept(u, marked, n - 1)[i] == u[i]);
            }
        } else {
            swept_in_place(t, marked, n - 1);
        }
    }
}

/// A sweep leaves what is not marked.
pub proof fn sweeping_leaves_the_rest<T>(s: Seq<T>, marked: Set<int>, gone: spec_fn(int) -> bool)
    requires
        forall|i: int| 0 <= i < s.len() ==> (#[trigger] gone(i) <==> marked.contains(i)),
    ensures
        holds_the_rest(swept(s, marked, s.len() as int), s, gone),
{
    let n = s.len() as int;
    let at = Seq::new(s.len(), |i: int| i);
    let from = swept(at, marked, n);
    let r = swept(s, marked, n);
    swept_from(s, marked);
    swept_in_place(at, marked, n);
    sweep_keeps_unmarked(at, marked);
    select_holds_kept(at, unmarked(marked), n);
    let kept = select(at, unmarked(marked), n);
    assert forall|i: int| 0 <= i < from.len() implies 0 <= #[trigger] from[i] < s.len() && !gone(
        from[i],
    ) && r[i] == s[from[i]] by {
        assert(!marked.contains(from[i]));
        assert(gone(from[i]) <==> marked.contains(from[i]));
    }
    assert forall|k: int| 0 <= k < s.len() && !(#[trigger] gone(k)) implies from.contains(k) by {
        broadcast use vstd::seq_lib::group_to_multiset_ensures;

        assert(unmarked(marked)(k));
        assert(kept.contains(at[k]));
        assert(from.to_multiset().count(k) > 0);
    }
    assert forall|i: int| 0 <= i < from.len() && !gone(i) implies #[trigger] from[i] == i by {
        assert(i < s.len());
        assert(gone(i) <==> marked.contains(i));
        assert(from[i] == at[i]);
    }
    assert(leaves(r, s, gone, from));
}

/// Dropping edges removes those that are named and keeps all others as they are.
pub proof fn only_named_edges_are_dropped(edges: Seq<Edge>, drops: Seq<usize>)
    ensures
        holds_the_rest(
            swept(edges, named(drops), edges.len() as int),
            edges,
            |i: int| exists|k: int| 0 <= k < drops.len() && #[trigger] drops[k] == i,
        ),
{
    let gone = |i: int| exists|k: int| 0 <= k < drops.len() && #[trigger] drops[k] == i;
    assert forall|i: int| 0 <= i < edges.len() implies (#[trigger] gone(i) <==> named(
        drops,
    ).contains(i)) by {
        if gone(i) {
            let k = choose|k: int| 0 <= k < drops.len() && #[trigger] drops[k] == i;
            assert(drops[k] as int == i);
        }
        if named(drops).contains(i) {
            let k = choose|k: int| 0 <= k < drops.len() && drops[k] as int == i;
            assert(drops[k] == i);
        }
    }
    sweeping_leaves_the_rest(edges, named(drops), gone);
}

/// A change keeps every edge that is not named as it is, and adds every line of two points or
/// more that is longer than the tolerance: each as a new edge, after those that are kept, as
/// often and in the order in which the lines are given. The last one takes over the ancestors
/// of the edges that were dropped, in ascending order and each once; the others have none.
pub proof fn every_proper_line_is_added(
    edges: Seq<Edge>,
    drops: Seq<usize>,
    redrawn: Seq<Seq<Coord>>,
    lengths: Seq<Measure>,
    eps: Measure,
    added: Seq<Seq<Coord>>,
)
    requires
        lengths.len() == redrawn.len(),
        lists_exactly(added, redrawn, |i: int| redrawn[i].len() >= 2 && eps.below(lengths[i])),
    ensures
        ({
            let r = changed(edges, drops, redrawn, lengths, eps);
            let m = r.len() - added.len();
            &&& 0 <= m <= edges.len()
            &&& holds_the_rest(
                r.take(m),
                edges,
                |i: int| exists|k: int| 0 <= k < drops.len() && #[trigger] drops[k] == i,
            )
            &&& forall|j: int|
                0 <= j < added.len() ==> {
                    &&& (#[trigger] r[m + j]).line == added[j]
                    &&& r[m + j].status == EdgeStatus::New
                    &&& j < added.len() - 1 ==> r[m + j].parents.len() == 0
                }
            &&& added.len() > 0 ==> {
                &&& strictly_ascending(r.last().parents)
                &&& forall|id: usize| #[trigger]
                    r.last().parents.contains(id) <==> exists|k: int|
                        0 <= k < drops.len() && #[trigger] drops[k] < edges.len()
                            && edges[drops[k] as int].parents.contains(id)
            }
        }),
{
    let r = changed(edges, drops, redrawn, lengths, eps);
    let wanted = |i: int| redrawn[i].len() >= 2 && eps.below(lengths[i]);
    list_is_selection(added, redrawn, proper(redrawn, lengths, eps), wanted);
    let left = swept(edges, named(drops), edges.len() as int);
    swept_in_place(edges, named(drops), edges.len() as int);
    only_named_edges_are_dropped(edges, drops);
    dropped_parents_exist(edges, drops);
    let m = r.len() - added.len();
    assert(m == left.len());
    assert(r.take(m) =~= left);
    if added.len() > 0 {
        assert(r.last().parents == dropped_parents(edges, drops));
        assert forall|id: usize| #[trigger]
            r.last().parents.contains(id) <==> exists|k: int|
                0 <= k < drops.len() && #[trigger] drops[k] < edges.len()
                    && edges[drops[k] as int].parents.contains(id) by {
            assert(dropped_parents(edges, drops).contains(id) <==> drops_descendant(
                edges,
                drops,
                id,
            ));
        }
    }
}

/// No line of two points or more and of some length is lost: it is the course of a new edge.
pub proof fn no_proper_line_is_lost(
    edges: Seq<Edge>,
    drops: Seq<usize>,
    redrawn: Seq<Seq<Coord>>,
    lengths: Seq<Measure>,
    eps: Measure,
    i: int,
)
    requires
        lengths.len() == redrawn.len(),
        0 <= i < redrawn.len(),
        redrawn[i].len() >= 2,
        eps.below(lengths[i]),
    ensures
        ({
            let r = changed(edges, drops, redrawn, lengths, eps);
            exists|p: int|
                0 <= p < r.len() && (#[trigger] r[p]).line == redrawn[i] && r[p].status
                    == EdgeStatus::New
        }),
{
    let keep = proper(redrawn, lengths, eps);
    let wanted = |i: int| redrawn[i].len() >= 2 && eps.below(lengths[i]);
    let added = select(redrawn, keep, redrawn.len() as int);
    crate::laws::selections::selection_lists(redrawn, keep, wanted);
    every_proper_line_is_added(edges, drops, redrawn, lengths, eps, added);
    listed_are_wanted(added, redrawn, wanted);
    assert(wanted(i));
    let j = choose|j: int| 0 <= j < added.len() && added[j] == redrawn[i];
    let r = changed(edges, drops, redrawn, lengths, eps);
    let m = r.len() - added.len();
    assert(r[m + j].line == redrawn[i]);
}

/// Without anything to drop or to add a network stays as it is.
pub proof fn no_change_changes_nothing(edges: Seq<Edge>, eps: Measure)
    ensures
        changed(edges, Seq::empty(), Seq::empty(), Seq::empty(), eps) == edges,
{
    let marked = named(Seq::empty());
    crate::lists::nothing_swept(edges, marked, edges.len() as int);
    assert(changed(edges, Seq::empty(), Seq::empty(), Seq::empty(), eps) =~= edges);
}

proof fn pruned_from(
    base: Seq<(Edge, Measure)>,
    now: Seq<(Edge, Measure)>,
    at: Seq<int>,
    eps: Measure,
    gone: spec_fn(int) -> bool,
    i: int,
)
    requires
        forall|k: int|
            0 <= k < base.len() ==> (#[trigger] gone(k) <==> base[k].0.line.len() < 2
                || base[k].1.at_most(eps)),
        0 <= i <= now.len(),
        at.len() == now.len() <= base.len(),
        forall|j: int|
            0 <= j < at.len() ==> 0 <= #[trigger] at[j] < base.len() && now[j] == base[at[j]],
        forall|j: int, k: int| 0 <= j < k < at.len() ==> #[trigger] at[j] != #[trigger] at[k],
        forall|k: int| 0 <= k < base.len() && !(#[trigger] gone(k)) ==> at.contains(k),
        forall|j: int| 0 <= j < at.len() && (j > i || !gone(j)) ==> #[trigger] at[j] == j,
        forall|j: int| 0 <= j < i ==> !gone(#[trigger] at[j]),
    ensures
        holds_the_rest(pruned(now, eps, i), base, gone),
    decreases now.len() - i,
{
    if i >= now.len() {
        assert(leaves(pruned(now, eps, i), base, gone, at));
    } else {
        assert(now[i] == base[at[i]]);
        assert(gone(at[i]) <==> base[at[i]].0.line.len() < 2 || base[at[i]].1.at_most(eps));
        if gone(at[i]) {
            let less = swap_removed(now, i);
            let left = swap_removed(at, i);
            assert forall|k: int| 0 <= k < base.len() && !(#[trigger] gone(k)) implies left.contains(
                k,
            ) by {
                assert(at.contains(k));
                let j = choose|j: int| 0 <= j < at.len() && at[j] == k;
                assert(j != i);
                if j == at.len() - 1 {
                    assert(left[i] == k);
                } else {
                    assert(left[j] == k);
                }
            }
            assert forall|j: int| 0 <= j < left.len() && (j > i || !gone(j)) implies
                #[trigger] left[j] == j by {
                if j == i {
                    assert(at[i] == i);
                } else {
                    assert(left[j] == at[j]);
                }
            }
            assert forall|j: int| 0 <= j < i implies !gone(#[trigger] left[j]) by {
                assert(left[j] == at[j]);
            }
            pruned_from(base, less, left, eps, gone, i);
        } else {
            pruned_from(base, now, at, eps, gone, i + 1);
        }
    }
}

/// The final cleaning removes the edges with fewer than two points and those no longer than
/// the tolerance, and keeps all others as they are.
pub proof fn only_edges_without_length_are_removed(
    edges: Seq<Edge>,
    lengths: Seq<Measure>,
    eps: Measure,
)
    requires
        lengths.len() == edges.len(),
    ensures
        holds_the_rest(
            unmeasured(pruned(measured(edges, lengths), eps, 0)),
            edges,
            |i: int| edges[i].line.len() < 2 || lengths[i].at_most(eps),
        ),
{
    let base = measured(edges, lengths);
    let gone = |i: int| edges[i].line.len() < 2 || lengths[i].at_most(eps);
    let at = Seq::new(edges.len(), |i: int| i);
    assert forall|k: int| 0 <= k < base.len() && !(#[trigger] gone(k)) implies at.contains(k) by {
        assert(at[k] == k);
    }
    pruned_from(base, base, at, eps, gone, 0);
    let r = pruned(base, eps, 0);
    let from = choose|from: Seq<int>| #[trigger] leaves(r, base, gone, from);
    let cleaned = unmeasured(r);
    assert forall|i: int| 0 <= i < from.len() implies 0 <= #[trigger] from[i] < edges.len()
        && !gone(from[i]) && cleaned[i] == edges[from[i]] by {
        assert(r[i] == base[from[i]]);
    }
    assert(leaves(cleaned, edges, gone, from));
}

/// A network is sound exactly when its three lists have the same length. Its edges are then what
/// the lists hold at each position.
pub proof fn edges_are_read_across_the_lists(network: StreetNetwork)
    ensures
        network.wf() <==> network.geometries@.len() == network.statuses@.len()
            && network.geometries@.len() == network.parent_ids@.len(),
        network@.len() == network.geometries@.len(),
        forall|i: int|
            0 <= i < network@.len() ==> {
                &&& (#[trigger] network@[i]).line == network.geometries@[i].coords@
                &&& network@[i].status == network.statuses@[i]
                &&& network@[i].parents == network.parent_ids@[i]@
            },
{
}

/// There is nothing to do only where nothing is dropped and nothing is added.
pub proof fn any_drop_or_line_is_a_change(drops: Seq<usize>, redrawn: Seq<Seq<Coord>>)
    ensures
        !is_change(drops, redrawn) <==> drops == Seq::<usize>::empty() && redrawn == Seq::<
            Seq<Coord>,
        >::empty(),
{
    if !is_change(drops, redrawn) {
        assert(drops =~= Seq::<usize>::empty());
        assert(redrawn =~= Seq::<Seq<Coord>>::empty());
    }
}

} // verus!
