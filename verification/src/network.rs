//! Dropping, adding and joining edges of a network.
use crate::dedup::{ancestry, deduped};
use crate::lists::{
    nothing_swept, positions, positions_are_kept, select, select_holds_kept, sorted_distinct,
    strictly_ascending, strictly_ascending_is_unique, swap_removed, swap_removed_elements, sweep_keeps_unmarked, swept,
    unmarked,
};
use crate::measure::Measure;
use crate::types::{lines, Coord, Edge, EdgeStatus, LineString, StreetNetwork};
use vstd::prelude::*;

verus! {

/// The positions that a list names.
pub open spec fn named(list: Seq<usize>) -> Set<int> {
    Set::new(|i: int| exists|k: int| 0 <= k < list.len() && list[k] as int == i)
}

impl StreetNetwork {
    /// Takes over the edges that a pass over the geometry returned, if its three lists
    /// have the same length. Otherwise the network stays as it is.
    pub fn replace_edges(
        &mut self,
        geometries: Vec<LineString>,
        statuses: Vec<EdgeStatus>,
        parent_ids: Vec<Vec<usize>>,
    ) -> (r: bool)
        ensures
            r <==> statuses@.len() == geometries@.len() && parent_ids@.len() == geometries@.len(),
            r <==> (StreetNetwork { geometries, statuses, parent_ids }).wf(),
            r ==> final(self).wf(),
            r ==> final(self)@ == (StreetNetwork { geometries, statuses, parent_ids })@,
            !r ==> *final(self) == *old(self),
    {
        if statuses.len() != geometries.len() || parent_ids.len() != geometries.len() {
            return false;
        }
        self.geometries = geometries;
        self.statuses = statuses;
        self.parent_ids = parent_ids;
        true
    }

    /// Removes the edge `i`; the last edge takes its place.
    fn swap_remove(&mut self, i: usize)
        requires
            old(self).wf(),
            i < old(self)@.len(),
        ensures
            final(self).wf(),
            final(self)@ == swap_removed(old(self)@, i as int),
    {
        let ghost before = self@;
        self.geometries.swap_remove(i);
        self.statuses.swap_remove(i);
        self.parent_ids.swap_remove(i);
        assert(self@ =~= swap_removed(before, i as int));
    }

    /// Removes the edges that `drops` names, from the highest index to the
    /// lowest; an index past the end names nothing.
    pub fn drop_edges(&mut self, drops: &Vec<usize>)
        requires
            old(self).wf(),
        ensures
            final(self).wf(),
            final(self)@ == swept(old(self)@, named(drops@), old(self)@.len() as int),
    {
        let n = self.geometries.len();
        let mut marks: Vec<bool> = Vec::new();
        let mut i: usize = 0;
        while i < n
            invariant
                i <= n,
                marks@.len() == i,
                forall|k: int| 0 <= k < i ==> !(#[trigger] marks@[k]),
            decreases n - i,
        {
            marks.push(false);
            i = i + 1;
        }
        let mut k: usize = 0;
        while k < drops.len()
            invariant
                k <= drops@.len(),
                marks@.len() == n,
                forall|p: int|
                    0 <= p < n ==> (#[trigger] marks@[p] <==> exists|j: int|
                        0 <= j < k && drops@[j] as int == p),
            decreases drops.len() - k,
        {
            let d = drops[k];
            let ghost before = marks@;
            if d < n {
                marks.set(d, true);
            }
            assert forall|p: int| 0 <= p < n implies (#[trigger] marks@[p] <==> exists|j: int|
                0 <= j < k + 1 && drops@[j] as int == p) by {
                assert(before[p] <==> exists|j: int| 0 <= j < k && drops@[j] as int == p);
                if p == d as int {
                    assert(drops@[k as int] as int == p);
                }
            }
            k = k + 1;
        }
        self.sweep(&marks);
        proof {
            let marked = Set::new(|p: int| 0 <= p < n && marks@[p]);
            same_marks_sweep_alike(old(self)@, marked, named(drops@), n as int);
        }
    }

    /// Removes the marked edges, from the highest index to the lowest.
    fn sweep(&mut self, marks: &Vec<bool>)
        requires
            old(self).wf(),
            marks@.len() == old(self)@.len(),
        ensures
            final(self).wf(),
            final(self)@ == swept(
                old(self)@,
                Set::new(|p: int| 0 <= p < marks@.len() && marks@[p]),
                old(self)@.len() as int,
            ),
    {
        let ghost marked = Set::new(|p: int| 0 <= p < marks@.len() && marks@[p]);
        let mut i: usize = marks.len();
        while i > 0
            invariant
                i <= marks@.len(),
                i <= self@.len(),
                self.wf(),
                marked == Set::new(|p: int| 0 <= p < marks@.len() && marks@[p]),
                swept(self@, marked, i as int) == swept(
                    old(self)@,
                    marked,
                    old(self)@.len() as int,
                ),
            decreases i,
        {
            i = i - 1;
            assert(marked.contains(i as int) <==> marks@[i as int]);
            if marks[i] {
                self.swap_remove(i);
            }
        }
    }
}

/// A sweep depends on the marks below its start alone.
proof fn same_marks_sweep_alike<T>(s: Seq<T>, a: Set<int>, b: Set<int>, n: int)
    requires
        forall|i: int| 0 <= i < n ==> (a.contains(i) <==> b.contains(i)),
    ensures
        swept(s, a, n) == swept(s, b, n),
    decreases n,
{
    if n > 0 {
        same_marks_sweep_alike(s, a, b, n - 1);
        same_marks_sweep_alike(swap_removed(s, n - 1), a, b, n - 1);
    }
}

/// Whether an edge that is to be dropped descends from `id`.
pub open spec fn drops_descendant(edges: Seq<Edge>, drops: Seq<usize>, id: usize) -> bool {
    exists|k: int|
        0 <= k < drops.len() && #[trigger] drops[k] < edges.len()
            && edges[drops[k] as int].parents.contains(id)
}

/// The identifiers that the dropped edges descend from, in ascending order.
pub open spec fn dropped_parents(edges: Seq<Edge>, drops: Seq<usize>) -> Seq<usize> {
    choose|r: Seq<usize>|
        strictly_ascending(r) && forall|id: usize| #[trigger]
            r.contains(id) <==> drops_descendant(edges, drops, id)
}

/// Which of the redrawn lines are lines at all: two points or more, and longer
/// than the tolerance.
pub open spec fn proper(
    redrawn: Seq<Seq<Coord>>,
    lengths: Seq<Measure>,
    eps: Measure,
) -> spec_fn(int) -> bool {
    |i: int| redrawn[i].len() >= 2 && eps.below(lengths[i])
}

/// New edges along the given lines. The last one descends from `parents`, the
/// others from nothing.
pub open spec fn drawn(courses: Seq<Seq<Coord>>, parents: Seq<usize>) -> Seq<Edge> {
    Seq::new(
        courses.len(),
        |j: int|
            Edge {
                line: courses[j],
                status: EdgeStatus::New,
                parents: if j == courses.len() - 1 {
                    parents
                } else {
                    Seq::empty()
                },
            },
    )
}

/// The network after edges were dropped and lines were drawn.
pub open spec fn changed(
    edges: Seq<Edge>,
    drops: Seq<usize>,
    redrawn: Seq<Seq<Coord>>,
    lengths: Seq<Measure>,
    eps: Measure,
) -> Seq<Edge> {
    swept(edges, named(drops), edges.len() as int) + drawn(
        select(redrawn, proper(redrawn, lengths, eps), redrawn.len() as int),
        dropped_parents(edges, drops),
    )
}

/// The identifiers that the edges of `drops` descend from, in ascending order.
fn gather_parents(network: &StreetNetwork, drops: &Vec<usize>) -> (r: Vec<usize>)
    requires
        network.wf(),
    ensures
        r@ == dropped_parents(network@, drops@),
{
    let ghost edges = network@;
    let mut all: Vec<usize> = Vec::new();
    let mut k: usize = 0;
    while k < drops.len()
        invariant
            k <= drops@.len(),
            network.wf(),
            edges == network@,
            forall|id: usize| #[trigger]
                all@.contains(id) <==> drops_descendant(edges, drops@.take(k as int), id),
        decreases drops.len() - k,
    {
        let d = drops[k];
        let ghost before = all@;
        if d < network.parent_ids.len() {
            let parents = &network.parent_ids[d];
            assert(parents@ == edges[d as int].parents);
            let mut m: usize = 0;
            while m < parents.len()
                invariant
                    m <= parents@.len(),
                    all@ == before + parents@.take(m as int),
                decreases parents.len() - m,
            {
                all.push(parents[m]);
                m = m + 1;
                assert(all@ =~= before + parents@.take(m as int));
            }
            assert(parents@.take(m as int) =~= parents@);
        }
        proof {
            let past = drops@.take(k as int);
            let now = drops@.take(k + 1);
            assert(now =~= past.push(d));
            assert forall|id: usize| #[trigger]
                all@.contains(id) <==> drops_descendant(edges, now, id) by {
                if all@.contains(id) {
                    let j = choose|j: int| 0 <= j < all@.len() && all@[j] == id;
                    if j < before.len() {
                        assert(before[j] == id);
                        assert(before.contains(id));
                        let q = choose|q: int|
                            0 <= q < past.len() && #[trigger] past[q] < edges.len()
                                && edges[past[q] as int].parents.contains(id);
                        assert(now[q] == past[q]);
                    } else {
                        assert(now[k as int] == d);
                        assert(edges[d as int].parents[j - before.len()] == id);
                        assert(edges[d as int].parents.contains(id));
                    }
                }
                if drops_descendant(edges, now, id) {
                    let q = choose|q: int|
                        0 <= q < now.len() && #[trigger] now[q] < edges.len()
                            && edges[now[q] as int].parents.contains(id);
                    if q < k {
                        assert(past[q] == now[q]);
                        assert(before.contains(id));
                        let j = choose|j: int| 0 <= j < before.len() && before[j] == id;
                        assert(all@[j] == id);
                    } else {
                        let parents = edges[d as int].parents;
                        let j = choose|j: int| 0 <= j < parents.len() && parents[j] == id;
                        assert(all@[before.len() + j] == id);
                    }
                }
            }
        }
        k = k + 1;
    }
    assert(drops@.take(k as int) =~= drops@);
    let r = sorted_distinct(&all);
    proof {
        assert(strictly_ascending(r@) && forall|id: usize| #[trigger]
            r@.contains(id) <==> drops_descendant(edges, drops@, id));
        strictly_ascending_is_unique(r@, dropped_parents(edges, drops@));
    }
    r
}

/// There is something to drop or to add.
pub open spec fn is_change(drops: Seq<usize>, redrawn: Seq<Seq<Coord>>) -> bool {
    drops.len() > 0 || redrawn.len() > 0
}

/// Drops edges and adds lines. `redrawn` holds the lines to add, merged, without
/// repetitions and simplified, and `lengths` their lengths. Lines that are too
/// short are left out. The last line that is added takes over the ancestors of
/// the dropped edges. Returns whether there was anything to do, in which case
/// the topology is to be cleaned.
pub fn apply_changes(
    network: &mut StreetNetwork,
    to_drop: &Vec<usize>,
    redrawn: &Vec<LineString>,
    lengths: &Vec<Measure>,
    eps: Measure,
) -> (r: bool)
    requires
        old(network).wf(),
        lengths@.len() == redrawn@.len(),
    ensures
        final(network).wf(),
        r <==> to_drop@.len() > 0 || redrawn@.len() > 0,
        r <==> is_change(to_drop@, lines(redrawn@)),
        final(network)@ == changed(old(network)@, to_drop@, lines(redrawn@), lengths@, eps),
{
    let ghost given = network@;
    let ghost courses = lines(redrawn@);
    let ghost keep = proper(courses, lengths@, eps);
    if to_drop.len() == 0 && redrawn.len() == 0 {
        proof {
            assert(named(to_drop@) =~= Set::empty());
            nothing_swept(given, Set::empty(), given.len() as int);
            assert(network@ =~= changed(given, to_drop@, courses, lengths@, eps));
        }
        return false;
    }
    let parents = gather_parents(network, to_drop);
    network.drop_edges(to_drop);
    let ghost left = network@;
    let mut valid: Vec<LineString> = Vec::new();
    let mut i: usize = 0;
    while i < redrawn.len()
        invariant
            i <= redrawn@.len(),
            lengths@.len() == redrawn@.len(),
            courses == lines(redrawn@),
            keep == proper(courses, lengths@, eps),
            lines(valid@) == select(courses, keep, i as int),
        decreases redrawn.len() - i,
    {
        let ghost before = valid@;
        assert(courses[i as int] == redrawn@[i as int]@);
        if redrawn[i].coords.len() >= 2 && eps.lt(&lengths[i]) {
            assert(keep(i as int));
            valid.push(redrawn[i].clone());
            assert(lines(valid@) =~= lines(before).push(courses[i as int]));
        } else {
            assert(!keep(i as int));
        }
        i = i + 1;
    }
    let ghost wanted = drawn(lines(valid@), parents@);
    let mut j: usize = 0;
    while j < valid.len()
        invariant
            j <= valid@.len(),
            network.wf(),
            wanted == drawn(lines(valid@), parents@),
            network@ == left + wanted.take(j as int),
        decreases valid.len() - j,
    {
        let ghost before = network@;
        network.geometries.push(valid[j].clone());
        network.statuses.push(EdgeStatus::New);
        let mut own: Vec<usize> = Vec::new();
        if j + 1 == valid.len() {
            own = parents.clone();
            assert(own@ =~= parents@);
        }
        network.parent_ids.push(own);
        assert(own@ =~= wanted[j as int].parents);
        assert(network@ =~= before.push(wanted[j as int]));
        assert(network@ =~= left + wanted.take(j + 1));
        j = j + 1;
    }
    assert(wanted.take(j as int) =~= wanted);
    true
}

/// The ancestors of dropped edges are listed in ascending order, each once: an
/// identifier is in the list exactly when a dropped edge descends from it.
pub proof fn dropped_parents_exist(edges: Seq<Edge>, drops: Seq<usize>)
    ensures
        strictly_ascending(dropped_parents(edges, drops)),
        forall|id: usize| #[trigger]
            dropped_parents(edges, drops).contains(id) <==> drops_descendant(edges, drops, id),
{
    let wanted = |id: int| drops_descendant(edges, drops, id as usize);
    let r = positions(wanted, usize::MAX + 1);
    positions_are_kept(wanted, usize::MAX + 1);
    assert(strictly_ascending(r) && forall|id: usize| #[trigger]
        r.contains(id) <==> drops_descendant(edges, drops, id));
}

/// Whether an edge has fewer than two points or no length beyond the tolerance.
pub open spec fn degenerate(edge: (Edge, Measure), eps: Measure) -> bool {
    edge.0.line.len() < 2 || edge.1.at_most(eps)
}

/// Edges, each with its length.
pub open spec fn measured(edges: Seq<Edge>, lengths: Seq<Measure>) -> Seq<(Edge, Measure)> {
    Seq::new(edges.len(), |i: int| (edges[i], lengths[i]))
}

/// Measured edges without their lengths.
pub open spec fn unmeasured(edges: Seq<(Edge, Measure)>) -> Seq<Edge> {
    Seq::new(edges.len(), |i: int| edges[i].0)
}

/// The edges after the degenerate ones from position `i` on were removed in
/// turn, each gap filled from the end before it is looked at again.
pub open spec fn pruned(edges: Seq<(Edge, Measure)>, eps: Measure, i: int) -> Seq<(Edge, Measure)>
    decreases edges.len() - i,
{
    if i < 0 || i >= edges.len() {
        edges
    } else if degenerate(edges[i], eps) {
        pruned(swap_removed(edges, i), eps, i)
    } else {
        pruned(edges, eps, i + 1)
    }
}

/// Removes the edges that have fewer than two points or no length beyond the
/// tolerance. `lengths` holds the length of each edge.
pub fn remove_degenerate(network: &mut StreetNetwork, lengths: &Vec<Measure>, eps: Measure)
    requires
        old(network).wf(),
        lengths@.len() == old(network)@.len(),
    ensures
        final(network).wf(),
        final(network)@ == unmeasured(pruned(measured(old(network)@, lengths@), eps, 0)),
{
    let ghost given = measured(network@, lengths@);
    let mut left: Vec<Measure> = lengths.clone();
    assert(left@ =~= lengths@);
    let mut i: usize = 0;
    while i < network.geometries.len()
        invariant
            i <= network@.len(),
            network.wf(),
            left@.len() == network@.len(),
            pruned(measured(network@, left@), eps, i as int) == pruned(given, eps, 0),
        decreases network@.len() - i,
    {
        let ghost before = measured(network@, left@);
        assert(before[i as int].0.line == network.geometries@[i as int]@);
        if network.geometries[i].coords.len() < 2 || left[i].le(&eps) {
            network.swap_remove(i);
            left.swap_remove(i);
            assert(measured(network@, left@) =~= swap_removed(before, i as int));
        } else {
            i = i + 1;
        }
    }
    assert(network@ =~= unmeasured(measured(network@, left@)));
}

/// The final cleaning removes every degenerate edge, and keeps every other edge
/// as often as it was there.
pub proof fn pruning_keeps_sound_edges(edges: Seq<(Edge, Measure)>, eps: Measure)
    ensures
        forall|e: (Edge, Measure)| #[trigger]
            pruned(edges, eps, 0).to_multiset().count(e) == if degenerate(e, eps) {
                0
            } else {
                edges.to_multiset().count(e)
            },
{
    pruned_counts(edges, eps, 0);
    assert(edges.take(0) =~= Seq::empty());
    assert(Seq::<(Edge, Measure)>::empty().to_multiset().len() == 0) by {
        broadcast use vstd::seq_lib::group_to_multiset_ensures;
        assert(Seq::<(Edge, Measure)>::empty().len() == 0);
    }
    broadcast use vstd::multiset::group_multiset_axioms;
    broadcast use vstd::multiset::group_multiset_properties;
    assert forall|e: (Edge, Measure)| edges.take(0).to_multiset().count(e) == 0 by {
        broadcast use vstd::seq_lib::group_to_multiset_ensures;
        assert(!edges.take(0).contains(e));
    }
}

proof fn pruned_counts(edges: Seq<(Edge, Measure)>, eps: Measure, i: int)
    requires
        0 <= i <= edges.len(),
    ensures
        forall|e: (Edge, Measure)| #[trigger]
            pruned(edges, eps, i).to_multiset().count(e) == if degenerate(e, eps) {
                edges.take(i).to_multiset().count(e)
            } else {
                edges.to_multiset().count(e)
            },
    decreases edges.len() - i,
{
    broadcast use vstd::multiset::group_multiset_axioms;
    if i >= edges.len() {
        assert(edges.take(i) =~= edges);
    } else if degenerate(edges[i], eps) {
        let less = swap_removed(edges, i);
        pruned_counts(less, eps, i);
        swap_removed_elements(edges, i);
        assert(less.take(i) =~= edges.take(i));
        assert(edges.to_multiset().count(edges[i]) > 0) by {
            broadcast use vstd::seq_lib::group_to_multiset_ensures;
            assert(edges.contains(edges[i]));
        }
        assert forall|e: (Edge, Measure)| #[trigger]
            pruned(edges, eps, i).to_multiset().count(e) == if degenerate(e, eps) {
                edges.take(i).to_multiset().count(e)
            } else {
                edges.to_multiset().count(e)
            } by {
            assert(pruned(less, eps, i).to_multiset().count(e) == pruned(
                edges,
                eps,
                i,
            ).to_multiset().count(e));
            if !degenerate(e, eps) {
                assert(e != edges[i]);
                assert(edges.to_multiset().remove(edges[i]).count(e) == edges.to_multiset().count(e));
            }
        }
    } else {
        pruned_counts(edges, eps, i + 1);
        assert(edges.take(i + 1) =~= edges.take(i).push(edges[i]));
        vstd::seq_lib::to_multiset_build(edges.take(i), edges[i]);
        assert forall|e: (Edge, Measure)| #[trigger]
            pruned(edges, eps, i).to_multiset().count(e) == if degenerate(e, eps) {
                edges.take(i).to_multiset().count(e)
            } else {
                edges.to_multiset().count(e)
            } by {
            assert(pruned(edges, eps, i + 1).to_multiset().count(e) == pruned(
                edges,
                eps,
                i,
            ).to_multiset().count(e));
            if degenerate(e, eps) {
                assert(e != edges[i]);
                assert(edges.take(i).to_multiset().insert(edges[i]).count(e) == edges.take(
                    i,
                ).to_multiset().count(e));
            }
        }
    }
}

/// Dropping and adding edges loses no ancestor as long as one line is added, and
/// never invents one.
pub proof fn changes_keep_ancestry(
    edges: Seq<Edge>,
    drops: Seq<usize>,
    redrawn: Seq<Seq<Coord>>,
    lengths: Seq<Measure>,
    eps: Measure,
)
    requires
        lengths.len() == redrawn.len(),
    ensures
        ancestry(changed(edges, drops, redrawn, lengths, eps)).subset_of(ancestry(edges)),
        select(redrawn, proper(redrawn, lengths, eps), redrawn.len() as int).len() > 0 ==> ancestry(
            changed(edges, drops, redrawn, lengths, eps),
        ) == ancestry(edges),
{
    let n = edges.len() as int;
    let marked = named(drops);
    let left = swept(edges, marked, n);
    let courses = select(redrawn, proper(redrawn, lengths, eps), redrawn.len() as int);
    let parents = dropped_parents(edges, drops);
    let added = drawn(courses, parents);
    let all = left + added;
    dropped_parents_exist(edges, drops);
    sweep_keeps_unmarked(edges, marked);
    let kept = select(edges, unmarked(marked), n);
    select_holds_kept(edges, unmarked(marked), n);
    assert forall|id: usize| ancestry(all).contains(id) implies ancestry(edges).contains(id) by {
        let i = choose|i: int| 0 <= i < all.len() && #[trigger] all[i].parents.contains(id);
        if i < left.len() {
            assert(kept.contains(left[i])) by {
                broadcast use vstd::seq_lib::group_to_multiset_ensures;
                assert(left.contains(left[i]));
                assert(kept.to_multiset().count(left[i]) > 0);
            }
            let j = choose|j: int| 0 <= j < n && unmarked(marked)(j) && edges[j] == left[i];
            assert(edges[j].parents.contains(id));
        } else {
            assert(all[i] == added[i - left.len()]);
            assert(drops_descendant(edges, drops, id));
            let k = choose|k: int|
                0 <= k < drops.len() && #[trigger] drops[k] < edges.len()
                    && edges[drops[k] as int].parents.contains(id);
            assert(edges[drops[k] as int].parents.contains(id));
        }
    }
    if courses.len() > 0 {
        assert forall|id: usize| ancestry(edges).contains(id) implies ancestry(all).contains(id) by {
            let j = choose|j: int| 0 <= j < n && #[trigger] edges[j].parents.contains(id);
            if marked.contains(j) {
                let k = choose|k: int| 0 <= k < drops.len() && drops[k] as int == j;
                assert(drops[k] < edges.len());
                assert(drops_descendant(edges, drops, id));
                let last = all.len() - 1;
                assert(all[last] == added[added.len() - 1]);
                assert(all[last].parents.contains(id));
            } else {
                assert(unmarked(marked)(j));
                assert(left.contains(edges[j])) by {
                    broadcast use vstd::seq_lib::group_to_multiset_ensures;
                    assert(kept.contains(edges[j]));
                    assert(left.to_multiset().count(edges[j]) > 0);
                }
                let i = choose|i: int| 0 <= i < left.len() && left[i] == edges[j];
                assert(all[i].parents.contains(id));
            }
        }
        assert(ancestry(all) =~= ancestry(edges));
    }
}

/// Dropping edges keeps each edge that is not named, as often as it was there,
/// and nothing else.
pub proof fn drops_keep_the_rest(edges: Seq<Edge>, drops: Seq<usize>)
    ensures
        swept(edges, named(drops), edges.len() as int).to_multiset() == select(
            edges,
            unmarked(named(drops)),
            edges.len() as int,
        ).to_multiset(),
{
    sweep_keeps_unmarked(edges, named(drops));
}

/// A change of a network: its edges are replaced by those of a geometry pass, some
/// are dropped, some are dropped and lines added, repeated ones are joined, or those
/// without length are removed.
pub enum Edit {
    Replace { offered: StreetNetwork },
    Drop { drops: Seq<usize> },
    Change {
        drops: Seq<usize>,
        redrawn: Seq<Seq<Coord>>,
        lengths: Seq<Measure>,
        eps: Measure,
    },
    Join { normalized: Seq<Seq<Coord>> },
    Clean { lengths: Seq<Measure>, eps: Measure },
}

/// What the function that makes a change demands, the network's own invariant aside.
pub open spec fn fits(before: StreetNetwork, edit: Edit) -> bool {
    match edit {
        Edit::Replace { .. } => true,
        Edit::Drop { .. } => true,
        Edit::Change { redrawn, lengths, .. } => lengths.len() == redrawn.len(),
        Edit::Join { normalized } => normalized.len() == before@.len(),
        Edit::Clean { lengths, .. } => lengths.len() == before@.len(),
    }
}

/// What the function that makes a change promises: `replace_edges`, `drop_edges`,
/// `apply_changes`, `dedup_network` and `remove_degenerate`.
pub open spec fn follows(before: StreetNetwork, edit: Edit, after: StreetNetwork) -> bool {
    match edit {
        Edit::Replace { offered } => if offered.wf() {
            after.wf() && after@ == offered@
        } else {
            after == before
        },
        Edit::Drop { drops } => before.wf() ==> after.wf() && after@ == swept(
            before@,
            named(drops),
            before@.len() as int,
        ),
        Edit::Change { drops, redrawn, lengths, eps } => before.wf() ==> after.wf() && after@
            == changed(before@, drops, redrawn, lengths, eps),
        Edit::Join { normalized } => before.wf() ==> after.wf() && after@ == deduped(
            before@,
            normalized,
        ),
        Edit::Clean { lengths, eps } => before.wf() ==> after.wf() && after@ == unmeasured(
            pruned(measured(before@, lengths), eps, 0),
        ),
    }
}

/// Over a whole simplification, whatever changes it makes and whatever the geometry
/// passes return, the three lists of a network keep the same length: the entries at
/// one position tell of one edge. `run` holds the network before the first change
/// and after each.
pub proof fn lists_stay_together(run: Seq<StreetNetwork>, edits: Seq<Edit>, k: int)
    requires
        run.len() == edits.len() + 1,
        run[0].wf(),
        forall|i: int|
            0 <= i < edits.len() ==> fits(run[i], #[trigger] edits[i]) && follows(
                run[i],
                edits[i],
                run[i + 1],
            ),
        0 <= k < run.len(),
    ensures
        run[k].wf(),
        run[k].geometries@.len() == run[k].statuses@.len() == run[k].parent_ids@.len(),
    decreases k,
{
    if k > 0 {
        lists_stay_together(run, edits, k - 1);
        assert(follows(run[k - 1], edits[k - 1], run[k - 1 + 1]));
    }
}

} // verus!
