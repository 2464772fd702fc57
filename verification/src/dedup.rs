//! Edges that run the same course.
//!
//! Two lines are taken for the same when their normalised forms have the same
//! hash.
use crate::lists::{
    ascending, ascending_is_unique, holds, in_order, in_order_exists, select, select_holds_kept,
    nothing_swept, sort_ids, sweep_keeps_unmarked, swept, swept_from, unmarked,
};
use crate::network::named;
use crate::types::{lines, Coord, Edge, LineString, StreetNetwork};
use std::collections::hash_map::DefaultHasher;
use std::collections::{HashMap, HashSet};
use std::hash::Hasher;
use vstd::prelude::*;
use vstd::std_specs::hash::DefaultHasherAdditionalSpecFns;

verus! {

/// What is written into the hasher for a line: its length, then the bit
/// patterns of its first `n` points.
pub open spec fn hash_input(line: Seq<Coord>, n: int) -> Seq<Seq<u8>>
    decreases n,
{
    if n <= 0 {
        seq![vstd::bytes::spec_u64_to_le_bytes(line.len() as u64)]
    } else {
        hash_input(line, n - 1).push(
            vstd::bytes::spec_u64_to_le_bytes(line[n - 1].x.bits),
        ).push(vstd::bytes::spec_u64_to_le_bytes(line[n - 1].y.bits))
    }
}

/// The hash of a line.
pub open spec fn line_key(line: Seq<Coord>) -> u64 {
    DefaultHasher::spec_finish(hash_input(line, line.len() as int))
}

/// Hashes the length of a line and the bit patterns of its points.
pub fn hash_line(line: &LineString) -> (r: u64)
    ensures
        r == line_key(line@),
{
    let mut hasher = DefaultHasher::new();
    let head = vstd::bytes::u64_to_le_bytes(line.coords.len() as u64);
    hasher.write(head.as_slice());
    assert(hasher@ =~= hash_input(line@, 0));
    let mut i: usize = 0;
    while i < line.coords.len()
        invariant
            i <= line@.len(),
            hasher@ == hash_input(line@, i as int),
        decreases line.coords.len() - i,
    {
        let x = vstd::bytes::u64_to_le_bytes(line.coords[i].x.bits);
        hasher.write(x.as_slice());
        let y = vstd::bytes::u64_to_le_bytes(line.coords[i].y.bits);
        hasher.write(y.as_slice());
        i = i + 1;
    }
    hasher.finish()
}

/// The positions of the lines that no earlier line is the same as.
pub open spec fn fresh(normalized: Seq<Seq<Coord>>) -> spec_fn(int) -> bool {
    |i: int|
        forall|j: int| 0 <= j < i ==> line_key(#[trigger] normalized[j]) != line_key(normalized[i])
}

/// The lines without those that an earlier line is the same as. `normalized`
/// holds the normalised form of each line.
pub fn dedup_geometries(geoms: &Vec<LineString>, normalized: &Vec<LineString>) -> (r: Vec<
    LineString,
>)
    requires
        normalized@.len() == geoms@.len(),
    ensures
        lines(r@) == select(lines(geoms@), fresh(lines(normalized@)), geoms@.len() as int),
{
    broadcast use vstd::std_specs::hash::group_hash_axioms;

    let mut seen: HashSet<u64> = HashSet::new();
    let mut r: Vec<LineString> = Vec::new();
    let mut i: usize = 0;
    while i < geoms.len()
        invariant
            i <= geoms@.len(),
            normalized@.len() == geoms@.len(),
            forall|h: u64|
                seen@.contains(h) <==> exists|j: int|
                    0 <= j < i && line_key(#[trigger] lines(normalized@)[j]) == h,
            lines(r@) == select(lines(geoms@), fresh(lines(normalized@)), i as int),
        decreases geoms.len() - i,
    {
        let h = hash_line(&normalized[i]);
        let ghost norm = lines(normalized@);
        let ghost before = r@;
        assert(norm[i as int] == normalized@[i as int]@);
        let ghost was_seen = seen@;
        if seen.insert(h) {
            assert(fresh(norm)(i as int));
            r.push(geoms[i].clone());
            assert(lines(r@) =~= lines(before).push(lines(geoms@)[i as int]));
        } else {
            assert(!fresh(norm)(i as int));
        }
        assert forall|g: u64|
            seen@.contains(g) <==> exists|j: int|
                0 <= j < i + 1 && line_key(#[trigger] norm[j]) == g by {
            if seen@.contains(g) {
                if g == h {
                    assert(line_key(norm[i as int]) == g);
                } else {
                    assert(was_seen.contains(g));
                }
            }
            if exists|j: int| 0 <= j < i + 1 && line_key(#[trigger] norm[j]) == g {
                let j = choose|j: int| 0 <= j < i + 1 && line_key(#[trigger] norm[j]) == g;
                if j < i {
                    assert(was_seen.contains(g));
                }
            }
        }
        i = i + 1;
    }
    r
}

/// The first line at or after `j` that the line `i` is the same as.
pub open spec fn first_like_from(normalized: Seq<Seq<Coord>>, i: int, j: int) -> int
    decreases i - j,
{
    if j >= i {
        i
    } else if line_key(normalized[j]) == line_key(normalized[i]) {
        j
    } else {
        first_like_from(normalized, i, j + 1)
    }
}

/// The first line that the line `i` is the same as.
pub open spec fn first_like(normalized: Seq<Seq<Coord>>, i: int) -> int {
    first_like_from(normalized, i, 0)
}

/// The identifiers of `acc`, and after them those of the first `n` of `more`
/// that were not there yet.
pub open spec fn absorbed(acc: Seq<usize>, more: Seq<usize>, n: int) -> Seq<usize>
    decreases n,
{
    if n <= 0 {
        acc
    } else if absorbed(acc, more, n - 1).contains(more[n - 1]) {
        absorbed(acc, more, n - 1)
    } else {
        absorbed(acc, more, n - 1).push(more[n - 1])
    }
}

/// The edges after each of the first `n` that repeats an earlier one has handed
/// its ancestors to the first edge that it is the same as.
pub open spec fn united(edges: Seq<Edge>, normalized: Seq<Seq<Coord>>, n: int) -> Seq<Edge>
    decreases n,
{
    if n <= 0 {
        edges
    } else {
        let done = united(edges, normalized, n - 1);
        let last = done[n - 1];
        let first = first_like(normalized, n - 1);
        if first == n - 1 {
            done
        } else {
            let parents = in_order(
                absorbed(done[first].parents, last.parents, last.parents.len() as int),
            );
            done.update(n - 1, Edge { parents: Seq::empty(), ..last }).update(
                first,
                Edge { parents, ..done[first] },
            )
        }
    }
}

/// The positions of the lines that repeat an earlier one.
pub open spec fn repeats(normalized: Seq<Seq<Coord>>) -> Set<int> {
    Set::new(|i: int| 0 <= i < normalized.len() && first_like(normalized, i) != i)
}

/// The edges after those that run the same course were joined.
pub open spec fn deduped(edges: Seq<Edge>, normalized: Seq<Seq<Coord>>) -> Seq<Edge> {
    swept(
        united(edges, normalized, edges.len() as int),
        repeats(normalized),
        edges.len() as int,
    )
}

pub(crate) proof fn first_like_is_first(normalized: Seq<Seq<Coord>>, i: int, j: int)
    requires
        0 <= j <= i,
    ensures
        ({
            let first = first_like_from(normalized, i, j);
            &&& j <= first <= i
            &&& line_key(normalized[first]) == line_key(normalized[i])
            &&& forall|m: int|
                j <= m < first ==> line_key(#[trigger] normalized[m]) != line_key(normalized[i])
        }),
    decreases i - j,
{
    if j < i && line_key(normalized[j]) != line_key(normalized[i]) {
        first_like_is_first(normalized, i, j + 1);
    }
}

proof fn united_len(edges: Seq<Edge>, normalized: Seq<Seq<Coord>>, n: int)
    requires
        n <= edges.len(),
    ensures
        united(edges, normalized, n).len() == edges.len(),
    decreases n,
{
    if n > 0 {
        united_len(edges, normalized, n - 1);
        first_like_is_first(normalized, n - 1, 0);
    }
}

/// The identifiers of both lists, those of `more` that were not there yet
/// added, in ascending order.
fn unite_ids(acc: &Vec<usize>, more: &Vec<usize>) -> (r: Vec<usize>)
    ensures
        r@ == in_order(absorbed(acc@, more@, more@.len() as int)),
{
    let mut r: Vec<usize> = acc.clone();
    assert(r@ =~= acc@);
    let mut i: usize = 0;
    while i < more.len()
        invariant
            i <= more@.len(),
            r@ == absorbed(acc@, more@, i as int),
        decreases more.len() - i,
    {
        if !holds(&r, more[i], r.len()) {
            r.push(more[i]);
        }
        i = i + 1;
    }
    let ghost all = r@;
    sort_ids(&mut r);
    proof {
        assert(ascending(r@) && r@.to_multiset() == all.to_multiset());
        ascending_is_unique(r@, in_order(all));
    }
    r
}

/// Removes the edges that repeat an earlier one; the first of those that are the
/// same takes over the ancestors of the others. `normalized` holds the
/// normalised course of each edge.
pub fn dedup_network(network: &mut StreetNetwork, normalized: &Vec<LineString>)
    requires
        old(network).wf(),
        normalized@.len() == old(network)@.len(),
    ensures
        final(network).wf(),
        final(network)@ == deduped(old(network)@, lines(normalized@)),
{
    broadcast use vstd::std_specs::hash::group_hash_axioms;

    let n = normalized.len();
    let ghost norm = lines(normalized@);
    let ghost given = network@;
    let mut seen: HashMap<u64, usize> = HashMap::new();
    let mut to_remove: Vec<usize> = Vec::new();
    let mut i: usize = 0;
    while i < n
        invariant
            i <= n,
            n == normalized@.len(),
            norm == lines(normalized@),
            given.len() == n,
            network.wf(),
            network@ == united(given, norm, i as int),
            network@.len() == n,
            forall|h: u64|
                seen@.contains_key(h) <==> exists|j: int|
                    0 <= j < i && line_key(#[trigger] norm[j]) == h,
            forall|h: u64| #[trigger]
                seen@.contains_key(h) ==> {
                    &&& seen@[h] < i
                    &&& line_key(norm[seen@[h] as int]) == h
                    &&& forall|j: int|
                        0 <= j < seen@[h] ==> line_key(#[trigger] norm[j]) != h
                },
            forall|p: int| #[trigger]
                named(to_remove@).contains(p) <==> 0 <= p < i && first_like(norm, p) != p,
        decreases n - i,
    {
        let h = hash_line(&normalized[i]);
        let ghost before = network@;
        let ghost was_seen = seen@;
        let ghost was_marked = to_remove@;
        assert(norm[i as int] == normalized@[i as int]@);
        proof {
            first_like_is_first(norm, i as int, 0);
        }
        let found: Option<usize> = match seen.get(&h) {
            Some(at) => Some(*at),
            None => None,
        };
        match found {
            Some(at) => {
                proof {
                    let first = first_like(norm, i as int);
                    assert(was_seen.contains_key(h));
                    if first < at {
                        assert(line_key(norm[first]) == h);
                    }
                    if at < first {
                        assert(line_key(norm[at as int]) != h);
                    }
                    assert(first == at);
                }
                let parents = unite_ids(&network.parent_ids[at], &network.parent_ids[i]);
                network.parent_ids.set(i, Vec::new());
                network.parent_ids.set(at, parents);
                assert(network@ =~= united(given, norm, i as int + 1));
                to_remove.push(i);
            },
            None => {
                assert(first_like(norm, i as int) == i) by {
                    let first = first_like(norm, i as int);
                    if first < i {
                        assert(line_key(norm[first]) == h);
                        assert(was_seen.contains_key(h));
                    }
                }
                seen.insert(h, i);
            },
        }
        proof {
            assert forall|g: u64|
                seen@.contains_key(g) <==> exists|j: int|
                    0 <= j < i + 1 && line_key(#[trigger] norm[j]) == g by {
                if g == h {
                    assert(line_key(norm[i as int]) == g);
                } else if exists|j: int| 0 <= j < i + 1 && line_key(#[trigger] norm[j]) == g {
                    let j = choose|j: int| 0 <= j < i + 1 && line_key(#[trigger] norm[j]) == g;
                    assert(j < i);
                    assert(was_seen.contains_key(g));
                } else {
                    assert(!was_seen.contains_key(g));
                }
            }
            assert forall|p: int| #[trigger]
                named(to_remove@).contains(p) <==> 0 <= p < i + 1 && first_like(norm, p) != p by {
                if found is Some {
                    assert(to_remove@[was_marked.len() as int] == i);
                    if named(to_remove@).contains(p) && p != i as int {
                        let k = choose|k: int|
                            0 <= k < to_remove@.len() && to_remove@[k] as int == p;
                        assert(was_marked[k] as int == p);
                        assert(named(was_marked).contains(p));
                    }
                    if named(was_marked).contains(p) {
                        let k = choose|k: int|
                            0 <= k < was_marked.len() && was_marked[k] as int == p;
                        assert(to_remove@[k] as int == p);
                    }
                }
            }
        }
        i = i + 1;
    }
    network.drop_edges(&to_remove);
    assert(named(to_remove@) =~= repeats(norm));
}

/// The identifiers that the edges descend from.
pub open spec fn ancestry(edges: Seq<Edge>) -> Set<usize> {
    Set::new(|id: usize| exists|i: int| 0 <= i < edges.len() && #[trigger] edges[i].parents.contains(id))
}

pub(crate) proof fn absorbed_holds(acc: Seq<usize>, more: Seq<usize>, n: int)
    requires
        0 <= n <= more.len(),
    ensures
        forall|id: usize| #[trigger]
            absorbed(acc, more, n).contains(id) <==> acc.contains(id) || exists|k: int|
                0 <= k < n && more[k] == id,
    decreases n,
{
    if n > 0 {
        absorbed_holds(acc, more, n - 1);
        let a = absorbed(acc, more, n - 1);
        let b = absorbed(acc, more, n);
        assert forall|id: usize|
            b.contains(id) <==> acc.contains(id) || exists|k: int| 0 <= k < n && more[k] == id by {
            if b.contains(id) {
                let k = choose|k: int| 0 <= k < b.len() && b[k] == id;
                if k < a.len() {
                    assert(a[k] == id);
                    assert(a.contains(id));
                } else {
                    assert(more[n - 1] == id);
                }
            }
            if a.contains(id) {
                let k = choose|k: int| 0 <= k < a.len() && a[k] == id;
                assert(b[k] == id);
            }
            if exists|k: int| 0 <= k < n && more[k] == id {
                let k = choose|k: int| 0 <= k < n && more[k] == id;
                if k < n - 1 {
                    assert(a.contains(id));
                } else if !a.contains(id) {
                    assert(b[b.len() - 1] == id);
                }
            }
        }
    }
}

/// What `united` does to each edge: its course and its origin stay, a repeated
/// edge ends up without ancestors, and no identifier is lost or gained.
pub(crate) proof fn united_keeps(edges: Seq<Edge>, normalized: Seq<Seq<Coord>>, n: int)
    requires
        0 <= n <= edges.len(),
        normalized.len() == edges.len(),
    ensures
        united(edges, normalized, n).len() == edges.len(),
        forall|i: int|
            0 <= i < edges.len() ==> {
                &&& (#[trigger] united(edges, normalized, n)[i]).line == edges[i].line
                &&& united(edges, normalized, n)[i].status == edges[i].status
                &&& i >= n ==> united(edges, normalized, n)[i] == edges[i]
                &&& i < n && first_like(normalized, i) != i ==> united(
                    edges,
                    normalized,
                    n,
                )[i].parents.len() == 0
            },
        forall|id: usize|
            ancestry(united(edges, normalized, n)).contains(id) <==> ancestry(edges).contains(id),
    decreases n,
{
    if n > 0 {
        united_keeps(edges, normalized, n - 1);
        let done = united(edges, normalized, n - 1);
        let next = united(edges, normalized, n);
        let last = done[n - 1];
        let first = first_like(normalized, n - 1);
        first_like_is_first(normalized, n - 1, 0);
        if first != n - 1 {
            let ids = absorbed(done[first].parents, last.parents, last.parents.len() as int);
            absorbed_holds(done[first].parents, last.parents, last.parents.len() as int);
            in_order_exists(ids);
            assert(first_like(normalized, first) == first) by {
                first_like_is_first(normalized, first, 0);
                let f = first_like(normalized, first);
                if f < first {
                    assert(line_key(normalized[f]) != line_key(normalized[n - 1]));
                }
            }
            assert forall|id: usize|
                ancestry(next).contains(id) <==> ancestry(done).contains(id) by {
                if ancestry(next).contains(id) {
                    let i = choose|i: int|
                        0 <= i < next.len() && #[trigger] next[i].parents.contains(id);
                    if i == first {
                        assert(ids.contains(id));
                        if done[first].parents.contains(id) {
                            assert(ancestry(done).contains(id));
                        } else {
                            let k = choose|k: int|
                                0 <= k < last.parents.len() && last.parents[k] == id;
                            assert(done[n - 1].parents.contains(id));
                        }
                    } else if i != n - 1 {
                        assert(done[i].parents.contains(id));
                    }
                }
                if ancestry(done).contains(id) {
                    let i = choose|i: int|
                        0 <= i < done.len() && #[trigger] done[i].parents.contains(id);
                    if i == n - 1 {
                        let k = choose|k: int|
                            0 <= k < last.parents.len() && last.parents[k] == id;
                        assert(last.parents[k] == id);
                        assert(ids.contains(id));
                        assert(next[first].parents.contains(id));
                    } else if i == first {
                        assert(ids.contains(id));
                        assert(next[first].parents.contains(id));
                    } else {
                        assert(next[i].parents.contains(id));
                    }
                }
            }
        }
    }
}

/// Joining repeated edges loses no ancestor and invents none: an identifier is
/// found in the result exactly when it was found before.
pub proof fn dedup_keeps_ancestry(edges: Seq<Edge>, normalized: Seq<Seq<Coord>>)
    requires
        normalized.len() == edges.len(),
    ensures
        ancestry(deduped(edges, normalized)) == ancestry(edges),
{
    broadcast use vstd::seq_lib::group_to_multiset_ensures;
    let n = edges.len() as int;
    let joined = united(edges, normalized, n);
    let marked = repeats(normalized);
    let left = swept(joined, marked, n);
    united_keeps(edges, normalized, n);
    sweep_keeps_unmarked(joined, marked);
    let kept = select(joined, unmarked(marked), n);
    select_holds_kept(joined, unmarked(marked), n);
    assert forall|id: usize| ancestry(left).contains(id) <==> ancestry(joined).contains(id) by {
        if ancestry(left).contains(id) {
            let i = choose|i: int| 0 <= i < left.len() && #[trigger] left[i].parents.contains(id);
            assert(left.contains(left[i]));
            assert(kept.to_multiset().count(left[i]) > 0);
            assert(kept.contains(left[i]));
            let j = choose|j: int|
                0 <= j < n && unmarked(marked)(j) && joined[j] == left[i];
            assert(joined[j].parents.contains(id));
        }
        if ancestry(joined).contains(id) {
            let j = choose|j: int|
                0 <= j < joined.len() && #[trigger] joined[j].parents.contains(id);
            assert(unmarked(marked)(j));
            assert(kept.contains(joined[j]));
            assert(left.to_multiset().count(joined[j]) > 0);
            assert(left.contains(joined[j]));
            let i = choose|i: int| 0 <= i < left.len() && left[i] == joined[j];
            assert(left[i].parents.contains(id));
        }
    }
    assert(ancestry(left) =~= ancestry(edges));
}

/// Joining repeated edges leaves one edge of each course, with its course and
/// its origin as they were: the first of those that are the same.
pub proof fn dedup_leaves_first_of_each(edges: Seq<Edge>, normalized: Seq<Seq<Coord>>)
    requires
        normalized.len() == edges.len(),
    ensures
        ({
            let n = edges.len() as int;
            let joined = united(edges, normalized, n);
            let left = deduped(edges, normalized);
            &&& left.to_multiset() == select(
                joined,
                unmarked(repeats(normalized)),
                n,
            ).to_multiset()
            &&& forall|i: int|
                0 <= i < n ==> (#[trigger] joined[i]).line == edges[i].line && joined[i].status
                    == edges[i].status
        }),
        forall|i: int, j: int|
            0 <= i < j < edges.len() && !repeats(normalized).contains(i) && !repeats(
                normalized,
            ).contains(j) ==> line_key(#[trigger] normalized[i]) != line_key(
                #[trigger] normalized[j],
            ),
        forall|i: int| #[trigger]
            repeats(normalized).contains(i) ==> {
                &&& 0 <= first_like(normalized, i) < i
                &&& !repeats(normalized).contains(first_like(normalized, i))
                &&& line_key(normalized[first_like(normalized, i)]) == line_key(normalized[i])
            },
{
    let n = edges.len() as int;
    united_keeps(edges, normalized, n);
    sweep_keeps_unmarked(united(edges, normalized, n), repeats(normalized));
    assert forall|i: int, j: int|
        0 <= i < j < edges.len() && !repeats(normalized).contains(i) && !repeats(
            normalized,
        ).contains(j) implies line_key(#[trigger] normalized[i]) != line_key(
        #[trigger] normalized[j],
    ) by {
        first_like_is_first(normalized, j, 0);
    }
    assert forall|i: int| #[trigger] repeats(normalized).contains(i) implies {
        &&& 0 <= first_like(normalized, i) < i
        &&& !repeats(normalized).contains(first_like(normalized, i))
        &&& line_key(normalized[first_like(normalized, i)]) == line_key(normalized[i])
    } by {
        first_like_is_first(normalized, i, 0);
        let f = first_like(normalized, i);
        first_like_is_first(normalized, f, 0);
        if first_like(normalized, f) < f {
            assert(line_key(normalized[first_like(normalized, f)]) != line_key(normalized[i]));
        }
    }
}

/// The courses of edges in normal form.
pub open spec fn in_normal_form(
    edges: Seq<Edge>,
    normal: spec_fn(Seq<Coord>) -> Seq<Coord>,
) -> Seq<Seq<Coord>> {
    Seq::new(edges.len(), |i: int| normal(edges[i].line))
}

/// Where no edge repeats another, joining changes nothing: not the edges, not their
/// order and not that of their ancestors.
pub proof fn nothing_to_dedup(edges: Seq<Edge>, normalized: Seq<Seq<Coord>>)
    requires
        normalized.len() == edges.len(),
        forall|i: int, j: int|
            0 <= i < j < normalized.len() ==> line_key(#[trigger] normalized[i]) != line_key(
                #[trigger] normalized[j],
            ),
    ensures
        deduped(edges, normalized) == edges,
{
    let n = edges.len() as int;
    assert forall|i: int| 0 <= i < n implies #[trigger] first_like(normalized, i) == i by {
        first_like_is_first(normalized, i, 0);
        let first = first_like(normalized, i);
        if first < i {
            assert(line_key(normalized[first]) != line_key(normalized[i]));
        }
    }
    nothing_united(edges, normalized, n);
    nothing_swept(edges, repeats(normalized), n);
}

proof fn nothing_united(edges: Seq<Edge>, normalized: Seq<Seq<Coord>>, n: int)
    requires
        forall|i: int| 0 <= i < n ==> #[trigger] first_like(normalized, i) == i,
    ensures
        united(edges, normalized, n) == edges,
    decreases n,
{
    if n > 0 {
        nothing_united(edges, normalized, n - 1);
        assert(first_like(normalized, n - 1) == n - 1);
    }
}

/// Joining a second time changes nothing, whatever the normal form of a course is.
pub proof fn dedup_settles(edges: Seq<Edge>, normal: spec_fn(Seq<Coord>) -> Seq<Coord>)
    ensures
        ({
            let once = deduped(edges, in_normal_form(edges, normal));
            deduped(once, in_normal_form(once, normal)) == once
        }),
{
    let n = edges.len() as int;
    let normalized = in_normal_form(edges, normal);
    let joined = united(edges, normalized, n);
    let marked = repeats(normalized);
    let once = deduped(edges, normalized);
    let again = in_normal_form(once, normal);
    united_keeps(edges, normalized, n);
    dedup_leaves_first_of_each(edges, normalized);
    swept_from(joined, marked);
    let from = swept(Seq::new(joined.len(), |i: int| i), marked, n);
    assert forall|i: int, j: int| 0 <= i < j < again.len() implies line_key(
        #[trigger] again[i],
    ) != line_key(#[trigger] again[j]) by {
        let p = from[i];
        let q = from[j];
        assert(once[i] == joined[p] && once[j] == joined[q]);
        assert(joined[p].line == edges[p].line && joined[q].line == edges[q].line);
        assert(again[i] == normalized[p] && again[j] == normalized[q]);
        assert(p != q);
        assert(!marked.contains(p) && !marked.contains(q));
        if p < q {
            assert(line_key(normalized[p]) != line_key(normalized[q]));
        } else {
            assert(line_key(normalized[q]) != line_key(normalized[p]));
        }
    }
    nothing_to_dedup(once, again);
}

} // verus!
