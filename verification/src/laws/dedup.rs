//! Edges and lines that run the same course.
use crate::additions::distinct;
use crate::dedup::{
    absorbed, absorbed_holds, deduped, first_like, first_like_is_first, fresh, hash_input, line_key,
    repeats, united, united_keeps,
};
use crate::laws::network::{leaves, sweeping_leaves_the_rest};
use crate::laws::selections::{lists_exactly, selection_lists};
use crate::lists::{ascending, in_order, in_order_exists, select};
use crate::types::{Coord, Edge};
use std::collections::hash_map::DefaultHasher;
use vstd::bytes::{lemma_auto_spec_u64_to_from_le_bytes, spec_u64_to_le_bytes};
use vstd::prelude::*;
use vstd::std_specs::hash::DefaultHasherAdditionalSpecFns;

verus! {

/// What is hashed of a line: its number of points, then the two coordinates of each point, all
/// in eight bytes from the least significant one on.
pub open spec fn words_of(line: Seq<Coord>) -> Seq<Seq<u8>> {
    Seq::new(
        1 + 2 * line.len(),
        |i: int|
            if i == 0 {
                spec_u64_to_le_bytes(line.len() as u64)
            } else if i % 2 == 1 {
                spec_u64_to_le_bytes(line[i / 2].x.bits)
            } else {
                spec_u64_to_le_bytes(line[i / 2 - 1].y.bits)
            },
    )
}

proof fn input_by_word(line: Seq<Coord>, n: int)
    requires
        0 <= n <= line.len(),
    ensures
        hash_input(line, n) == words_of(line).take(1 + 2 * n),
    decreases n,
{
    if n == 0 {
        assert(hash_input(line, 0) =~= words_of(line).take(1));
    } else {
        input_by_word(line, n - 1);
        assert(hash_input(line, n) =~= words_of(line).take(1 + 2 * n)) by {
            let w = words_of(line);
            assert(w[2 * n - 1] == spec_u64_to_le_bytes(line[n - 1].x.bits)) by {
                assert((2 * n - 1) % 2 == 1 && (2 * n - 1) / 2 == n - 1);
            }
            assert(w[2 * n] == spec_u64_to_le_bytes(line[n - 1].y.bits)) by {
                assert((2 * n) % 2 == 0 && (2 * n) / 2 - 1 == n - 1);
            }
        }
    }
}

/// The key of a line is the hash of its number of points and of all its coordinates.
pub proof fn keys_are_hashed_from_all_points(line: Seq<Coord>)
    ensures
        line_key(line) == DefaultHasher::spec_finish(words_of(line)),
{
    input_by_word(line, line.len() as int);
    assert(words_of(line).take((1 + 2 * line.len()) as int) =~= words_of(line));
}

/// Lines that differ in a point or in their number of points are hashed from different words:
/// they share a key only by a collision.
pub proof fn different_lines_are_hashed_differently(a: Seq<Coord>, b: Seq<Coord>)
    requires
        words_of(a) == words_of(b),
    ensures
        a == b,
{
    lemma_auto_spec_u64_to_from_le_bytes();
    assert(words_of(a).len() == 1 + 2 * a.len());
    assert(words_of(b).len() == 1 + 2 * b.len());
    assert(a.len() == b.len());
    assert forall|k: int| 0 <= k < a.len() implies a[k] == b[k] by {
        let i = 2 * k + 1;
        assert(i % 2 == 1 && i / 2 == k);
        assert(words_of(a)[i] == words_of(b)[i]);
        assert(spec_u64_to_le_bytes(a[k].x.bits) == spec_u64_to_le_bytes(b[k].x.bits));
        let j = 2 * k + 2;
        assert(j % 2 == 0 && j / 2 - 1 == k);
        assert(words_of(a)[j] == words_of(b)[j]);
        assert(spec_u64_to_le_bytes(a[k].y.bits) == spec_u64_to_le_bytes(b[k].y.bits));
    }
    assert(a =~= b);
}

/// Some line before the line `i` is the same.
pub open spec fn is_repeated(normalized: Seq<Seq<Coord>>, i: int) -> bool {
    exists|j: int| 0 <= j < i && line_key(#[trigger] normalized[j]) == line_key(normalized[i])
}

/// Of lines, those are left that no line before is the same as, in order. That holds of the
/// lines that are added to a network as well.
pub proof fn the_first_of_each_line_is_left(geoms: Seq<Seq<Coord>>, normalized: Seq<Seq<Coord>>)
    requires
        normalized.len() == geoms.len(),
    ensures
        lists_exactly(
            select(geoms, fresh(normalized), geoms.len() as int),
            geoms,
            |i: int| !is_repeated(normalized, i),
        ),
        lists_exactly(distinct(geoms, normalized), geoms, |i: int| !is_repeated(normalized, i)),
{
    let wanted = |i: int| !is_repeated(normalized, i);
    assert forall|i: int| 0 <= i < geoms.len() implies (#[trigger] fresh(normalized)(i)
        <==> wanted(i)) by {
        if !wanted(i) {
            let j = choose|j: int|
                0 <= j < i && line_key(#[trigger] normalized[j]) == line_key(normalized[i]);
            assert(line_key(normalized[j]) == line_key(normalized[i]));
        }
    }
    selection_lists(geoms, fresh(normalized), wanted);
}

/// An edge that is the same as the edge `p`, from which `id` comes.
pub open spec fn hands_on(
    edges: Seq<Edge>,
    normalized: Seq<Seq<Coord>>,
    p: int,
    n: int,
    id: usize,
) -> bool {
    exists|j: int|
        0 <= j < edges.len() && (j < n || j == p) && line_key(#[trigger] normalized[j]) == line_key(
            normalized[p],
        ) && edges[j].parents.contains(id)
}

/// Another of the first `n` edges is the same as the edge `p`.
pub open spec fn has_double(normalized: Seq<Seq<Coord>>, p: int, n: int) -> bool {
    exists|j: int|
        0 <= j < n && j != p && line_key(#[trigger] normalized[j]) == line_key(normalized[p])
}

/// The edges `r` are the first ones of those that are the same, from the positions `from`, each
/// with its course and its origin. One that had doubles descends from all that these descend
/// from, in ascending order; one without is as it was.
pub open spec fn joins_doubles(
    r: Seq<Edge>,
    edges: Seq<Edge>,
    normalized: Seq<Seq<Coord>>,
    from: Seq<int>,
) -> bool {
    let n = edges.len() as int;
    &&& from.len() == r.len()
    &&& forall|i: int, j: int|
        0 <= i < j < from.len() ==> #[trigger] from[i] != #[trigger] from[j]
    &&& forall|k: int| 0 <= k < n && !(#[trigger] is_repeated(normalized, k)) ==> from.contains(k)
    &&& forall|i: int|
        0 <= i < from.len() ==> {
            let p = #[trigger] from[i];
            &&& 0 <= p < n
            &&& !is_repeated(normalized, p)
            &&& !is_repeated(normalized, i) ==> p == i
            &&& r[i].line == edges[p].line
            &&& r[i].status == edges[p].status
            &&& !has_double(normalized, p, n) ==> r[i] == edges[p]
            &&& has_double(normalized, p, n) ==> ascending(r[i].parents)
            &&& edges[p].parents.no_duplicates() ==> r[i].parents.no_duplicates()
            &&& forall|id: usize| #[trigger]
                r[i].parents.contains(id) <==> hands_on(edges, normalized, p, n, id)
        }
}

proof fn absorbed_once(acc: Seq<usize>, more: Seq<usize>, n: int)
    requires
        0 <= n <= more.len(),
        acc.no_duplicates(),
    ensures
        absorbed(acc, more, n).no_duplicates(),
    decreases n,
{
    if n > 0 {
        absorbed_once(acc, more, n - 1);
        let before = absorbed(acc, more, n - 1);
        if !before.contains(more[n - 1]) {
            let now = before.push(more[n - 1]);
            assert forall|i: int, j: int| 0 <= i < j < now.len() implies now[i] != now[j] by {
                if j == before.len() {
                    assert(before.contains(before[i]));
                }
            }
        }
    }
}

proof fn ordered_once(ids: Seq<usize>)
    requires
        ids.no_duplicates(),
    ensures
        in_order(ids).no_duplicates(),
{
    in_order_exists(ids);
    ids.lemma_multiset_has_no_duplicates();
    in_order(ids).lemma_multiset_has_no_duplicates_conv();
}

proof fn is_own_first(normalized: Seq<Seq<Coord>>, p: int)
    requires
        0 <= p,
    ensures
        first_like(normalized, p) == p <==> !is_repeated(normalized, p),
        0 <= first_like(normalized, p) <= p,
        line_key(normalized[first_like(normalized, p)]) == line_key(normalized[p]),
        !is_repeated(normalized, first_like(normalized, p)),
{
    first_like_is_first(normalized, p, 0);
    let first = first_like(normalized, p);
    if first < p {
        assert(line_key(normalized[first]) == line_key(normalized[p]));
        assert(is_repeated(normalized, p));
    }
    if is_repeated(normalized, first) {
        let j = choose|j: int|
            0 <= j < first && line_key(#[trigger] normalized[j]) == line_key(normalized[first]);
        assert(line_key(normalized[j]) != line_key(normalized[p]));
    }
}

proof fn united_parents(edges: Seq<Edge>, normalized: Seq<Seq<Coord>>, n: int, p: int)
    requires
        0 <= n <= edges.len(),
        normalized.len() == edges.len(),
        0 <= p < edges.len(),
        !is_repeated(normalized, p),
    ensures
        ({
            let own = united(edges, normalized, n)[p].parents;
            &&& !has_double(normalized, p, n) ==> own == edges[p].parents
            &&& has_double(normalized, p, n) ==> ascending(own)
            &&& edges[p].parents.no_duplicates() ==> own.no_duplicates()
            &&& forall|id: usize| #[trigger]
                own.contains(id) <==> hands_on(edges, normalized, p, n, id)
        }),
    decreases n,
{
    if n == 0 {
        assert forall|id: usize| edges[p].parents.contains(id) implies hands_on(
            edges,
            normalized,
            p,
            0,
            id,
        ) by {
            assert(line_key(normalized[p]) == line_key(normalized[p]));
        }
    } else {
        united_parents(edges, normalized, n - 1, p);
        united_keeps(edges, normalized, n - 1);
        let done = united(edges, normalized, n - 1);
        let next = united(edges, normalized, n);
        let before = done[p].parents;
        let own = next[p].parents;
        let last = done[n - 1];
        assert(last == edges[n - 1]);
        let first = first_like(normalized, n - 1);
        is_own_first(normalized, n - 1);
        let same = line_key(normalized[n - 1]) == line_key(normalized[p]);
        if same && p != n - 1 {
            if n - 1 < p {
                assert(is_repeated(normalized, p));
            }
            if first < p {
                assert(line_key(normalized[first]) == line_key(normalized[p]));
                assert(is_repeated(normalized, p));
            }
            if p < first {
                assert(line_key(normalized[p]) == line_key(normalized[first]));
                assert(is_repeated(normalized, first));
            }
            assert(p == first);
            let ids = absorbed(before, last.parents, last.parents.len() as int);
            assert(own == in_order(ids));
            absorbed_holds(before, last.parents, last.parents.len() as int);
            in_order_exists(ids);
            if edges[p].parents.no_duplicates() {
                absorbed_once(before, last.parents, last.parents.len() as int);
                ordered_once(ids);
            }
            assert(has_double(normalized, p, n)) by {
                assert(line_key(normalized[n - 1]) == line_key(normalized[p]));
            }
            assert forall|id: usize| #[trigger] own.contains(id) <==> hands_on(
                edges,
                normalized,
                p,
                n,
                id,
            ) by {
                if own.contains(id) {
                    assert(ids.contains(id));
                    if before.contains(id) {
                        let j = choose|j: int|
                            0 <= j < edges.len() && (j < n - 1 || j == p) && line_key(
                                #[trigger] normalized[j],
                            ) == line_key(normalized[p]) && edges[j].parents.contains(id);
                        assert(line_key(normalized[j]) == line_key(normalized[p]));
                    } else {
                        assert(edges[n - 1].parents.contains(id));
                        assert(line_key(normalized[n - 1]) == line_key(normalized[p]));
                    }
                }
                if hands_on(edges, normalized, p, n, id) {
                    let j = choose|j: int|
                        0 <= j < edges.len() && (j < n || j == p) && line_key(
                            #[trigger] normalized[j],
                        ) == line_key(normalized[p]) && edges[j].parents.contains(id);
                    if j == n - 1 {
                        let k = choose|k: int|
                            0 <= k < last.parents.len() && last.parents[k] == id;
                        assert(last.parents[k] == id);
                    } else {
                        assert(line_key(normalized[j]) == line_key(normalized[p]));
                        assert(before.contains(id));
                    }
                    assert(ids.contains(id));
                }
            }
        } else {
            assert(own == before) by {
                if first != n - 1 {
                    if p == n - 1 {
                        assert(first == n - 1);
                    }
                    assert(p != first);
                }
            }
            assert(has_double(normalized, p, n) <==> has_double(normalized, p, n - 1)) by {
                if has_double(normalized, p, n) {
                    let j = choose|j: int|
                        0 <= j < n && j != p && line_key(#[trigger] normalized[j]) == line_key(
                            normalized[p],
                        );
                    assert(j < n - 1);
                    assert(line_key(normalized[j]) == line_key(normalized[p]));
                }
                if has_double(normalized, p, n - 1) {
                    let j = choose|j: int|
                        0 <= j < n - 1 && j != p && line_key(#[trigger] normalized[j]) == line_key(
                            normalized[p],
                        );
                    assert(line_key(normalized[j]) == line_key(normalized[p]));
                }
            }
            assert forall|id: usize| #[trigger] own.contains(id) <==> hands_on(
                edges,
                normalized,
                p,
                n,
                id,
            ) by {
                assert(before.contains(id) <==> hands_on(edges, normalized, p, n - 1, id));
                if hands_on(edges, normalized, p, n - 1, id) {
                    let j = choose|j: int|
                        0 <= j < edges.len() && (j < n - 1 || j == p) && line_key(
                            #[trigger] normalized[j],
                        ) == line_key(normalized[p]) && edges[j].parents.contains(id);
                    assert(line_key(normalized[j]) == line_key(normalized[p]));
                }
                if hands_on(edges, normalized, p, n, id) {
                    let j = choose|j: int|
                        0 <= j < edges.len() && (j < n || j == p) && line_key(
                            #[trigger] normalized[j],
                        ) == line_key(normalized[p]) && edges[j].parents.contains(id);
                    assert(j < n - 1 || j == p);
                    assert(line_key(normalized[j]) == line_key(normalized[p]));
                }
            }
        }
    }
}

/// Of edges that run the same course the first one stays where it is and takes over the
/// ancestors of the others, which are removed. All other edges are kept as they are.
pub proof fn the_first_edge_takes_over_from_its_doubles(
    edges: Seq<Edge>,
    normalized: Seq<Seq<Coord>>,
)
    requires
        normalized.len() == edges.len(),
    ensures
        exists|from: Seq<int>| #[trigger]
            joins_doubles(deduped(edges, normalized), edges, normalized, from),
{
    let n = edges.len() as int;
    let all = united(edges, normalized, n);
    let gone = |i: int| is_repeated(normalized, i);
    united_keeps(edges, normalized, n);
    assert forall|i: int| 0 <= i < all.len() implies (#[trigger] gone(i) <==> repeats(
        normalized,
    ).contains(i)) by {
        is_own_first(normalized, i);
    }
    sweeping_leaves_the_rest(all, repeats(normalized), gone);
    let r = deduped(edges, normalized);
    let from = choose|from: Seq<int>| #[trigger] leaves(r, all, gone, from);
    assert forall|k: int| 0 <= k < n && !(#[trigger] is_repeated(normalized, k)) implies from.contains(
        k,
    ) by {
        assert(!gone(k));
    }
    assert forall|i: int| 0 <= i < from.len() implies {
        let p = #[trigger] from[i];
        &&& 0 <= p < n
        &&& !is_repeated(normalized, p)
        &&& !is_repeated(normalized, i) ==> p == i
        &&& r[i].line == edges[p].line
        &&& r[i].status == edges[p].status
        &&& !has_double(normalized, p, n) ==> r[i] == edges[p]
        &&& has_double(normalized, p, n) ==> ascending(r[i].parents)
        &&& edges[p].parents.no_duplicates() ==> r[i].parents.no_duplicates()
        &&& forall|id: usize| #[trigger]
            r[i].parents.contains(id) <==> hands_on(edges, normalized, p, n, id)
    } by {
        let p = from[i];
        assert(!gone(p));
        assert(r[i] == all[p]);
        assert(!gone(i) ==> p == i);
        united_parents(edges, normalized, n, p);
        assert(all[p].line == edges[p].line);
    }
    assert(joins_doubles(r, edges, normalized, from));
}

} // verus!
