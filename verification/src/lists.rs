//! Sequences: selections, removals that fill the gap from the end, and sorted
//! lists of identifiers.
use std::collections::HashSet;
use vstd::prelude::*;

verus! {

/// The elements of the first `n` positions of `s` whose position is kept, in
/// order.
pub open spec fn select<T>(s: Seq<T>, keep: spec_fn(int) -> bool, n: int) -> Seq<T>
    decreases n,
{
    if n <= 0 {
        Seq::empty()
    } else if keep(n - 1) {
        select(s, keep, n - 1).push(s[n - 1])
    } else {
        select(s, keep, n - 1)
    }
}

/// The positions below `n` that are kept, in order.
pub open spec fn positions(keep: spec_fn(int) -> bool, n: int) -> Seq<usize>
    decreases n,
{
    if n <= 0 {
        Seq::empty()
    } else if keep(n - 1) {
        positions(keep, n - 1).push((n - 1) as usize)
    } else {
        positions(keep, n - 1)
    }
}

/// How often `x` occurs among the first `n` elements of `s`.
pub open spec fn occurrences<T>(s: Seq<T>, x: T, n: int) -> nat
    decreases n,
{
    if n <= 0 {
        0
    } else if s[n - 1] == x {
        occurrences(s, x, n - 1) + 1
    } else {
        occurrences(s, x, n - 1)
    }
}

pub open spec fn ascending(s: Seq<usize>) -> bool {
    forall|i: int, j: int| 0 <= i < j < s.len() ==> s[i] <= s[j]
}

pub open spec fn strictly_ascending(s: Seq<usize>) -> bool {
    forall|i: int, j: int| 0 <= i < j < s.len() ==> s[i] < s[j]
}

/// `s` without position `i`; the last element moves into the gap.
pub open spec fn swap_removed<T>(s: Seq<T>, i: int) -> Seq<T> {
    s.update(i, s.last()).drop_last()
}

/// `s` after the marked positions below `n` were removed from the highest to
/// the lowest, each gap filled from the end.
pub open spec fn swept<T>(s: Seq<T>, marked: Set<int>, n: int) -> Seq<T>
    decreases n,
{
    if n <= 0 {
        s
    } else if marked.contains(n - 1) {
        swept(swap_removed(s, n - 1), marked, n - 1)
    } else {
        swept(s, marked, n - 1)
    }
}

/// Sorts identifiers in place with `slice::sort_unstable`, which rearranges a
/// slice of integers into ascending order.
#[verifier::external_body]
pub(crate) fn sort_ids(ids: &mut Vec<usize>)
    ensures
        ascending(final(ids)@),
        final(ids)@.to_multiset() == old(ids)@.to_multiset(),
{
    ids.sort_unstable();
}

/// What `select` holds is what is kept.
pub proof fn select_holds_kept<T>(s: Seq<T>, keep: spec_fn(int) -> bool, n: int)
    requires
        0 <= n <= s.len(),
    ensures
        select(s, keep, n).len() <= n,
        forall|i: int|
            0 <= i < n && keep(i) ==> #[trigger] select(s, keep, n).contains(s[i]),
        forall|x: T| #[trigger]
            select(s, keep, n).contains(x) ==> exists|i: int| 0 <= i < n && keep(i) && s[i] == x,
    decreases n,
{
    if n > 0 {
        select_holds_kept(s, keep, n - 1);
        let rest = select(s, keep, n - 1);
        if keep(n - 1) {
            let all = rest.push(s[n - 1]);
            assert(all[rest.len() as int] == s[n - 1]);
            assert forall|i: int| 0 <= i < n && keep(i) implies all.contains(s[i]) by {
                if i < n - 1 {
                    assert(rest.contains(s[i]));
                    let k = choose|k: int| 0 <= k < rest.len() && rest[k] == s[i];
                    assert(all[k] == s[i]);
                }
            }
            assert forall|x: T| all.contains(x) implies exists|i: int|
                0 <= i < n && keep(i) && s[i] == x by {
                let k = choose|k: int| 0 <= k < all.len() && all[k] == x;
                if k < rest.len() {
                    assert(rest[k] == x);
                    assert(rest.contains(x));
                }
            }
        }
    }
}

/// The kept positions below `n` are in strictly ascending order, and a position
/// is among them exactly when it is kept.
pub proof fn positions_are_kept(keep: spec_fn(int) -> bool, n: int)
    requires
        n <= usize::MAX + 1,
    ensures
        strictly_ascending(positions(keep, n)),
        forall|x: usize| #[trigger] positions(keep, n).contains(x) <==> x < n && keep(x as int),
    decreases n,
{
    if n > 0 {
        positions_are_kept(keep, n - 1);
        let rest = positions(keep, n - 1);
        let all = positions(keep, n);
        assert forall|i: int| 0 <= i < rest.len() implies rest[i] < n - 1 by {
            assert(rest.contains(rest[i]));
        }
        assert forall|x: usize| #[trigger] all.contains(x) <==> x < n && keep(x as int) by {
            if all.contains(x) {
                let i = choose|i: int| 0 <= i < all.len() && all[i] == x;
                if i < rest.len() {
                    assert(rest.contains(rest[i]));
                }
            }
            if x < n && keep(x as int) {
                if x < n - 1 {
                    assert(rest.contains(x));
                    let i = choose|i: int| 0 <= i < rest.len() && rest[i] == x;
                    assert(all[i] == x);
                } else {
                    assert(all[all.len() - 1] == x);
                }
            }
        }
    }
}

/// Two lists in ascending order with the same elements are the same list.
pub proof fn ascending_is_unique(a: Seq<usize>, b: Seq<usize>)
    requires
        ascending(a),
        ascending(b),
        a.to_multiset() == b.to_multiset(),
    ensures
        a == b,
    decreases a.len(),
{
    broadcast use vstd::seq_lib::group_to_multiset_ensures;
    assert(a.to_multiset().len() == a.len() && b.to_multiset().len() == b.len());
    if a.len() > 0 {
        let x = a.last();
        let y = b.last();
        assert(a.contains(x) && b.contains(y));
        assert(b.to_multiset().count(x) > 0);
        assert(a.to_multiset().count(y) > 0);
        assert(b.contains(x) && a.contains(y));
        assert(x == y);
        assert(a.drop_last() =~= a.remove(a.len() - 1));
        assert(b.drop_last() =~= b.remove(b.len() - 1));
        ascending_is_unique(a.drop_last(), b.drop_last());
        assert(a =~= a.drop_last().push(x));
        assert(b =~= b.drop_last().push(y));
    }
}

/// Two lists in strictly ascending order that hold the same are the same list.
pub proof fn strictly_ascending_is_unique(a: Seq<usize>, b: Seq<usize>)
    requires
        strictly_ascending(a),
        strictly_ascending(b),
        forall|x: usize| a.contains(x) <==> b.contains(x),
    ensures
        a == b,
    decreases a.len(),
{
    if a.len() == 0 {
        if b.len() > 0 {
            assert(b.contains(b[0]));
        }
        assert(a =~= b);
    } else {
        let x = a.last();
        assert(a.contains(x));
        assert(b.contains(x));
        let y = b.last();
        assert(b.contains(y));
        assert(a.contains(y));
        assert(x == y);
        let c = a.drop_last();
        let d = b.drop_last();
        assert forall|z: usize| c.contains(z) <==> d.contains(z) by {
            if c.contains(z) {
                let i = choose|i: int| 0 <= i < c.len() && c[i] == z;
                assert(a[i] == z && a.contains(z));
                assert(z < x);
                let j = choose|j: int| 0 <= j < b.len() && b[j] == z;
                assert(d[j] == z);
            }
            if d.contains(z) {
                let i = choose|i: int| 0 <= i < d.len() && d[i] == z;
                assert(b[i] == z && b.contains(z));
                assert(z < y);
                let j = choose|j: int| 0 <= j < a.len() && a[j] == z;
                assert(c[j] == z);
            }
        }
        strictly_ascending_is_unique(c, d);
        assert(a =~= c.push(x));
        assert(b =~= d.push(y));
    }
}

/// The same identifiers, each as often, in ascending order.
pub open spec fn in_order(ids: Seq<usize>) -> Seq<usize> {
    choose|r: Seq<usize>| ascending(r) && r.to_multiset() == ids.to_multiset()
}

/// There is such a list.
pub proof fn in_order_exists(ids: Seq<usize>)
    ensures
        ascending(in_order(ids)),
        in_order(ids).to_multiset() == ids.to_multiset(),
        forall|x: usize| in_order(ids).contains(x) <==> ids.contains(x),
{
    broadcast use vstd::seq_lib::group_to_multiset_ensures;
    let leq = |a: usize, b: usize| a <= b;
    ids.lemma_sort_by_ensures(leq);
    let r = ids.sort_by(leq);
    assert(ascending(r)) by {
        assert forall|i: int, j: int| 0 <= i < j < r.len() implies r[i] <= r[j] by {
            assert(leq(r[i], r[j]));
        }
    }
    assert forall|x: usize| in_order(ids).contains(x) <==> ids.contains(x) by {
        assert(in_order(ids).to_multiset().count(x) == ids.to_multiset().count(x));
    }
}

/// Removing one position by filling its gap from the end loses that element
/// and no other.
pub proof fn swap_removed_elements<T>(s: Seq<T>, i: int)
    requires
        0 <= i < s.len(),
    ensures
        swap_removed(s, i).len() == s.len() - 1,
        swap_removed(s, i).to_multiset() == s.to_multiset().remove(s[i]),
{
    broadcast use vstd::seq_lib::group_to_multiset_ensures;
    broadcast use vstd::multiset::group_multiset_axioms;
    let r = swap_removed(s, i);
    let last = s.last();
    if i == s.len() - 1 {
        assert(r =~= s.remove(i));
    } else {
        let short = s.remove(s.len() - 1);
        let gap = short.remove(i);
        assert(r =~= gap.insert(i, last));
        vstd::seq_lib::to_multiset_insert(gap, i, last);
        vstd::seq_lib::to_multiset_remove(s, s.len() - 1);
        vstd::seq_lib::to_multiset_remove(short, i);
        assert(s.contains(last) && s.contains(s[i]));
        assert(short.contains(s[i])) by {
            assert(short[i] == s[i]);
        }
        assert(short.to_multiset().count(s[i]) > 0);
        assert(r.to_multiset() =~= s.to_multiset().remove(s[i]));
    }
}

/// The positions that a sweep leaves, in order.
pub open spec fn unmarked(marked: Set<int>) -> spec_fn(int) -> bool {
    |i: int| !marked.contains(i)
}

/// Sweeping the marked positions keeps the elements at all other positions,
/// each as often as before, and no others.
pub proof fn sweep_keeps_unmarked<T>(s: Seq<T>, marked: Set<int>)
    ensures
        swept(s, marked, s.len() as int).to_multiset() == select(
            s,
            unmarked(marked),
            s.len() as int,
        ).to_multiset(),
        swept(s, marked, s.len() as int).len() <= s.len(),
{
    broadcast use vstd::multiset::group_multiset_axioms;
    let n = s.len() as int;
    sweep_step(s, s, marked, n);
    assert(s.skip(n).to_multiset() =~= vstd::multiset::Multiset::empty()) by {
        broadcast use vstd::seq_lib::group_to_multiset_ensures;
        assert(s.skip(n).len() == 0);
        assert(s.skip(n).to_multiset().len() == 0);
    }
    assert(select(s, unmarked(marked), n).to_multiset().add(s.skip(n).to_multiset()) =~= select(
        s,
        unmarked(marked),
        n,
    ).to_multiset());
}

proof fn sweep_step<T>(s: Seq<T>, t: Seq<T>, marked: Set<int>, n: int)
    requires
        0 <= n <= t.len(),
        n <= s.len(),
        forall|i: int| 0 <= i < n ==> s[i] == t[i],
    ensures
        swept(t, marked, n).to_multiset() == select(s, unmarked(marked), n).to_multiset().add(
            t.skip(n).to_multiset(),
        ),
        swept(t, marked, n).len() <= t.len(),
    decreases n,
{
    broadcast use vstd::seq_lib::group_to_multiset_ensures;
    broadcast use vstd::multiset::group_multiset_axioms;
    if n <= 0 {
        assert(t.skip(n) =~= t);
        assert(swept(t, marked, n).to_multiset() =~= select(s, unmarked(marked), n).to_multiset().add(
            t.skip(n).to_multiset(),
        ));
    } else if marked.contains(n - 1) {
        let u = swap_removed(t, n - 1);
        sweep_step(s, u, marked, n - 1);
        let tail = t.skip(n);
        assert(t.skip(n - 1) =~= seq![t[n - 1]] + tail);
        if n == t.len() {
            assert(u.skip(n - 1) =~= tail);
        } else {
            assert(u.skip(n - 1) =~= swap_removed(t.skip(n - 1), 0));
            swap_removed_elements(t.skip(n - 1), 0);
            assert(t.skip(n - 1).remove(0) =~= tail);
            vstd::seq_lib::to_multiset_remove(t.skip(n - 1), 0);
        }
        assert(!unmarked(marked)(n - 1));
    } else {
        sweep_step(s, t, marked, n - 1);
        assert(unmarked(marked)(n - 1));
        let head = select(s, unmarked(marked), n - 1);
        assert(t.skip(n - 1).remove(0) =~= t.skip(n));
        vstd::seq_lib::to_multiset_remove(t.skip(n - 1), 0);
        assert(t.skip(n - 1).contains(t[n - 1])) by {
            assert(t.skip(n - 1)[0] == t[n - 1]);
        }
        assert(t.skip(n - 1).to_multiset() =~= t.skip(n).to_multiset().insert(t[n - 1]));
        assert(head.push(s[n - 1]).to_multiset() =~= head.to_multiset().insert(s[n - 1]));
        assert(swept(t, marked, n).to_multiset() =~= select(s, unmarked(marked), n).to_multiset().add(
            t.skip(n).to_multiset(),
        ));
    }
}

/// The same identifiers once each, in ascending order.
pub fn sorted_distinct(ids: &Vec<usize>) -> (r: Vec<usize>)
    ensures
        strictly_ascending(r@),
        forall|x: usize| r@.contains(x) <==> ids@.contains(x),
{
    broadcast use vstd::seq_lib::group_to_multiset_ensures;

    let mut all: Vec<usize> = ids.clone();
    assert(all@ =~= ids@);
    sort_ids(&mut all);
    assert forall|x: usize| all@.contains(x) <==> ids@.contains(x) by {
        assert(all@.to_multiset().count(x) == ids@.to_multiset().count(x));
    }
    let mut r: Vec<usize> = Vec::new();
    let mut k: usize = 0;
    while k < all.len()
        invariant
            k <= all@.len(),
            ascending(all@),
            strictly_ascending(r@),
            k > 0 ==> r@.len() > 0 && r@.last() == all@[k - 1],
            k == 0 ==> r@.len() == 0,
            forall|x: usize| r@.contains(x) <==> exists|j: int| 0 <= j < k && all@[j] == x,
        decreases all.len() - k,
    {
        let x = all[k];
        let ghost before = r@;
        if r.len() == 0 || r[r.len() - 1] != x {
            assert(r@.len() > 0 ==> r@.last() < x);
            r.push(x);
            assert(strictly_ascending(r@)) by {
                assert forall|i: int, j: int| 0 <= i < j < r@.len() implies r@[i] < r@[j] by {
                    if j == before.len() && i < before.len() - 1 {
                        assert(before[i] < before[before.len() - 1]);
                    }
                }
            }
            assert forall|y: usize| r@.contains(y) <==> exists|j: int|
                0 <= j < k + 1 && all@[j] == y by {
                if r@.contains(y) {
                    let m = choose|m: int| 0 <= m < r@.len() && r@[m] == y;
                    if m < before.len() {
                        assert(before[m] == y);
                        assert(before.contains(y));
                    } else {
                        assert(all@[k as int] == y);
                    }
                }
                if exists|j: int| 0 <= j < k + 1 && all@[j] == y {
                    let j = choose|j: int| 0 <= j < k + 1 && all@[j] == y;
                    if j < k {
                        assert(before.contains(y));
                        let m = choose|m: int| 0 <= m < before.len() && before[m] == y;
                        assert(r@[m] == y);
                    } else {
                        assert(r@[r@.len() - 1] == y);
                    }
                }
            }
        } else {
            assert forall|y: usize| r@.contains(y) <==> exists|j: int|
                0 <= j < k + 1 && all@[j] == y by {
                if exists|j: int| 0 <= j < k + 1 && all@[j] == y {
                    let j = choose|j: int| 0 <= j < k + 1 && all@[j] == y;
                    if j == k {
                        assert(r@[r@.len() - 1] == y);
                    }
                }
            }
        }
        k = k + 1;
    }
    assert forall|x: usize| r@.contains(x) <==> ids@.contains(x) by {
        if ids@.contains(x) {
            assert(all@.contains(x));
            let j = choose|j: int| 0 <= j < all@.len() && all@[j] == x;
            assert(all@[j] == x);
        }
    }
    r
}

/// A copy of a list of identifiers.
pub(crate) fn copy_ids(ids: &Vec<usize>) -> (r: Vec<usize>)
    ensures
        r@ == ids@,
{
    let r = ids.clone();
    assert(r@ =~= ids@);
    r
}

/// How many different identifiers a list holds.
pub fn count_distinct(ids: &Vec<usize>) -> (r: usize)
    ensures
        r == ids@.to_set().len(),
{
    broadcast use vstd::std_specs::hash::group_hash_axioms;

    let mut seen: HashSet<usize> = HashSet::new();
    let mut k: usize = 0;
    assert(seen@ =~= ids@.take(0).to_set());
    while k < ids.len()
        invariant
            k <= ids@.len(),
            seen@ == ids@.take(k as int).to_set(),
        decreases ids.len() - k,
    {
        let ghost before = ids@.take(k as int);
        let ghost now = ids@.take(k + 1);
        seen.insert(ids[k]);
        assert(now =~= before.push(ids@[k as int]));
        assert forall|x: usize| now.contains(x) <==> before.contains(x) || x == ids@[k as int] by {
            if before.contains(x) {
                let j = choose|j: int| 0 <= j < before.len() && before[j] == x;
                assert(now[j] == x);
            }
            if x == ids@[k as int] {
                assert(now[k as int] == x);
            }
        }
        assert(seen@ =~= now.to_set());
        k = k + 1;
    }
    assert(ids@.take(k as int) =~= ids@);
    seen.len()
}

/// Whether one of the first `n` identifiers of a list is `x`.
pub(crate) fn holds(list: &Vec<usize>, x: usize, n: usize) -> (r: bool)
    requires
        n <= list@.len(),
    ensures
        r == exists|k: int| 0 <= k < n && list@[k] == x,
{
    let mut k: usize = 0;
    while k < n
        invariant
            k <= n <= list@.len(),
            forall|j: int| 0 <= j < k ==> list@[j] != x,
        decreases n - k,
    {
        if list[k] == x {
            return true;
        }
        k = k + 1;
    }
    false
}

/// Appends `more` to `list`.
pub(crate) fn append_ids(list: &mut Vec<usize>, more: &Vec<usize>)
    ensures
        final(list)@ == old(list)@ + more@,
{
    let ghost before = list@;
    let mut k: usize = 0;
    while k < more.len()
        invariant
            k <= more@.len(),
            list@ == before + more@.take(k as int),
        decreases more.len() - k,
    {
        list.push(more[k]);
        k = k + 1;
        assert(list@ =~= before + more@.take(k as int));
    }
    assert(more@.take(k as int) =~= more@);
}

/// All flags are set.
pub open spec fn all_true(flags: Seq<bool>) -> bool {
    forall|k: int| 0 <= k < flags.len() ==> #[trigger] flags[k]
}

/// Whether all flags are set.
pub(crate) fn every(flags: &Vec<bool>) -> (r: bool)
    ensures
        r == all_true(flags@),
{
    let mut k: usize = 0;
    while k < flags.len()
        invariant
            k <= flags@.len(),
            forall|j: int| 0 <= j < k ==> #[trigger] flags@[j],
        decreases flags.len() - k,
    {
        if !flags[k] {
            return false;
        }
        k = k + 1;
    }
    true
}

/// A sweep without marks changes nothing.
pub proof fn nothing_swept<T>(s: Seq<T>, marked: Set<int>, n: int)
    requires
        forall|i: int| 0 <= i < n ==> !(#[trigger] marked.contains(i)),
    ensures
        swept(s, marked, n) == s,
    decreases n,
{
    if n > 0 {
        nothing_swept(s, marked, n - 1);
        assert(!marked.contains(n - 1));
    }
}

/// Where the elements that a sweep leaves come from: the positions are swept in the
/// same way. No two elements come from one position, and none from a marked one.
pub proof fn swept_from<T>(s: Seq<T>, marked: Set<int>)
    ensures
        ({
            let n = s.len() as int;
            let from = swept(Seq::new(s.len(), |i: int| i), marked, n);
            &&& from.len() == swept(s, marked, n).len()
            &&& forall|i: int|
                0 <= i < from.len() ==> {
                    &&& 0 <= #[trigger] from[i] < n
                    &&& !marked.contains(from[i])
                    &&& swept(s, marked, n)[i] == s[from[i]]
                }
            &&& forall|i: int, j: int|
                0 <= i < j < from.len() ==> #[trigger] from[i] != #[trigger] from[j]
        }),
{
    let n = s.len() as int;
    let at = Seq::new(s.len(), |i: int| i);
    let from = swept(at, marked, n);
    swept_alike(s, s, at, marked, n);
    sweep_keeps_unmarked(at, marked);
    select_holds_kept(at, unmarked(marked), n);
    let kept = select(at, unmarked(marked), n);
    assert forall|i: int| 0 <= i < from.len() implies !marked.contains(#[trigger] from[i]) by {
        broadcast use vstd::seq_lib::group_to_multiset_ensures;

        assert(from.contains(from[i]));
        assert(kept.to_multiset().count(from[i]) > 0);
        assert(kept.contains(from[i]));
        let k = choose|k: int| 0 <= k < n && unmarked(marked)(k) && at[k] == from[i];
        assert(!marked.contains(k));
    }
}

proof fn swept_alike<T>(base: Seq<T>, s: Seq<T>, at: Seq<int>, marked: Set<int>, n: int)
    requires
        0 <= n <= s.len(),
        s.len() == at.len(),
        forall|i: int|
            0 <= i < at.len() ==> 0 <= #[trigger] at[i] < base.len() && s[i] == base[at[i]],
        forall|i: int, j: int| 0 <= i < j < at.len() ==> #[trigger] at[i] != #[trigger] at[j],
    ensures
        ({
            let from = swept(at, marked, n);
            &&& from.len() == swept(s, marked, n).len()
            &&& forall|i: int|
                0 <= i < from.len() ==> 0 <= #[trigger] from[i] < base.len() && swept(
                    s,
                    marked,
                    n,
                )[i] == base[from[i]]
            &&& forall|i: int, j: int|
                0 <= i < j < from.len() ==> #[trigger] from[i] != #[trigger] from[j]
        }),
    decreases n,
{
    if n > 0 {
        if marked.contains(n - 1) {
            swept_alike(
                base,
                swap_removed(s, n - 1),
                swap_removed(at, n - 1),
                marked,
                n - 1,
            );
        } else {
            swept_alike(base, s, at, marked, n - 1);
        }
    }
}

} // verus!
