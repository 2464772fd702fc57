//! What it means to list the wanted elements of a sequence.
use crate::lists::{occurrences, select};
use vstd::prelude::*;

verus! {

/// The elements of `r` are those of `s` at the positions `at`: the wanted positions,
/// from the first to the last, each once.
pub open spec fn drawn_at<T>(
    r: Seq<T>,
    s: Seq<T>,
    wanted: spec_fn(int) -> bool,
    at: Seq<int>,
) -> bool {
    &&& at.len() == r.len()
    &&& forall|i: int|
        0 <= i < at.len() ==> 0 <= #[trigger] at[i] < s.len() && wanted(at[i]) && r[i] == s[at[i]]
    &&& forall|i: int, j: int| 0 <= i < j < at.len() ==> #[trigger] at[i] < #[trigger] at[j]
    &&& forall|k: int| 0 <= k < s.len() && #[trigger] wanted(k) ==> at.contains(k)
}

/// `r` lists the elements of `s` at the wanted positions and nothing else: none is
/// left out, none occurs twice, and they stand in the order of `s`.
pub open spec fn lists_exactly<T>(r: Seq<T>, s: Seq<T>, wanted: spec_fn(int) -> bool) -> bool {
    exists|at: Seq<int>| #[trigger] drawn_at(r, s, wanted, at)
}

proof fn selected_first<T>(s: Seq<T>, keep: spec_fn(int) -> bool, n: int)
    requires
        0 <= n <= s.len(),
    ensures
        lists_exactly(select(s, keep, n), s.take(n), keep),
    decreases n,
{
    if n == 0 {
        assert(drawn_at(select(s, keep, 0), s.take(0), keep, Seq::empty()));
    } else {
        selected_first(s, keep, n - 1);
        let before = select(s, keep, n - 1);
        let head = s.take(n - 1);
        let at = choose|at: Seq<int>| #[trigger] drawn_at(before, head, keep, at);
        let r = select(s, keep, n);
        let all = s.take(n);
        assert forall|k: int| 0 <= k < n - 1 && #[trigger] keep(k) implies at.contains(k) by {
            assert(0 <= k < s.take(n - 1).len());
        }
        if keep(n - 1) {
            let more = at.push(n - 1);
            assert forall|i: int| 0 <= i < more.len() implies 0 <= #[trigger] more[i] < all.len()
                && keep(more[i]) && r[i] == all[more[i]] by {
                if i < at.len() {
                    assert(more[i] == at[i]);
                    assert(before[i] == s.take(n - 1)[at[i]]);
                }
            }
            assert forall|k: int| 0 <= k < all.len() && #[trigger] keep(k) implies more.contains(
                k,
            ) by {
                if k < n - 1 {
                    assert(at.contains(k));
                    let i = choose|i: int| 0 <= i < at.len() && at[i] == k;
                    assert(more[i] == k);
                } else {
                    assert(more[at.len() as int] == k);
                }
            }
            assert(drawn_at(r, all, keep, more));
        } else {
            assert forall|i: int| 0 <= i < at.len() implies 0 <= #[trigger] at[i] < all.len()
                && keep(at[i]) && r[i] == all[at[i]] by {
                assert(before[i] == s.take(n - 1)[at[i]]);
            }
            assert(drawn_at(r, all, keep, at));
        }
    }
}

/// A selection lists what is wanted, as long as it keeps the wanted positions.
pub proof fn selection_lists<T>(
    s: Seq<T>,
    keep: spec_fn(int) -> bool,
    wanted: spec_fn(int) -> bool,
)
    requires
        forall|k: int| 0 <= k < s.len() ==> (#[trigger] keep(k) <==> wanted(k)),
    ensures
        lists_exactly(select(s, keep, s.len() as int), s, wanted),
{
    let r = select(s, keep, s.len() as int);
    selected_first(s, keep, s.len() as int);
    assert(s.take(s.len() as int) =~= s);
    let at = choose|at: Seq<int>| #[trigger] drawn_at(r, s, keep, at);
    assert forall|i: int| 0 <= i < at.len() implies 0 <= #[trigger] at[i] < s.len() && wanted(at[i])
        && r[i] == s[at[i]] by {
        assert(keep(at[i]));
    }
    assert forall|k: int| 0 <= k < s.len() && #[trigger] wanted(k) implies at.contains(k) by {
        assert(keep(k));
    }
    assert(drawn_at(r, s, wanted, at));
}

proof fn rising_alike(a: Seq<int>, b: Seq<int>)
    requires
        forall|i: int, j: int| 0 <= i < j < a.len() ==> #[trigger] a[i] < #[trigger] a[j],
        forall|i: int, j: int| 0 <= i < j < b.len() ==> #[trigger] b[i] < #[trigger] b[j],
        forall|x: int| a.contains(x) <==> b.contains(x),
    ensures
        a == b,
    decreases a.len(),
{
    if a.len() == 0 {
        if b.len() > 0 {
            assert(b.contains(b[0]));
        }
        assert(a =~= b);
    } else {
        let x = a.last();
        assert(a.contains(x));
        assert(b.contains(x));
        let y = b.last();
        assert(b.contains(y));
        assert(a.contains(y));
        assert(x == y) by {
            let i = choose|i: int| 0 <= i < b.len() && b[i] == x;
            let j = choose|j: int| 0 <= j < a.len() && a[j] == y;
            if i < b.len() - 1 {
                assert(b[i] < b[b.len() - 1]);
            }
            if j < a.len() - 1 {
                assert(a[j] < a[a.len() - 1]);
            }
        }
        let c = a.drop_last();
        let d = b.drop_last();
        assert forall|z: int| c.contains(z) <==> d.contains(z) by {
            if c.contains(z) {
                let i = choose|i: int| 0 <= i < c.len() && c[i] == z;
                assert(a[i] == z && a[i] < a[a.len() - 1]);
                assert(a.contains(z));
                let j = choose|j: int| 0 <= j < b.len() && b[j] == z;
                assert(d[j] == z);
            }
            if d.contains(z) {
                let i = choose|i: int| 0 <= i < d.len() && d[i] == z;
                assert(b[i] == z && b[i] < b[b.len() - 1]);
                assert(b.contains(z));
                let j = choose|j: int| 0 <= j < a.len() && a[j] == z;
                assert(c[j] == z);
            }
        }
        rising_alike(c, d);
        assert(a =~= c.push(x));
        assert(b =~= d.push(y));
    }
}

/// What is wanted can be listed in one way only.
pub proof fn listed_once<T>(p: Seq<T>, q: Seq<T>, s: Seq<T>, wanted: spec_fn(int) -> bool)
    requires
        lists_exactly(p, s, wanted),
        lists_exactly(q, s, wanted),
    ensures
        p == q,
{
    let a = choose|at: Seq<int>| #[trigger] drawn_at(p, s, wanted, at);
    let b = choose|at: Seq<int>| #[trigger] drawn_at(q, s, wanted, at);
    assert forall|x: int| a.contains(x) <==> b.contains(x) by {
        if a.contains(x) {
            let i = choose|i: int| 0 <= i < a.len() && a[i] == x;
            assert(wanted(a[i]));
        }
        if b.contains(x) {
            let i = choose|i: int| 0 <= i < b.len() && b[i] == x;
            assert(wanted(b[i]));
        }
    }
    rising_alike(a, b);
    assert(p =~= q) by {
        assert forall|i: int| 0 <= i < p.len() implies p[i] == q[i] by {
            assert(p[i] == s[a[i]] && q[i] == s[b[i]]);
        }
    }
}

/// A list of what is wanted is the selection that keeps the wanted positions.
pub proof fn list_is_selection<T>(
    r: Seq<T>,
    s: Seq<T>,
    keep: spec_fn(int) -> bool,
    wanted: spec_fn(int) -> bool,
)
    requires
        lists_exactly(r, s, wanted),
        forall|k: int| 0 <= k < s.len() ==> (#[trigger] keep(k) <==> wanted(k)),
    ensures
        r == select(s, keep, s.len() as int),
{
    selection_lists(s, keep, wanted);
    listed_once(r, select(s, keep, s.len() as int), s, wanted);
}

/// What a list of the wanted elements holds: those, and no more than there are.
pub proof fn listed_are_wanted<T>(r: Seq<T>, s: Seq<T>, wanted: spec_fn(int) -> bool)
    requires
        lists_exactly(r, s, wanted),
    ensures
        r.len() <= s.len(),
        forall|k: int| 0 <= k < s.len() && #[trigger] wanted(k) ==> r.contains(s[k]),
        forall|x: T| #[trigger]
            r.contains(x) ==> exists|k: int| 0 <= k < s.len() && wanted(k) && s[k] == x,
        (forall|k: int| 0 <= k < s.len() ==> #[trigger] wanted(k)) ==> r == s,
        (forall|k: int| 0 <= k < s.len() ==> !(#[trigger] wanted(k))) ==> r.len() == 0,
{
    list_is_selection(r, s, wanted, wanted);
    crate::lists::select_holds_kept(s, wanted, s.len() as int);
    if forall|k: int| 0 <= k < s.len() ==> #[trigger] wanted(k) {
        let all = Seq::new(s.len(), |i: int| i);
        assert(drawn_at(s, s, wanted, all)) by {
            assert forall|k: int| 0 <= k < s.len() && #[trigger] wanted(k) implies all.contains(
                k,
            ) by {
                assert(all[k] == k);
            }
        }
        listed_once(r, s, s, wanted);
    }
    if forall|k: int| 0 <= k < s.len() ==> !(#[trigger] wanted(k)) {
        let at = choose|at: Seq<int>| #[trigger] drawn_at(r, s, wanted, at);
        if r.len() > 0 {
            assert(wanted(at[0]));
        }
    }
}

/// A count of occurrences is the number of elements that are equal.
pub proof fn occurrences_are_counted<T>(s: Seq<T>, x: T, n: int)
    requires
        0 <= n <= s.len(),
    ensures
        occurrences(s, x, n) == s.take(n).to_multiset().count(x),
    decreases n,
{
    broadcast use vstd::seq_lib::group_to_multiset_ensures;

    if n == 0 {
        assert(!s.take(0).contains(x));
    } else {
        occurrences_are_counted(s, x, n - 1);
        assert(s.take(n) =~= s.take(n - 1).push(s[n - 1]));
    }
}

/// A list holds at most one kind of element exactly when all its elements are the same.
pub proof fn one_kind<T>(s: Seq<T>)
    ensures
        s.to_set().len() <= 1 <==> forall|i: int, j: int|
            0 <= i < s.len() && 0 <= j < s.len() ==> #[trigger] s[i] == #[trigger] s[j],
{
    vstd::seq_lib::seq_to_set_is_finite(s);
    let kinds = s.to_set();
    if forall|i: int, j: int|
        0 <= i < s.len() && 0 <= j < s.len() ==> #[trigger] s[i] == #[trigger] s[j] {
        if s.len() == 0 {
            assert(kinds =~= Set::empty());
        } else {
            assert(kinds =~= Set::empty().insert(s[0])) by {
                assert(s.contains(s[0]));
            }
        }
    } else {
        let (i, j) = choose|i: int, j: int|
            0 <= i < s.len() && 0 <= j < s.len() && #[trigger] s[i] != #[trigger] s[j];
        assert(s.contains(s[i]) && s.contains(s[j]));
        assert(kinds.remove(s[i]).contains(s[j]));
        assert(kinds.remove(s[i]).len() >= 1) by {
            if kinds.remove(s[i]).len() == 0 {
                assert(kinds.remove(s[i]) =~= Set::empty());
            }
        }
    }
}

/// A list holds two kinds of elements exactly when two of its elements differ and every
/// other one is the same as one of these.
pub proof fn two_kinds<T>(s: Seq<T>)
    ensures
        s.to_set().len() == 2 <==> exists|i: int, j: int|
            0 <= i < j < s.len() && #[trigger] s[i] != #[trigger] s[j] && forall|k: int|
                0 <= k < s.len() ==> #[trigger] s[k] == s[i] || s[k] == s[j],
{
    vstd::seq_lib::seq_to_set_is_finite(s);
    let kinds = s.to_set();
    if kinds.len() == 2 {
        one_kind(s);
        let (p, q) = choose|p: int, q: int|
            0 <= p < s.len() && 0 <= q < s.len() && #[trigger] s[p] != #[trigger] s[q];
        let (i, j) = if p < q {
            (p, q)
        } else {
            (q, p)
        };
        assert(s.contains(s[i]) && s.contains(s[j]));
        let rest = kinds.remove(s[i]).remove(s[j]);
        assert(rest.len() == 0);
        assert forall|k: int| 0 <= k < s.len() implies #[trigger] s[k] == s[i] || s[k] == s[j] by {
            assert(s.contains(s[k]));
            if s[k] != s[i] && s[k] != s[j] {
                assert(rest.contains(s[k]));
                assert(rest =~= Set::empty());
            }
        }
        assert(s[i] != s[j]);
    }
    if exists|i: int, j: int|
        0 <= i < j < s.len() && #[trigger] s[i] != #[trigger] s[j] && forall|k: int|
            0 <= k < s.len() ==> #[trigger] s[k] == s[i] || s[k] == s[j] {
        let (i, j) = choose|i: int, j: int|
            0 <= i < j < s.len() && #[trigger] s[i] != #[trigger] s[j] && forall|k: int|
                0 <= k < s.len() ==> #[trigger] s[k] == s[i] || s[k] == s[j];
        assert(kinds =~= Set::empty().insert(s[i]).insert(s[j])) by {
            assert(s.contains(s[i]) && s.contains(s[j]));
        }
    }
}

/// How often something occurs is how many elements a filter for it leaves.
pub proof fn occurrences_are_filtered<S, T>(s: Seq<S>, t: Seq<T>, x: T, same: spec_fn(S) -> bool, n: int)
    requires
        0 <= n <= s.len(),
        t.len() == s.len(),
        forall|k: int| 0 <= k < s.len() ==> (same(#[trigger] s[k]) <==> t[k] == x),
    ensures
        occurrences(t, x, n) == s.take(n).filter(same).len(),
    decreases n,
{
    reveal(Seq::filter);
    if n > 0 {
        occurrences_are_filtered(s, t, x, same, n - 1);
        assert(s.take(n).drop_last() =~= s.take(n - 1));
        assert(s.take(n).last() == s[n - 1]);
        assert(same(s[n - 1]) <==> t[n - 1] == x);
    }
}

/// A selection is as long as what a filter leaves that asks the same.
pub proof fn selection_is_counted<T>(
    s: Seq<T>,
    keep: spec_fn(int) -> bool,
    same: spec_fn(T) -> bool,
    n: int,
)
    requires
        0 <= n <= s.len(),
        forall|k: int| 0 <= k < s.len() ==> (#[trigger] keep(k) <==> same(s[k])),
    ensures
        select(s, keep, n).len() == s.take(n).filter(same).len(),
    decreases n,
{
    reveal(Seq::filter);
    if n > 0 {
        selection_is_counted(s, keep, same, n - 1);
        assert(s.take(n).drop_last() =~= s.take(n - 1));
        assert(s.take(n).last() == s[n - 1]);
        assert(keep(n - 1) <==> same(s[n - 1]));
    }
}

} // verus!
