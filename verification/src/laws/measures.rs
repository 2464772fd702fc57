//! How measurements compare, and which of them is the least.
use crate::measure::{closest, closest_is_least, least, nearest, Measure};
use vstd::prelude::*;

verus! {

/// A pattern is not a number exactly when it lies beyond infinity, on either side of the
/// sign bit.
pub proof fn what_is_no_number(a: Measure)
    ensures
        a.nan() <==> (0x7ff0_0000_0000_0000 < a.bits < 0x8000_0000_0000_0000 || a.bits
            > 0xfff0_0000_0000_0000),
{
}

/// How two numbers compare: positive ones by their patterns, negative ones the other way
/// round, and a negative one is below a positive one, unless both are zero.
pub proof fn how_numbers_compare(a: Measure, b: Measure)
    requires
        !a.nan(),
        !b.nan(),
    ensures
        ({
            let sign: u64 = 0x8000_0000_0000_0000;
            let negative_a = a.bits >= sign;
            let negative_b = b.bits >= sign;
            let zeros = (a.bits == 0 || a.bits == sign) && (b.bits == 0 || b.bits == sign);
            &&& !negative_a && !negative_b ==> (a.below(b) <==> a.bits < b.bits)
            &&& negative_a && negative_b ==> (a.below(b) <==> a.bits > b.bits)
            &&& negative_a && !negative_b ==> (a.below(b) <==> !zeros)
            &&& !negative_a && negative_b ==> !a.below(b)
            &&& a.at_most(b) <==> !b.below(a)
        }),
{
}

/// What is not a number compares with nothing.
pub proof fn no_number_compares(a: Measure, b: Measure)
    requires
        a.nan() || b.nan(),
    ensures
        !a.below(b) && !b.below(a) && !a.at_most(b) && !b.at_most(a),
{
}

/// The greater of two measurements is one of them and below neither. What is not a number
/// gives way to a number.
pub proof fn the_greater_is_an_upper_bound(a: Measure, b: Measure)
    ensures
        ({
            let r = a.greater(b);
            &&& r == a || r == b
            &&& !r.below(a) && !r.below(b)
            &&& r.nan() <==> a.nan() && b.nan()
            &&& !a.nan() && !b.nan() && !a.below(b) ==> r == a
        }),
{
}

/// `at` is the position of the least of the distances, the first of several; it is below
/// infinity.
pub open spec fn is_first_least(distances: Seq<Measure>, at: int) -> bool {
    &&& 0 <= at < distances.len()
    &&& distances[at].below(Measure { bits: 0x7ff0_0000_0000_0000 })
    &&& forall|k: int| 0 <= k < distances.len() ==> !(#[trigger] distances[k]).below(distances[at])
    &&& forall|k: int| 0 <= k < at ==> !(#[trigger] distances[k]).at_most(distances[at])
}

/// No distance is below infinity.
pub open spec fn all_infinite(distances: Seq<Measure>) -> bool {
    forall|k: int|
        0 <= k < distances.len() ==> !(#[trigger] distances[k]).below(
            Measure { bits: 0x7ff0_0000_0000_0000 },
        )
}

proof fn closest_is_finite(distances: Seq<Measure>, n: int)
    requires
        0 <= n <= distances.len(),
    ensures
        !least(distances, n).nan(),
        closest(distances, n) matches Some(at) ==> distances[at].below(
            Measure { bits: 0x7ff0_0000_0000_0000 },
        ),
    decreases n,
{
    if n > 0 {
        closest_is_finite(distances, n - 1);
        closest_is_least(distances, n - 1);
    }
}

/// What is found as closest is the first of the least distances, and nothing is found only
/// where no distance is below infinity. What is nearest is the same, and the first one
/// where nothing is found.
pub proof fn the_closest_is_the_first_least(distances: Seq<Measure>)
    ensures
        ({
            let n = distances.len() as int;
            &&& closest(distances, n) is None <==> all_infinite(distances)
            &&& forall|at: int|
                (#[trigger] is_first_least(distances, at) <==> closest(distances, n) == Some(at))
            &&& all_infinite(distances) ==> nearest(distances, n) == 0
            &&& !all_infinite(distances) ==> is_first_least(distances, nearest(distances, n))
        }),
{
    let n = distances.len() as int;
    closest_is_least(distances, n);
    closest_is_finite(distances, n);
    if closest(distances, n) is Some {
        let at = closest(distances, n)->0;
        assert(!all_infinite(distances));
        assert forall|k: int| 0 <= k < at implies !(#[trigger] distances[k]).at_most(
            distances[at],
        ) by {
            if !distances[k].nan() {
                assert(distances[at].below(distances[k]));
            }
        }
        assert(is_first_least(distances, at));
    }
    assert forall|at: int|
        (#[trigger] is_first_least(distances, at) <==> closest(distances, n) == Some(at)) by {
        if is_first_least(distances, at) {
            if closest(distances, n) is None {
                assert(!distances[at].below(Measure { bits: 0x7ff0_0000_0000_0000 }));
            } else {
                let other = closest(distances, n)->0;
                assert(!distances[at].below(distances[other]));
                assert(!distances[other].below(distances[at]));
                if at < other {
                    assert(!distances[at].at_most(distances[other]));
                } else if other < at {
                    assert(!distances[other].at_most(distances[at]));
                }
            }
        }
    }
}

} // verus!
