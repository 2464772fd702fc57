//! Measurements, held as IEEE 754 binary64 bit patterns.
//!
//! A length, a distance or an angle reaches this library as the bit pattern of
//! a double. The library orders measurements and compares them with
//! tolerances; it does no arithmetic on them.
use vstd::prelude::*;

verus! {

/// The bit pattern of positive infinity. A pattern above it, the sign bit set
/// aside, is not a number.
pub const INFINITY_BITS: u64 = 0x7ff0_0000_0000_0000;

/// The sign bit.
pub const SIGN_BIT: u64 = 0x8000_0000_0000_0000;

/// A double, by its bit pattern.
#[derive(Clone, Copy, PartialEq, Eq, Structural, Debug)]
pub struct Measure {
    pub bits: u64,
}

impl Measure {
    /// The distance from zero, as an integer that grows with it.
    pub open spec fn magnitude(self) -> int {
        if self.bits < SIGN_BIT {
            self.bits as int
        } else {
            self.bits - SIGN_BIT
        }
    }

    pub open spec fn nan(self) -> bool {
        self.magnitude() > INFINITY_BITS
    }

    /// The place of a number among all doubles; the two zeros share one place.
    pub open spec fn rank(self) -> int {
        if self.bits < SIGN_BIT {
            self.magnitude()
        } else {
            -self.magnitude()
        }
    }

    /// `self < other`: false as soon as one side is not a number.
    pub open spec fn below(self, other: Measure) -> bool {
        !self.nan() && !other.nan() && self.rank() < other.rank()
    }

    /// `self <= other`: false as soon as one side is not a number.
    pub open spec fn at_most(self, other: Measure) -> bool {
        !self.nan() && !other.nan() && self.rank() <= other.rank()
    }

    /// The greater of two, or the one that is a number.
    pub open spec fn greater(self, other: Measure) -> Measure {
        if self.nan() || self.below(other) {
            other
        } else {
            self
        }
    }

    pub fn from_bits(bits: u64) -> (r: Measure)
        ensures
            r == (Measure { bits }),
    {
        Measure { bits }
    }

    pub fn is_nan(&self) -> (r: bool)
        ensures
            r == self.nan(),
    {
        if self.bits < SIGN_BIT {
            self.bits > INFINITY_BITS
        } else {
            self.bits - SIGN_BIT > INFINITY_BITS
        }
    }

    /// Whether this measurement is less than `other`.
    pub fn lt(&self, other: &Measure) -> (r: bool)
        ensures
            r == self.below(*other),
    {
        if self.is_nan() || other.is_nan() {
            return false;
        }
        if self.bits < SIGN_BIT {
            other.bits < SIGN_BIT && self.bits < other.bits
        } else if other.bits < SIGN_BIT {
            self.bits != SIGN_BIT || other.bits != 0
        } else {
            self.bits > other.bits
        }
    }

    /// Whether this measurement is at most `other`.
    pub fn le(&self, other: &Measure) -> (r: bool)
        ensures
            r == self.at_most(*other),
    {
        !self.is_nan() && !other.is_nan() && !other.lt(self)
    }

    /// The greater of two measurements; where one is not a number, the other.
    pub fn max(&self, other: &Measure) -> (r: Measure)
        ensures
            r == self.greater(*other),
    {
        if self.is_nan() || self.lt(other) {
            *other
        } else {
            *self
        }
    }
}

/// Measurements that are numbers are linearly ordered: two numbers that are
/// not below each other share their place, and the order is transitive and
/// strict.
pub proof fn order_is_linear(a: Measure, b: Measure, c: Measure)
    ensures
        !a.below(a),
        a.below(b) && b.below(c) ==> a.below(c),
        !a.nan() && !b.nan() ==> a.below(b) || b.below(a) || a.rank() == b.rank(),
        a.at_most(b) <==> !a.nan() && !b.nan() && !b.below(a),
{
}

/// Among non-negative measurements the order is that of the bit patterns.
pub proof fn order_of_distances(a: Measure, b: Measure)
    requires
        a.bits <= INFINITY_BITS,
        b.bits <= INFINITY_BITS,
    ensures
        a.below(b) <==> a.bits < b.bits,
        a.at_most(b) <==> a.bits <= b.bits,
{
}

/// Nothing compares with what is not a number.
pub proof fn nan_compares_with_nothing(a: Measure, b: Measure)
    requires
        a.nan(),
    ensures
        !a.below(b),
        !b.below(a),
        !a.at_most(b),
        !b.at_most(a),
{
}

/// The least of the first `n` distances, infinity where none is less.
pub open spec fn least(distances: Seq<Measure>, n: int) -> Measure
    decreases n,
{
    if n <= 0 {
        Measure { bits: INFINITY_BITS }
    } else if distances[n - 1].below(least(distances, n - 1)) {
        distances[n - 1]
    } else {
        least(distances, n - 1)
    }
}

/// The position of the least of the first `n` distances, the first where several
/// are least; none where no distance is finite.
pub open spec fn closest(distances: Seq<Measure>, n: int) -> Option<int>
    decreases n,
{
    if n <= 0 {
        None
    } else if distances[n - 1].below(least(distances, n - 1)) {
        Some(n - 1)
    } else {
        closest(distances, n - 1)
    }
}

/// The position of the least of the first `n` distances, or the first one where
/// none is below infinity.
pub open spec fn nearest(distances: Seq<Measure>, n: int) -> int {
    match closest(distances, n) {
        Some(at) => at,
        None => 0,
    }
}

/// Finds the least of the first `n` distances.
pub fn find_closest(distances: &Vec<Measure>, n: usize) -> (r: Option<usize>)
    requires
        n <= distances@.len(),
    ensures
        match r {
            Some(at) => closest(distances@, n as int) == Some(at as int) && at < n,
            None => closest(distances@, n as int) is None,
        },
{
    let mut best = Measure::from_bits(INFINITY_BITS);
    let mut at: Option<usize> = None;
    let mut k: usize = 0;
    while k < n
        invariant
            k <= n <= distances@.len(),
            best == least(distances@, k as int),
            match at {
                Some(p) => closest(distances@, k as int) == Some(p as int) && p < k,
                None => closest(distances@, k as int) is None,
            },
        decreases n - k,
    {
        if distances[k].lt(&best) {
            best = distances[k];
            at = Some(k);
        }
        k = k + 1;
    }
    at
}

/// What is closest is closest: no distance is below it, and all before it are
/// greater.
pub proof fn closest_is_least(distances: Seq<Measure>, n: int)
    requires
        0 <= n <= distances.len(),
    ensures
        match closest(distances, n) {
            Some(at) => {
                &&& 0 <= at < n
                &&& distances[at] == least(distances, n)
                &&& forall|k: int| 0 <= k < n ==> !(#[trigger] distances[k]).below(distances[at])
                &&& forall|k: int|
                    0 <= k < at && !(#[trigger] distances[k]).nan() ==> distances[at].below(
                        distances[k],
                    )
            },
            None => {
                &&& least(distances, n).bits == INFINITY_BITS
                &&& forall|k: int|
                    0 <= k < n ==> !(#[trigger] distances[k]).below(
                        Measure { bits: INFINITY_BITS },
                    )
            },
        },
    decreases n,
{
    if n > 0 {
        closest_is_least(distances, n - 1);
        if distances[n - 1].below(least(distances, n - 1)) {
            assert forall|k: int| 0 <= k < n - 1 && !(#[trigger] distances[k]).nan() implies distances[n
                - 1].below(distances[k]) by {
                if closest(distances, n - 1) is Some {
                    assert(!distances[k].below(distances[closest(distances, n - 1)->0]));
                } else {
                    assert(!distances[k].below(Measure { bits: INFINITY_BITS }));
                }
            }
            assert forall|k: int| 0 <= k < n implies !(#[trigger] distances[k]).below(
                distances[n - 1],
            ) by {
                if k < n - 1 && !distances[k].nan() {
                    assert(distances[n - 1].below(distances[k]));
                }
            }
        }
    }
}

} // verus!
