//! The exterior ring of an artifact, cut where the network reaches it.
use crate::lists::{positions, positions_are_kept, select};
use crate::measure::{find_closest, nearest, Measure};
use crate::types::{lines, Coord, LineString};
use vstd::prelude::*;

verus! {

/// The denominator below which two segments are parallel: a trillionth.
pub const PARALLEL: u64 = 0x3d71_9799_812d_ea11;

/// The least position along a segment, with a billionth of slack before it.
pub const SEGMENT_START: u64 = 0xbe11_2e0b_e826_d695;

/// The greatest position along a segment, with a billionth of slack after it.
pub const SEGMENT_END: u64 = 0x3ff0_0000_0044_b830;

/// How the lines through two segments meet: the size of the denominator of the
/// two positions, the positions along the first and the second segment, and the
/// point.
#[derive(Clone, Copy, Debug)]
pub struct Crossing {
    pub denominator: Measure,
    pub along_first: Measure,
    pub along_second: Measure,
    pub point: Coord,
}

/// Whether the segments themselves meet: they are not parallel, and the point
/// lies on both.
pub open spec fn meets(crossing: Crossing) -> bool {
    let start = Measure { bits: SEGMENT_START };
    let end = Measure { bits: SEGMENT_END };
    &&& !crossing.denominator.below(Measure { bits: PARALLEL })
    &&& start.at_most(crossing.along_first)
    &&& crossing.along_first.at_most(end)
    &&& start.at_most(crossing.along_second)
    &&& crossing.along_second.at_most(end)
}

/// The point in which two segments meet, if they do.
pub fn segment_intersection(crossing: &Crossing) -> (r: Option<Coord>)
    ensures
        r == (if meets(*crossing) {
            Some(crossing.point)
        } else {
            None
        }),
{
    let start = Measure::from_bits(SEGMENT_START);
    let end = Measure::from_bits(SEGMENT_END);
    if crossing.denominator.lt(&Measure::from_bits(PARALLEL)) {
        return None;
    }
    if start.le(&crossing.along_first) && crossing.along_first.le(&end) && start.le(
        &crossing.along_second,
    ) && crossing.along_second.le(&end) {
        Some(crossing.point)
    } else {
        None
    }
}

/// The points of the first `n` crossings in which segments meet.
pub open spec fn meeting_points(crossings: Seq<Crossing>, n: int) -> Seq<Coord>
    decreases n,
{
    if n <= 0 {
        Seq::empty()
    } else if meets(crossings[n - 1]) {
        meeting_points(crossings, n - 1).push(crossings[n - 1].point)
    } else {
        meeting_points(crossings, n - 1)
    }
}

/// Where boundary edges meet the exterior ring. `crossings` holds how each
/// segment of each boundary edge lies to each segment of the ring, in this order.
pub fn find_connection_points(crossings: &Vec<Crossing>) -> (r: Vec<Coord>)
    ensures
        r@ == meeting_points(crossings@, crossings@.len() as int),
{
    let mut r: Vec<Coord> = Vec::new();
    let mut k: usize = 0;
    while k < crossings.len()
        invariant
            k <= crossings@.len(),
            r@ == meeting_points(crossings@, k as int),
        decreases crossings.len() - k,
    {
        match segment_intersection(&crossings[k]) {
            Some(point) => {
                r.push(point);
            },
            None => {},
        }
        k = k + 1;
    }
    r
}

/// The vertices at which the ring is cut.
pub open spec fn is_cut(distances: Seq<Vec<Measure>>, n: int) -> spec_fn(int) -> bool {
    |v: int|
        exists|s: int| 0 <= s < distances.len() && nearest(#[trigger] distances[s]@, n) == v
}

/// The cuts, in ascending order.
pub open spec fn cuts(distances: Seq<Vec<Measure>>, n: int) -> Seq<usize> {
    positions(is_cut(distances, n), n)
}

/// How many segments of a ring of `n` lie between two cuts.
pub open spec fn span(n: int, start: int, end: int) -> int {
    if end > start {
        end - start
    } else {
        end + n - start
    }
}

/// The vertex `k` segments after `start`.
pub open spec fn onward(n: int, start: int, k: int) -> int {
    if start + k < n {
        start + k
    } else {
        start + k - n
    }
}

/// The part of a ring of `n` segments from one cut to another.
pub open spec fn arc(ring: Seq<Coord>, n: int, start: int, end: int) -> Seq<Coord> {
    Seq::new((span(n, start, end) + 1) as nat, |k: int| ring[onward(n, start, k)])
}

/// The cut after the cut `w`, around the ring.
pub open spec fn next_cut(at: Seq<usize>, w: int) -> int {
    if w + 1 < at.len() {
        at[w + 1] as int
    } else {
        at[0] as int
    }
}

/// The parts into which a ring is cut: the whole ring where there are no two
/// cuts.
pub open spec fn ring_parts(ring: Seq<Coord>, distances: Seq<Vec<Measure>>) -> Seq<Seq<Coord>> {
    let n = ring.len() - 1;
    let at = cuts(distances, n);
    if distances.len() == 0 || ring.len() < 4 || at.len() < 2 {
        seq![ring]
    } else {
        Seq::new(at.len(), |w: int| arc(ring, n, at[w] as int, next_cut(at, w)))
    }
}

fn find_cuts(distances: &Vec<Vec<Measure>>, n: usize) -> (r: Vec<usize>)
    requires
        n > 0,
        forall|s: int| 0 <= s < distances@.len() ==> (#[trigger] distances@[s])@.len() >= n,
    ensures
        r@ == cuts(distances@, n as int),
{
    let ghost cut = is_cut(distances@, n as int);
    let mut marks: Vec<bool> = Vec::new();
    let mut v: usize = 0;
    while v < n
        invariant
            v <= n,
            marks@.len() == v,
            forall|k: int| 0 <= k < v ==> !(#[trigger] marks@[k]),
        decreases n - v,
    {
        marks.push(false);
        v = v + 1;
    }
    let mut s: usize = 0;
    while s < distances.len()
        invariant
            s <= distances@.len(),
            n > 0,
            forall|q: int| 0 <= q < distances@.len() ==> (#[trigger] distances@[q])@.len() >= n,
            marks@.len() == n,
            forall|p: int|
                0 <= p < n ==> (#[trigger] marks@[p] <==> exists|q: int|
                    0 <= q < s && nearest(#[trigger] distances@[q]@, n as int) == p),
        decreases distances.len() - s,
    {
        assert(distances@[s as int]@.len() >= n);
        let at: usize = match find_closest(&distances[s], n) {
            Some(at) => at,
            None => 0,
        };
        let ghost before = marks@;
        marks.set(at, true);
        assert(nearest(distances@[s as int]@, n as int) == at);
        assert forall|p: int| 0 <= p < n implies (#[trigger] marks@[p] <==> exists|q: int|
            0 <= q < s + 1 && nearest(#[trigger] distances@[q]@, n as int) == p) by {
            assert(before[p] <==> exists|q: int|
                0 <= q < s && nearest(#[trigger] distances@[q]@, n as int) == p);
            if marks@[p] && p != at {
                let q = choose|q: int|
                    0 <= q < s && nearest(#[trigger] distances@[q]@, n as int) == p;
                assert(nearest(distances@[q]@, n as int) == p);
            }
        }
        s = s + 1;
    }
    let mut r: Vec<usize> = Vec::new();
    v = 0;
    while v < n
        invariant
            v <= n,
            marks@.len() == n,
            cut == is_cut(distances@, n as int),
            s == distances@.len(),
            forall|p: int|
                0 <= p < n ==> (#[trigger] marks@[p] <==> exists|q: int|
                    0 <= q < s && nearest(#[trigger] distances@[q]@, n as int) == p),
            r@ == positions(cut, v as int),
        decreases n - v,
    {
        assert(cut(v as int) == marks@[v as int]);
        if marks[v] {
            r.push(v);
        }
        v = v + 1;
    }
    r
}

/// Cuts a ring at the vertices next to the split points and returns the arcs
/// between one cut and the next, around the ring. `distances` holds, for each
/// split point, how far it is from each vertex; the vertex that closes the ring
/// is left out. Without two different cuts the ring stays whole.
pub fn split_ring_at_points(ring: &LineString, distances: &Vec<Vec<Measure>>) -> (r: Vec<
    LineString,
>)
    requires
        forall|s: int|
            0 <= s < distances@.len() ==> (#[trigger] distances@[s])@.len() + 1 >= ring@.len(),
    ensures
        lines(r@) == ring_parts(ring@, distances@),
{
    let mut r: Vec<LineString> = Vec::new();
    if distances.len() == 0 || ring.coords.len() < 4 {
        r.push(ring.clone());
        assert(lines(r@) =~= seq![ring@]);
        return r;
    }
    let n = ring.coords.len() - 1;
    let at = find_cuts(distances, n);
    if at.len() < 2 {
        r.push(ring.clone());
        assert(lines(r@) =~= seq![ring@]);
        return r;
    }
    proof {
        cuts_are_on_ring(distances@, n as int);
    }
    let mut w: usize = 0;
    while w < at.len()
        invariant
            w <= at@.len(),
            at@.len() >= 2,
            n + 1 == ring@.len(),
            n < usize::MAX,
            at@ == cuts(distances@, n as int),
            forall|k: int| 0 <= k < at@.len() ==> #[trigger] at@[k] < n,
            r@.len() == w,
            forall|k: int|
                0 <= k < w ==> (#[trigger] r@[k])@ == arc(
                    ring@,
                    n as int,
                    at@[k] as int,
                    next_cut(at@, k),
                ),
        decreases at.len() - w,
    {
        let start = at[w];
        let end = if w + 1 < at.len() {
            at[w + 1]
        } else {
            at[0]
        };
        assert(at@[w as int] < n && at@[0] < n && next_cut(at@, w as int) == end);
        assert(end < n) by {
            if w + 1 < at@.len() {
                assert(at@[w + 1] < n);
            }
        }
        let steps: usize = if end > start {
            end - start
        } else {
            n - (start - end)
        };
        let mut coords: Vec<Coord> = Vec::new();
        let mut i: usize = start;
        let mut k: usize = 0;
        while k <= steps
            invariant
                k <= steps + 1,
                steps <= n < usize::MAX,
                start < n,
                n + 1 == ring@.len(),
                i < n,
                i == onward(n as int, start as int, k as int) || (k == steps + 1),
                coords@.len() == k,
                forall|j: int|
                    0 <= j < k ==> #[trigger] coords@[j] == ring@[onward(
                        n as int,
                        start as int,
                        j,
                    )],
            decreases steps + 1 - k,
        {
            coords.push(ring.coords[i]);
            i = if i + 1 == n {
                0
            } else {
                i + 1
            };
            k = k + 1;
        }
        assert(coords@ =~= arc(ring@, n as int, start as int, end as int));
        r.push(LineString::new(coords));
        w = w + 1;
    }
    assert(lines(r@) =~= ring_parts(ring@, distances@));
    r
}

proof fn cuts_are_on_ring(distances: Seq<Vec<Measure>>, n: int)
    requires
        0 <= n <= usize::MAX,
    ensures
        forall|k: int| 0 <= k < cuts(distances, n).len() ==> #[trigger] cuts(distances, n)[k] < n,
        crate::lists::strictly_ascending(cuts(distances, n)),
{
    positions_are_kept(is_cut(distances, n), n);
    assert forall|k: int| 0 <= k < cuts(distances, n).len() implies #[trigger] cuts(
        distances,
        n,
    )[k] < n by {
        assert(cuts(distances, n).contains(cuts(distances, n)[k]));
    }
}

/// Which arcs have some length.
pub open spec fn has_length(arcs: Seq<Seq<Coord>>, lengths: Seq<Measure>) -> spec_fn(int) -> bool {
    |k: int| arcs[k].len() >= 2 && (Measure { bits: 0 }).below(lengths[k])
}

/// The arcs that have two points or more and some length.
fn retain_arcs(arcs: &Vec<LineString>, lengths: &Vec<Measure>) -> (r: Vec<LineString>)
    requires
        lengths@.len() == arcs@.len(),
    ensures
        lines(r@) == select(
            lines(arcs@),
            has_length(lines(arcs@), lengths@),
            arcs@.len() as int,
        ),
{
    let ghost all = lines(arcs@);
    let ghost keep = has_length(all, lengths@);
    let mut r: Vec<LineString> = Vec::new();
    let mut k: usize = 0;
    while k < arcs.len()
        invariant
            k <= arcs@.len(),
            lengths@.len() == arcs@.len(),
            all == lines(arcs@),
            keep == has_length(all, lengths@),
            lines(r@) == select(all, keep, k as int),
        decreases arcs.len() - k,
    {
        let ghost before = r@;
        assert(all[k as int] == arcs@[k as int]@);
        let long = arcs[k].coords.len() >= 2 && Measure::from_bits(0).lt(&lengths[k]);
        assert(keep(k as int) == long);
        if long {
            r.push(arcs[k].clone());
            assert(lines(r@) =~= lines(before).push(all[k as int]));
        }
        k = k + 1;
    }
    r
}

/// The sides of a ring: its parts, without those that have no length where it is
/// cut. A ring that stays whole is its only side.
pub open spec fn sides(
    ring: Seq<Coord>,
    distances: Seq<Vec<Measure>>,
    lengths: Seq<Measure>,
) -> Seq<Seq<Coord>> {
    let parts = ring_parts(ring, distances);
    if parts.len() < 2 {
        parts
    } else {
        select(parts, has_length(parts, lengths), parts.len() as int)
    }
}

/// The sides that a ring is split into. `lengths` holds the length of each part, as
/// `split_ring_at_points` lists them.
pub fn ring_sides(ring: &LineString, distances: &Vec<Vec<Measure>>, lengths: &Vec<Measure>) -> (r:
    Vec<LineString>)
    requires
        forall|s: int|
            0 <= s < distances@.len() ==> (#[trigger] distances@[s])@.len() + 1 >= ring@.len(),
        lengths@.len() == ring_parts(ring@, distances@).len(),
    ensures
        lines(r@) == sides(ring@, distances@, lengths@),
{
    let arcs = split_ring_at_points(ring, distances);
    assert(lines(arcs@).len() == arcs@.len());
    if arcs.len() < 2 {
        arcs
    } else {
        retain_arcs(&arcs, lengths)
    }
}

/// How many segments the first `m` parts have together.
pub open spec fn segments(parts: Seq<Seq<Coord>>, m: int) -> int
    decreases m,
{
    if m <= 0 {
        0
    } else {
        segments(parts, m - 1) + parts[m - 1].len() - 1
    }
}

/// The parts of a ring that is cut follow each other around it: each ends where
/// the next one begins, none is without a segment, and together they have as many
/// segments as the ring.
pub proof fn parts_tile_the_ring(ring: Seq<Coord>, distances: Seq<Vec<Measure>>)
    requires
        distances.len() > 0,
        4 <= ring.len() <= usize::MAX,
        cuts(distances, ring.len() - 1).len() >= 2,
    ensures
        ({
            let parts = ring_parts(ring, distances);
            let m = parts.len() as int;
            &&& forall|w: int| 0 <= w < m ==> (#[trigger] parts[w]).len() >= 2
            &&& forall|w: int|
                0 <= w < m ==> (#[trigger] parts[w]).last() == parts[if w + 1 < m {
                    w + 1
                } else {
                    0
                }][0]
            &&& segments(parts, m) == ring.len() - 1
        }),
{
    let n = ring.len() - 1;
    let at = cuts(distances, n);
    let parts = ring_parts(ring, distances);
    let m = parts.len() as int;
    cuts_are_on_ring(distances, n);
    assert forall|w: int| 0 <= w < m implies (#[trigger] parts[w]).len() >= 2 && parts[w].last()
        == parts[if w + 1 < m {
        w + 1
    } else {
        0
    }][0] by {
        let start = at[w] as int;
        let end = next_cut(at, w);
        assert(at[w] < n && at[0] < n);
        if w + 1 < m {
            assert(at[w] < at[w + 1] && at[w + 1] < n);
        } else {
            assert(at[0] < at[w]);
        }
        assert(onward(n, start, span(n, start, end)) == end);
        assert(onward(n, end, 0) == end);
    }
    segments_telescope(ring, distances, m - 1);
    assert(at[0] < at[m - 1]);
    assert(segments(parts, m) == segments(parts, m - 1) + parts[m - 1].len() - 1);
}

proof fn segments_telescope(ring: Seq<Coord>, distances: Seq<Vec<Measure>>, m: int)
    requires
        distances.len() > 0,
        4 <= ring.len() <= usize::MAX,
        cuts(distances, ring.len() - 1).len() >= 2,
        0 <= m < cuts(distances, ring.len() - 1).len(),
    ensures
        segments(ring_parts(ring, distances), m) == cuts(distances, ring.len() - 1)[m] - cuts(
            distances,
            ring.len() - 1,
        )[0],
    decreases m,
{
    if m > 0 {
        segments_telescope(ring, distances, m - 1);
        cuts_are_on_ring(distances, ring.len() - 1);
        let at = cuts(distances, ring.len() - 1);
        assert(at[m - 1] < at[m]);
    }
}

} // verus!
