//! New connections across an artifact: merging, filtering, reconnecting and
//! trimming them.
use crate::components::{all_below, group_by_label, grouped};
use crate::coverage::marked_true;
use crate::lists::{holds, occurrences, positions, positions_are_kept, select};
use crate::measure::{closest, find_closest, Measure, INFINITY_BITS};
use crate::types::{contents, copy_lines, extend_lines, lines, Coord, LineString, NodeKey, ONE};
use vstd::prelude::*;

verus! {

/// How near a connection has to come to a target to reach it: five.
pub const REACH: u64 = 0x4014_0000_0000_0000;

/// The length below which a line between two others is no line: a ten-billionth.
pub const NO_LENGTH: u64 = 0x3ddb_7cdf_d9d7_bdbb;

/// A node as a line: from the node to itself.
pub open spec fn node_line(node: Coord) -> Seq<Coord> {
    seq![node, node]
}

/// The nodes as lines of no length, to snap to.
pub fn node_coords_to_lines(coords: &Vec<Coord>) -> (r: Vec<LineString>)
    ensures
        lines(r@) == Seq::new(coords@.len(), |k: int| node_line(coords@[k])),
{
    let mut r: Vec<LineString> = Vec::new();
    let mut k: usize = 0;
    while k < coords.len()
        invariant
            k <= coords@.len(),
            r@.len() == k,
            forall|j: int| 0 <= j < k ==> (#[trigger] r@[j])@ == node_line(coords@[j]),
        decreases coords.len() - k,
    {
        r.push(LineString::segment(coords[k], coords[k]));
        k = k + 1;
    }
    assert(lines(r@) =~= Seq::new(coords@.len(), |k: int| node_line(coords@[k])));
    r
}

/// The lines that a merge stands for: the merged ones, or the lines themselves
/// where the merge is empty.
pub open spec fn exploded(geoms: Seq<Seq<Coord>>, merged: Seq<Seq<Coord>>) -> Seq<Seq<Coord>> {
    if geoms.len() == 0 || merged.len() == 0 {
        geoms
    } else {
        merged
    }
}

/// The single lines of a merge. `merged` holds what merging the lines gave.
pub fn merge_and_explode(geoms: &Vec<LineString>, merged: &Vec<LineString>) -> (r: Vec<LineString>)
    ensures
        lines(r@) == exploded(lines(geoms@), lines(merged@)),
{
    if geoms.len() == 0 || merged.len() == 0 {
        copy_lines(geoms)
    } else {
        copy_lines(merged)
    }
}

/// The end of a line: the position of the line, the key that tells nodes apart, and
/// the point.
#[derive(Clone, Copy, Debug)]
pub struct LineEnd {
    pub line: usize,
    pub key: NodeKey,
    pub coord: Coord,
}

/// The ends of the first `n` lines; a line with fewer than two points has none.
pub open spec fn ends_of(geoms: Seq<Seq<Coord>>, keys: Seq<(NodeKey, NodeKey)>, n: int) -> Seq<
    LineEnd,
>
    decreases n,
{
    if n <= 0 {
        Seq::empty()
    } else if geoms[n - 1].len() < 2 {
        ends_of(geoms, keys, n - 1)
    } else {
        ends_of(geoms, keys, n - 1).push(
            LineEnd { line: (n - 1) as usize, key: keys[n - 1].0, coord: geoms[n - 1].first() },
        ).push(
            LineEnd { line: (n - 1) as usize, key: keys[n - 1].1, coord: geoms[n - 1].last() },
        )
    }
}

/// The ends of lines, in order. `keys` holds the keys of the first and the last
/// point of each line.
pub fn line_ends(geoms: &Vec<LineString>, keys: &Vec<(NodeKey, NodeKey)>) -> (r: Vec<LineEnd>)
    requires
        keys@.len() == geoms@.len(),
    ensures
        r@ == ends_of(lines(geoms@), keys@, geoms@.len() as int),
{
    let ghost all = lines(geoms@);
    let mut r: Vec<LineEnd> = Vec::new();
    let mut k: usize = 0;
    while k < geoms.len()
        invariant
            k <= geoms@.len(),
            keys@.len() == geoms@.len(),
            all == lines(geoms@),
            r@ == ends_of(all, keys@, k as int),
        decreases geoms.len() - k,
    {
        let coords = &geoms[k].coords;
        assert(all[k as int] == coords@);
        if coords.len() >= 2 {
            r.push(LineEnd { line: k, key: keys[k].0, coord: coords[0] });
            r.push(LineEnd { line: k, key: keys[k].1, coord: coords[coords.len() - 1] });
        }
        k = k + 1;
    }
    r
}

/// The keys of line ends.
pub open spec fn end_keys(ends: Seq<LineEnd>) -> Seq<NodeKey> {
    Seq::new(ends.len(), |k: int| ends[k].key)
}

/// How many line ends meet in a node.
pub open spec fn degree(ends: Seq<LineEnd>, key: NodeKey) -> nat {
    occurrences(end_keys(ends), key, ends.len() as int)
}

/// Counts the line ends that meet in a node.
pub fn node_degree(ends: &Vec<LineEnd>, key: NodeKey) -> (r: usize)
    ensures
        r == degree(ends@, key),
{
    let ghost keys = end_keys(ends@);
    let mut r: usize = 0;
    let mut k: usize = 0;
    while k < ends.len()
        invariant
            k <= ends@.len(),
            keys == end_keys(ends@),
            r <= k,
            r == occurrences(keys, key, k as int),
        decreases ends.len() - k,
    {
        assert(keys[k as int] == ends@[k as int].key);
        if ends[k].key == key {
            r = r + 1;
        }
        k = k + 1;
    }
    r
}

/// Whether another line than that of the end `k` ends in the same node.
pub open spec fn shared_end(ends: Seq<LineEnd>, k: int) -> bool {
    exists|j: int|
        0 <= j < ends.len() && (#[trigger] ends[j]).key == ends[k].key && ends[j].line
            != ends[k].line
}

/// The first of the ends that meet in a node where several lines do.
pub open spec fn is_prime(ends: Seq<LineEnd>) -> spec_fn(int) -> bool {
    |k: int|
        shared_end(ends, k) && forall|j: int|
            0 <= j < k ==> (#[trigger] ends[j]).key != ends[k].key
}

fn is_shared_end(ends: &Vec<LineEnd>, k: usize) -> (r: bool)
    requires
        k < ends@.len(),
    ensures
        r == shared_end(ends@, k as int),
{
    let mut j: usize = 0;
    while j < ends.len()
        invariant
            j <= ends@.len(),
            k < ends@.len(),
            forall|i: int|
                0 <= i < j && (#[trigger] ends@[i]).key == ends@[k as int].key ==> ends@[i].line
                    == ends@[k as int].line,
        decreases ends.len() - j,
    {
        if ends[j].key == ends[k].key && ends[j].line != ends[k].line {
            assert(ends@[j as int].key == ends@[k as int].key);
            return true;
        }
        j = j + 1;
    }
    false
}

/// The points of line ends.
pub open spec fn end_coords(ends: Seq<LineEnd>) -> Seq<Coord> {
    Seq::new(ends.len(), |k: int| ends[k].coord)
}

/// The points in which several of the lines meet, each once, in the order in
/// which the lines first reach them.
pub fn compute_c_primes(ends: &Vec<LineEnd>) -> (r: Vec<Coord>)
    ensures
        r@ == select(end_coords(ends@), is_prime(ends@), ends@.len() as int),
{
    let ghost keep = is_prime(ends@);
    let ghost coords = end_coords(ends@);
    let mut r: Vec<Coord> = Vec::new();
    let mut k: usize = 0;
    while k < ends.len()
        invariant
            k <= ends@.len(),
            keep == is_prime(ends@),
            coords == end_coords(ends@),
            r@ == select(coords, keep, k as int),
        decreases ends.len() - k,
    {
        let key = ends[k].key;
        let mut first = true;
        let mut j: usize = 0;
        while j < k
            invariant
                j <= k < ends@.len(),
                first <==> forall|i: int| 0 <= i < j ==> (#[trigger] ends@[i]).key != key,
            decreases k - j,
        {
            if ends[j].key == key {
                first = false;
                assert(ends@[j as int].key == key);
            }
            j = j + 1;
        }
        let prime = first && is_shared_end(ends, k);
        assert(keep(k as int) == prime);
        assert(coords[k as int] == ends@[k as int].coord);
        if prime {
            r.push(ends[k].coord);
        }
        k = k + 1;
    }
    r
}

/// The dissolved lines of the first `n` components: a line that is alone in its
/// component stays, the others are replaced by what merging them gave.
pub open spec fn dissolved(
    geoms: Seq<Seq<Coord>>,
    groups: Seq<Seq<usize>>,
    merged: Seq<Vec<LineString>>,
    n: int,
) -> Seq<Seq<Coord>>
    decreases n,
{
    if n <= 0 {
        Seq::empty()
    } else {
        dissolved(geoms, groups, merged, n - 1) + if groups[n - 1].len() == 1 {
            seq![geoms[groups[n - 1][0] as int]]
        } else {
            lines(merged[n - 1]@)
        }
    }
}

/// Dissolves lines by connected component, in the order of the component labels.
/// `merged` holds, for each component, what merging its lines gave.
pub fn dissolve_by_components(
    geoms: &Vec<LineString>,
    labels: &Vec<usize>,
    merged: &Vec<Vec<LineString>>,
) -> (r: Vec<LineString>)
    requires
        labels@.len() == geoms@.len(),
        merged@.len() == grouped(all_below(geoms@.len()), labels@).len(),
    ensures
        lines(r@) == dissolved(
            lines(geoms@),
            grouped(all_below(geoms@.len()), labels@),
            merged@,
            merged@.len() as int,
        ),
{
    let n = geoms.len();
    let mut all: Vec<usize> = Vec::new();
    let mut k: usize = 0;
    while k < n
        invariant
            k <= n,
            all@ == all_below(k as nat),
        decreases n - k,
    {
        all.push(k);
        k = k + 1;
        assert(all@ =~= all_below(k as nat));
    }
    let groups = group_by_label(&all, labels);
    let ghost sets = grouped(all@, labels@);
    let ghost courses = lines(geoms@);
    let mut r: Vec<LineString> = Vec::new();
    assert(lines(r@) =~= Seq::empty());
    let mut g: usize = 0;
    while g < groups.len()
        invariant
            g <= groups@.len(),
            n == geoms@.len(),
            labels@.len() == n,
            all@ == all_below(n as nat),
            sets == grouped(all@, labels@),
            contents(groups@) == sets,
            merged@.len() == sets.len(),
            courses == lines(geoms@),
            lines(r@) == dissolved(courses, sets, merged@, g as int),
        decreases groups.len() - g,
    {
        let ghost before = r@;
        assert(groups@[g as int]@ == sets[g as int]);
        if groups[g].len() == 1 {
            let i = groups[g][0];
            proof {
                crate::components::groups_hold_given(all@, labels@, g as int, 0);
            }
            r.push(geoms[i].clone());
            assert(lines(r@) =~= lines(before) + seq![courses[i as int]]);
        } else {
            extend_lines(&mut r, &merged[g]);
        }
        g = g + 1;
    }
    r
}

/// The straight line between two points that are apart.
pub open spec fn straight_line(nearest: Option<(Coord, Coord)>, distance: Measure) -> Option<
    Seq<Coord>,
> {
    match nearest {
        Some((a, b)) => if distance.below(Measure { bits: NO_LENGTH }) {
            None
        } else {
            Some(seq![a, b])
        },
        None => None,
    }
}

/// The straight line between the points in which two lines are nearest, unless
/// they meet there. `distance` is how far these are apart.
pub fn make_shortest_line_between(nearest: Option<(Coord, Coord)>, distance: Measure) -> (r: Option<
    LineString,
>)
    ensures
        (match r {
            Some(line) => Some(line@),
            None => None,
        }) == straight_line(nearest, distance),
        match nearest {
            Some((a, b)) if !distance.below(Measure { bits: NO_LENGTH }) => {
                r matches Some(line) && line@ == seq![a, b]
            },
            _ => r is None,
        },
{
    match nearest {
        Some((a, b)) => {
            if distance.lt(&Measure::from_bits(NO_LENGTH)) {
                None
            } else {
                Some(LineString::segment(a, b))
            }
        },
        None => None,
    }
}

/// The shortest of the lines that there are.
pub open spec fn shortest_line(
    candidates: Seq<Option<LineString>>,
    lengths: Seq<Measure>,
) -> Option<Seq<Coord>> {
    match closest(lengths, lengths.len() as int) {
        Some(at) => match candidates[at] {
            Some(line) => Some(line@),
            None => None,
        },
        None => None,
    }
}

/// The shortest of the lines from a point to edges, the first of several; none
/// where no edge gave a line. `candidates` holds the line to each edge and
/// `lengths` its length, infinite where there is no line.
pub fn make_shortest_to_edges(candidates: &Vec<Option<LineString>>, lengths: &Vec<Measure>) -> (r:
    Option<LineString>)
    requires
        lengths@.len() == candidates@.len(),
        forall|k: int|
            0 <= k < candidates@.len() && (#[trigger] candidates@[k]) is None
                ==> lengths@[k].bits == INFINITY_BITS,
    ensures
        (match r {
            Some(line) => Some(line@),
            None => None,
        }) == shortest_line(candidates@, lengths@),
        match closest(lengths@, lengths@.len() as int) {
            Some(at) => {
                &&& candidates@[at] is Some
                &&& r is Some
                &&& r->0@ == candidates@[at]->0@
            },
            None => r is None,
        },
{
    match find_closest(lengths, lengths.len()) {
        Some(at) => {
            proof {
                crate::measure::closest_is_least(lengths@, lengths@.len() as int);
                if candidates@[at as int] is None {
                    least_is_finite(lengths@, lengths@.len() as int);
                }
            }
            match &candidates[at] {
                Some(line) => Some(line.clone()),
                None => None,
            }
        },
        None => None,
    }
}

proof fn least_is_finite(distances: Seq<Measure>, n: int)
    requires
        0 <= n <= distances.len(),
        closest(distances, n) is Some,
    ensures
        distances[closest(distances, n)->0].below(Measure { bits: INFINITY_BITS }),
    decreases n,
{
    if distances[n - 1].below(crate::measure::least(distances, n - 1)) {
        crate::measure::closest_is_least(distances, n - 1);
        if closest(distances, n - 1) is Some {
            least_is_finite(distances, n - 1);
        }
    } else {
        least_is_finite(distances, n - 1);
    }
}

/// Whether a connection comes near enough to one of the targets.
pub open spec fn reaches(to_targets: Seq<Measure>) -> bool {
    exists|t: int|
        0 <= t < to_targets.len() && (#[trigger] to_targets[t]).below(Measure { bits: REACH })
}

/// The connections that touch a group.
pub open spec fn touching(touches: Seq<bool>) -> Seq<usize> {
    positions(marked_true(touches), touches.len() as int)
}

/// The connections that touch a group and reach a target.
pub open spec fn is_reaching(touches: Seq<bool>, to_targets: Seq<Vec<Measure>>) -> spec_fn(
    int,
) -> bool {
    |i: int| touches[i] && reaches(to_targets[i]@)
}

pub open spec fn reaching(touches: Seq<bool>, to_targets: Seq<Vec<Measure>>) -> Seq<usize> {
    positions(is_reaching(touches, to_targets), touches.len() as int)
}

/// Whether more than one connection touches a group.
pub open spec fn crowded(touches: Seq<bool>) -> bool {
    touching(touches).len() > 1
}

/// The shortest of the first `n` of the listed connections, the first of several.
pub open spec fn shortest(list: Seq<usize>, lengths: Seq<Measure>, n: int) -> usize
    decreases n,
{
    if n <= 1 {
        list[0]
    } else if lengths[list[n - 1] as int].below(
        lengths[shortest(list, lengths, n - 1) as int],
    ) {
        list[n - 1]
    } else {
        shortest(list, lengths, n - 1)
    }
}

/// The connections that touch no crowded group.
pub open spec fn is_wanted(touches: Seq<Vec<bool>>) -> spec_fn(int) -> bool {
    |i: int|
        forall|g: int|
            0 <= g < touches.len() && crowded((#[trigger] touches[g])@) ==> !touches[g]@[i]
}

/// The connections that the first `n` groups keep: of a crowded group the
/// shortest that reaches a target, if one does. A connection that several groups
/// keep is kept once.
pub open spec fn kept(
    touches: Seq<Vec<bool>>,
    to_targets: Seq<Vec<Measure>>,
    lengths: Seq<Measure>,
    n: int,
) -> Seq<usize>
    decreases n,
{
    if n <= 0 {
        Seq::empty()
    } else {
        let before = kept(touches, to_targets, lengths, n - 1);
        let list = reaching(touches[n - 1]@, to_targets);
        let best = shortest(list, lengths, list.len() as int);
        if crowded(touches[n - 1]@) && list.len() > 0 && !before.contains(best) {
            before.push(best)
        } else {
            before
        }
    }
}

/// The connections that are left of `n`: those that touch no crowded group, then
/// those that the crowded groups keep.
pub open spec fn chosen(
    touches: Seq<Vec<bool>>,
    to_targets: Seq<Vec<Measure>>,
    lengths: Seq<Measure>,
    n: int,
) -> Seq<usize> {
    positions(is_wanted(touches), n) + kept(touches, to_targets, lengths, touches.len() as int)
}

/// The lines at the listed positions.
pub open spec fn picked(courses: Seq<Seq<Coord>>, ids: Seq<usize>) -> Seq<Seq<Coord>> {
    Seq::new(ids.len(), |k: int| courses[ids[k] as int])
}

/// Each group tells of each connection whether it touches it.
pub open spec fn full_rows(touches: Seq<Vec<bool>>, n: nat) -> bool {
    forall|g: int| 0 <= g < touches.len() ==> (#[trigger] touches[g])@.len() == n
}

fn reaches_target(to_targets: &Vec<Measure>) -> (r: bool)
    ensures
        r == reaches(to_targets@),
{
    let reach = Measure::from_bits(REACH);
    let mut t: usize = 0;
    while t < to_targets.len()
        invariant
            t <= to_targets@.len(),
            reach.bits == REACH,
            forall|k: int| 0 <= k < t ==> !(#[trigger] to_targets@[k]).below(reach),
        decreases to_targets.len() - t,
    {
        if to_targets[t].lt(&reach) {
            assert(to_targets@[t as int].below(reach));
            return true;
        }
        t = t + 1;
    }
    false
}

fn list_touching(touches: &Vec<bool>) -> (r: Vec<usize>)
    ensures
        r@ == touching(touches@),
{
    let ghost keep = marked_true(touches@);
    let mut r: Vec<usize> = Vec::new();
    let mut i: usize = 0;
    while i < touches.len()
        invariant
            i <= touches@.len(),
            keep == marked_true(touches@),
            r@ == positions(keep, i as int),
        decreases touches.len() - i,
    {
        assert(keep(i as int) == touches@[i as int]);
        if touches[i] {
            r.push(i);
        }
        i = i + 1;
    }
    r
}

fn list_reaching(touches: &Vec<bool>, to_targets: &Vec<Vec<Measure>>) -> (r: Vec<usize>)
    requires
        touches@.len() == to_targets@.len(),
    ensures
        r@ == reaching(touches@, to_targets@),
{
    let ghost keep = is_reaching(touches@, to_targets@);
    let mut r: Vec<usize> = Vec::new();
    let mut i: usize = 0;
    while i < touches.len()
        invariant
            i <= touches@.len(),
            touches@.len() == to_targets@.len(),
            keep == is_reaching(touches@, to_targets@),
            r@ == positions(keep, i as int),
        decreases touches.len() - i,
    {
        let hit = touches[i] && reaches_target(&to_targets[i]);
        assert(keep(i as int) == hit);
        if hit {
            r.push(i);
        }
        i = i + 1;
    }
    r
}

fn find_shortest(list: &Vec<usize>, lengths: &Vec<Measure>) -> (r: usize)
    requires
        list@.len() > 0,
        forall|k: int| 0 <= k < list@.len() ==> #[trigger] list@[k] < lengths@.len(),
    ensures
        r == shortest(list@, lengths@, list@.len() as int),
        r < lengths@.len(),
{
    let mut best = list[0];
    assert(list@[0] < lengths@.len());
    let mut k: usize = 1;
    while k < list.len()
        invariant
            1 <= k <= list@.len(),
            forall|j: int| 0 <= j < list@.len() ==> #[trigger] list@[j] < lengths@.len(),
            best < lengths@.len(),
            best == shortest(list@, lengths@, k as int),
        decreases list.len() - k,
    {
        assert(list@[k as int] < lengths@.len());
        if lengths[list[k]].lt(&lengths[best]) {
            best = list[k];
        }
        k = k + 1;
    }
    best
}

/// Filters new connections: where several touch one group, only the shortest that
/// reaches a target is kept, once, and none where no one does. `touches` tells for each
/// group which connections touch it, `to_targets` how far each connection is from
/// each target, `lengths` how long each connection is.
pub fn filter_connections(
    connections: &Vec<LineString>,
    touches: &Vec<Vec<bool>>,
    to_targets: &Vec<Vec<Measure>>,
    lengths: &Vec<Measure>,
) -> (r: Vec<LineString>)
    requires
        full_rows(touches@, connections@.len()),
        to_targets@.len() == connections@.len(),
        lengths@.len() == connections@.len(),
    ensures
        lines(r@) == picked(
            lines(connections@),
            chosen(touches@, to_targets@, lengths@, connections@.len() as int),
        ),
{
    let n = connections.len();
    let ghost all = lines(connections@);
    let mut unwanted: Vec<bool> = Vec::new();
    let mut i: usize = 0;
    while i < n
        invariant
            i <= n,
            unwanted@.len() == i,
            forall|k: int| 0 <= k < i ==> !(#[trigger] unwanted@[k]),
        decreases n - i,
    {
        unwanted.push(false);
        i = i + 1;
    }
    let mut keeping: Vec<usize> = Vec::new();
    let mut g: usize = 0;
    while g < touches.len()
        invariant
            g <= touches@.len(),
            n == connections@.len(),
            full_rows(touches@, n as nat),
            to_targets@.len() == n,
            lengths@.len() == n,
            all == lines(connections@),
            unwanted@.len() == n,
            forall|k: int|
                0 <= k < n ==> (#[trigger] unwanted@[k] <==> exists|h: int|
                    0 <= h < g && crowded((#[trigger] touches@[h])@) && touches@[h]@[k]),
            keeping@ == kept(touches@, to_targets@, lengths@, g as int),
            forall|k: int| 0 <= k < keeping@.len() ==> #[trigger] keeping@[k] < n,
        decreases touches.len() - g,
    {
        let row = &touches[g];
        assert(touches@[g as int]@.len() == n);
        let hits = list_touching(row);
        let ghost marks = unwanted@;
        if hits.len() > 1 {
            let mut k: usize = 0;
            while k < n
                invariant
                    k <= n,
                    row@.len() == n,
                    marks.len() == n,
                    unwanted@.len() == n,
                    forall|j: int| 0 <= j < k ==> #[trigger] unwanted@[j] == (marks[j] || row@[j]),
                    forall|j: int| k <= j < n ==> #[trigger] unwanted@[j] == marks[j],
                decreases n - k,
            {
                if row[k] {
                    unwanted.set(k, true);
                }
                k = k + 1;
            }
            let list = list_reaching(row, to_targets);
            if list.len() > 0 {
                proof {
                    positions_are_kept(is_reaching(row@, to_targets@), n as int);
                    assert forall|j: int| 0 <= j < list@.len() implies #[trigger] list@[j]
                        < lengths@.len() by {
                        assert(list@.contains(list@[j]));
                    }
                }
                let at = find_shortest(&list, lengths);
                if !holds(&keeping, at, keeping.len()) {
                    keeping.push(at);
                }
            }
        }
        assert forall|k: int| 0 <= k < n implies (#[trigger] unwanted@[k] <==> exists|h: int|
            0 <= h < g + 1 && crowded((#[trigger] touches@[h])@) && touches@[h]@[k]) by {
            assert(marks[k] <==> exists|h: int|
                0 <= h < g && crowded((#[trigger] touches@[h])@) && touches@[h]@[k]);
            assert(crowded(touches@[g as int]@) == (hits@.len() > 1));
        }
        g = g + 1;
    }
    let ghost keep = is_wanted(touches@);
    let mut r: Vec<LineString> = Vec::new();
    assert(lines(r@) =~= Seq::empty());
    i = 0;
    while i < n
        invariant
            i <= n,
            n == connections@.len(),
            all == lines(connections@),
            keep == is_wanted(touches@),
            g == touches@.len(),
            unwanted@.len() == n,
            forall|k: int|
                0 <= k < n ==> (#[trigger] unwanted@[k] <==> exists|h: int|
                    0 <= h < g && crowded((#[trigger] touches@[h])@) && touches@[h]@[k]),
            lines(r@) == picked(all, positions(keep, i as int)),
        decreases n - i,
    {
        let ghost before = r@;
        assert(keep(i as int) == !unwanted@[i as int]);
        assert(all[i as int] == connections@[i as int]@);
        if !unwanted[i] {
            r.push(connections[i].clone());
            assert(lines(r@) =~= lines(before).push(all[i as int]));
            assert(picked(all, positions(keep, i + 1)) =~= lines(before).push(all[i as int]));
        }
        i = i + 1;
    }
    let ghost wanted = positions(keep, n as int);
    let mut k: usize = 0;
    assert(lines(r@) =~= picked(all, wanted + keeping@.take(0)));
    while k < keeping.len()
        invariant
            k <= keeping@.len(),
            n == connections@.len(),
            all == lines(connections@),
            forall|j: int| 0 <= j < keeping@.len() ==> #[trigger] keeping@[j] < n,
            lines(r@) == picked(all, wanted + keeping@.take(k as int)),
        decreases keeping.len() - k,
    {
        let ghost before = r@;
        let at = keeping[k];
        r.push(connections[at].clone());
        assert(lines(r@) =~= lines(before).push(all[at as int]));
        assert(lines(r@) =~= picked(all, wanted + keeping@.take(k + 1)));
        k = k + 1;
    }
    assert(keeping@.take(k as int) =~= keeping@);
    r
}

/// Of the listed connections none is shorter than the shortest, lengths that are
/// not numbers aside.
pub proof fn shortest_is_shortest(list: Seq<usize>, lengths: Seq<Measure>, n: int)
    requires
        1 <= n <= list.len(),
        forall|k: int| 0 <= k < n ==> !lengths[#[trigger] list[k] as int].nan(),
    ensures
        exists|k: int| 0 <= k < n && list[k] == shortest(list, lengths, n),
        forall|k: int|
            0 <= k < n ==> lengths[shortest(list, lengths, n) as int].at_most(
                lengths[#[trigger] list[k] as int],
            ),
    decreases n,
{
    if n > 1 {
        shortest_is_shortest(list, lengths, n - 1);
        assert(!lengths[list[n - 1] as int].nan());
        let k = choose|k: int| 0 <= k < n - 1 && list[k] == shortest(list, lengths, n - 1);
        assert(!lengths[list[k] as int].nan());
        if lengths[list[n - 1] as int].below(
            lengths[shortest(list, lengths, n - 1) as int],
        ) {
            assert(list[n - 1] == shortest(list, lengths, n));
        } else {
            assert(list[k] == shortest(list, lengths, n));
        }
    } else {
        assert(list[0] == shortest(list, lengths, n));
        assert(!lengths[list[0] as int].nan());
    }
}

/// What a group keeps touches it, and the group is crowded.
pub(crate) proof fn kept_touch_crowded(
    touches: Seq<Vec<bool>>,
    to_targets: Seq<Vec<Measure>>,
    lengths: Seq<Measure>,
    n: int,
    m: nat,
)
    requires
        0 <= n <= touches.len(),
        full_rows(touches, m),
        m <= usize::MAX,
    ensures
        kept(touches, to_targets, lengths, n).no_duplicates(),
        forall|id: usize| #[trigger]
            kept(touches, to_targets, lengths, n).contains(id) ==> id < m && exists|g: int|
                0 <= g < n && crowded((#[trigger] touches[g])@) && touches[g]@[id as int],
    decreases n,
{
    if n > 0 {
        kept_touch_crowded(touches, to_targets, lengths, n - 1, m);
        let before = kept(touches, to_targets, lengths, n - 1);
        let now = kept(touches, to_targets, lengths, n);
        let row = touches[n - 1]@;
        assert(row.len() == m);
        let list = reaching(row, to_targets);
        let best = shortest(list, lengths, list.len() as int);
        if list.len() > 0 {
            shortest_is_listed(list, lengths, list.len() as int);
            positions_are_kept(is_reaching(row, to_targets), m as int);
            assert(list.contains(best));
            assert(is_reaching(row, to_targets)(best as int));
        }
        assert forall|id: usize| #[trigger] now.contains(id) implies id < m && exists|g: int|
            0 <= g < n && crowded((#[trigger] touches[g])@) && touches[g]@[id as int] by {
            let k = choose|k: int| 0 <= k < now.len() && now[k] == id;
            if k < before.len() {
                assert(before[k] == id);
                assert(before.contains(id));
                let g = choose|g: int|
                    0 <= g < n - 1 && crowded((#[trigger] touches[g])@) && touches[g]@[id as int];
                assert(0 <= g < n && crowded(touches[g]@) && touches[g]@[id as int]);
            } else {
                assert(id == best);
                assert(crowded(touches[n - 1]@) && touches[n - 1]@[id as int]);
            }
        }
    }
}

pub(crate) proof fn shortest_is_listed(list: Seq<usize>, lengths: Seq<Measure>, n: int)
    requires
        1 <= n <= list.len(),
    ensures
        list.contains(shortest(list, lengths, n)),
    decreases n,
{
    if n > 1 {
        shortest_is_listed(list, lengths, n - 1);
        assert(list.contains(list[n - 1]));
    } else {
        assert(list.contains(list[0]));
    }
}

/// No connection comes back twice from filtering.
pub proof fn connections_stay_once(
    touches: Seq<Vec<bool>>,
    to_targets: Seq<Vec<Measure>>,
    lengths: Seq<Measure>,
    n: nat,
)
    requires
        full_rows(touches, n),
        n <= usize::MAX,
    ensures
        chosen(touches, to_targets, lengths, n as int).no_duplicates(),
        forall|id: usize| #[trigger]
            chosen(touches, to_targets, lengths, n as int).contains(id) ==> id < n,
{
    let wanted = positions(is_wanted(touches), n as int);
    let rest = kept(touches, to_targets, lengths, touches.len() as int);
    let all = chosen(touches, to_targets, lengths, n as int);
    positions_are_kept(is_wanted(touches), n as int);
    kept_touch_crowded(touches, to_targets, lengths, touches.len() as int, n);
    assert forall|i: int, j: int|
        0 <= i < wanted.len() && 0 <= j < rest.len() implies wanted[i] != rest[j] by {
        assert(wanted.contains(wanted[i]));
        assert(rest.contains(rest[j]));
        if wanted[i] == rest[j] {
            let id = rest[j];
            let g = choose|g: int|
                0 <= g < touches.len() && crowded((#[trigger] touches[g])@)
                    && touches[g]@[id as int];
            assert(is_wanted(touches)(id as int));
            assert(!touches[g]@[id as int]);
        }
    }
    assert forall|id: usize| #[trigger] all.contains(id) implies id < n by {
        let k = choose|k: int| 0 <= k < all.len() && all[k] == id;
        if k < wanted.len() {
            assert(wanted.contains(wanted[k]));
        } else {
            assert(rest.contains(rest[k - wanted.len()]));
        }
    }
}

/// Where no group is crowded, all connections are kept and none is added.
pub proof fn uncrowded_connections_stay(
    connections: Seq<Seq<Coord>>,
    touches: Seq<Vec<bool>>,
    to_targets: Seq<Vec<Measure>>,
    lengths: Seq<Measure>,
)
    requires
        connections.len() <= usize::MAX,
        forall|g: int| 0 <= g < touches.len() ==> !crowded((#[trigger] touches[g])@),
    ensures
        picked(
            connections,
            chosen(touches, to_targets, lengths, connections.len() as int),
        ) == connections,
{
    let n = connections.len() as int;
    all_positions(is_wanted(touches), n);
    nothing_kept(touches, to_targets, lengths, touches.len() as int);
    assert(picked(connections, chosen(touches, to_targets, lengths, n)) =~= connections);
}

proof fn all_positions(keep: spec_fn(int) -> bool, n: int)
    requires
        0 <= n <= usize::MAX,
        forall|i: int| 0 <= i < n ==> #[trigger] keep(i),
    ensures
        positions(keep, n).len() == n,
        forall|i: int| 0 <= i < n ==> #[trigger] positions(keep, n)[i] == i,
    decreases n,
{
    if n > 0 {
        all_positions(keep, n - 1);
        assert(keep(n - 1));
    }
}

proof fn nothing_kept(
    touches: Seq<Vec<bool>>,
    to_targets: Seq<Vec<Measure>>,
    lengths: Seq<Measure>,
    n: int,
)
    requires
        n <= touches.len(),
        forall|g: int| 0 <= g < n ==> !crowded((#[trigger] touches[g])@),
    ensures
        kept(touches, to_targets, lengths, n) == Seq::<usize>::empty(),
    decreases n,
{
    if n > 0 {
        nothing_kept(touches, to_targets, lengths, n - 1);
        assert(!crowded(touches[n - 1]@));
    }
}

/// A straight line between a component of the connections and a group, if there is
/// one, and whether it lies within the artifact.
#[derive(Debug)]
pub struct Bridge {
    pub line: Option<LineString>,
    pub within: bool,
}

/// Whether a component is joined to a group by its bridge: it does not reach the
/// group by itself, and the bridge lies within the artifact.
pub open spec fn bridged(gap: Measure, bridge: Bridge, eps: Measure) -> bool {
    !gap.at_most(eps) && bridge.line is Some && bridge.within
}

/// The bridges from the first `n` components to a group.
pub open spec fn bridges_to(
    gaps: Seq<Measure>,
    bridges: Seq<Bridge>,
    eps: Measure,
    n: int,
) -> Seq<Seq<Coord>>
    decreases n,
{
    if n <= 0 {
        Seq::empty()
    } else if bridged(gaps[n - 1], bridges[n - 1], eps) {
        bridges_to(gaps, bridges, eps, n - 1).push(bridges[n - 1].line->0@)
    } else {
        bridges_to(gaps, bridges, eps, n - 1)
    }
}

/// The bridges to the first `n` groups.
pub open spec fn all_bridges(
    gaps: Seq<Vec<Measure>>,
    bridges: Seq<Vec<Bridge>>,
    eps: Measure,
    n: int,
) -> Seq<Seq<Coord>>
    decreases n,
{
    if n <= 0 {
        Seq::empty()
    } else {
        all_bridges(gaps, bridges, eps, n - 1) + bridges_to(
            gaps[n - 1]@,
            bridges[n - 1]@,
            eps,
            gaps[n - 1]@.len() as int,
        )
    }
}

/// Joins the components of the connections to the groups that they do not reach.
/// `gaps` holds for each group how far each component is from it, `bridges` the
/// straight line between the two. Without connections there is nothing to join.
pub fn reconnect_c_groups(
    connections: &Vec<LineString>,
    gaps: &Vec<Vec<Measure>>,
    bridges: &Vec<Vec<Bridge>>,
    eps: Measure,
) -> (r: Vec<LineString>)
    requires
        bridges@.len() == gaps@.len(),
        forall|g: int|
            0 <= g < gaps@.len() ==> (#[trigger] bridges@[g])@.len() == gaps@[g]@.len(),
    ensures
        lines(r@) == (if connections@.len() == 0 {
            Seq::empty()
        } else {
            lines(connections@) + all_bridges(gaps@, bridges@, eps, gaps@.len() as int)
        }),
{
    let mut r = copy_lines(connections);
    if connections.len() == 0 {
        assert(lines(r@) =~= Seq::empty());
        return r;
    }
    let ghost given = lines(connections@);
    assert(lines(r@) =~= given + all_bridges(gaps@, bridges@, eps, 0));
    let mut g: usize = 0;
    while g < gaps.len()
        invariant
            g <= gaps@.len(),
            bridges@.len() == gaps@.len(),
            forall|h: int|
                0 <= h < gaps@.len() ==> (#[trigger] bridges@[h])@.len() == gaps@[h]@.len(),
            lines(r@) == given + all_bridges(gaps@, bridges@, eps, g as int),
        decreases gaps.len() - g,
    {
        let row = &gaps[g];
        let lanes = &bridges[g];
        assert(bridges@[g as int]@.len() == gaps@[g as int]@.len());
        let ghost start = lines(r@);
        let mut c: usize = 0;
        assert(start =~= start + bridges_to(row@, lanes@, eps, 0));
        while c < row.len()
            invariant
                c <= row@.len(),
                lanes@.len() == row@.len(),
                lines(r@) == start + bridges_to(row@, lanes@, eps, c as int),
            decreases row.len() - c,
        {
            let ghost before = r@;
            if !row[c].le(&eps) && lanes[c].within {
                match &lanes[c].line {
                    Some(line) => {
                        r.push(line.clone());
                        assert(lines(r@) =~= lines(before).push(line@));
                    },
                    None => {},
                }
            }
            c = c + 1;
            assert(lines(r@) =~= start + bridges_to(row@, lanes@, eps, c as int));
        }
        g = g + 1;
        assert(lines(r@) =~= given + all_bridges(gaps@, bridges@, eps, g as int));
    }
    r
}

/// How far an end of a line is from each line, and from the artifact's boundary.
#[derive(Debug)]
pub struct EndGap {
    pub others: Vec<Measure>,
    pub boundary: Measure,
}

/// The gaps of the two ends of a line.
#[derive(Debug)]
pub struct LineGaps {
    pub start: EndGap,
    pub end: EndGap,
}

/// Whether an end of the line `i` comes near no other line and not near the
/// boundary.
pub open spec fn loose(gap: EndGap, i: int, tolerance: Measure) -> bool {
    &&& forall|j: int|
        0 <= j < gap.others@.len() && j != i ==> !(#[trigger] gap.others@[j]).below(tolerance)
    &&& !gap.boundary.below(tolerance)
}

/// Which lines have no loose end. A line with fewer than two points has no ends.
pub open spec fn is_fast(
    courses: Seq<Seq<Coord>>,
    gaps: Seq<LineGaps>,
    tolerance: Measure,
) -> spec_fn(int) -> bool {
    |i: int|
        courses[i].len() < 2 || !loose(gaps[i].start, i, tolerance) && !loose(
            gaps[i].end,
            i,
            tolerance,
        )
}

/// The lines without those that have a loose end. A single line stays as it is.
pub open spec fn trimmed(
    connections: Seq<Seq<Coord>>,
    merged: Seq<Seq<Coord>>,
    gaps: Seq<LineGaps>,
    eps: Measure,
) -> Seq<Seq<Coord>> {
    let courses = exploded(connections, merged);
    if connections.len() <= 1 {
        connections
    } else if courses.len() <= 1 {
        courses
    } else {
        select(
            courses,
            is_fast(courses, gaps, eps.greater(Measure { bits: ONE })),
            courses.len() as int,
        )
    }
}

fn is_loose(gap: &EndGap, i: usize, tolerance: &Measure) -> (r: bool)
    ensures
        r == loose(*gap, i as int, *tolerance),
{
    let mut j: usize = 0;
    while j < gap.others.len()
        invariant
            j <= gap.others@.len(),
            forall|k: int|
                0 <= k < j && k != i ==> !(#[trigger] gap.others@[k]).below(*tolerance),
        decreases gap.others.len() - j,
    {
        if j != i && gap.others[j].lt(tolerance) {
            assert(gap.others@[j as int].below(*tolerance));
            return false;
        }
        j = j + 1;
    }
    !gap.boundary.lt(tolerance)
}

/// Merges connections and removes those with a loose end: an end that comes
/// within the tolerance of no other connection and not of the artifact's
/// boundary. The tolerance is at least one. `merged` holds what merging the
/// connections gave, `gaps` how far the ends of each merged line are from the
/// others and from the boundary.
pub fn remove_dangles(
    connections: &Vec<LineString>,
    merged: &Vec<LineString>,
    gaps: &Vec<LineGaps>,
    eps: Measure,
) -> (r: Vec<LineString>)
    requires
        connections@.len() > 1 && exploded(lines(connections@), lines(merged@)).len() > 1
            ==> gaps@.len() == exploded(lines(connections@), lines(merged@)).len(),
    ensures
        lines(r@) == trimmed(lines(connections@), lines(merged@), gaps@, eps),
{
    if connections.len() <= 1 {
        return copy_lines(connections);
    }
    let all = merge_and_explode(connections, merged);
    if all.len() <= 1 {
        return all;
    }
    let tolerance = eps.max(&Measure::from_bits(ONE));
    let ghost courses = lines(all@);
    let ghost keep = is_fast(courses, gaps@, tolerance);
    let mut r: Vec<LineString> = Vec::new();
    assert(lines(r@) =~= Seq::empty());
    let mut i: usize = 0;
    while i < all.len()
        invariant
            i <= all@.len(),
            gaps@.len() == all@.len(),
            courses == lines(all@),
            keep == is_fast(courses, gaps@, tolerance),
            lines(r@) == select(courses, keep, i as int),
        decreases all.len() - i,
    {
        let ghost before = r@;
        assert(courses[i as int] == all@[i as int]@);
        let fast = all[i].coords.len() < 2 || !is_loose(&gaps[i].start, i, &tolerance) && !is_loose(
            &gaps[i].end,
            i,
            &tolerance,
        );
        assert(keep(i as int) == fast);
        if fast {
            r.push(all[i].clone());
            assert(lines(r@) =~= lines(before).push(courses[i as int]));
        }
        i = i + 1;
    }
    r
}

} // verus!
