//! Lines in the well-known binary format.
use crate::measure::Measure;
use crate::types::{Coord, LineString};
use vstd::prelude::*;

verus! {

/// The number that bytes stand for, the most significant one first.
pub open spec fn big_endian(bytes: Seq<u8>) -> nat
    decreases bytes.len(),
{
    if bytes.len() == 0 {
        0
    } else {
        big_endian(bytes.drop_last()) * 256 + bytes.last() as nat
    }
}

/// The number that `count` bytes from `at` on stand for.
pub open spec fn number(bytes: Seq<u8>, at: int, count: int, little: bool) -> nat {
    let part = bytes.subrange(at, at + count);
    big_endian(
        if little {
            part.reverse()
        } else {
            part
        },
    )
}

/// The geometry type of a line.
pub const LINE_TYPE: u64 = 2;

/// The bytes before the points: the byte order, the type and the number of points.
pub const HEADER: u64 = 9;

/// The bytes of a point.
pub const POINT: u64 = 16;

/// The point `k` of a line.
pub open spec fn point(bytes: Seq<u8>, k: int) -> Coord {
    let little = bytes[0] == 1;
    Coord {
        x: Measure { bits: number(bytes, HEADER + POINT * k, 8, little) as u64 },
        y: Measure { bits: number(bytes, HEADER + POINT * k + 8, 8, little) as u64 },
    }
}

/// The line that bytes stand for. None where the header or a point is missing, or
/// where they stand for something else.
pub open spec fn binary_line(bytes: Seq<u8>) -> Option<Seq<Coord>> {
    let little = bytes[0] == 1;
    let n_points = number(bytes, 5, 4, little);
    if bytes.len() < HEADER || number(bytes, 1, 4, little) != LINE_TYPE || bytes.len() < HEADER
        + POINT * n_points {
        None
    } else {
        Some(Seq::new(n_points, |k: int| point(bytes, k)))
    }
}

spec fn ceiling(count: nat) -> nat
    decreases count,
{
    if count == 0 {
        1
    } else {
        ceiling((count - 1) as nat) * 256
    }
}

proof fn below_ceiling(bytes: Seq<u8>)
    ensures
        big_endian(bytes) < ceiling(bytes.len()),
    decreases bytes.len(),
{
    if bytes.len() > 0 {
        below_ceiling(bytes.drop_last());
    }
}

proof fn ceiling_fits(count: nat)
    requires
        count <= 8,
    ensures
        ceiling(count) <= 0x1_0000_0000_0000_0000,
        count <= 4 ==> ceiling(count) <= 0x1_0000_0000,
{
    reveal_with_fuel(ceiling, 9);
}

fn read_number(bytes: &[u8], at: usize, count: usize, little: bool) -> (r: u64)
    requires
        count <= 8,
        at + count <= bytes@.len(),
    ensures
        r == number(bytes@, at as int, count as int, little),
        count <= 4 ==> r <= u32::MAX,
{
    let ghost part = bytes@.subrange(at as int, at + count);
    let ghost all = if little {
        part.reverse()
    } else {
        part
    };
    let len = bytes.len();
    let mut r: u64 = 0;
    let mut k: usize = 0;
    while k < count
        invariant
            k <= count <= 8,
            at + count <= len,
            len == bytes@.len(),
            part == bytes@.subrange(at as int, at + count),
            all == (if little {
                part.reverse()
            } else {
                part
            }),
            r == big_endian(all.take(k as int)),
        decreases count - k,
    {
        let byte = if little {
            bytes[at + (count - 1 - k)]
        } else {
            bytes[at + k]
        };
        proof {
            let now = all.take(k + 1);
            assert(now.drop_last() =~= all.take(k as int));
            assert(now.last() == byte);
            below_ceiling(now);
            ceiling_fits((k + 1) as nat);
        }
        r = r * 256 + byte as u64;
        k = k + 1;
    }
    proof {
        assert(all.take(count as int) =~= all);
        below_ceiling(all);
        ceiling_fits(count as nat);
    }
    r
}

/// Reads a line. The first byte tells the byte order; what follows the last point
/// is ignored.
pub fn parse_wkb_linestring(wkb: &[u8]) -> (r: Option<LineString>)
    ensures
        match r {
            Some(line) => binary_line(wkb@) == Some(line@),
            None => binary_line(wkb@) is None,
        },
{
    let len = wkb.len();
    if (len as u64) < HEADER {
        return None;
    }
    let little = wkb[0] == 1;
    if read_number(wkb, 1, 4, little) != LINE_TYPE {
        return None;
    }
    let n_points = read_number(wkb, 5, 4, little);
    if (len as u64) < HEADER + POINT * n_points {
        return None;
    }
    let mut coords: Vec<Coord> = Vec::new();
    let mut at: usize = 9;
    let mut k: u64 = 0;
    while k < n_points
        invariant
            k <= n_points,
            HEADER + POINT * n_points <= len,
            len == wkb@.len(),
            at == HEADER + POINT * k,
            little == (wkb@[0] == 1),
            coords@.len() == k,
            forall|j: int| 0 <= j < k ==> #[trigger] coords@[j] == point(wkb@, j),
        decreases n_points - k,
    {
        let x = Measure::from_bits(read_number(wkb, at, 8, little));
        let y = Measure::from_bits(read_number(wkb, at + 8, 8, little));
        coords.push(Coord { x, y });
        at = at + 16;
        k = k + 1;
    }
    let ghost wanted = Seq::new(n_points as nat, |j: int| point(wkb@, j));
    assert(coords@ =~= wanted);
    Some(LineString::new(coords))
}

/// What follows a line does not change it.
pub proof fn line_is_a_prefix(bytes: Seq<u8>, more: Seq<u8>)
    requires
        binary_line(bytes) is Some,
    ensures
        binary_line(bytes + more) == binary_line(bytes),
{
    let little = bytes[0] == 1;
    let all = bytes + more;
    let n_points = number(bytes, 5, 4, little);
    assert(all.subrange(1, 5) =~= bytes.subrange(1, 5));
    assert(all.subrange(5, 9) =~= bytes.subrange(5, 9));
    assert forall|k: int| 0 <= k < n_points implies point(all, k) == point(bytes, k) by {
        let at = HEADER + POINT * k;
        assert(at + 16 <= bytes.len());
        assert(all.subrange(at, at + 8) =~= bytes.subrange(at, at + 8));
        assert(all.subrange(at + 8, at + 16) =~= bytes.subrange(at + 8, at + 16));
    }
    assert(binary_line(all)->0 =~= binary_line(bytes)->0);
}

/// A line has the points that its header announces, each in sixteen bytes.
pub proof fn line_has_announced_length(bytes: Seq<u8>)
    requires
        binary_line(bytes) is Some,
    ensures
        binary_line(bytes)->0.len() == number(bytes, 5, 4, bytes[0] == 1),
        HEADER + POINT * binary_line(bytes)->0.len() <= bytes.len(),
{
}

} // verus!
