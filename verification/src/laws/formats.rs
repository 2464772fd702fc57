//! Lines in binary and in text.
use crate::binary::{big_endian, binary_line, number, point};
use crate::text::{
    blank, collection_word, opens_collection, point_list, points_of, reads, shape_area, shape_line,
    shape_of, text_lines, Polygon,
};
use crate::types::Coord;
use vstd::prelude::*;

verus! {

/// The number in `count` bytes, the least significant one first.
pub open spec fn bytes_of(x: nat, count: nat) -> Seq<u8>
    decreases count,
{
    if count == 0 {
        Seq::empty()
    } else {
        seq![(x % 256) as u8] + bytes_of(x / 256, (count - 1) as nat)
    }
}

/// The number in `count` bytes, in the order that the first byte of a line tells: the least
/// significant one first for one, the most significant one first for anything else.
pub open spec fn written(x: nat, count: nat, order: u8) -> Seq<u8> {
    if order == 1 {
        bytes_of(x, count)
    } else {
        bytes_of(x, count).reverse()
    }
}

/// The first `n` points, the two coordinates of each one after the other.
pub open spec fn written_points(line: Seq<Coord>, n: int, order: u8) -> Seq<u8>
    decreases n,
{
    if n <= 0 {
        Seq::empty()
    } else {
        written_points(line, n - 1, order) + written(line[n - 1].x.bits as nat, 8, order) + written(
            line[n - 1].y.bits as nat,
            8,
            order,
        )
    }
}

/// What stands before the points: the byte order, the type and the number of points.
pub open spec fn written_header(order: u8, kind: nat, n_points: nat) -> Seq<u8> {
    seq![order] + written(kind, 4, order) + written(n_points, 4, order)
}

/// A power of 256.
pub open spec fn limit(count: nat) -> nat
    decreases count,
{
    if count == 0 {
        1
    } else {
        256 * limit((count - 1) as nat)
    }
}

proof fn bytes_are_read(x: nat, count: nat)
    requires
        x < limit(count),
    ensures
        bytes_of(x, count).len() == count,
        big_endian(bytes_of(x, count).reverse()) == x,
    decreases count,
{
    if count > 0 {
        let rest = bytes_of(x / 256, (count - 1) as nat);
        assert(x / 256 < limit((count - 1) as nat)) by (nonlinear_arith)
            requires
                x < 256 * limit((count - 1) as nat),
        ;
        bytes_are_read(x / 256, (count - 1) as nat);
        let all = bytes_of(x, count).reverse();
        assert(all.drop_last() =~= rest.reverse());
        assert(all.last() == (x % 256) as u8);
        assert(x == (x / 256) * 256 + x % 256) by (nonlinear_arith);
    } else {
        assert(bytes_of(x, 0).reverse() =~= Seq::<u8>::empty());
    }
}

proof fn written_is_read(bytes: Seq<u8>, at: int, x: nat, count: nat, order: u8)
    requires
        x < limit(count),
        0 <= at,
        at + count <= bytes.len(),
        bytes.subrange(at, at + count) == written(x, count, order),
    ensures
        number(bytes, at, count as int, order == 1) == x,
{
    bytes_are_read(x, count);
    let part = bytes.subrange(at, at + count);
    if order == 1 {
        assert(part.reverse() == bytes_of(x, count).reverse());
    }
}

proof fn limits()
    ensures
        limit(4) == 0x1_0000_0000,
        limit(8) == 0x1_0000_0000_0000_0000,
{
    reveal_with_fuel(limit, 9);
}

proof fn points_in_place(line: Seq<Coord>, n: int, order: u8, k: int)
    requires
        0 <= k < n <= line.len(),
    ensures
        written_points(line, n, order).len() == 16 * n,
        written_points(line, n, order).subrange(16 * k, 16 * k + 8) == written(
            line[k].x.bits as nat,
            8,
            order,
        ),
        written_points(line, n, order).subrange(16 * k + 8, 16 * k + 16) == written(
            line[k].y.bits as nat,
            8,
            order,
        ),
    decreases n,
{
    limits();
    let x = line[n - 1].x.bits as nat;
    let y = line[n - 1].y.bits as nat;
    bytes_are_read(x, 8);
    bytes_are_read(y, 8);
    let before = written_points(line, n - 1, order);
    let all = written_points(line, n, order);
    if n > 1 {
        points_in_place(line, n - 1, order, if k < n - 1 {
            k
        } else {
            0
        });
    }
    assert(before.len() == 16 * (n - 1));
    if k < n - 1 {
        assert(all.subrange(16 * k, 16 * k + 8) =~= before.subrange(16 * k, 16 * k + 8));
        assert(all.subrange(16 * k + 8, 16 * k + 16) =~= before.subrange(16 * k + 8, 16 * k + 16));
    } else {
        assert(all.subrange(16 * k, 16 * k + 8) =~= written(x, 8, order));
        assert(all.subrange(16 * k + 8, 16 * k + 16) =~= written(y, 8, order));
    }
}

proof fn header_is_read(order: u8, kind: nat, n_points: nat, rest: Seq<u8>)
    requires
        kind <= u32::MAX,
        n_points <= u32::MAX,
    ensures
        ({
            let bytes = written_header(order, kind, n_points) + rest;
            &&& written_header(order, kind, n_points).len() == 9
            &&& bytes[0] == order
            &&& number(bytes, 1, 4, order == 1) == kind
            &&& number(bytes, 5, 4, order == 1) == n_points
        }),
{
    limits();
    bytes_are_read(kind, 4);
    bytes_are_read(n_points, 4);
    let bytes = written_header(order, kind, n_points) + rest;
    assert(bytes.subrange(1, 5) =~= written(kind, 4, order));
    assert(bytes.subrange(5, 9) =~= written(n_points, 4, order));
    written_is_read(bytes, 1, kind, 4, order);
    written_is_read(bytes, 5, n_points, 4, order);
}

/// What is written of a line is read as the same line, in either byte order and whatever follows.
pub proof fn lines_survive_writing_and_reading(line: Seq<Coord>, order: u8, rest: Seq<u8>)
    requires
        line.len() <= u32::MAX,
    ensures
        binary_line(
            written_header(order, 2, line.len()) + written_points(line, line.len() as int, order)
                + rest,
        ) == Some(line),
{
    let n = line.len() as int;
    let head = written_header(order, 2, line.len());
    let body = written_points(line, n, order);
    let bytes = head + body + rest;
    header_is_read(order, 2, line.len(), body + rest);
    assert(bytes =~= head + (body + rest));
    if n > 0 {
        points_in_place(line, n, order, 0);
    }
    assert(body.len() == 16 * n);
    limits();
    assert forall|k: int| 0 <= k < n implies #[trigger] point(bytes, k) == line[k] by {
        points_in_place(line, n, order, k);
        let at = 9 + 16 * k;
        assert(bytes.subrange(at, at + 8) =~= body.subrange(16 * k, 16 * k + 8));
        assert(bytes.subrange(at + 8, at + 16) =~= body.subrange(16 * k + 8, 16 * k + 16));
        written_is_read(bytes, at, line[k].x.bits as nat, 8, order);
        written_is_read(bytes, at + 8, line[k].y.bits as nat, 8, order);
    }
    assert(binary_line(bytes)->0 =~= line);
}

/// Something else than a line is not read, nor is a line of which the header or a point is
/// missing.
pub proof fn broken_lines_are_not_read(
    order: u8,
    kind: nat,
    n_points: nat,
    rest: Seq<u8>,
    short: Seq<u8>,
)
    requires
        kind <= u32::MAX,
        n_points <= u32::MAX,
        kind != 2 || rest.len() < 16 * n_points,
        short.len() < 9,
    ensures
        binary_line(written_header(order, kind, n_points) + rest) is None,
        binary_line(short) is None,
{
    header_is_read(order, kind, n_points, rest);
}

/// A text opens a collection exactly when, after blanks, tabs and line breaks, it goes on with
/// the word for it, each letter in either case.
pub proof fn how_a_collection_opens(text: Seq<char>)
    ensures
        opens_collection(text) <==> exists|at: int|
            {
                &&& #[trigger] is_word_at(text, at)
                &&& forall|k: int|
                    0 <= k < at ==> (#[trigger] text[k] == ' ' || text[k] == '\t' || text[k] == '\n'
                        || text[k] == '\r')
            },
{
    let upper = "GEOMETRYCOLLECTION"@;
    let lower = "geometrycollection"@;
    reveal_strlit("GEOMETRYCOLLECTION");
    reveal_strlit("geometrycollection");
    let word = collection_word();
    assert(word.len() == 18 && upper.len() == 18 && lower.len() == 18);
    assert(word =~= Seq::new(18, |k: int| (upper[k], lower[k])));
    assert forall|at: int| 0 <= at implies (#[trigger] reads(text, at, word) <==> is_word_at(
        text,
        at,
    )) by {
        if reads(text, at, word) {
            assert forall|k: int| 0 <= k < 18 implies (#[trigger] upper[k] == text[at + k]
                || lower[k] == text[at + k]) by {
                assert(text[at + k] == word[k].0 || text[at + k] == word[k].1);
            }
        }
        if is_word_at(text, at) {
            assert forall|k: int| 0 <= k < word.len() implies text[at + k]
                == (#[trigger] word[k]).0 || text[at + k] == word[k].1 by {
                assert(upper[k] == text[at + k] || lower[k] == text[at + k]);
            }
        }
    }
    if opens_collection(text) {
        let at = choose|at: int|
            {
                &&& 0 <= at
                &&& #[trigger] reads(text, at, collection_word())
                &&& forall|k: int| 0 <= k < at ==> blank(#[trigger] text[k])
            };
        assert(is_word_at(text, at));
        assert forall|k: int| 0 <= k < at implies (#[trigger] text[k] == ' ' || text[k] == '\t'
            || text[k] == '\n' || text[k] == '\r') by {
            assert(blank(text[k]));
        }
    }
    if exists|at: int|
        {
            &&& #[trigger] is_word_at(text, at)
            &&& forall|k: int|
                0 <= k < at ==> (#[trigger] text[k] == ' ' || text[k] == '\t' || text[k] == '\n'
                    || text[k] == '\r')
        } {
        let at = choose|at: int|
            {
                &&& #[trigger] is_word_at(text, at)
                &&& forall|k: int|
                    0 <= k < at ==> (#[trigger] text[k] == ' ' || text[k] == '\t' || text[k] == '\n'
                        || text[k] == '\r')
            };
        assert(reads(text, at, word));
        assert forall|k: int| 0 <= k < at implies blank(#[trigger] text[k]) by {}
    }
}

/// From `at` on the text goes on with the word for a collection, each letter in either case.
pub open spec fn is_word_at(text: Seq<char>, at: int) -> bool {
    let upper = "GEOMETRYCOLLECTION"@;
    let lower = "geometrycollection"@;
    &&& 0 <= at
    &&& at + 18 <= text.len()
    &&& forall|k: int|
        0 <= k < 18 ==> (#[trigger] upper[k] == text[at + k] || lower[k] == text[at + k])
}

/// A shape is a line or an area, and not both. A line has the points of its first ring, an area
/// all its rings; no point, ring or coordinate is left out or changed.
pub proof fn shapes_are_taken_whole(is_area: bool, rings: Seq<Seq<(u64, u64)>>)
    requires
        rings.len() > 0,
    ensures
        ({
            let shape = Some((is_area, rings));
            &&& shape_line(shape) is Some <==> !is_area
            &&& shape_area(shape) is Some <==> is_area
            &&& !is_area ==> is_drawn(shape_line(shape)->0, rings[0])
            &&& is_area ==> {
                &&& shape_area(shape)->0.len() == rings.len()
                &&& forall|r: int|
                    0 <= r < rings.len() ==> is_drawn(
                        #[trigger] shape_area(shape)->0[r],
                        rings[r],
                    )
            }
        }),
        shape_line(None) is None,
        shape_area(None) is None,
{
    let shape = Some((is_area, rings));
    if is_area {
        assert forall|r: int| 0 <= r < rings.len() implies is_drawn(
            #[trigger] shape_area(shape)->0[r],
            rings[r],
        ) by {
            assert(shape_area(shape)->0[r] == points_of(rings[r]));
        }
    }
}

/// The points have the given bit patterns.
pub open spec fn is_drawn(points: Seq<Coord>, bits: Seq<(u64, u64)>) -> bool {
    &&& points.len() == bits.len()
    &&& forall|k: int|
        0 <= k < points.len() ==> (#[trigger] points[k]).x.bits == bits[k].0 && points[k].y.bits
            == bits[k].1
}

/// Of texts, the lines are read in order; a further text brings its line after the others, if
/// it holds one.
pub proof fn texts_are_read_in_order(texts: Seq<String>, more: String)
    ensures
        text_lines(Seq::empty(), 0).len() == 0,
        text_lines(texts.push(more), (texts.len() + 1) as int) == text_lines(
            texts,
            texts.len() as int,
        ) + (match shape_line(shape_of(more@)) {
            Some(line) => seq![line],
            None => Seq::empty(),
        }),
        opens_collection(more@) ==> shape_of(more@) is None,
        !opens_collection(more@) ==> shape_of(more@) == crate::text::wkt_shape(more@),
{
    let n = texts.len() as int;
    texts_alike(texts, texts.push(more), n);
    assert(texts.push(more)[n] == more);
    let before = text_lines(texts, n);
    assert(before + Seq::empty() =~= before);
    if shape_line(shape_of(more@)) is Some {
        let line = shape_line(shape_of(more@))->0;
        assert(before.push(line) =~= before + seq![line]);
    }
}

proof fn texts_alike(a: Seq<String>, b: Seq<String>, n: int)
    requires
        forall|k: int| 0 <= k < n ==> #[trigger] a[k] == b[k],
    ensures
        text_lines(a, n) == text_lines(b, n),
    decreases n,
{
    if n > 0 {
        texts_alike(a, b, n - 1);
        assert(a[n - 1] == b[n - 1]);
    }
}

/// Points are written one after the other, apart by a comma and a blank, and the coordinates of
/// a point apart by a blank.
pub proof fn points_are_written_in_order(points: Seq<(String, String)>, x: String, y: String)
    ensures
        point_list(Seq::empty(), 0).len() == 0,
        point_list(points.push((x, y)), (points.len() + 1) as int) == point_list(
            points,
            points.len() as int,
        ) + (if points.len() > 0 {
            ", "@
        } else {
            Seq::empty()
        }) + x@ + " "@ + y@,
{
    let n = points.len() as int;
    points_alike(points, points.push((x, y)), n);
    assert(points.push((x, y))[n] == (x, y));
    let before = point_list(points, n);
    assert(before + Seq::empty() =~= before);
}

proof fn points_alike(a: Seq<(String, String)>, b: Seq<(String, String)>, n: int)
    requires
        forall|k: int| 0 <= k < n ==> #[trigger] a[k] == b[k],
    ensures
        point_list(a, n) == point_list(b, n),
    decreases n,
{
    if n > 0 {
        points_alike(a, b, n - 1);
        assert(a[n - 1] == b[n - 1]);
    }
}

/// The rings of a polygon are its outer ring and then its holes.
pub proof fn the_outer_ring_comes_first(area: Polygon)
    ensures
        area.rings().len() == 1 + area.interiors@.len(),
        area.rings()[0] == area.exterior.coords@,
        forall|k: int|
            0 <= k < area.interiors@.len() ==> #[trigger] area.interiors@[k].coords@
                == area.rings()[k + 1],
{
}

} // verus!
