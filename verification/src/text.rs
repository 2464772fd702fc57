//! Lines and polygons in the well-known text format.
use crate::measure::Measure;
use crate::types::{lines, Coord, LineString};
use vstd::prelude::*;

verus! {

/// What the `wkt` crate reads from a text that is no collection: the points of a
/// line, or the rings of a polygon, the outer one first. The flag tells whether it
/// is a polygon. None for a text that it does not accept, or that holds another
/// kind of geometry.
pub uninterp spec fn wkt_shape(text: Seq<char>) -> Option<(bool, Seq<Seq<(u64, u64)>>)>;

/// The rings of a shape, each by its points.
pub open spec fn rings_of(rings: Seq<Vec<(u64, u64)>>) -> Seq<Seq<(u64, u64)>> {
    Seq::new(rings.len(), |k: int| rings[k]@)
}

/// Calls `wkt::Wkt::from_str` on the text and converts the result with
/// `geo_types::Geometry::try_from`. Both depend on the text alone. A point comes
/// back as the bit patterns of its coordinates. Collections are left out: they are
/// read recursively, so that deep ones exhaust the stack.
#[verifier::external_body]
fn read_wkt(text: &str) -> (r: Option<(bool, Vec<Vec<(u64, u64)>>)>)
    requires
        !opens_collection(text@),
    ensures
        match r {
            Some((is_area, rings)) => wkt_shape(text@) == Some((is_area, rings_of(rings@))),
            None => wkt_shape(text@) is None,
        },
{
    let parsed: wkt::Wkt<_> = text.parse().ok()?;
    let (is_area, rings) = match parsed.try_into().ok()? {
        geo_types::Geometry::LineString(line) => (false, vec![line]),
        geo_types::Geometry::Polygon(area) => {
            let (outer, inner) = area.into_inner();
            (true, std::iter::once(outer).chain(inner).collect())
        }
        _ => return None,
    };
    let bits = |c: &geo_types::Coord| (c.x.to_bits(), c.y.to_bits());
    Some((is_area, rings.iter().map(|ring| ring.0.iter().map(bits).collect()).collect()))
}

/// The characters that the format skips between words.
pub open spec fn blank(c: char) -> bool {
    c == ' ' || c == '\n' || c == '\r' || c == '\t'
}

/// The word that opens a collection, in both cases.
pub open spec fn collection_word() -> Seq<(char, char)> {
    seq![
        ('G', 'g'),
        ('E', 'e'),
        ('O', 'o'),
        ('M', 'm'),
        ('E', 'e'),
        ('T', 't'),
        ('R', 'r'),
        ('Y', 'y'),
        ('C', 'c'),
        ('O', 'o'),
        ('L', 'l'),
        ('L', 'l'),
        ('E', 'e'),
        ('C', 'c'),
        ('T', 't'),
        ('I', 'i'),
        ('O', 'o'),
        ('N', 'n'),
    ]
}

/// From `at` on, the text reads as the word.
pub open spec fn reads(text: Seq<char>, at: int, word: Seq<(char, char)>) -> bool {
    &&& at + word.len() <= text.len()
    &&& forall|k: int|
        0 <= k < word.len() ==> text[at + k] == (#[trigger] word[k]).0 || text[at + k] == word[k].1
}

/// The first word of the text opens a collection of geometries.
pub open spec fn opens_collection(text: Seq<char>) -> bool {
    exists|at: int|
        {
            &&& 0 <= at
            &&& #[trigger] reads(text, at, collection_word())
            &&& forall|k: int| 0 <= k < at ==> blank(#[trigger] text[k])
        }
}

fn char_list(text: &str) -> (r: Vec<char>)
    ensures
        r@ == text@,
{
    let mut r: Vec<char> = Vec::new();
    for c in it: text.chars()
        invariant
            it.seq() == text@,
            r@ == text@.take(it.index()),
    {
        r.push(c);
        assert(r@ =~= text@.take(it.index() + 1));
    }
    assert(r@ =~= text@);
    r
}

fn word_list() -> (r: Vec<(char, char)>)
    ensures
        r@ == collection_word(),
{
    let r = vec![
        ('G', 'g'),
        ('E', 'e'),
        ('O', 'o'),
        ('M', 'm'),
        ('E', 'e'),
        ('T', 't'),
        ('R', 'r'),
        ('Y', 'y'),
        ('C', 'c'),
        ('O', 'o'),
        ('L', 'l'),
        ('L', 'l'),
        ('E', 'e'),
        ('C', 'c'),
        ('T', 't'),
        ('I', 'i'),
        ('O', 'o'),
        ('N', 'n'),
    ];
    assert(r@ =~= collection_word());
    r
}

fn is_collection(text: &str) -> (r: bool)
    ensures
        r == opens_collection(text@),
{
    let chars = char_list(text);
    let word = word_list();
    let mut at: usize = 0;
    while at < chars.len() && (chars[at] == ' ' || chars[at] == '\n' || chars[at] == '\r'
        || chars[at] == '\t')
        invariant
            at <= chars@.len(),
            forall|k: int| 0 <= k < at ==> blank(#[trigger] chars@[k]),
        decreases chars.len() - at,
    {
        at = at + 1;
    }
    if chars.len() - at < word.len() {
        proof {
            assert forall|other: int|
                0 <= other && #[trigger] reads(text@, other, word@) && (forall|k: int|
                    0 <= k < other ==> blank(#[trigger] text@[k])) implies false by {
                assert(word@[0] == ('G', 'g'));
                assert(!blank(text@[other + 0]));
                if other < at {
                    assert(blank(chars@[other]));
                } else if other > at {
                    assert(blank(text@[at as int]));
                }
            }
        }
        return false;
    }
    let n = chars.len();
    let mut k: usize = 0;
    while k < word.len()
        invariant
            k <= word@.len(),
            word@ == collection_word(),
            chars@ == text@,
            n == chars@.len(),
            at + word@.len() <= n,
            at < chars@.len() ==> !blank(chars@[at as int]),
            forall|j: int| 0 <= j < at ==> blank(#[trigger] chars@[j]),
            forall|j: int|
                0 <= j < k ==> text@[at + j] == (#[trigger] word@[j]).0 || text@[at + j]
                    == word@[j].1,
        decreases word.len() - k,
    {
        let c = chars[at + k];
        let (upper, lower) = word[k];
        if c != upper && c != lower {
            proof {
                assert forall|other: int|
                    0 <= other && #[trigger] reads(text@, other, word@) && (forall|j: int|
                        0 <= j < other ==> blank(#[trigger] text@[j])) implies false by {
                    assert(word@[0] == ('G', 'g'));
                    assert(!blank(text@[other + 0]));
                    if other < at {
                        assert(blank(chars@[other]));
                    } else if other > at {
                        assert(blank(text@[at as int]));
                    } else {
                        assert(word@[k as int] == (upper, lower));
                    }
                }
            }
            return false;
        }
        k = k + 1;
    }
    assert(reads(text@, at as int, collection_word()));
    true
}

/// What a text holds: nothing where it opens a collection.
pub open spec fn shape_of(text: Seq<char>) -> Option<(bool, Seq<Seq<(u64, u64)>>)> {
    if opens_collection(text) {
        None
    } else {
        wkt_shape(text)
    }
}

/// Points by the bit patterns of their coordinates.
pub open spec fn points_of(bits: Seq<(u64, u64)>) -> Seq<Coord> {
    Seq::new(
        bits.len(),
        |k: int| Coord { x: Measure { bits: bits[k].0 }, y: Measure { bits: bits[k].1 } },
    )
}

/// The line of a shape, if it is one.
pub open spec fn shape_line(shape: Option<(bool, Seq<Seq<(u64, u64)>>)>) -> Option<Seq<Coord>> {
    match shape {
        Some((is_area, rings)) => if is_area || rings.len() == 0 {
            None
        } else {
            Some(points_of(rings[0]))
        },
        None => None,
    }
}

/// The rings of a shape, if it is a polygon.
pub open spec fn shape_area(shape: Option<(bool, Seq<Seq<(u64, u64)>>)>) -> Option<
    Seq<Seq<Coord>>,
> {
    match shape {
        Some((is_area, rings)) => if is_area && rings.len() > 0 {
            Some(Seq::new(rings.len(), |k: int| points_of(rings[k])))
        } else {
            None
        },
        None => None,
    }
}

/// A shape as it was read.
pub open spec fn shape_view(shape: Option<(bool, Vec<Vec<(u64, u64)>>)>) -> Option<
    (bool, Seq<Seq<(u64, u64)>>),
> {
    match shape {
        Some((is_area, rings)) => Some((is_area, rings_of(rings@))),
        None => None,
    }
}

/// A polygon: its outer ring and its holes.
#[derive(Debug)]
pub struct Polygon {
    pub exterior: LineString,
    pub interiors: Vec<LineString>,
}

impl Polygon {
    /// All rings, the outer one first.
    pub open spec fn rings(&self) -> Seq<Seq<Coord>> {
        seq![self.exterior@] + lines(self.interiors@)
    }
}

fn to_line(bits: &Vec<(u64, u64)>) -> (r: LineString)
    ensures
        r@ == points_of(bits@),
{
    let mut coords: Vec<Coord> = Vec::new();
    let mut k: usize = 0;
    while k < bits.len()
        invariant
            k <= bits@.len(),
            coords@ == points_of(bits@).take(k as int),
        decreases bits.len() - k,
    {
        let (x, y) = bits[k];
        coords.push(Coord { x: Measure::from_bits(x), y: Measure::from_bits(y) });
        assert(coords@ =~= points_of(bits@).take(k + 1));
        k = k + 1;
    }
    assert(coords@ =~= points_of(bits@));
    LineString::new(coords)
}

/// Takes the line of a shape, if it is one.
pub fn to_linestring(shape: &Option<(bool, Vec<Vec<(u64, u64)>>)>) -> (r: Option<LineString>)
    ensures
        match r {
            Some(line) => shape_line(shape_view(*shape)) == Some(line@),
            None => shape_line(shape_view(*shape)) is None,
        },
{
    match shape {
        Some((is_area, rings)) => {
            if *is_area || rings.len() == 0 {
                return None;
            }
            assert(rings_of(rings@)[0] == rings@[0]@);
            Some(to_line(&rings[0]))
        },
        None => None,
    }
}

/// Takes the polygon of a shape, if it is one.
pub fn to_polygon(shape: &Option<(bool, Vec<Vec<(u64, u64)>>)>) -> (r: Option<Polygon>)
    ensures
        match r {
            Some(area) => shape_area(shape_view(*shape)) == Some(area.rings()),
            None => shape_area(shape_view(*shape)) is None,
        },
{
    match shape {
        Some((is_area, rings)) => {
            if !*is_area || rings.len() == 0 {
                return None;
            }
            let ghost wanted = Seq::new(
                rings@.len(),
                |k: int| points_of(rings_of(rings@)[k]),
            );
            assert(rings_of(rings@)[0] == rings@[0]@);
            let exterior = to_line(&rings[0]);
            let mut interiors: Vec<LineString> = Vec::new();
            let mut k: usize = 1;
            while k < rings.len()
                invariant
                    1 <= k <= rings@.len(),
                    interiors@.len() == k - 1,
                    forall|j: int|
                        0 <= j < k - 1 ==> (#[trigger] interiors@[j])@ == points_of(
                            rings@[j + 1]@,
                        ),
                decreases rings.len() - k,
            {
                interiors.push(to_line(&rings[k]));
                k = k + 1;
            }
            let area = Polygon { exterior, interiors };
            assert(area.rings() =~= wanted) by {
                assert forall|j: int| 0 <= j < wanted.len() implies area.rings()[j]
                    == wanted[j] by {
                    if j > 0 {
                        assert(area.interiors@[j - 1]@ == points_of(rings@[j]@));
                    }
                }
            }
            Some(area)
        },
        None => None,
    }
}

/// Reads the line that a text holds, if it holds one.
pub fn wkt_to_linestring(text: &str) -> (r: Option<LineString>)
    ensures
        match r {
            Some(line) => shape_line(shape_of(text@)) == Some(line@),
            None => shape_line(shape_of(text@)) is None,
        },
{
    if is_collection(text) {
        return None;
    }
    let shape = read_wkt(text);
    to_linestring(&shape)
}

/// Reads the polygon that a text holds, if it holds one.
pub fn wkt_to_polygon(text: &str) -> (r: Option<Polygon>)
    ensures
        match r {
            Some(area) => shape_area(shape_of(text@)) == Some(area.rings()),
            None => shape_area(shape_of(text@)) is None,
        },
{
    if is_collection(text) {
        return None;
    }
    let shape = read_wkt(text);
    to_polygon(&shape)
}

/// The lines that the first `n` texts hold.
pub open spec fn text_lines(texts: Seq<String>, n: int) -> Seq<Seq<Coord>>
    decreases n,
{
    if n <= 0 {
        Seq::empty()
    } else {
        match shape_line(shape_of(texts[n - 1]@)) {
            Some(line) => text_lines(texts, n - 1).push(line),
            None => text_lines(texts, n - 1),
        }
    }
}

/// Reads the lines that texts hold. A text that holds none is skipped.
pub fn load_wkt(texts: &Vec<String>) -> (r: Vec<LineString>)
    ensures
        lines(r@) == text_lines(texts@, texts@.len() as int),
{
    let mut r: Vec<LineString> = Vec::new();
    let mut k: usize = 0;
    assert(lines(r@) =~= text_lines(texts@, 0));
    while k < texts.len()
        invariant
            k <= texts@.len(),
            lines(r@) == text_lines(texts@, k as int),
        decreases texts.len() - k,
    {
        match wkt_to_linestring(texts[k].as_str()) {
            Some(line) => {
                let ghost before = lines(r@);
                r.push(line);
                assert(lines(r@) =~= before.push(line@));
            },
            None => {},
        }
        k = k + 1;
    }
    r
}

/// The text of the first `n` points: the coordinates apart by a blank, the points
/// by a comma and a blank.
pub open spec fn point_list(points: Seq<(String, String)>, n: int) -> Seq<char>
    decreases n,
{
    if n <= 0 {
        Seq::empty()
    } else {
        let (x, y) = points[n - 1];
        let before = point_list(points, n - 1);
        (if n == 1 {
            before
        } else {
            before + ", "@
        }) + x@ + " "@ + y@
    }
}

/// Writes a line, given its coordinates in decimal.
pub fn linestring_to_wkt(points: &Vec<(String, String)>) -> (r: String)
    ensures
        r@ == "LINESTRING ("@ + point_list(points@, points@.len() as int) + ")"@,
{
    let mut r = "LINESTRING (".to_owned();
    let mut k: usize = 0;
    assert(r@ =~= "LINESTRING ("@ + point_list(points@, 0));
    while k < points.len()
        invariant
            k <= points@.len(),
            r@ == "LINESTRING ("@ + point_list(points@, k as int),
        decreases points.len() - k,
    {
        if k > 0 {
            r.append(", ");
        }
        r.append(points[k].0.as_str());
        r.append(" ");
        r.append(points[k].1.as_str());
        k = k + 1;
        assert(r@ =~= "LINESTRING ("@ + point_list(points@, k as int));
    }
    r.append(")");
    r
}

} // verus!
