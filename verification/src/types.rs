//! The data that the simplification works on.
use crate::measure::Measure;
use vstd::prelude::*;

verus! {

/// A point of the plane.
#[derive(Clone, Copy, PartialEq, Eq, Structural, Debug)]
pub struct Coord {
    pub x: Measure,
    pub y: Measure,
}

/// A street: the points that it runs through, in order.
#[derive(Debug)]
pub struct LineString {
    pub coords: Vec<Coord>,
}

impl View for LineString {
    type V = Seq<Coord>;

    open spec fn view(&self) -> Seq<Coord> {
        self.coords@
    }
}

impl LineString {
    pub fn new(coords: Vec<Coord>) -> (r: LineString)
        ensures
            r@ == coords@,
    {
        LineString { coords }
    }

    /// The straight line from `a` to `b`.
    pub fn segment(a: Coord, b: Coord) -> (r: LineString)
        ensures
            r@ == seq![a, b],
    {
        let mut coords: Vec<Coord> = Vec::new();
        coords.push(a);
        coords.push(b);
        assert(coords@ =~= seq![a, b]);
        LineString { coords }
    }
}

impl Clone for LineString {
    fn clone(&self) -> (r: LineString)
        ensures
            r@ == self@,
    {
        let coords = self.coords.clone();
        assert(coords@ =~= self.coords@);
        LineString { coords }
    }
}

/// The lines of a list, each by the points that it runs through.
pub open spec fn lines(list: Seq<LineString>) -> Seq<Seq<Coord>> {
    Seq::new(list.len(), |i: int| list[i]@)
}

/// The lists of a list, each by its contents.
pub open spec fn contents<T>(list: Seq<Vec<T>>) -> Seq<Seq<T>> {
    Seq::new(list.len(), |i: int| list[i]@)
}

/// A copy of a list of lines.
pub fn copy_lines(list: &Vec<LineString>) -> (r: Vec<LineString>)
    ensures
        lines(r@) == lines(list@),
{
    let mut r: Vec<LineString> = Vec::new();
    let mut i: usize = 0;
    while i < list.len()
        invariant
            i <= list@.len(),
            r@.len() == i,
            forall|k: int| 0 <= k < i ==> (#[trigger] r@[k])@ == list@[k]@,
        decreases list.len() - i,
    {
        r.push(list[i].clone());
        i = i + 1;
    }
    assert(lines(r@) =~= lines(list@));
    r
}

/// Appends copies of `more` to `list`.
pub fn extend_lines(list: &mut Vec<LineString>, more: &Vec<LineString>)
    ensures
        lines(final(list)@) == lines(old(list)@) + lines(more@),
{
    let ghost before = list@;
    let mut i: usize = 0;
    while i < more.len()
        invariant
            i <= more@.len(),
            list@.len() == before.len() + i,
            forall|k: int| 0 <= k < before.len() ==> (#[trigger] list@[k]) == before[k],
            forall|k: int| 0 <= k < i ==> (#[trigger] list@[before.len() + k])@ == more@[k]@,
        decreases more.len() - i,
    {
        list.push(more[i].clone());
        i = i + 1;
    }
    assert forall|k: int| 0 <= k < list@.len() implies lines(list@)[k] == (lines(before) + lines(
        more@,
    ))[k] by {
        if k >= before.len() {
            assert(list@[before.len() + (k - before.len())]@ == more@[k - before.len()]@);
        }
    }
    assert(lines(list@) =~= lines(before) + lines(more@));
}

/// Where an edge of the network comes from.
#[derive(Clone, Copy, PartialEq, Eq, Structural, Debug)]
pub enum EdgeStatus {
    /// As it was given.
    Original,
    /// Joined or split by a topology pass.
    Changed,
    /// Drawn by the simplification.
    New,
}

impl EdgeStatus {
    /// The status by name.
    pub fn as_str(&self) -> (r: &'static str)
        ensures
            r@ == (match *self {
                EdgeStatus::Original => "original"@,
                EdgeStatus::Changed => "changed"@,
                EdgeStatus::New => "new"@,
            }),
    {
        match self {
            EdgeStatus::Original => "original",
            EdgeStatus::Changed => "changed",
            EdgeStatus::New => "new",
        }
    }
}

/// An edge of the network: its course, its origin and the identifiers of the
/// input edges that it descends from.
#[verifier::ext_equal]
pub struct Edge {
    pub line: Seq<Coord>,
    pub status: EdgeStatus,
    pub parents: Seq<usize>,
}

/// A street network: three lists of the same length, which hold the course,
/// the origin and the ancestors of each edge.
#[derive(Debug)]
pub struct StreetNetwork {
    pub geometries: Vec<LineString>,
    pub statuses: Vec<EdgeStatus>,
    pub parent_ids: Vec<Vec<usize>>,
}

impl StreetNetwork {
    /// The three lists have the same length.
    pub open spec fn wf(&self) -> bool {
        &&& self.statuses@.len() == self.geometries@.len()
        &&& self.parent_ids@.len() == self.geometries@.len()
    }
}

impl View for StreetNetwork {
    type V = Seq<Edge>;

    /// The edges of the network.
    open spec fn view(&self) -> Seq<Edge> {
        Seq::new(
            self.geometries@.len(),
            |i: int|
                Edge {
                    line: self.geometries@[i]@,
                    status: self.statuses@[i],
                    parents: self.parent_ids@[i]@,
                },
        )
    }
}

/// The settings of a simplification.
#[derive(Clone, Copy, Debug)]
pub struct NeatifyParams {
    pub max_segment_length: Measure,
    pub min_dangle_length: Measure,
    pub clip_limit: Measure,
    pub simplification_factor: Measure,
    pub consolidation_tolerance: Measure,
    pub artifact_threshold: Option<Measure>,
    pub artifact_threshold_fallback: Measure,
    pub angle_threshold: Measure,
    pub eps: Measure,
    pub n_loops: usize,
}

/// The bit patterns of the default settings.
pub const ONE: u64 = 0x3ff0_0000_0000_0000;

pub const TWO: u64 = 0x4000_0000_0000_0000;

pub const SEVEN: u64 = 0x401c_0000_0000_0000;

pub const TEN: u64 = 0x4024_0000_0000_0000;

pub const TWENTY: u64 = 0x4034_0000_0000_0000;

pub const ONE_HUNDRED_TWENTY: u64 = 0x405e_0000_0000_0000;

pub const ONE_TEN_THOUSANDTH: u64 = 0x3f1a_36e2_eb1c_432d;

impl Default for NeatifyParams {
    fn default() -> (r: NeatifyParams)
        ensures
            r.max_segment_length.bits == ONE,
            r.min_dangle_length.bits == TWENTY,
            r.clip_limit.bits == TWO,
            r.simplification_factor.bits == TWO,
            r.consolidation_tolerance.bits == TEN,
            r.artifact_threshold is None,
            r.artifact_threshold_fallback.bits == SEVEN,
            r.angle_threshold.bits == ONE_HUNDRED_TWENTY,
            r.eps.bits == ONE_TEN_THOUSANDTH,
            r.n_loops == 2,
    {
        NeatifyParams {
            max_segment_length: Measure::from_bits(ONE),
            min_dangle_length: Measure::from_bits(TWENTY),
            clip_limit: Measure::from_bits(TWO),
            simplification_factor: Measure::from_bits(TWO),
            consolidation_tolerance: Measure::from_bits(TEN),
            artifact_threshold: None,
            artifact_threshold_fallback: Measure::from_bits(SEVEN),
            angle_threshold: Measure::from_bits(ONE_HUNDRED_TWENTY),
            eps: Measure::from_bits(ONE_TEN_THOUSANDTH),
            n_loops: 2,
        }
    }
}

/// The strokes of a network: for each edge the group that it belongs to, whether
/// it ends that group, and the length and the number of edges of the group.
#[derive(Debug)]
pub struct CoinsResult {
    pub group: Vec<usize>,
    pub is_end: Vec<bool>,
    pub stroke_length: Vec<Measure>,
    pub stroke_count: Vec<usize>,
    pub n_segments: usize,
    pub n_p1_confirmed: usize,
    pub n_p2_confirmed: usize,
}

impl CoinsResult {
    /// There is an entry for the edge `i`.
    pub open spec fn has(&self, i: usize) -> bool {
        &&& i < self.group@.len()
        &&& i < self.is_end@.len()
        &&& i < self.stroke_count@.len()
    }

    /// There is an entry for each edge of the list.
    pub open spec fn knows(&self, edges: Seq<usize>) -> bool {
        forall|k: int| 0 <= k < edges.len() ==> self.has(#[trigger] edges[k])
    }
}

/// How the strokes around an artifact pass it: how many there are, and how many
/// continue, end, or stand alone.
#[derive(Clone, Copy, Debug)]
pub struct CesInfo {
    pub stroke_count: usize,
    pub c: usize,
    pub e: usize,
    pub s: usize,
}

/// A point of the plane on the grid of hundred-millionths that tells nodes
/// apart.
#[derive(Clone, Copy, PartialEq, Eq, Structural, Debug)]
pub struct NodeKey {
    pub x: i64,
    pub y: i64,
}

/// Edges to drop, by index, and lines to add.
#[derive(Debug)]
pub struct Changes {
    pub to_drop: Vec<usize>,
    pub to_add: Vec<LineString>,
}

/// What can go wrong in a simplification.
#[derive(Debug)]
pub enum NeatifyError {
    Geometry(String),
    NoCrs,
    ArtifactDetection(String),
}

impl NeatifyError {
    /// The error in words.
    pub fn message(&self) -> (r: String)
        ensures
            r@ == (match self {
                NeatifyError::Geometry(detail) => "Geometry error: "@ + detail@,
                NeatifyError::NoCrs => "No projected CRS set on input data"@,
                NeatifyError::ArtifactDetection(detail) => "Artifact detection failed: "@ + detail@,
            }),
    {
        match self {
            NeatifyError::Geometry(detail) => "Geometry error: ".to_owned().concat(detail.as_str()),
            NeatifyError::NoCrs => "No projected CRS set on input data".to_owned(),
            NeatifyError::ArtifactDetection(detail) => {
                "Artifact detection failed: ".to_owned().concat(detail.as_str())
            },
        }
    }
}

} // verus!
