use geo::{Buffer, Centroid, Closest, ClosestPoint, Distance, Euclidean, Length, Relate};
use neatnet::ces::{classify_ces_edges, is_identical_ces};
use neatnet::clusters::{split_by_grid, split_cluster_spatially, Cell, Grid};
use neatnet::connections::{make_shortest_to_edges, merge_and_explode};
use neatnet::coverage::{find_boundary_edges, find_covered_edges, LineDistances};
use neatnet::dedup::dedup_geometries;
use neatnet::measure::Measure;
use neatnet::types::{CesInfo, CoinsResult, Coord, LineString, NeatifyParams};

fn measure(x: f64) -> Measure {
    Measure::from_bits(x.to_bits())
}

fn value(m: Measure) -> f64 {
    f64::from_bits(m.bits)
}

fn make_line(coords: &[[f64; 2]]) -> LineString {
    LineString::new(
        coords.iter().map(|c| Coord { x: measure(c[0]), y: measure(c[1]) }).collect(),
    )
}

fn make_poly(coords: &[[f64; 2]]) -> geo_types::Polygon<f64> {
    geo_types::Polygon::new(
        geo_types::LineString::new(
            coords.iter().map(|c| geo_types::Coord { x: c[0], y: c[1] }).collect(),
        ),
        vec![],
    )
}

fn to_geo(line: &LineString) -> geo_types::LineString<f64> {
    geo_types::LineString::new(
        line.coords
            .iter()
            .map(|c| geo_types::Coord { x: value(c.x), y: value(c.y) })
            .collect(),
    )
}

fn line_distances(
    line: &LineString,
    poly: &geo_types::Polygon<f64>,
    eps: f64,
) -> LineDistances {
    let geo_line = to_geo(line);
    let to_poly = |c: geo_types::Coord<f64>| measure(Euclidean.distance(&geo_types::Point::from(c), poly));
    LineDistances {
        vertices: geo_line.0.iter().map(|&c| to_poly(c)).collect(),
        midpoints: geo_line
            .0
            .windows(2)
            .map(|w| {
                to_poly(geo_types::Coord { x: (w[0].x + w[1].x) / 2.0, y: (w[0].y + w[1].y) / 2.0 })
            })
            .collect(),
        whole: Some(poly.buffer(eps).relate(&geo_line).is_covers()),
    }
}

fn grid_over(cluster: &[usize], geoms: &[geo_types::Polygon<f64>], target_size: usize) -> Grid {
    let centroids: Vec<Option<geo_types::Point<f64>>> =
        cluster.iter().map(|&i| geoms[i].centroid()).collect();
    let xs: Vec<f64> = centroids.iter().flatten().map(|p| p.x()).collect();
    let ys: Vec<f64> = centroids.iter().flatten().map(|p| p.y()).collect();
    let least = |v: &[f64]| v.iter().fold(f64::INFINITY, |a, &b| a.min(b));
    let most = |v: &[f64]| v.iter().fold(f64::NEG_INFINITY, |a, &b| a.max(b));
    let (min_x, min_y) = (least(&xs), least(&ys));
    let (range_x, range_y) = (most(&xs) - min_x, most(&ys) - min_y);
    let n_cells = (cluster.len() as f64 / target_size as f64).sqrt().ceil() as usize;
    let width = range_x / n_cells.max(2) as f64;
    let height = range_y / n_cells.max(2) as f64;
    Grid {
        range_x: measure(range_x),
        range_y: measure(range_y),
        n_cells,
        places: centroids
            .iter()
            .map(|c| {
                c.map(|p| Cell {
                    row: ((p.y() - min_y) / height).floor() as usize,
                    col: ((p.x() - min_x) / width).floor() as usize,
                })
            })
            .collect(),
    }
}

fn split(
    cluster: &Vec<usize>,
    geoms: &[geo_types::Polygon<f64>],
    target_size: usize,
) -> Vec<Vec<usize>> {
    let grid = grid_over(cluster, geoms, target_size);
    let distances: Vec<Vec<Measure>> = match split_by_grid(cluster, &grid) {
        Some(parts) => parts
            .orphans
            .iter()
            .map(|&o| {
                parts
                    .large
                    .iter()
                    .map(|part| {
                        let a = geoms[o].centroid().unwrap();
                        let b = geoms[part[0]].centroid().unwrap();
                        let (dx, dy) = (a.x() - b.x(), a.y() - b.y());
                        measure(dx * dx + dy * dy)
                    })
                    .collect()
            })
            .collect(),
        None => vec![],
    };
    split_cluster_spatially(cluster, &grid, &distances)
}

#[test]
fn test_neatify_params_default() {
    let params = NeatifyParams::default();
    assert_eq!(params.n_loops, 2);
    assert_eq!(value(params.angle_threshold), 120.0);
}

#[test]
fn test_is_identical_ces() {
    assert!(is_identical_ces(&CesInfo { stroke_count: 2, c: 2, e: 0, s: 0 }));
    assert!(is_identical_ces(&CesInfo { stroke_count: 3, c: 0, e: 3, s: 0 }));
    assert!(!is_identical_ces(&CesInfo { stroke_count: 3, c: 1, e: 2, s: 0 }));
    assert!(is_identical_ces(&CesInfo { stroke_count: 0, c: 0, e: 0, s: 0 }));
}

#[test]
fn test_classify_ces_edges() {
    let coins = CoinsResult {
        group: vec![0, 0, 1, 2],
        is_end: vec![true, true, false, true],
        stroke_length: vec![measure(10.0), measure(10.0), measure(15.0), measure(5.0)],
        stroke_count: vec![2, 2, 1, 1],
        n_segments: 4,
        n_p1_confirmed: 0,
        n_p2_confirmed: 0,
    };

    let covered = vec![0, 1, 2, 3];
    let (c_edges, e_edges, s_edges, es_mask, highest) = classify_ces_edges(&covered, &coins);

    assert!(c_edges.contains(&2), "edge 2 should be C");
    assert!(s_edges.contains(&0) && s_edges.contains(&1), "edges 0,1 should be S");
    assert!(s_edges.contains(&3), "edge 3 should be S");
    assert!(e_edges.is_empty(), "no E edges in this case");
    assert_eq!(highest.len(), 1);
    assert_eq!(es_mask.len(), 3);
}

#[test]
fn test_find_covered_edges() {
    let poly = make_poly(&[[0.0, 0.0], [10.0, 0.0], [10.0, 10.0], [0.0, 10.0], [0.0, 0.0]]);
    let inside = make_line(&[[2.0, 5.0], [8.0, 5.0]]);
    let outside = make_line(&[[12.0, 5.0], [18.0, 5.0]]);
    let crossing = make_line(&[[5.0, 5.0], [15.0, 5.0]]);

    let geoms = vec![inside, outside, crossing];
    let distances = geoms.iter().map(|g| line_distances(g, &poly, 0.001)).collect();
    let covered = find_covered_edges(&vec![0, 1, 2], &distances, measure(0.001));

    assert!(covered.contains(&0), "inside line should be covered");
    assert!(!covered.contains(&1), "outside line should not be covered");
    assert!(!covered.contains(&2), "crossing line should not be covered");
}

#[test]
fn test_find_boundary_edges() {
    let poly = make_poly(&[[0.0, 0.0], [10.0, 0.0], [10.0, 10.0], [0.0, 10.0], [0.0, 0.0]]);
    let inside = make_line(&[[2.0, 5.0], [8.0, 5.0]]);
    let boundary = make_line(&[[5.0, -5.0], [5.0, 5.0]]);
    let outside = make_line(&[[12.0, 5.0], [18.0, 5.0]]);

    let geoms = vec![inside, boundary, outside];
    let distances = geoms.iter().map(|g| line_distances(g, &poly, 0.001)).collect();
    let to_exterior = geoms
        .iter()
        .map(|g| measure(Euclidean.distance(&to_geo(g), poly.exterior())))
        .collect();
    let boundary_edges =
        find_boundary_edges(&vec![0, 1, 2], &distances, &to_exterior, measure(0.001));

    assert!(!boundary_edges.contains(&0), "inside line is not a boundary edge");
    assert!(boundary_edges.contains(&1), "crossing line is a boundary edge");
    assert!(!boundary_edges.contains(&2), "outside line is not a boundary edge");
}

/// Merges two lines where the first ends where the second starts.
fn merge_two(a: &LineString, b: &LineString) -> Vec<LineString> {
    if a.coords.last() == b.coords.first() {
        let mut coords = a.coords.clone();
        coords.extend(b.coords.iter().skip(1).copied());
        vec![LineString::new(coords)]
    } else {
        vec![a.clone(), b.clone()]
    }
}

#[test]
fn test_merge_and_explode() {
    let l1 = make_line(&[[0.0, 0.0], [5.0, 0.0]]);
    let l2 = make_line(&[[5.0, 0.0], [10.0, 0.0]]);
    let merged = merge_two(&l1, &l2);
    let result = merge_and_explode(&vec![l1, l2], &merged);
    assert_eq!(result.len(), 1, "two connected lines should merge to one");

    let l3 = make_line(&[[0.0, 0.0], [5.0, 0.0]]);
    let l4 = make_line(&[[20.0, 0.0], [25.0, 0.0]]);
    let merged = merge_two(&l3, &l4);
    let result2 = merge_and_explode(&vec![l3, l4], &merged);
    assert_eq!(result2.len(), 2, "two disconnected lines should stay as two");
}

#[test]
fn test_dedup_geometries() {
    let l1 = make_line(&[[0.0, 0.0], [5.0, 0.0]]);
    let l2 = make_line(&[[0.0, 0.0], [5.0, 0.0]]);
    let l3 = make_line(&[[10.0, 0.0], [15.0, 0.0]]);
    let geoms = vec![l1, l2, l3];
    let normalized = geoms.clone();
    let result = dedup_geometries(&geoms, &normalized);
    assert_eq!(result.len(), 2, "duplicate should be removed");
}

#[test]
fn test_make_shortest_to_edges() {
    let edge = make_line(&[[0.0, 0.0], [10.0, 0.0]]);
    let point = [5.0, 3.0];
    let from = geo_types::Point::new(point[0], point[1]);
    let candidates: Vec<Option<LineString>> = [edge]
        .iter()
        .map(|e| match to_geo(e).closest_point(&from) {
            Closest::Intersection(p) | Closest::SinglePoint(p) => {
                Some(make_line(&[point, [p.x(), p.y()]]))
            }
            Closest::Indeterminate => None,
        })
        .collect();
    let lengths = candidates
        .iter()
        .map(|c| match c {
            Some(line) => measure(Euclidean.length(&to_geo(line))),
            None => measure(f64::INFINITY),
        })
        .collect();
    let line = make_shortest_to_edges(&candidates, &lengths).unwrap();
    let len = Euclidean.length(&to_geo(&line));
    assert!((len - 3.0).abs() < 0.01, "shortest line from (5,3) to x-axis should be ~3");
}

#[test]
fn test_split_cluster_spatially_preserves_all_artifacts() {
    let mut geoms = Vec::new();
    for i in 0..10 {
        let x = (i as f64) * 100.0;
        geoms.push(make_poly(&[
            [x, 0.0],
            [x + 1.0, 0.0],
            [x + 1.0, 1.0],
            [x, 1.0],
            [x, 0.0],
        ]));
    }

    let cluster: Vec<usize> = (0..10).collect();
    let result = split(&cluster, &geoms, 3);

    let mut all_indices: Vec<usize> = result.into_iter().flatten().collect();
    all_indices.sort();

    assert_eq!(
        all_indices,
        (0..10).collect::<Vec<_>>(),
        "all artifact indices must be preserved — none should be dropped"
    );
}

#[test]
fn test_split_cluster_spatially_all_tiny_returns_original() {
    let geoms: Vec<geo_types::Polygon<f64>> = (0..4)
        .map(|i| {
            let x = (i as f64) * 1000.0;
            make_poly(&[[x, 0.0], [x + 1.0, 0.0], [x + 1.0, 1.0], [x, 1.0], [x, 0.0]])
        })
        .collect();

    let cluster: Vec<usize> = (0..4).collect();
    let result = split(&cluster, &geoms, 2);

    assert_eq!(result.len(), 1, "should return single unsplit cluster");
    let mut indices: Vec<usize> = result[0].clone();
    indices.sort();
    assert_eq!(indices, vec![0, 1, 2, 3]);
}

#[test]
fn split_along_both_axes_keeps_orphans_near() {
    let mut geoms = Vec::new();
    for &(x, y) in &[(0.0, 0.0), (1.0, 1.0), (2.0, 0.0), (100.0, 100.0), (101.0, 99.0), (99.0, 100.0), (0.0, 90.0), (95.0, 0.0)] {
        geoms.push(make_poly(&[[x, y], [x + 1.0, y], [x + 1.0, y + 1.0], [x, y + 1.0], [x, y]]));
    }
    let cluster: Vec<usize> = (0..8).collect();
    let result = split(&cluster, &geoms, 4);
    assert_eq!(result, vec![vec![0, 1, 2, 6, 7], vec![3, 4, 5]]);
}

#[test]
fn lines_through_a_notch_are_not_covered() {
    let notched = make_poly(&[
        [0.0, 0.0],
        [10.0, 0.0],
        [10.0, 2.0],
        [3.0, 2.0],
        [3.0, 0.5],
        [2.0, 0.5],
        [2.0, 2.0],
        [0.0, 2.0],
        [0.0, 0.0],
    ]);
    let through = make_line(&[[0.0, 1.0], [10.0, 1.0]]);
    let below = make_line(&[[0.0, 0.25], [10.0, 0.25]]);
    let along = make_line(&[[0.0, 0.0], [10.0, 0.0]]);
    let geoms = [through, below, along];
    let distances: Vec<LineDistances> =
        geoms.iter().map(|g| line_distances(g, &notched, 0.001)).collect();
    let to_exterior = geoms
        .iter()
        .map(|g| measure(Euclidean.distance(&to_geo(g), notched.exterior())))
        .collect();
    let all = vec![0, 1, 2];
    assert_eq!(find_covered_edges(&all, &distances, measure(0.001)), vec![1, 2]);
    assert_eq!(find_boundary_edges(&all, &distances, &to_exterior, measure(0.001)), vec![0]);
}

#[test]
fn artifacts_without_a_centroid_go_with_the_first_part() {
    let mut geoms: Vec<geo_types::Polygon<f64>> = [(0.0, 0.0), (1.0, 1.0), (2.0, 0.0), (50.0, 50.0)]
        .iter()
        .map(|&(x, y)| {
            make_poly(&[[x, y], [x + 1.0, y], [x + 1.0, y + 1.0], [x, y + 1.0], [x, y]])
        })
        .collect();
    geoms.insert(1, make_poly(&[]));
    let cluster: Vec<usize> = (0..5).collect();
    assert_eq!(split(&cluster, &geoms, 4), vec![vec![0, 2, 3, 4, 1]]);
}
