use neatnet::binary::parse_wkb_linestring;
use neatnet::ces::get_ces_type;
use neatnet::components::{
    diagnostics, group_by_label, neatify_loop, Detection, LoopStage, Timings,
};
use neatnet::connections::{
    compute_c_primes, dissolve_by_components, filter_connections, line_ends,
    make_shortest_line_between, make_shortest_to_edges, node_coords_to_lines, node_degree,
    reconnect_c_groups, remove_dangles, Bridge, EndGap, LineGaps,
};
use neatnet::coverage::{
    collect_dangles, dangle_candidates, find_nodes_near_polygon, line_covered_by_distance,
    line_covered_by_polygon_fast, LineDistances, Rect,
};
use neatnet::dedup::{dedup_geometries, dedup_network, hash_line};
use neatnet::input::IdMismatch;
use neatnet::lists::{count_distinct, sorted_distinct};
use neatnet::measure::{find_closest, Measure, INFINITY_BITS};
use neatnet::network::{apply_changes, remove_degenerate};
use neatnet::ring::{
    find_connection_points, ring_sides, segment_intersection, split_ring_at_points, Crossing,
};
use neatnet::text::{
    linestring_to_wkt, load_wkt, to_linestring, to_polygon, wkt_to_linestring, wkt_to_polygon,
};
use neatnet::types::{
    CoinsResult, Coord, EdgeStatus, LineString, NeatifyError, NeatifyParams, NodeKey,
    StreetNetwork,
};

fn measure(x: f64) -> Measure {
    Measure::from_bits(x.to_bits())
}

fn measures(xs: &[f64]) -> Vec<Measure> {
    xs.iter().map(|&x| measure(x)).collect()
}

fn coord(x: f64, y: f64) -> Coord {
    Coord { x: measure(x), y: measure(y) }
}

fn line(coords: &[[f64; 2]]) -> LineString {
    LineString::new(coords.iter().map(|c| coord(c[0], c[1])).collect())
}

fn courses(lines: &[LineString]) -> Vec<Vec<Coord>> {
    lines.iter().map(|l| l.coords.clone()).collect()
}

fn key(x: i64, y: i64) -> NodeKey {
    NodeKey { x, y }
}

/// A network of `n` horizontal lines, one per row, each its own ancestor.
fn rows(n: usize) -> StreetNetwork {
    StreetNetwork {
        geometries: (0..n).map(|i| line(&[[0.0, i as f64], [1.0, i as f64]])).collect(),
        statuses: vec![EdgeStatus::Original; n],
        parent_ids: (0..n).map(|i| vec![i]).collect(),
    }
}

fn row_numbers(network: &StreetNetwork) -> Vec<f64> {
    network.geometries.iter().map(|g| f64::from_bits(g.coords[0].y.bits)).collect()
}

fn coins(group: Vec<usize>, is_end: Vec<bool>, stroke_count: Vec<usize>) -> CoinsResult {
    let n = group.len();
    CoinsResult {
        group,
        is_end,
        stroke_length: vec![measure(1.0); n],
        stroke_count,
        n_segments: n,
        n_p1_confirmed: 0,
        n_p2_confirmed: 0,
    }
}

#[test]
fn measures_compare_as_numbers() {
    let xs = [f64::NEG_INFINITY, -2.5, -0.0, 0.0, 1e-300, 1.0, 7.25, f64::INFINITY, f64::NAN];
    for &a in &xs {
        for &b in &xs {
            assert_eq!(measure(a).lt(&measure(b)), a < b, "{a} < {b}");
            assert_eq!(measure(a).le(&measure(b)), a <= b, "{a} <= {b}");
        }
    }
    assert!(measure(f64::NAN).is_nan());
    assert!(measure(-f64::NAN).is_nan());
    assert!(!measure(f64::INFINITY).is_nan());
    assert_eq!(measure(2.0).max(&measure(3.0)), measure(3.0));
    assert_eq!(measure(f64::NAN).max(&measure(3.0)), measure(3.0));
    assert_eq!(measure(3.0).max(&measure(f64::NAN)), measure(3.0));
}

#[test]
fn closest_is_the_first_least() {
    assert_eq!(find_closest(&measures(&[3.0, 1.0, 2.0, 1.0]), 4), Some(1));
    assert_eq!(find_closest(&measures(&[3.0, 1.0, 0.5]), 2), Some(1));
    assert_eq!(find_closest(&measures(&[f64::NAN, 4.0]), 2), Some(1));
    assert_eq!(find_closest(&measures(&[f64::INFINITY, f64::NAN]), 2), None);
    assert_eq!(find_closest(&vec![], 0), None);
}

#[test]
fn identifiers_are_sorted_and_counted() {
    assert_eq!(sorted_distinct(&vec![3, 1, 3, 2, 1]), vec![1, 2, 3]);
    assert_eq!(sorted_distinct(&vec![]), Vec::<usize>::new());
    assert_eq!(count_distinct(&vec![4, 4, 9]), 2);
    assert_eq!(count_distinct(&vec![]), 0);
}

#[test]
fn default_settings() {
    let params = NeatifyParams::default();
    let value = |m: Measure| f64::from_bits(m.bits);
    assert_eq!(value(params.max_segment_length), 1.0);
    assert_eq!(value(params.min_dangle_length), 20.0);
    assert_eq!(value(params.clip_limit), 2.0);
    assert_eq!(value(params.simplification_factor), 2.0);
    assert_eq!(value(params.consolidation_tolerance), 10.0);
    assert!(params.artifact_threshold.is_none());
    assert_eq!(value(params.artifact_threshold_fallback), 7.0);
    assert_eq!(value(params.eps), 1e-4);
}

#[test]
fn errors_in_words() {
    assert_eq!(
        NeatifyError::Geometry("empty ring".to_string()).message(),
        "Geometry error: empty ring"
    );
    assert_eq!(NeatifyError::NoCrs.message(), "No projected CRS set on input data");
    assert_eq!(
        NeatifyError::ArtifactDetection("no faces".to_string()).message(),
        "Artifact detection failed: no faces"
    );
}

#[test]
fn dropping_moves_the_last_edge() {
    let mut network = rows(5);
    network.drop_edges(&vec![1, 7, 1]);
    assert_eq!(row_numbers(&network), vec![0.0, 4.0, 2.0, 3.0]);
    assert_eq!(network.parent_ids, vec![vec![0], vec![4], vec![2], vec![3]]);

    let mut network = rows(4);
    network.drop_edges(&vec![0, 3]);
    assert_eq!(row_numbers(&network), vec![2.0, 1.0]);
}

#[test]
fn changes_hand_ancestors_to_the_last_new_edge() {
    let mut network = rows(4);
    network.parent_ids[2] = vec![9, 2];
    let redrawn = vec![
        line(&[[0.0, 10.0], [5.0, 10.0]]),
        line(&[[0.0, 11.0]]),
        line(&[[0.0, 12.0], [5.0, 12.0]]),
        line(&[[0.0, 13.0], [0.0, 13.0]]),
    ];
    let lengths = measures(&[5.0, 0.0, 5.0, 0.0]);
    let cleaned = apply_changes(&mut network, &vec![2, 0], &redrawn, &lengths, measure(1e-4));
    assert!(cleaned);
    assert_eq!(row_numbers(&network), vec![3.0, 1.0, 10.0, 12.0]);
    assert_eq!(network.parent_ids, vec![vec![3], vec![1], vec![], vec![0, 2, 9]]);
    assert_eq!(
        network.statuses,
        vec![EdgeStatus::Original, EdgeStatus::Original, EdgeStatus::New, EdgeStatus::New]
    );
}

#[test]
fn no_change_needs_no_cleaning() {
    let mut network = rows(3);
    assert!(!apply_changes(&mut network, &vec![], &vec![], &vec![], measure(1e-4)));
    assert_eq!(row_numbers(&network), vec![0.0, 1.0, 2.0]);
}

#[test]
fn degenerate_edges_are_removed() {
    let mut network = rows(4);
    network.geometries[1] = line(&[[0.0, 1.0]]);
    remove_degenerate(&mut network, &measures(&[1.0, 0.0, 1e-4, 1.0]), measure(1e-4));
    assert_eq!(row_numbers(&network), vec![0.0, 3.0]);
    assert_eq!(network.parent_ids, vec![vec![0], vec![3]]);
}

#[test]
fn repeated_edges_share_ancestors() {
    let mut network = rows(4);
    network.geometries[2] = line(&[[0.0, 0.0], [1.0, 0.0]]);
    network.parent_ids = vec![vec![5], vec![1], vec![3, 5], vec![4]];
    let normalized = network.geometries.clone();
    dedup_network(&mut network, &normalized);
    assert_eq!(row_numbers(&network), vec![0.0, 1.0, 3.0]);
    assert_eq!(network.parent_ids, vec![vec![3, 5], vec![1], vec![4]]);
}

#[test]
fn hashes_tell_lines_apart() {
    let a = line(&[[0.0, 0.0], [1.0, 0.0]]);
    let b = line(&[[1.0, 0.0], [0.0, 0.0]]);
    assert_eq!(hash_line(&a), hash_line(&a.clone()));
    assert_ne!(hash_line(&a), hash_line(&b));
    assert_eq!(dedup_geometries(&vec![a.clone(), b.clone()], &vec![a.clone(), b]).len(), 2);
    let b = line(&[[1.0, 0.0], [0.0, 0.0]]);
    let kept = dedup_geometries(&vec![b.clone(), a.clone()], &vec![a.clone(), a]);
    assert_eq!(courses(&kept), courses(&[b]));
}

#[test]
fn shared_edges_by_point_of_view() {
    let strokes = coins(
        vec![0, 0, 1, 1, 2],
        vec![false, false, true, false, true],
        vec![5, 5, 2, 2, 7],
    );
    assert_eq!(get_ces_type(&vec![], 0, &strokes), 'S');
    assert_eq!(get_ces_type(&vec![2, 3], 2, &strokes), 'S');
    assert_eq!(get_ces_type(&vec![0, 2, 4], 0, &strokes), 'C');
    assert_eq!(get_ces_type(&vec![0, 2, 3], 3, &strokes), 'S');
    assert_eq!(get_ces_type(&vec![0, 2], 2, &strokes), 'E');
    assert_eq!(get_ces_type(&vec![0, 4], 4, &strokes), 'E');
}

#[test]
fn artifacts_by_component() {
    let labels = vec![4, 7, 4, 1, 7, 7, 9];
    assert_eq!(
        group_by_label(&vec![0, 1, 2, 3, 4, 5], &labels),
        vec![vec![3], vec![0, 2], vec![1, 4, 5]]
    );
    let plan = neatify_loop(&labels);
    assert_eq!(plan.singles, vec![3, 6]);
    assert_eq!(plan.pairs, vec![0, 2]);
    assert_eq!(plan.clusters, vec![1, 4, 5]);
    assert_eq!(
        plan.stages(),
        vec![LoopStage::Singletons, LoopStage::Pairs, LoopStage::Clusters]
    );
    assert_eq!(neatify_loop(&vec![3, 3]).stages(), vec![LoopStage::Pairs]);
    assert!(neatify_loop(&vec![]).stages().is_empty());
}

#[test]
fn dry_run_counts() {
    let timings = Timings {
        fix_topology_secs: measure(1.0),
        consolidate_secs: measure(2.0),
        artifact_detection_secs: measure(3.0),
    };
    let found = Some(Detection {
        comp_labels: vec![4, 7, 4, 1, 7, 7, 9, 9, 9, 9],
        threshold: measure(6.5),
    });
    let d = diagnostics(40, 38, &found, timings).unwrap();
    assert_eq!((d.n_input_edges, d.n_edges_after_topology, d.n_artifacts), (40, 38, 10));
    assert_eq!((d.n_singles, d.n_pairs, d.n_cluster_artifacts), (1, 2, 7));
    assert_eq!((d.n_cluster_groups, d.max_cluster_size), (2, 4));
    assert_eq!(d.fai_threshold, measure(6.5));
    assert_eq!(d.consolidate_secs, measure(2.0));

    let d = diagnostics(40, 38, &None, timings).unwrap();
    assert_eq!((d.n_artifacts, d.n_singles, d.n_cluster_groups, d.max_cluster_size), (0, 0, 0, 0));
    assert_eq!(d.fai_threshold, measure(0.0));
}

#[test]
fn covered_up_to_the_tolerance() {
    let near = |whole: Option<bool>| LineDistances {
        vertices: measures(&[0.0, 0.1]),
        midpoints: measures(&[0.05]),
        whole,
    };
    assert_eq!(line_covered_by_distance(&near(None), measure(0.1)), None);
    assert_eq!(line_covered_by_distance(&near(Some(true)), measure(0.1)), Some(true));
    assert_eq!(line_covered_by_distance(&near(Some(false)), measure(0.1)), Some(false));
    assert_eq!(line_covered_by_distance(&near(None), measure(0.09)), Some(false));
    let bulging = LineDistances {
        vertices: measures(&[0.0, 0.0]),
        midpoints: measures(&[2.0]),
        whole: None,
    };
    assert_eq!(line_covered_by_distance(&bulging, measure(0.1)), Some(false));
}

#[test]
fn relation_decides_where_points_do_not() {
    assert_eq!(line_covered_by_polygon_fast(&vec![true, true], &vec![true], None), Some(true));
    assert_eq!(line_covered_by_polygon_fast(&vec![true, false], &vec![true], None), None);
    assert_eq!(
        line_covered_by_polygon_fast(&vec![true, false], &vec![true], Some(true)),
        Some(true)
    );
    assert_eq!(
        line_covered_by_polygon_fast(&vec![true, true], &vec![false], Some(false)),
        Some(false)
    );
}

#[test]
fn dangles_lie_within_artifacts() {
    let rect = |a: f64, b: f64| Some(Rect { min: coord(a, a), max: coord(b, b) });
    let lines = vec![rect(0.0, 1.0), rect(5.0, 6.0), None];
    let artifacts = vec![rect(0.0, 2.0), rect(5.5, 9.0)];
    let near = dangle_candidates(&vec![vec![0, 1, 2], vec![0, 1]], &lines, &artifacts);
    assert_eq!(near, vec![vec![0, 2], vec![1]]);
    assert_eq!(collect_dangles(&near, &vec![vec![true, false], vec![true]]), vec![0, 1]);
}

#[test]
fn nodes_near_a_polygon() {
    let nodes = vec![coord(0.0, 0.0), coord(1.0, 0.0), coord(2.0, 0.0)];
    let near = find_nodes_near_polygon(&nodes, &measures(&[0.1, 0.2, 0.0]), measure(0.1));
    assert_eq!(near, vec![nodes[0], nodes[2]]);
}

#[test]
fn segments_meet_within_their_ends() {
    let crossing = |denominator: f64, t: f64, u: f64| Crossing {
        denominator: measure(denominator),
        along_first: measure(t),
        along_second: measure(u),
        point: coord(t, u),
    };
    assert_eq!(segment_intersection(&crossing(1.0, 0.5, 0.5)), Some(coord(0.5, 0.5)));
    assert_eq!(segment_intersection(&crossing(1e-13, 0.5, 0.5)), None);
    assert_eq!(segment_intersection(&crossing(1.0, 1.5, 0.5)), None);
    assert_eq!(segment_intersection(&crossing(1.0, 0.5, -0.1)), None);
    let end = 1.0 + 1e-9;
    assert_eq!(segment_intersection(&crossing(1.0, -1e-9, end)), Some(coord(-1e-9, end)));
    let points = find_connection_points(&vec![
        crossing(1.0, 0.25, 0.0),
        crossing(1.0, 2.0, 0.0),
        crossing(1.0, 0.75, 1.0),
    ]);
    assert_eq!(points, vec![coord(0.25, 0.0), coord(0.75, 1.0)]);
}

#[test]
fn ring_falls_into_arcs() {
    let ring = line(&[[0.0, 0.0], [4.0, 0.0], [4.0, 4.0], [0.0, 4.0], [0.0, 0.0]]);
    let first = measures(&[9.0, 0.0, 9.0, 9.0]);
    let third = measures(&[9.0, 9.0, 9.0, 1.0]);
    let arcs = split_ring_at_points(&ring, &vec![third.clone(), first.clone()]);
    assert_eq!(
        courses(&arcs),
        courses(&[
            line(&[[4.0, 0.0], [4.0, 4.0], [0.0, 4.0]]),
            line(&[[0.0, 4.0], [0.0, 0.0], [4.0, 0.0]]),
        ])
    );
    let cut = vec![third, first.clone()];
    let sides = ring_sides(&ring, &cut, &measures(&[8.0, 0.0]));
    assert_eq!(courses(&sides), courses(&arcs[..1]));
    let same = vec![first.clone(), first];
    assert_eq!(courses(&split_ring_at_points(&ring, &same)), courses(&[ring.clone()]));
    assert_eq!(courses(&ring_sides(&ring, &same, &measures(&[0.0]))), courses(&[ring]));
}

#[test]
fn nodes_become_lines_of_no_length() {
    let lines = node_coords_to_lines(&vec![coord(1.0, 2.0)]);
    assert_eq!(courses(&lines), courses(&[line(&[[1.0, 2.0], [1.0, 2.0]])]));
}

#[test]
fn primes_are_points_where_lines_meet() {
    let lines = vec![
        line(&[[0.0, 0.0], [1.0, 0.0]]),
        line(&[[1.0, 0.0], [2.0, 0.0]]),
        line(&[[9.0, 9.0]]),
        line(&[[1.0, 0.0], [1.0, 5.0]]),
    ];
    let keys = vec![
        (key(0, 0), key(1, 0)),
        (key(1, 0), key(2, 0)),
        (key(9, 9), key(9, 9)),
        (key(1, 0), key(1, 5)),
    ];
    let ends = line_ends(&lines, &keys);
    assert_eq!(ends.len(), 6);
    assert_eq!(node_degree(&ends, key(1, 0)), 3);
    assert_eq!(node_degree(&ends, key(9, 9)), 0);
    assert_eq!(compute_c_primes(&ends), vec![coord(1.0, 0.0)]);
}

#[test]
fn closed_lines_share_nothing_with_themselves() {
    let ring = line(&[[0.0, 0.0], [4.0, 0.0], [4.0, 4.0], [0.0, 0.0]]);
    let spur = line(&[[0.0, 0.0], [-3.0, 0.0]]);
    let hub = key(0, 0);
    let ends = line_ends(&vec![ring.clone()], &vec![(hub, hub)]);
    assert_eq!(node_degree(&ends, hub), 2);
    assert!(compute_c_primes(&ends).is_empty());
    let ends = line_ends(&vec![ring, spur], &vec![(hub, hub), (hub, key(-3, 0))]);
    assert_eq!(compute_c_primes(&ends), vec![coord(0.0, 0.0)]);
}

#[test]
fn components_dissolve_in_order() {
    let lines = vec![
        line(&[[0.0, 0.0], [1.0, 0.0]]),
        line(&[[5.0, 0.0], [6.0, 0.0]]),
        line(&[[1.0, 0.0], [2.0, 0.0]]),
    ];
    let joined = line(&[[0.0, 0.0], [1.0, 0.0], [2.0, 0.0]]);
    let merged = vec![vec![], vec![joined.clone()]];
    let result = dissolve_by_components(&lines, &vec![3, 1, 3], &merged);
    assert_eq!(courses(&result), courses(&[lines[1].clone(), joined]));
}

#[test]
fn shortest_lines() {
    let (a, b) = (coord(0.0, 0.0), coord(3.0, 4.0));
    let found = make_shortest_line_between(Some((a, b)), measure(5.0)).unwrap();
    assert_eq!(found.coords, vec![a, b]);
    assert!(make_shortest_line_between(Some((a, a)), measure(0.0)).is_none());
    assert!(make_shortest_line_between(None, measure(5.0)).is_none());

    let infinite = Measure::from_bits(INFINITY_BITS);
    let lines =
        vec![Some(line(&[[0.0, 0.0], [9.0, 0.0]])), None, Some(line(&[[0.0, 0.0], [2.0, 0.0]]))];
    let lengths = vec![measure(9.0), infinite, measure(2.0)];
    let found = make_shortest_to_edges(&lines, &lengths).unwrap();
    assert_eq!(found.coords, vec![coord(0.0, 0.0), coord(2.0, 0.0)]);
    assert!(make_shortest_to_edges(&vec![None], &vec![infinite]).is_none());
    assert!(make_shortest_to_edges(&vec![], &vec![]).is_none());
}

#[test]
fn crowded_groups_keep_the_shortest_that_reaches() {
    let lines: Vec<LineString> =
        (0..4).map(|i| line(&[[i as f64, 0.0], [i as f64, 1.0]])).collect();
    let touches = vec![vec![true, true, true, false], vec![false, false, false, true]];
    let lengths = measures(&[1.0, 3.0, 2.0, 1.0]);
    let far = measures(&[9.0]);
    let near = measures(&[4.9]);

    let to_targets = vec![far.clone(), near.clone(), near, far.clone()];
    let kept = filter_connections(&lines, &touches, &to_targets, &lengths);
    assert_eq!(courses(&kept), courses(&[lines[3].clone(), lines[2].clone()]));

    let to_targets = vec![far.clone(), far.clone(), measures(&[5.0]), far];
    let kept = filter_connections(&lines, &touches, &to_targets, &lengths);
    assert_eq!(courses(&kept), courses(&lines[3..]));

    let none = vec![vec![], vec![], vec![], vec![]];
    let kept = filter_connections(&lines, &vec![], &none, &lengths);
    assert_eq!(courses(&kept), courses(&lines));
}

#[test]
fn connections_between_two_groups_stay_once() {
    let lines = vec![line(&[[2.0, 0.0], [2.0, 8.0]]), line(&[[4.0, 0.0], [6.0, 8.0]])];
    let touches = vec![vec![true, true], vec![true, true]];
    let to_targets = vec![measures(&[0.0]), measures(&[1.94])];
    let kept = filter_connections(&lines, &touches, &to_targets, &measures(&[8.0, 8.25]));
    assert_eq!(courses(&kept), courses(&lines[..1]));
}

#[test]
fn bridges_join_what_is_apart() {
    let lines = vec![line(&[[0.0, 0.0], [1.0, 0.0]])];
    let bridge = line(&[[1.0, 0.0], [4.0, 0.0]]);
    let lane = |within: bool| Bridge { line: Some(bridge.clone()), within };
    let gaps = vec![measures(&[0.0, 3.0]), measures(&[3.0, 3.0])];
    let bridges = vec![
        vec![lane(true), lane(true)],
        vec![lane(false), Bridge { line: None, within: true }],
    ];
    let joined = reconnect_c_groups(&lines, &gaps, &bridges, measure(1e-4));
    assert_eq!(courses(&joined), courses(&[lines[0].clone(), bridge.clone()]));
    assert!(reconnect_c_groups(&vec![], &gaps, &bridges, measure(1e-4)).is_empty());
}

#[test]
fn loose_ends_are_removed() {
    let lines: Vec<LineString> =
        (0..3).map(|i| line(&[[i as f64, 0.0], [i as f64, 1.0]])).collect();
    let gap = |others: &[f64], boundary: f64| EndGap {
        others: measures(others),
        boundary: measure(boundary),
    };
    let gaps = vec![
        LineGaps { start: gap(&[0.0, 0.9, 9.0], 9.0), end: gap(&[0.0, 9.0, 9.0], 0.0) },
        LineGaps { start: gap(&[9.0, 0.0, 9.0], 9.0), end: gap(&[0.0, 0.0, 0.0], 0.0) },
        LineGaps { start: gap(&[9.0, 0.2, 0.0], 9.0), end: gap(&[9.0, 9.0, 0.0], 1.0) },
    ];
    let kept = remove_dangles(&lines, &vec![], &gaps, measure(1e-4));
    assert_eq!(courses(&kept), courses(&lines[..1]));
    let kept = remove_dangles(&lines, &vec![], &gaps, measure(1.5));
    assert_eq!(courses(&kept), courses(&[lines[0].clone(), lines[2].clone()]));

    let alone = vec![lines[0].clone()];
    assert_eq!(courses(&remove_dangles(&alone, &vec![], &vec![], measure(1e-4))), courses(&alone));
    let one = vec![line(&[[0.0, 0.0], [7.0, 0.0]])];
    assert_eq!(courses(&remove_dangles(&lines, &one, &vec![], measure(1e-4))), courses(&one));
}

fn wkb(points: &[[f64; 2]], little: bool) -> Vec<u8> {
    let int = |v: u32| if little { v.to_le_bytes() } else { v.to_be_bytes() };
    let float = |v: f64| if little { v.to_le_bytes() } else { v.to_be_bytes() };
    let mut bytes = vec![u8::from(little)];
    bytes.extend(int(2));
    bytes.extend(int(points.len() as u32));
    for p in points {
        bytes.extend(float(p[0]));
        bytes.extend(float(p[1]));
    }
    bytes
}

#[test]
fn binary_lines_in_both_byte_orders() {
    let points = [[1.5, -2.25], [1e10, 0.1]];
    for little in [true, false] {
        let bytes = wkb(&points, little);
        let read = parse_wkb_linestring(&bytes).unwrap();
        assert_eq!(read.coords, line(&points).coords);

        assert!(parse_wkb_linestring(&bytes[..bytes.len() - 1]).is_none());
        let mut longer = bytes.clone();
        longer.push(7);
        assert_eq!(parse_wkb_linestring(&longer).unwrap().coords, line(&points).coords);
        let mut other = bytes.clone();
        other[if little { 1 } else { 4 }] = 3;
        assert!(parse_wkb_linestring(&other).is_none());
    }
    assert!(parse_wkb_linestring(&[]).is_none());
    assert!(parse_wkb_linestring(&[1, 2, 0, 0, 0, 0, 0, 0]).is_none());
    assert!(parse_wkb_linestring(&wkb(&[], true)).unwrap().coords.is_empty());
    assert!(parse_wkb_linestring(&[1, 2, 0, 0, 0, 255, 255, 255, 255]).is_none());
}

#[test]
fn lines_in_text() {
    let read = wkt_to_linestring("LINESTRING (0 0, 1.5 -2, 3e2 4)").unwrap();
    assert_eq!(read.coords, line(&[[0.0, 0.0], [1.5, -2.0], [300.0, 4.0]]).coords);
    assert_eq!(
        wkt_to_linestring("  linestring(1 2,3 4)").unwrap().coords,
        line(&[[1.0, 2.0], [3.0, 4.0]]).coords
    );
    assert!(wkt_to_linestring("POINT (1 2)").is_none());
    assert!(wkt_to_linestring("LINESTRING (0 0, 1").is_none());
    assert!(wkt_to_linestring("").is_none());
    assert!(wkt_to_linestring("GEOMETRYCOLLECTION (LINESTRING (0 0, 1 1))").is_none());
    assert!(wkt_to_linestring("\t geometryCollection EMPTY").is_none());
    assert!(wkt_to_polygon("LINESTRING (0 0, 1 1)").is_none());
    assert!(wkt_to_linestring("POLYGON ((0 0, 1 0, 1 1, 0 0))").is_none());
}

#[test]
fn deep_collections_are_no_lines() {
    let depth = 200_000;
    let mut text = "GEOMETRYCOLLECTION (".repeat(depth);
    text.push_str("POINT (0 0)");
    text.push_str(&")".repeat(depth));
    assert!(wkt_to_linestring(&text).is_none());
    assert!(wkt_to_polygon(&text).is_none());
}

#[test]
fn polygons_in_text() {
    let area =
        wkt_to_polygon("POLYGON ((0 0, 9 0, 9 9, 0 0), (2 1, 3 1, 3 2, 2 1))").unwrap();
    assert_eq!(
        area.exterior.coords,
        line(&[[0.0, 0.0], [9.0, 0.0], [9.0, 9.0], [0.0, 0.0]]).coords
    );
    assert_eq!(
        courses(&area.interiors),
        courses(&[line(&[[2.0, 1.0], [3.0, 1.0], [3.0, 2.0], [2.0, 1.0]])])
    );
}

#[test]
fn shapes_are_lines_or_polygons() {
    let bits = |x: f64, y: f64| (x.to_bits(), y.to_bits());
    let shape = Some((false, vec![vec![bits(1.0, 2.0), bits(3.0, 4.0)]]));
    assert_eq!(
        to_linestring(&shape).unwrap().coords,
        line(&[[1.0, 2.0], [3.0, 4.0]]).coords
    );
    assert!(to_polygon(&shape).is_none());
    assert!(to_linestring(&None).is_none());
    assert!(to_polygon(&None).is_none());
    let area = Some((true, vec![vec![bits(1.0, 2.0)], vec![bits(5.0, 6.0)]]));
    assert!(to_linestring(&area).is_none());
    assert_eq!(courses(&to_polygon(&area).unwrap().interiors), courses(&[line(&[[5.0, 6.0]])]));
}

#[test]
fn texts_without_a_line_are_skipped() {
    let texts: Vec<String> = ["LINESTRING (0 0, 1 1)", "", "POINT (1 1)", "LINESTRING (2 2, 3 3)"]
        .iter()
        .map(|t| t.to_string())
        .collect();
    assert_eq!(
        courses(&load_wkt(&texts)),
        courses(&[line(&[[0.0, 0.0], [1.0, 1.0]]), line(&[[2.0, 2.0], [3.0, 3.0]])])
    );
}

#[test]
fn lines_are_written_and_read_back() {
    let pair = |x: f64, y: f64| (format!("{x}"), format!("{y}"));
    assert_eq!(linestring_to_wkt(&vec![]), "LINESTRING ()");
    let text = linestring_to_wkt(&vec![pair(0.0, -1.5), pair(0.1, 2.0)]);
    assert_eq!(text, "LINESTRING (0 -1.5, 0.1 2)");
    assert_eq!(
        wkt_to_linestring(&text).unwrap().coords,
        line(&[[0.0, -1.5], [0.1, 2.0]]).coords
    );
}

#[test]
fn statuses_by_name() {
    assert_eq!(EdgeStatus::Original.as_str(), "original");
    assert_eq!(EdgeStatus::Changed.as_str(), "changed");
    assert_eq!(EdgeStatus::New.as_str(), "new");
}

#[test]
fn edges_are_replaced_only_in_step() {
    let mut network = rows(2);
    let taken = || vec![line(&[[0.0, 7.0], [1.0, 7.0]])];
    assert!(!network.replace_edges(taken(), vec![], vec![vec![3]]));
    assert!(!network.replace_edges(taken(), vec![EdgeStatus::Changed], vec![]));
    assert_eq!(row_numbers(&network), vec![0.0, 1.0]);
    assert!(network.replace_edges(taken(), vec![EdgeStatus::Changed], vec![vec![3]]));
    assert_eq!(row_numbers(&network), vec![7.0]);
    assert_eq!(network.statuses, vec![EdgeStatus::Changed]);
    assert_eq!(network.parent_ids, vec![vec![3]]);
}

#[test]
fn networks_start_from_their_own_edges() {
    let lines = || vec![line(&[[0.0, 0.0], [1.0, 0.0]]), line(&[[2.0, 0.0], [3.0, 0.0]])];
    let network = StreetNetwork::original(lines(), &None).unwrap();
    assert_eq!(network.parent_ids, vec![vec![0], vec![1]]);
    assert_eq!(network.statuses, vec![EdgeStatus::Original; 2]);
    let network = StreetNetwork::original(lines(), &Some(vec![70, 30])).unwrap();
    assert_eq!(network.parent_ids, vec![vec![70], vec![30]]);
    assert_eq!(
        StreetNetwork::original(lines(), &Some(vec![1])).unwrap_err(),
        IdMismatch { n_ids: 1, n_geometries: 2 }
    );
}
