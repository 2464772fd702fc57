use neatnet::binary::parse_wkb_linestring;
use neatnet::ces::{classify_ces_edges, get_ces_type};
use neatnet::clusters::{cascaded_union, split_by_grid, split_cluster_spatially, Cell, Grid};
use neatnet::components::{diagnostics, group_by_label, neatify_loop, Detection, Timings};
use neatnet::coverage::{find_boundary_edges, find_covered_edges, LineDistances};
use neatnet::dedup::dedup_network;
use neatnet::measure::{find_closest, Measure};
use neatnet::network::{apply_changes, remove_degenerate};
use neatnet::pairs::{largest_part, solve_pair, PairMember, PairSolution};
use neatnet::ring::split_ring_at_points;
use neatnet::types::{CoinsResult, Coord, EdgeStatus, LineString, StreetNetwork};

fn measure(x: f64) -> Measure {
    Measure::from_bits(x.to_bits())
}

fn measures(xs: &[f64]) -> Vec<Measure> {
    xs.iter().map(|&x| measure(x)).collect()
}

fn coord(x: f64, y: f64) -> Coord {
    Coord { x: measure(x), y: measure(y) }
}

fn line(coords: &[[f64; 2]]) -> LineString {
    LineString::new(coords.iter().map(|c| coord(c[0], c[1])).collect())
}

/// A generator of small numbers, the same in every run.
struct Numbers(u64);

impl Numbers {
    fn below(&mut self, n: usize) -> usize {
        self.0 = self.0.wrapping_mul(6364136223846793005).wrapping_add(1442695040888963407);
        ((self.0 >> 33) % n as u64) as usize
    }

    fn list(&mut self, len: usize, below: usize) -> Vec<usize> {
        (0..len).map(|_| self.below(below)).collect()
    }
}

fn random_network(numbers: &mut Numbers, n: usize) -> StreetNetwork {
    StreetNetwork {
        geometries: (0..n)
            .map(|_| {
                let y = numbers.below(4) as f64;
                line(&[[0.0, y], [1.0, y]])
            })
            .collect(),
        statuses: vec![EdgeStatus::Original; n],
        parent_ids: (0..n)
            .map(|_| {
                let len = numbers.below(3);
                numbers.list(len, 20)
            })
            .collect(),
    }
}

fn ancestry(network: &StreetNetwork) -> Vec<usize> {
    let mut ids: Vec<usize> = network.parent_ids.iter().flatten().copied().collect();
    ids.sort();
    ids.dedup();
    ids
}

fn random_coins(numbers: &mut Numbers, n: usize) -> CoinsResult {
    CoinsResult {
        group: numbers.list(n, 3),
        is_end: (0..n).map(|_| numbers.below(3) == 0).collect(),
        stroke_length: vec![measure(1.0); n],
        stroke_count: numbers.list(n, 4),
        n_segments: n,
        n_p1_confirmed: 0,
        n_p2_confirmed: 0,
    }
}

#[test]
fn the_order_is_linear_and_nan_stands_apart() {
    let (a, b, c) = (measure(-3.0), measure(0.0), measure(2.0));
    assert!(a.lt(&b) && b.lt(&c) && a.lt(&c));
    assert!(!a.lt(&a));
    let nan = measure(f64::NAN);
    assert!(!nan.lt(&a) && !a.lt(&nan) && !nan.le(&nan));
    assert_eq!(find_closest(&vec![nan, c, b, b], 4), Some(2));
}

#[test]
fn deduplication_keeps_ancestors_and_settles() {
    let mut numbers = Numbers(7);
    for n in 0..12 {
        let mut network = random_network(&mut numbers, n);
        let before = ancestry(&network);
        let normalized = network.geometries.clone();
        dedup_network(&mut network, &normalized);
        assert_eq!(ancestry(&network), before);
        let rows: Vec<u64> = network.geometries.iter().map(|g| g.coords[0].y.bits).collect();
        let mut distinct = rows.clone();
        distinct.sort();
        distinct.dedup();
        assert_eq!(distinct.len(), rows.len());
        let settled = network.geometries.clone();
        let parents = network.parent_ids.clone();
        dedup_network(&mut network, &settled);
        assert_eq!(network.parent_ids, parents);
        let again: Vec<u64> = network.geometries.iter().map(|g| g.coords[0].y.bits).collect();
        assert_eq!(again, rows);
    }
}

#[test]
fn changes_keep_ancestors_while_a_line_is_added() {
    let mut numbers = Numbers(11);
    for n in 1..12 {
        let mut network = random_network(&mut numbers, n);
        let before = ancestry(&network);
        let drops = numbers.list(3, n + 2);
        let redrawn = vec![line(&[[0.0, 9.0], [3.0, 9.0]]), line(&[[0.0, 8.0], [3.0, 8.0]])];
        apply_changes(&mut network, &drops, &redrawn, &measures(&[3.0, 3.0]), measure(1e-4));
        assert_eq!(ancestry(&network), before);
    }
}

#[test]
fn dropping_keeps_the_rest() {
    let mut network = random_network(&mut Numbers(3), 9);
    let mut kept: Vec<Vec<usize>> = network
        .parent_ids
        .iter()
        .enumerate()
        .filter(|(i, _)| ![2, 5, 8].contains(i))
        .map(|(_, ids)| ids.clone())
        .collect();
    network.drop_edges(&vec![8, 2, 5, 2, 40]);
    network.parent_ids.sort();
    kept.sort();
    assert_eq!(network.parent_ids, kept);
}

#[test]
fn cleaning_keeps_exactly_the_sound_edges() {
    let mut network = random_network(&mut Numbers(5), 6);
    let lengths = measures(&[0.0, 1.0, 1e-4, 2.0, 0.0, 0.0]);
    let mut sound = vec![network.parent_ids[1].clone(), network.parent_ids[3].clone()];
    remove_degenerate(&mut network, &lengths, measure(1e-4));
    network.parent_ids.sort();
    sound.sort();
    assert_eq!(network.parent_ids, sound);
}

#[test]
fn kinds_share_out_the_edges() {
    let mut numbers = Numbers(17);
    for n in 1..10 {
        let coins = random_coins(&mut numbers, n);
        let covered: Vec<usize> = (0..n).collect();
        let (c, e, s, dropped, kept) = classify_ces_edges(&covered, &coins);
        assert_eq!(c, kept);
        let mut all: Vec<usize> = c.iter().chain(&e).chain(&s).copied().collect();
        all.sort();
        assert_eq!(all, covered);
        let mut es: Vec<usize> = e.iter().chain(&s).copied().collect();
        es.sort();
        assert_eq!(dropped, es);
        for &i in &covered {
            for &j in &covered {
                if coins.group[i] == coins.group[j] {
                    assert_eq!(c.contains(&i), c.contains(&j));
                    assert_eq!(s.contains(&i), s.contains(&j));
                }
            }
        }
    }
}

#[test]
fn shared_edges_look_as_they_are_sorted() {
    let coins = CoinsResult {
        group: vec![0, 1, 1, 2],
        is_end: vec![false, true, false, true],
        stroke_length: vec![measure(1.0); 4],
        stroke_count: vec![3, 2, 2, 5],
        n_segments: 4,
        n_p1_confirmed: 0,
        n_p2_confirmed: 0,
    };
    let covered = vec![0, 1, 2, 3];
    let (c, e, s, _, _) = classify_ces_edges(&covered, &coins);
    for &i in &covered {
        let kind = get_ces_type(&covered, i, &coins);
        assert_eq!(kind == 'C', c.contains(&i));
        assert_eq!(kind == 'E', e.contains(&i));
        assert_eq!(kind == 'S', s.contains(&i));
    }
}

#[test]
fn roundabouts_with_an_end_stand_alone() {
    let coins = CoinsResult {
        group: vec![4, 4, 4],
        is_end: vec![false, true, false],
        stroke_length: vec![measure(1.0); 3],
        stroke_count: vec![3, 3, 3],
        n_segments: 3,
        n_p1_confirmed: 0,
        n_p2_confirmed: 0,
    };
    let covered = vec![0, 1, 2];
    let (_, _, s, _, _) = classify_ces_edges(&covered, &coins);
    assert_eq!(s, covered);
    assert!(covered.iter().all(|&i| get_ces_type(&covered, i, &coins) == 'S'));
}

#[test]
fn counts_of_a_dry_run_fit_together() {
    let mut numbers = Numbers(53);
    let timings = Timings {
        fix_topology_secs: measure(0.0),
        consolidate_secs: measure(0.0),
        artifact_detection_secs: measure(0.0),
    };
    for n in 0..40 {
        let found = Some(Detection { comp_labels: numbers.list(n, 12), threshold: measure(1.0) });
        let d = diagnostics(0, 0, &found, timings).unwrap();
        assert_eq!(d.n_singles + d.n_pairs + d.n_cluster_artifacts, d.n_artifacts);
        assert_eq!(d.n_pairs % 2, 0);
        assert_eq!(d.n_cluster_groups == 0, d.n_cluster_artifacts == 0);
        assert_eq!(d.n_cluster_groups == 0, d.max_cluster_size == 0);
        assert!(3 * d.n_cluster_groups <= d.n_cluster_artifacts);
        assert!(d.n_cluster_artifacts <= d.n_cluster_groups * d.max_cluster_size);
    }
}

#[test]
fn grouping_and_planning_lose_nothing() {
    let mut numbers = Numbers(23);
    for n in 0..15 {
        let labels = numbers.list(n, 6);
        let indices: Vec<usize> = (0..n).collect();
        let mut all: Vec<usize> =
            group_by_label(&indices, &labels).into_iter().flatten().collect();
        all.sort();
        assert_eq!(all, indices);
        let plan = neatify_loop(&labels);
        let mut all: Vec<usize> =
            plan.singles.iter().chain(&plan.pairs).chain(&plan.clusters).copied().collect();
        all.sort();
        assert_eq!(all, indices);
    }
}

#[test]
fn solutions_do_not_depend_on_the_order() {
    let mut numbers = Numbers(31);
    for _ in 0..200 {
        let coins = random_coins(&mut numbers, 6);
        let member = |numbers: &mut Numbers| {
            let mut covered: Vec<usize> = (0..6).filter(|_| numbers.below(2) == 0).collect();
            covered.dedup();
            PairMember {
                covered,
                n_nodes: 1 + numbers.below(3),
                stroke_count: 1 + numbers.below(3),
            }
        };
        let (a, b) = (member(&mut numbers), member(&mut numbers));
        let one = solve_pair(4, &a, 9, &b, &coins);
        let other = solve_pair(9, &b, 4, &a, &coins);
        assert_eq!(one, other);
        if let PairSolution::DropInterline(shared) = one {
            assert!(a.covered.contains(&shared) && b.covered.contains(&shared));
        }
    }
}

#[test]
fn the_largest_part_is_largest() {
    let areas = measures(&[2.0, 7.5, 7.5, 1.0]);
    let at = largest_part(&areas).unwrap();
    assert!(areas.iter().all(|a| !areas[at].lt(a)));
}

#[test]
fn edges_are_covered_or_on_the_boundary_and_not_both() {
    let distance = |x: f64, eps: f64| LineDistances {
        vertices: measures(&[x]),
        midpoints: vec![],
        whole: Some(x <= eps),
    };
    let to_exterior = measures(&[0.0, 0.0, 0.1, 5.0]);
    let all = vec![0, 1, 2, 3];
    let mut last: Vec<usize> = vec![];
    for eps in [0.0, 0.5, 1.0, 3.0] {
        let distances = [0.0, 0.5, 2.0, 9.0].map(|x| distance(x, eps)).into();
        let covered = find_covered_edges(&all, &distances, measure(eps));
        let boundary = find_boundary_edges(&all, &distances, &to_exterior, measure(eps));
        assert!(covered.iter().all(|i| !boundary.contains(i)));
        assert!(last.iter().all(|i| covered.contains(i)));
        last = covered;
    }
}

#[test]
fn arcs_tile_the_ring() {
    let corners: Vec<[f64; 2]> = (0..7).map(|i| [i as f64, (i * i % 5) as f64]).collect();
    let mut closed = corners.clone();
    closed.push(corners[0]);
    let ring = line(&closed);
    let at = |v: usize| -> Vec<Measure> {
        (0..7).map(|i| measure(if i == v { 0.0 } else { 1.0 })).collect()
    };
    for cuts in [vec![1, 4], vec![0, 2, 6], vec![3, 3, 5, 1]] {
        let arcs = split_ring_at_points(&ring, &cuts.iter().map(|&v| at(v)).collect());
        let segments: usize = arcs.iter().map(|a| a.coords.len() - 1).sum();
        assert_eq!(segments, 7);
        for k in 0..arcs.len() {
            let next = &arcs[(k + 1) % arcs.len()];
            assert_eq!(arcs[k].coords.last(), next.coords.first());
        }
    }
}

#[test]
fn splitting_keeps_every_artifact() {
    let mut numbers = Numbers(41);
    for n in 3..40 {
        let cluster: Vec<usize> = (100..100 + n).collect();
        let grid = Grid {
            range_x: measure(1.0),
            range_y: measure(1.0),
            n_cells: 3,
            places: (0..n)
                .map(|_| match numbers.below(6) {
                    0 => None,
                    _ => Some(Cell { row: numbers.below(4), col: numbers.below(2) }),
                })
                .collect(),
        };
        let distances: Vec<Vec<Measure>> = match split_by_grid(&cluster, &grid) {
            Some(parts) => parts
                .orphans
                .iter()
                .map(|_| parts.large.iter().map(|_| measure(numbers.below(9) as f64)).collect())
                .collect(),
            None => vec![],
        };
        let parts = split_cluster_spatially(&cluster, &grid, &distances);
        assert!(parts.iter().all(|part| part.len() >= 3));
        let mut all: Vec<usize> = parts.into_iter().flatten().collect();
        all.sort();
        assert_eq!(all, cluster);
    }
}

#[test]
fn rounds_of_unions_use_all() {
    for n in 0..20 {
        let mut used: Vec<usize> = cascaded_union(n)
            .into_iter()
            .flat_map(|(first, second)| std::iter::once(first).chain(second))
            .collect();
        used.sort();
        assert_eq!(used, (0..n).collect::<Vec<usize>>());
    }
}

#[test]
fn bytes_after_a_line_do_not_change_it() {
    let mut bytes = vec![0, 0, 0, 0, 2, 0, 0, 0, 1];
    bytes.extend(1.25f64.to_be_bytes());
    bytes.extend((-8.0f64).to_be_bytes());
    let read = parse_wkb_linestring(&bytes).unwrap();
    assert_eq!(read.coords, vec![coord(1.25, -8.0)]);
    bytes.extend([9, 9, 9]);
    assert_eq!(parse_wkb_linestring(&bytes).unwrap().coords, read.coords);
}
