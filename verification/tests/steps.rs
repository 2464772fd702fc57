use neatnet::additions::{prepare_additions, AdditionAnswers, AdditionStep};
use neatnet::clusters::{
    cascaded_union, neatify_clusters, process_cluster, split_by_grid, split_cluster_spatially,
    Cell, ClusterCase, ClusterSkeleton, ClusterStep, Grid,
};
use neatnet::connections::{line_ends, Bridge, EndGap, LineGaps};
use neatnet::follow_up::{settle, BridgeFacts, FilterFacts, FollowUpAnswers, FollowUpStep};
use neatnet::measure::Measure;
use neatnet::nx_gx::{process_nx_gx, MixedAnswers, MixedCase, ShortestLine};
use neatnet::pairs::{
    interlines, largest_part, neatify_pairs, pair_passes, solve_pair, PairMember, PairSolution,
};
use neatnet::pipeline::{check_crs, neatify, Stage};
use neatnet::singletons::{
    gather_changes, neatify_singletons, process_n1_g1_identical, process_nx_gx_identical,
    IdenticalAnswers, IdenticalCase, SingletonCase, SingletonFacts,
};
use neatnet::steps::{FollowUp, Step};
use neatnet::types::{
    CesInfo, Changes, CoinsResult, Coord, LineString, NeatifyError, NodeKey,
};

fn measure(x: f64) -> Measure {
    Measure::from_bits(x.to_bits())
}

fn measures(xs: &[f64]) -> Vec<Measure> {
    xs.iter().map(|&x| measure(x)).collect()
}

fn coord(x: f64, y: f64) -> Coord {
    Coord { x: measure(x), y: measure(y) }
}

fn line(coords: &[[f64; 2]]) -> LineString {
    LineString::new(coords.iter().map(|c| coord(c[0], c[1])).collect())
}

fn courses(lines: &[LineString]) -> Vec<Vec<Coord>> {
    lines.iter().map(|l| l.coords.clone()).collect()
}

fn coins(group: Vec<usize>, is_end: Vec<bool>, stroke_count: Vec<usize>) -> CoinsResult {
    let n = group.len();
    CoinsResult {
        group,
        is_end,
        stroke_length: vec![measure(1.0); n],
        stroke_count,
        n_segments: n,
        n_p1_confirmed: 0,
        n_p2_confirmed: 0,
    }
}

fn eps() -> Measure {
    measure(1e-4)
}

fn clip() -> Measure {
    measure(2.0)
}

fn ces(c: usize, e: usize, s: usize) -> CesInfo {
    CesInfo { stroke_count: c + e + s, c, e, s }
}

#[test]
fn singletons_by_kind() {
    let fact = |n_covered: usize, n_nodes: usize, ces: CesInfo| SingletonFacts {
        n_covered,
        n_nodes,
        ces,
    };
    let cases = neatify_singletons(&vec![
        fact(0, 2, ces(1, 0, 0)),
        fact(3, 2, ces(1, 1, 1)),
        fact(1, 1, ces(0, 0, 1)),
        fact(2, 2, ces(2, 0, 0)),
        fact(3, 3, ces(1, 1, 0)),
        fact(1, 1, ces(0, 0, 0)),
    ]);
    assert_eq!(
        cases,
        vec![
            SingletonCase::Skip,
            SingletonCase::Skip,
            SingletonCase::OneNode,
            SingletonCase::Identical,
            SingletonCase::Mixed,
            SingletonCase::Skip,
        ]
    );
}

#[test]
fn changes_are_put_together_in_order() {
    let a = line(&[[0.0, 0.0], [1.0, 0.0]]);
    let b = line(&[[2.0, 0.0], [3.0, 0.0]]);
    let all = gather_changes(&vec![
        Changes { to_drop: vec![4, 2], to_add: vec![a.clone()] },
        Changes { to_drop: vec![], to_add: vec![] },
        Changes { to_drop: vec![9], to_add: vec![b.clone()] },
    ]);
    assert_eq!(all.to_drop, vec![4, 2, 9]);
    assert_eq!(courses(&all.to_add), courses(&[a, b]));
}

#[test]
fn one_node_is_replaced_by_a_skeleton() {
    let node = coord(1.0, 1.0);
    match process_n1_g1_identical(&vec![3, 5], &vec![node], clip(), &None) {
        Step::Draw(request) => {
            assert_eq!(request.edges, vec![3, 5]);
            assert_eq!(
                courses(&request.snap_to.unwrap()),
                courses(&[line(&[[1.0, 1.0], [1.0, 1.0]])])
            );
            assert!(request.secondary.is_none());
            assert_eq!(request.clip_limit, clip());
        }
        other => panic!("{other:?}"),
    }
    let drawn = vec![line(&[[1.0, 1.0], [2.0, 2.0]])];
    match process_n1_g1_identical(&vec![3, 5], &vec![node], clip(), &Some(drawn.clone())) {
        Step::Finished(outcome) => {
            assert_eq!(outcome.to_drop, vec![3, 5]);
            assert_eq!(courses(&outcome.to_add), courses(&drawn));
            assert_eq!(outcome.follow_up, FollowUp::RemoveDangles);
        }
        other => panic!("{other:?}"),
    }
}

fn identical() -> IdenticalCase {
    IdenticalCase {
        covered_edges: vec![0, 1],
        node_coords: vec![coord(0.0, 0.0), coord(9.0, 9.0), coord(4.0, 0.0)],
        node_distances: measures(&[0.0, 5.0, 0.0]),
        centroid: Some(coord(2.0, 1.0)),
    }
}

fn no_answers() -> IdenticalAnswers {
    IdenticalAnswers { within: None, angle: None, skeleton: None }
}

#[test]
fn identical_strokes_meet_in_the_centroid() {
    let case = identical();
    let spokes = [line(&[[0.0, 0.0], [2.0, 1.0]]), line(&[[4.0, 0.0], [2.0, 1.0]])];
    match process_nx_gx_identical(&case, eps(), clip(), &no_answers()) {
        Step::TestWithin(lines, tolerance) => {
            assert_eq!(courses(&lines), courses(&spokes));
            assert_eq!(tolerance, measure(0.1));
        }
        other => panic!("{other:?}"),
    }
    let inside = IdenticalAnswers { within: Some(vec![true, true]), ..no_answers() };
    match process_nx_gx_identical(&case, eps(), clip(), &inside) {
        Step::MeasureAngle(a, b) => assert_eq!(courses(&[a, b]), courses(&spokes)),
        other => panic!("{other:?}"),
    }
    let wide = IdenticalAnswers {
        within: Some(vec![true, true]),
        angle: Some(measure(75.0)),
        skeleton: None,
    };
    match process_nx_gx_identical(&case, eps(), clip(), &wide) {
        Step::Finished(outcome) => {
            assert_eq!(outcome.to_drop, vec![0, 1]);
            assert_eq!(courses(&outcome.to_add), courses(&spokes));
            assert_eq!(outcome.follow_up, FollowUp::Keep);
        }
        other => panic!("{other:?}"),
    }
    let sharp = IdenticalAnswers {
        within: Some(vec![true, true]),
        angle: Some(measure(74.9)),
        skeleton: None,
    };
    match process_nx_gx_identical(&case, eps(), clip(), &sharp) {
        Step::Finished(outcome) => {
            assert_eq!(courses(&outcome.to_add), courses(&[line(&[[0.0, 0.0], [4.0, 0.0]])]));
        }
        other => panic!("{other:?}"),
    }
}

#[test]
fn identical_strokes_outside_get_a_skeleton() {
    let case = identical();
    let outside = IdenticalAnswers { within: Some(vec![true, false]), ..no_answers() };
    match process_nx_gx_identical(&case, eps(), clip(), &outside) {
        Step::Draw(request) => assert_eq!(request.edges, vec![0, 1]),
        other => panic!("{other:?}"),
    }
    for nothing in [
        IdenticalCase { centroid: None, ..identical() },
        IdenticalCase { node_distances: measures(&[1.0, 1.0, 1.0]), ..identical() },
    ] {
        match process_nx_gx_identical(&nothing, eps(), clip(), &no_answers()) {
            Step::Finished(outcome) => {
                assert!(outcome.to_drop.is_empty() && outcome.to_add.is_empty());
            }
            other => panic!("{other:?}"),
        }
    }
}

fn mixed_answers() -> MixedAnswers {
    MixedAnswers {
        shortcut: None,
        labels: None,
        node_gaps: None,
        shortest: None,
        skeleton: None,
        skeleton_labels: None,
        redrawn: None,
    }
}

/// Edge 0 continues; edges 1 and 2 end here.
fn strokes() -> CoinsResult {
    coins(vec![0, 1, 2], vec![false, true, true], vec![4, 4, 4])
}

fn mixed(edges: Vec<usize>, n_nodes: usize) -> MixedCase {
    MixedCase {
        covered_edges: edges,
        node_coords: (0..n_nodes).map(|i| coord(i as f64, 0.0)).collect(),
        node_keys: (0..n_nodes).map(|i| NodeKey { x: i as i64, y: 0 }).collect(),
        node_distances: vec![measure(0.0); n_nodes],
    }
}

#[test]
fn loops_are_cut_short() {
    let case = MixedCase {
        node_distances: measures(&[0.0, 0.0, 5.0]),
        ..mixed(vec![0, 1], 3)
    };
    let step = |answers: &MixedAnswers| {
        process_nx_gx(&case, &strokes(), &vec![], clip(), eps(), answers)
    };
    match step(&mixed_answers()) {
        Step::TestWithin(lines, tolerance) => {
            assert_eq!(courses(&lines), courses(&[line(&[[0.0, 0.0], [1.0, 0.0]])]));
            assert_eq!(tolerance, eps());
        }
        other => panic!("{other:?}"),
    }
    match step(&MixedAnswers { shortcut: Some(true), ..mixed_answers() }) {
        Step::Finished(outcome) => {
            assert_eq!(outcome.to_drop, vec![1]);
            assert_eq!(courses(&outcome.to_add), courses(&[line(&[[0.0, 0.0], [1.0, 0.0]])]));
            assert_eq!(outcome.follow_up, FollowUp::Keep);
        }
        other => panic!("{other:?}"),
    }
    match step(&MixedAnswers { shortcut: Some(false), ..mixed_answers() }) {
        Step::MeasureNodes(nodes, edges) => {
            assert_eq!(nodes.len(), 2);
            assert_eq!(edges, vec![0]);
        }
        other => panic!("{other:?}"),
    }
}

#[test]
fn sausages_get_the_line_between_their_nodes() {
    let case = MixedCase {
        node_coords: vec![coord(0.0, 0.0), coord(2.0, 0.0)],
        node_keys: vec![NodeKey { x: 0, y: 0 }, NodeKey { x: 200_000_000, y: 0 }],
        node_distances: measures(&[0.0, 0.0]),
        covered_edges: vec![0, 1],
    };
    let strokes = coins(vec![0, 1], vec![false, true], vec![1, 1]);
    for within in [true, false] {
        let answers = MixedAnswers { shortcut: Some(within), ..mixed_answers() };
        match process_nx_gx(&case, &strokes, &vec![], clip(), eps(), &answers) {
            Step::Finished(outcome) => {
                assert_eq!(outcome.to_drop, vec![1]);
                assert_eq!(courses(&outcome.to_add), courses(&[line(&[[0.0, 0.0], [2.0, 0.0]])]));
                assert_eq!(outcome.follow_up, FollowUp::Keep);
            }
            other => panic!("{other:?}"),
        }
    }
    let longer = MixedCase { covered_edges: vec![0, 1, 2], ..mixed(vec![], 2) };
    let strokes = coins(vec![0, 1, 1], vec![false, true, false], vec![1, 2, 2]);
    match process_nx_gx(&longer, &strokes, &vec![], clip(), eps(), &mixed_answers()) {
        Step::Finished(outcome) => {
            assert_eq!(outcome.to_drop, vec![1, 2]);
            assert_eq!(courses(&outcome.to_add), courses(&[line(&[[0.0, 0.0], [1.0, 0.0]])]));
        }
        other => panic!("{other:?}"),
    }
}

#[test]
fn nothing_that_stays_gives_a_skeleton() {
    let case = mixed(vec![1, 2], 3);
    match process_nx_gx(&case, &strokes(), &vec![], clip(), eps(), &mixed_answers()) {
        Step::Draw(request) => {
            assert_eq!(request.edges, vec![1, 2]);
            assert_eq!(request.snap_to.unwrap().len(), 3);
        }
        other => panic!("{other:?}"),
    }
}

#[test]
fn what_holds_together_is_left() {
    let case = mixed(vec![0, 1, 2], 3);
    let step = |answers: &MixedAnswers| {
        process_nx_gx(&case, &two_kept(), &vec![], clip(), eps(), answers)
    };
    match step(&mixed_answers()) {
        Step::LabelComponents(edges) => assert_eq!(edges, vec![0, 1]),
        other => panic!("{other:?}"),
    }
    let whole = MixedAnswers { labels: Some(vec![0, 0]), ..mixed_answers() };
    match step(&whole) {
        Step::Finished(outcome) => {
            assert_eq!(outcome.to_drop, vec![2]);
            assert!(outcome.to_add.is_empty());
        }
        other => panic!("{other:?}"),
    }
}

#[test]
fn nodes_on_the_single_edge_need_nothing() {
    let case = mixed(vec![0, 1, 2], 3);
    let answers = MixedAnswers {
        node_gaps: Some(vec![measures(&[0.0]), measures(&[0.0]), measures(&[0.0])]),
        ..mixed_answers()
    };
    match process_nx_gx(&case, &strokes(), &vec![], clip(), eps(), &answers) {
        Step::Finished(outcome) => {
            assert_eq!(outcome.to_drop, vec![1, 2]);
            assert!(outcome.to_add.is_empty());
        }
        other => panic!("{other:?}"),
    }
}

#[test]
fn triangles_connect_the_node_that_is_cut_off() {
    let case = MixedCase {
        covered_edges: vec![0, 1, 2],
        node_coords: vec![coord(0.0, 0.0), coord(4.0, 0.0), coord(2.0, 3.0)],
        node_keys: vec![
            NodeKey { x: 0, y: 0 },
            NodeKey { x: 400_000_000, y: 0 },
            NodeKey { x: 200_000_000, y: 300_000_000 },
        ],
        node_distances: measures(&[0.0, 0.0, 0.0]),
    };
    let strokes = coins(vec![0, 1, 2], vec![false, true, true], vec![1, 2, 2]);
    let step = |answers: &MixedAnswers| {
        process_nx_gx(&case, &strokes, &vec![], clip(), eps(), answers)
    };
    assert!(matches!(step(&mixed_answers()), Step::MeasureNodes(_, _)));
    let measured = || MixedAnswers {
        node_gaps: Some(vec![measures(&[0.0]), measures(&[0.0]), measures(&[3.0])]),
        ..mixed_answers()
    };
    match step(&measured()) {
        Step::FindShortest(node, edges, _) => {
            assert_eq!(node, coord(2.0, 3.0));
            assert_eq!(edges, vec![0]);
        }
        other => panic!("{other:?}"),
    }
    let down = line(&[[2.0, 3.0], [2.0, 0.0]]);
    let found = MixedAnswers {
        shortest: Some(ShortestLine { line: Some(down.clone()), within: true }),
        ..measured()
    };
    match step(&found) {
        Step::Finished(outcome) => {
            assert_eq!(outcome.to_drop, vec![1, 2]);
            assert_eq!(courses(&outcome.to_add), courses(&[down]));
            assert_eq!(outcome.follow_up, FollowUp::Keep);
        }
        other => panic!("{other:?}"),
    }
}

/// Edges 0 and 1 continue, edge 2 ends here.
fn two_kept() -> CoinsResult {
    coins(vec![0, 1, 2], vec![false, false, true], vec![4, 4, 4])
}

#[test]
fn several_edges_are_reconnected() {
    let case = mixed(vec![0, 1, 2], 3);
    let spokes: Vec<LineString> =
        (0..4).map(|i| line(&[[0.0, 0.0], [5.0, i as f64]])).collect();
    let hub = NodeKey { x: 0, y: 0 };
    let keys = (0..4).map(|i| (hub, NodeKey { x: 5, y: i })).collect();
    let ends = line_ends(&spokes, &keys);
    let step = |answers: &MixedAnswers| {
        process_nx_gx(&case, &two_kept(), &ends, clip(), eps(), answers)
    };
    let apart = || MixedAnswers { labels: Some(vec![0, 1]), ..mixed_answers() };
    match step(&apart()) {
        Step::MeasureNodes(nodes, edges) => {
            assert_eq!(nodes.len(), 3);
            assert_eq!(edges, vec![0, 1]);
        }
        other => panic!("{other:?}"),
    }
    let all_on = MixedAnswers {
        node_gaps: Some(vec![measures(&[0.0, 9.0]); 3]),
        ..apart()
    };
    match step(&all_on) {
        Step::Finished(outcome) => assert!(outcome.to_add.is_empty()),
        other => panic!("{other:?}"),
    }
    let one_off = || MixedAnswers {
        node_gaps: Some(vec![
            measures(&[0.0, 9.0]),
            measures(&[9.0, 0.0]),
            measures(&[9.0, 9.0]),
        ]),
        ..apart()
    };
    match step(&one_off()) {
        Step::Draw(request) => {
            assert_eq!(request.edges, vec![0, 1, 2]);
            assert_eq!(
                courses(&request.snap_to.unwrap()),
                courses(&[line(&[[0.0, 0.0], [0.0, 0.0]])])
            );
            assert_eq!(request.clip_limit, clip());
        }
        other => panic!("{other:?}"),
    }
    let pieces = vec![line(&[[0.0, 0.0], [1.0, 1.0]]), line(&[[3.0, 3.0], [4.0, 4.0]])];
    let drawn = || MixedAnswers { skeleton: Some(pieces.clone()), ..one_off() };
    assert!(matches!(step(&drawn()), Step::LabelSkeleton));
    let whole = MixedAnswers { skeleton_labels: Some(vec![0, 0]), ..drawn() };
    match step(&whole) {
        Step::Finished(outcome) => {
            assert_eq!(outcome.to_drop, vec![2]);
            assert_eq!(courses(&outcome.to_add), courses(&pieces));
            assert_eq!(outcome.follow_up, FollowUp::Reconnect);
            assert_eq!(outcome.targets, vec![coord(0.0, 0.0)]);
        }
        other => panic!("{other:?}"),
    }
    let broken = || MixedAnswers { skeleton_labels: Some(vec![0, 1]), ..drawn() };
    match step(&broken()) {
        Step::Redraw(request) => assert_eq!(request.clip_limit, eps()),
        other => panic!("{other:?}"),
    }
    let again = vec![line(&[[0.0, 0.0], [4.0, 4.0]])];
    for (redrawn, used) in [(again.clone(), &again), (vec![], &pieces)] {
        match step(&MixedAnswers { redrawn: Some(redrawn), ..broken() }) {
            Step::Finished(outcome) => assert_eq!(courses(&outcome.to_add), courses(used)),
            other => panic!("{other:?}"),
        }
    }
}

#[test]
fn single_nodes_get_a_shortest_line() {
    let case = mixed(vec![0, 1, 2], 3);
    let base = || MixedAnswers {
        node_gaps: Some(vec![measures(&[0.0]), measures(&[0.0]), measures(&[7.0])]),
        ..mixed_answers()
    };
    let step = |answers: &MixedAnswers| {
        process_nx_gx(&case, &strokes(), &vec![], clip(), eps(), answers)
    };
    match step(&base()) {
        Step::FindShortest(node, edges, tolerance) => {
            assert_eq!(node, coord(2.0, 0.0));
            assert_eq!(edges, vec![0]);
            assert_eq!(tolerance, eps());
        }
        other => panic!("{other:?}"),
    }
    let spur = line(&[[2.0, 0.0], [2.0, 7.0]]);
    let found = MixedAnswers {
        shortest: Some(ShortestLine { line: Some(spur.clone()), within: true }),
        ..base()
    };
    match step(&found) {
        Step::Finished(outcome) => {
            assert_eq!(outcome.to_drop, vec![1, 2]);
            assert_eq!(courses(&outcome.to_add), courses(&[spur.clone()]));
            assert_eq!(outcome.follow_up, FollowUp::Keep);
        }
        other => panic!("{other:?}"),
    }
    let outside = MixedAnswers {
        shortest: Some(ShortestLine { line: Some(spur), within: false }),
        ..base()
    };
    match step(&outside) {
        Step::Draw(request) => {
            assert_eq!(request.edges, vec![1, 2]);
            assert_eq!(request.secondary, Some(vec![0]));
            assert_eq!(request.snap_to.unwrap().len(), 1);
        }
        other => panic!("{other:?}"),
    }
}

fn no_follow_up() -> FollowUpAnswers {
    FollowUpAnswers { filter: None, bridge: None, merged: None, ends: None }
}

#[test]
fn lines_are_kept_or_trimmed() {
    let drawn = vec![line(&[[0.0, 0.0], [1.0, 0.0]]), line(&[[5.0, 0.0], [6.0, 0.0]])];
    match settle(&drawn, FollowUp::Keep, &no_follow_up(), eps()) {
        FollowUpStep::Settled(lines) => assert_eq!(courses(&lines), courses(&drawn)),
        other => panic!("{other:?}"),
    }
    match settle(&drawn, FollowUp::RemoveDangles, &no_follow_up(), eps()) {
        FollowUpStep::Merge(lines) => assert_eq!(courses(&lines), courses(&drawn)),
        other => panic!("{other:?}"),
    }
    let merged = || FollowUpAnswers { merged: Some(vec![]), ..no_follow_up() };
    match settle(&drawn, FollowUp::RemoveDangles, &merged(), eps()) {
        FollowUpStep::MeasureEnds(lines) => assert_eq!(courses(&lines), courses(&drawn)),
        other => panic!("{other:?}"),
    }
    let gap = |boundary: f64| EndGap { others: measures(&[9.0, 9.0]), boundary: measure(boundary) };
    let measured = FollowUpAnswers {
        ends: Some(vec![
            LineGaps { start: gap(0.5), end: gap(0.5) },
            LineGaps { start: gap(0.5), end: gap(4.0) },
        ]),
        ..merged()
    };
    match settle(&drawn, FollowUp::RemoveDangles, &measured, eps()) {
        FollowUpStep::Settled(lines) => assert_eq!(courses(&lines), courses(&drawn[..1])),
        other => panic!("{other:?}"),
    }
}

#[test]
fn lines_are_filtered_and_bridged() {
    let drawn = vec![line(&[[0.0, 0.0], [1.0, 0.0]]), line(&[[5.0, 0.0], [6.0, 0.0]])];
    let step = |answers: &FollowUpAnswers| settle(&drawn, FollowUp::Reconnect, answers, eps());
    assert!(matches!(step(&no_follow_up()), FollowUpStep::MeasureLines(_)));
    let filtered = || FollowUpAnswers {
        filter: Some(FilterFacts {
            touches: vec![vec![true, true]],
            to_targets: vec![measures(&[1.0]), measures(&[9.0])],
            lengths: measures(&[1.0, 1.0]),
        }),
        ..no_follow_up()
    };
    match step(&filtered()) {
        FollowUpStep::FindBridges(lines) => assert_eq!(courses(&lines), courses(&drawn[..1])),
        other => panic!("{other:?}"),
    }
    let lane = line(&[[1.0, 0.0], [3.0, 0.0]]);
    let bridged = || FollowUpAnswers {
        bridge: Some(BridgeFacts {
            gaps: vec![measures(&[2.0])],
            bridges: vec![vec![Bridge { line: Some(lane.clone()), within: true }]],
        }),
        ..filtered()
    };
    match step(&bridged()) {
        FollowUpStep::Merge(lines) => {
            assert_eq!(courses(&lines), courses(&[drawn[0].clone(), lane.clone()]));
        }
        other => panic!("{other:?}"),
    }
    let joined = line(&[[0.0, 0.0], [1.0, 0.0], [3.0, 0.0]]);
    match step(&FollowUpAnswers { merged: Some(vec![joined.clone()]), ..bridged() }) {
        FollowUpStep::Settled(lines) => assert_eq!(courses(&lines), courses(&[joined])),
        other => panic!("{other:?}"),
    }
}

#[test]
fn additions_are_merged_once() {
    let a = line(&[[0.0, 0.0], [1.0, 0.0]]);
    let b = line(&[[1.0, 0.0], [0.0, 0.0]]);
    let to_add = vec![a.clone(), b.clone()];
    let none = AdditionAnswers { merged: None, normalized: None };
    assert!(matches!(
        prepare_additions(&vec![], &none),
        AdditionStep::Simplify(lines) if lines.is_empty()
    ));
    assert!(matches!(prepare_additions(&to_add, &none), AdditionStep::Merge(_)));
    let merged = AdditionAnswers { merged: Some(vec![]), normalized: None };
    match prepare_additions(&to_add, &merged) {
        AdditionStep::Normalize(lines) => assert_eq!(courses(&lines), courses(&to_add)),
        other => panic!("{other:?}"),
    }
    let normalized = AdditionAnswers {
        merged: Some(vec![]),
        normalized: Some(vec![a.clone(), a.clone()]),
    };
    match prepare_additions(&to_add, &normalized) {
        AdditionStep::Simplify(lines) => assert_eq!(courses(&lines), courses(&[a])),
        other => panic!("{other:?}"),
    }
}

fn member(covered: Vec<usize>, n_nodes: usize, stroke_count: usize) -> PairMember {
    PairMember { covered, n_nodes, stroke_count }
}

#[test]
fn pairs_by_solution() {
    let all_through = coins(vec![0, 1, 2, 3, 4], vec![false; 5], vec![9; 5]);
    let planar = |covered: Vec<usize>| member(covered, 3, 2);
    let tangled = |covered: Vec<usize>| member(covered, 1, 2);
    let solve = |a: &PairMember, b: &PairMember, c: &CoinsResult| solve_pair(10, a, 20, b, c);

    assert_eq!(
        solve(&tangled(vec![0]), &tangled(vec![1]), &all_through),
        PairSolution::Skeleton
    );
    assert_eq!(
        solve(&tangled(vec![0]), &planar(vec![1]), &all_through),
        PairSolution::Planar(20)
    );
    assert_eq!(solve(&planar(vec![0]), &planar(vec![1]), &all_through), PairSolution::Skip);
    assert_eq!(solve(&planar(vec![]), &planar(vec![1]), &all_through), PairSolution::Skip);
    assert_eq!(
        solve(&planar(vec![0, 1, 2]), &planar(vec![1, 2, 3]), &all_through),
        PairSolution::Skeleton
    );
    assert_eq!(
        solve(&planar(vec![0, 1]), &planar(vec![1, 2, 3]), &all_through),
        PairSolution::DropInterline(1)
    );
    let a = planar(vec![0, 2, 1]);
    let b = planar(vec![1, 3, 4]);
    assert_eq!(solve(&a, &b, &all_through), PairSolution::Iterate);
    let ending = coins(vec![0, 1, 2, 3, 4], vec![false, true, false, false, false], vec![9; 5]);
    assert_eq!(solve(&a, &b, &ending), PairSolution::DropInterline(1));
    let seen_apart =
        coins(vec![0, 1, 2, 1, 4], vec![false, false, false, true, false], vec![9; 5]);
    assert_eq!(solve(&a, &b, &seen_apart), PairSolution::Skeleton);
}

#[test]
fn pairs_in_passes() {
    let all_through = coins(vec![0, 1, 2, 3, 4], vec![false; 5], vec![9; 5]);
    let indices = vec![0, 1, 2, 3, 4, 5, 6];
    let labels = vec![5, 5, 2, 2, 8, 8, 9];
    let members = vec![
        member(vec![0, 1], 3, 2),
        member(vec![1, 2, 3], 3, 2),
        member(vec![0, 2, 1], 3, 2),
        member(vec![1, 3, 4], 3, 2),
        member(vec![0], 1, 2),
        member(vec![1], 2, 2),
        member(vec![1], 2, 2),
    ];
    let decisions = neatify_pairs(&indices, &labels, &members, &all_through);
    let solutions: Vec<PairSolution> = decisions.iter().map(|d| d.solution).collect();
    assert_eq!(
        solutions,
        vec![
            PairSolution::Iterate,
            PairSolution::DropInterline(1),
            PairSolution::Planar(5),
            PairSolution::Skip,
        ]
    );
    assert_eq!(decisions[0].members, vec![2, 3]);
    assert_eq!(interlines(&decisions), vec![1]);
    let passes = pair_passes(&decisions, 7, &vec![true]);
    assert_eq!(passes.first, vec![7, 2, 5]);
    assert_eq!(passes.second, vec![3]);
    assert!(passes.skeleton.is_empty());
    assert_eq!(pair_passes(&decisions, 7, &vec![false]).first, vec![2, 5]);
}

#[test]
fn unions_by_area() {
    assert_eq!(largest_part(&measures(&[1.0, 4.0, 2.0, 4.0])), Some(3));
    assert_eq!(largest_part(&vec![]), None);
}

#[test]
fn clusters_by_size() {
    let mut labels = vec![3; 501];
    labels.extend(vec![1; 4]);
    labels.extend(vec![2; 2]);
    let clusters = neatify_clusters(&(0..labels.len()).collect(), &labels);
    assert_eq!(clusters.len(), 2);
    assert_eq!(clusters[0].artifacts, vec![501, 502, 503, 504]);
    assert!(!clusters[0].split);
    assert_eq!(clusters[1].artifacts.len(), 501);
    assert!(clusters[1].split);
}

#[test]
fn clusters_that_do_not_spread_stay_whole() {
    let cell = |row: usize, col: usize| Some(Cell { row, col });
    let flat = Grid {
        range_x: measure(5.0),
        range_y: measure(0.0),
        n_cells: 2,
        places: vec![cell(0, 0); 3],
    };
    assert!(split_by_grid(&vec![7, 8, 9], &flat).is_none());
    assert_eq!(split_cluster_spatially(&vec![7, 8, 9], &flat, &vec![]), vec![vec![7, 8, 9]]);

    let grid = Grid {
        range_x: measure(5.0),
        range_y: measure(5.0),
        n_cells: 1,
        places: vec![cell(5, 5), cell(0, 0), cell(1, 1), None, cell(1, 9)],
    };
    let parts = split_by_grid(&vec![10, 11, 12, 13, 14], &grid).unwrap();
    assert_eq!(parts.large, vec![vec![10, 12, 14]]);
    assert_eq!(parts.orphans, vec![11]);
    assert_eq!(
        split_cluster_spatially(&vec![10, 11, 12, 13, 14], &grid, &vec![measures(&[3.0])]),
        vec![vec![10, 12, 14, 11, 13]]
    );
}

#[test]
fn unions_in_rounds() {
    assert_eq!(cascaded_union(5), vec![(0, Some(1)), (2, Some(3)), (4, None)]);
    assert_eq!(cascaded_union(1), vec![(0, None)]);
    assert!(cascaded_union(0).is_empty());
    let mut n = 9646;
    let mut rounds = 0;
    while n > 1 {
        n = cascaded_union(n).len();
        rounds += 1;
    }
    assert_eq!(rounds, 14);
}

#[test]
fn merged_clusters_are_replaced_or_left() {
    let side = || line(&[[0.0, 0.0], [1.0, 0.0]]);
    let case = |covered: Vec<usize>, boundary: Vec<usize>, sides: usize| ClusterCase {
        covered_edges: covered,
        boundary_edges: boundary,
        ring_sides: (0..sides).map(|_| side()).collect(),
    };
    for left in [case(vec![], vec![1], 2), case(vec![1], vec![], 2), case(vec![1], vec![2], 1)] {
        assert!(matches!(process_cluster(&left, &None), ClusterStep::Leave));
    }
    let good = case(vec![4, 5], vec![6], 2);
    match process_cluster(&good, &None) {
        ClusterStep::Draw(clip_limit) => assert_eq!(clip_limit, measure(1e-4)),
        other => panic!("{other:?}"),
    }
    let skeleton = |length: f64, to_end: f64| {
        Some(ClusterSkeleton {
            drawn: vec![side()],
            length: measure(length),
            covered_length: measure(100.0),
            tenth_of_covered: measure(10.0),
            end_distances: vec![measures(&[400.0, to_end])],
            tolerance: measure(100.0),
        })
    };
    match process_cluster(&good, &skeleton(10.0, 100.0)) {
        ClusterStep::Replace(changes) => {
            assert_eq!(changes.to_drop, vec![4, 5]);
            assert_eq!(courses(&changes.to_add), courses(&[side()]));
        }
        other => panic!("{other:?}"),
    }
    assert!(matches!(process_cluster(&good, &skeleton(9.9, 100.0)), ClusterStep::Leave));
    assert!(matches!(process_cluster(&good, &skeleton(50.0, 100.1)), ClusterStep::Leave));
}

/// The stages of a simplification, given what each detection finds.
fn run(n_loops: usize, found: &[Option<usize>]) -> Vec<Stage> {
    let mut stages = vec![];
    let mut detections = found.iter();
    let mut stage = Stage::FixTopology;
    while stage != Stage::Finished {
        stages.push(stage);
        let seen = match stage {
            Stage::Detect | Stage::Redetect(_) => *detections.next().unwrap(),
            _ => None,
        };
        stage = neatify(stage, n_loops, true, seen).unwrap();
    }
    stages
}

#[test]
fn a_missing_crs_is_an_error() {
    assert!(check_crs(true).is_ok());
    assert!(matches!(check_crs(false), Err(NeatifyError::NoCrs)));
    assert!(matches!(neatify(Stage::CheckCrs, 2, false, None), Err(NeatifyError::NoCrs)));
    assert_eq!(neatify(Stage::CheckCrs, 2, true, None).unwrap(), Stage::FixTopology);
    assert_eq!(
        neatify(Stage::FixTopology, 2, false, None).unwrap(),
        Stage::ConsolidateNodes
    );
}

#[test]
fn nothing_found_ends_the_simplification() {
    let start = vec![Stage::FixTopology, Stage::ConsolidateNodes, Stage::Detect];
    assert_eq!(run(2, &[None]), start);
    assert_eq!(run(2, &[Some(0)]), start);
}

#[test]
fn passes_follow_detection() {
    let passes = |stages: &[Stage]| {
        stages.iter().filter(|s| matches!(s, Stage::Simplify(_))).count()
    };
    let all = run(2, &[Some(8), Some(0)]);
    assert_eq!(
        all,
        vec![
            Stage::FixTopology,
            Stage::ConsolidateNodes,
            Stage::Detect,
            Stage::Simplify(0),
            Stage::InduceNodes(0),
            Stage::Dedup(0),
            Stage::Redetect(0),
            Stage::Simplify(1),
            Stage::InduceNodes(1),
            Stage::Dedup(1),
            Stage::RemoveDegenerate,
        ]
    );
    assert_eq!(passes(&run(5, &[Some(8), Some(3), None])), 2);
    assert_eq!(passes(&run(5, &[Some(8); 5])), 5);
    assert_eq!(run(0, &[Some(8)]).last(), Some(&Stage::RemoveDegenerate));
    assert_eq!(passes(&run(0, &[Some(8)])), 0);
}
