//! The course of a simplification, from one stage to the next.
use crate::pipeline::{following, next_stage, Stage};
use vstd::prelude::*;

verus! {

/// The stages follow each other; `found` holds what was detected last in each.
pub open spec fn is_run(run: Seq<Stage>, n_loops: usize, found: Seq<Option<usize>>) -> bool {
    &&& found.len() == run.len()
    &&& forall|i: int|
        0 <= i < run.len() - 1 ==> run[i + 1] == following(#[trigger] run[i], n_loops, found[i])
}

/// A simplification begins with the topology, then consolidates the nodes and then detects the
/// artifacts; the check of the CRS comes before all of that.
pub proof fn artifacts_are_detected_in_a_clean_network(
    run: Seq<Stage>,
    n_loops: usize,
    found: Seq<Option<usize>>,
    i: int,
)
    requires
        is_run(run, n_loops, found),
        0 <= i,
        i + 3 < run.len(),
    ensures
        run[i] == Stage::CheckCrs ==> run[i + 1] == Stage::FixTopology && run[i + 2]
            == Stage::ConsolidateNodes && run[i + 3] == Stage::Detect,
        run[i] == Stage::FixTopology ==> run[i + 1] == Stage::ConsolidateNodes && run[i + 2]
            == Stage::Detect,
{
    assert(run[i + 1] == following(run[i], n_loops, found[i]));
    assert(run[i + 1 + 1] == following(run[i + 1], n_loops, found[i + 1]));
    assert(run[i + 2 + 1] == following(run[i + 2], n_loops, found[i + 2]));
}

/// Every pass is whole: after the artifacts are simplified, nodes are induced and repeated edges
/// dropped. Then, unless it was the last pass, the artifacts are detected anew and the next pass
/// begins, or the passes end where detection gives up. In the end edges without length are
/// removed.
pub proof fn every_pass_is_whole(
    run: Seq<Stage>,
    n_loops: usize,
    found: Seq<Option<usize>>,
    i: int,
    pass: usize,
)
    requires
        is_run(run, n_loops, found),
        0 <= i,
        i + 4 < run.len(),
        run[i] == Stage::Simplify(pass),
        pass < n_loops,
    ensures
        run[i + 1] == Stage::InduceNodes(pass),
        run[i + 2] == Stage::Dedup(pass),
        pass == n_loops - 1 ==> run[i + 3] == Stage::RemoveDegenerate && run[i + 4]
            == Stage::Finished,
        pass < n_loops - 1 ==> {
            &&& run[i + 3] == Stage::Redetect(pass)
            &&& found[i + 3] is Some ==> run[i + 4] == Stage::Simplify((pass + 1) as usize)
            &&& found[i + 3] is None ==> run[i + 4] == Stage::RemoveDegenerate
        },
{
    assert(run[i + 1] == following(run[i], n_loops, found[i]));
    assert(run[i + 1 + 1] == following(run[i + 1], n_loops, found[i + 1]));
    assert(run[i + 2 + 1] == following(run[i + 2], n_loops, found[i + 2]));
    assert(run[i + 3 + 1] == following(run[i + 3], n_loops, found[i + 3]));
}

/// What comes before a stage. The first pass comes after a detection that found something, each
/// other one after the artifacts were detected anew; these are detected only after repeated
/// edges were dropped. Edges without length are removed only after the last pass, after a
/// detection that gave up, or where no pass was asked for. A simplification is finished only
/// then, or where nothing was found at first.
pub proof fn no_stage_is_skipped(stage: Stage, n_loops: usize, found: Option<usize>, pass: usize)
    requires
        stage.valid(n_loops),
    ensures
        ({
            let next = following(stage, n_loops, found);
            let nothing = found is None || found == Some(0usize);
            &&& next == Stage::Simplify(pass) && pass == 0 ==> stage == Stage::Detect && !nothing
                && n_loops > 0
            &&& next == Stage::Simplify(pass) && pass > 0 ==> stage == Stage::Redetect(
                (pass - 1) as usize,
            ) && found is Some
            &&& next == Stage::InduceNodes(pass) ==> stage == Stage::Simplify(pass)
            &&& next == Stage::Dedup(pass) ==> stage == Stage::InduceNodes(pass)
            &&& next == Stage::Redetect(pass) ==> stage == Stage::Dedup(pass) && pass + 1 < n_loops
            &&& next == Stage::RemoveDegenerate ==> {
                ||| stage is Dedup && stage->Dedup_0 == n_loops - 1
                ||| stage is Redetect && found is None
                ||| stage == Stage::Detect && !nothing && n_loops == 0
            }
            &&& next == Stage::Finished ==> {
                ||| stage == Stage::RemoveDegenerate
                ||| stage == Stage::Finished
                ||| stage == Stage::Detect && nothing
            }
            &&& stage == Stage::Detect && nothing ==> next == Stage::Finished
            &&& stage == Stage::Detect && !nothing && n_loops > 0 ==> next == Stage::Simplify(0)
            &&& stage == Stage::RemoveDegenerate ==> next == Stage::Finished
        }),
{
}

/// A simplification goes on from every stage, but from the check of the CRS only where one is set.
pub proof fn only_a_missing_crs_stops_it(
    stage: Stage,
    n_loops: usize,
    has_crs: bool,
    found: Option<usize>,
)
    ensures
        next_stage(stage, n_loops, has_crs, found) is None <==> stage == Stage::CheckCrs && !has_crs,
        next_stage(stage, n_loops, true, found) == Some(following(stage, n_loops, found)),
        stage != Stage::CheckCrs ==> next_stage(stage, n_loops, has_crs, found) == Some(
            following(stage, n_loops, found),
        ),
{
}

} // verus!
