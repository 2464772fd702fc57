//! The course of a simplification, from one stage to the next.
use crate::types::NeatifyError;
use vstd::prelude::*;

verus! {

/// What is done next. The passes are counted from zero.
#[derive(Clone, Copy, PartialEq, Eq, Structural, Debug)]
pub enum Stage {
    /// Check that a projected CRS is set.
    CheckCrs,
    /// Fix the topology of the network.
    FixTopology,
    /// Consolidate its nodes.
    ConsolidateNodes,
    /// Detect its artifacts.
    Detect,
    /// Simplify the artifacts.
    Simplify(usize),
    /// Induce nodes where lines meet.
    InduceNodes(usize),
    /// Drop edges that occur twice.
    Dedup(usize),
    /// Detect the artifacts that are left, with the threshold of the first time.
    Redetect(usize),
    /// Remove edges without length.
    RemoveDegenerate,
    Finished,
}

impl Stage {
    /// The stage occurs in a simplification of `n_loops` passes.
    pub open spec fn valid(self, n_loops: usize) -> bool {
        match self {
            Stage::Simplify(pass) => pass < n_loops,
            Stage::InduceNodes(pass) => pass < n_loops,
            Stage::Dedup(pass) => pass < n_loops,
            Stage::Redetect(pass) => pass + 1 < n_loops,
            _ => true,
        }
    }

    /// A bound on the number of stages to come.
    pub open spec fn ahead(self, n_loops: usize) -> int {
        match self {
            Stage::CheckCrs => 4 * n_loops + 5,
            Stage::FixTopology => 4 * n_loops + 4,
            Stage::ConsolidateNodes => 4 * n_loops + 3,
            Stage::Detect => 4 * n_loops + 2,
            Stage::Simplify(pass) => 4 * (n_loops - pass) + 1,
            Stage::InduceNodes(pass) => 4 * (n_loops - pass),
            Stage::Dedup(pass) => 4 * (n_loops - pass) - 1,
            Stage::Redetect(pass) => 4 * (n_loops - pass) - 2,
            Stage::RemoveDegenerate => 1,
            Stage::Finished => 0,
        }
    }
}

/// The stage that follows, unless the CRS is missing. `found` is the number of artifacts that were detected
/// last, None where detection gave up.
pub open spec fn following(stage: Stage, n_loops: usize, found: Option<usize>) -> Stage {
    match stage {
        Stage::CheckCrs => Stage::FixTopology,
        Stage::FixTopology => Stage::ConsolidateNodes,
        Stage::ConsolidateNodes => Stage::Detect,
        Stage::Detect => if found is None || found == Some(0usize) {
            Stage::Finished
        } else if n_loops == 0 {
            Stage::RemoveDegenerate
        } else {
            Stage::Simplify(0)
        },
        Stage::Simplify(pass) => Stage::InduceNodes(pass),
        Stage::InduceNodes(pass) => Stage::Dedup(pass),
        Stage::Dedup(pass) => if pass + 1 < n_loops {
            Stage::Redetect(pass)
        } else {
            Stage::RemoveDegenerate
        },
        Stage::Redetect(pass) => if found is None {
            Stage::RemoveDegenerate
        } else {
            Stage::Simplify((pass + 1) as usize)
        },
        Stage::RemoveDegenerate => Stage::Finished,
        Stage::Finished => Stage::Finished,
    }
}

/// The stage that follows, none where a CRS is asked for and none is set.
pub open spec fn next_stage(
    stage: Stage,
    n_loops: usize,
    has_crs: bool,
    found: Option<usize>,
) -> Option<Stage> {
    if stage == Stage::CheckCrs && !has_crs {
        None
    } else {
        Some(following(stage, n_loops, found))
    }
}

/// Checks that a projected CRS is set. It is for callers whose data can tell of one:
/// distances and areas mean nothing in degrees. Those that hand over bare
/// coordinates, from text, bytes or a table, have vouched for them, and start with
/// the topology.
pub fn check_crs(has_crs: bool) -> (r: Result<(), NeatifyError>)
    ensures
        r is Ok <==> has_crs,
        !has_crs ==> r matches Err(NeatifyError::NoCrs),
{
    if has_crs {
        Ok(())
    } else {
        Err(NeatifyError::NoCrs)
    }
}

/// Goes on to the next stage. A simplification that begins with the check of the CRS
/// fails where none is set. Where nothing is detected at first, the network is left as
/// it is after its topology was fixed. After each pass but the last the artifacts are
/// detected anew; where that gives up, the passes end.
pub fn neatify(stage: Stage, n_loops: usize, has_crs: bool, found: Option<usize>) -> (r: Result<
    Stage,
    NeatifyError,
>)
    requires
        stage.valid(n_loops),
    ensures
        r is Ok <==> next_stage(stage, n_loops, has_crs, found) is Some,
        r matches Ok(next) ==> next_stage(stage, n_loops, has_crs, found) == Some(next),
        match r {
            Ok(next) => {
                &&& !(stage == Stage::CheckCrs && !has_crs)
                &&& next == following(stage, n_loops, found)
                &&& next.valid(n_loops)
            },
            Err(error) => stage == Stage::CheckCrs && !has_crs && error is NoCrs,
        },
{
    let next = match stage {
        Stage::CheckCrs => match check_crs(has_crs) {
            Ok(_) => Stage::FixTopology,
            Err(error) => {
                return Err(error);
            },
        },
        Stage::FixTopology => Stage::ConsolidateNodes,
        Stage::ConsolidateNodes => Stage::Detect,
        Stage::Detect => match found {
            None => Stage::Finished,
            Some(n_artifacts) => if n_artifacts == 0 {
                Stage::Finished
            } else if n_loops == 0 {
                Stage::RemoveDegenerate
            } else {
                Stage::Simplify(0)
            },
        },
        Stage::Simplify(pass) => Stage::InduceNodes(pass),
        Stage::InduceNodes(pass) => Stage::Dedup(pass),
        Stage::Dedup(pass) => if pass < n_loops - 1 {
            Stage::Redetect(pass)
        } else {
            Stage::RemoveDegenerate
        },
        Stage::Redetect(pass) => match found {
            None => Stage::RemoveDegenerate,
            Some(_) => Stage::Simplify(pass + 1),
        },
        Stage::RemoveDegenerate => Stage::Finished,
        Stage::Finished => Stage::Finished,
    };
    Ok(next)
}

/// A simplification ends: every stage but the last brings it closer, whatever is
/// detected.
pub proof fn stages_end(stage: Stage, n_loops: usize, found: Option<usize>)
    requires
        stage.valid(n_loops),
        stage != Stage::Finished,
    ensures
        following(stage, n_loops, found).valid(n_loops),
        0 <= following(stage, n_loops, found).ahead(n_loops) < stage.ahead(n_loops),
{
}

/// The detection that is read in the stage: the first one, and one after each
/// pass.
pub open spec fn detection_of(stage: Stage) -> int {
    match stage {
        Stage::Redetect(pass) => pass + 1,
        _ => 0,
    }
}

/// The passes that are still made from the stage on, if detection gives what
/// `found` says.
pub open spec fn passes(stage: Stage, n_loops: usize, found: spec_fn(int) -> Option<usize>) -> nat
    decreases stage.ahead(n_loops),
    when stage.valid(n_loops)
{
    if stage == Stage::Finished {
        0
    } else {
        let rest = passes(following(stage, n_loops, found(detection_of(stage))), n_loops, found);
        if stage is Simplify {
            rest + 1
        } else {
            rest
        }
    }
}

/// Whether edges without length are removed from the stage on.
pub open spec fn cleans_up(stage: Stage, n_loops: usize, found: spec_fn(int) -> Option<usize>) -> bool
    decreases stage.ahead(n_loops),
    when stage.valid(n_loops)
{
    if stage == Stage::Finished {
        false
    } else {
        stage == Stage::RemoveDegenerate || cleans_up(
            following(stage, n_loops, found(detection_of(stage))),
            n_loops,
            found,
        )
    }
}

proof fn passes_from(pass: usize, n_loops: usize, found: spec_fn(int) -> Option<usize>)
    requires
        pass < n_loops,
    ensures
        1 <= passes(Stage::Simplify(pass), n_loops, found) <= n_loops - pass,
        cleans_up(Stage::Simplify(pass), n_loops, found),
        (forall|p: int| pass < p < n_loops ==> (#[trigger] found(p)) is Some) ==> passes(
            Stage::Simplify(pass),
            n_loops,
            found,
        ) == n_loops - pass,
    decreases n_loops - pass,
{
    reveal_with_fuel(passes, 6);
    reveal_with_fuel(cleans_up, 6);
    if pass + 1 < n_loops {
        passes_from((pass + 1) as usize, n_loops, found);
        if forall|p: int| pass < p < n_loops ==> (#[trigger] found(p)) is Some {
            assert(found(pass + 1) is Some);
        }
    }
}

/// A simplification makes at most the number of passes asked for, and exactly
/// that many as long as detection does not give up. Where it finds nothing at
/// first, no pass is made and nothing is cleaned up; otherwise edges without
/// length are removed in the end. It makes no difference whether the CRS is checked
/// before.
pub proof fn passes_are_bounded(
    start: Stage,
    n_loops: usize,
    found: spec_fn(int) -> Option<usize>,
)
    requires
        start == Stage::CheckCrs || start == Stage::FixTopology,
    ensures
        ({
            let nothing = found(0) is None || found(0) == Some(0usize);
            &&& passes(start, n_loops, found) <= n_loops
            &&& nothing ==> passes(start, n_loops, found) == 0
            &&& !nothing && (forall|p: int| 0 < p < n_loops ==> (#[trigger] found(p)) is Some)
                ==> passes(start, n_loops, found) == n_loops
            &&& cleans_up(start, n_loops, found) == !nothing
        }),
{
    reveal_with_fuel(passes, 6);
    reveal_with_fuel(cleans_up, 6);
    if n_loops > 0 {
        passes_from(0, n_loops, found);
    }
}

} // verus!
