//! What becomes of new lines before they are added to the network.
use crate::connections::{
    all_bridges, chosen, exploded, filter_connections, full_rows, merge_and_explode, picked,
    reconnect_c_groups, remove_dangles, trimmed, Bridge, LineGaps,
};
use crate::measure::Measure;
use crate::steps::FollowUp;
use crate::types::{copy_lines, lines, Coord, LineString};
use vstd::prelude::*;

verus! {

/// How new lines lie to the groups of edges that stay and to the targets: for each
/// group which lines touch it, for each line how far it is from each target, and
/// how long the lines are.
#[derive(Debug)]
pub struct FilterFacts {
    pub touches: Vec<Vec<bool>>,
    pub to_targets: Vec<Vec<Measure>>,
    pub lengths: Vec<Measure>,
}

/// How the components of new lines can be joined to the groups: for each group how
/// far each component is from it, and the straight line between the two.
#[derive(Debug)]
pub struct BridgeFacts {
    pub gaps: Vec<Vec<Measure>>,
    pub bridges: Vec<Vec<Bridge>>,
}

/// What was answered so far.
#[derive(Debug)]
pub struct FollowUpAnswers {
    pub filter: Option<FilterFacts>,
    pub bridge: Option<BridgeFacts>,
    /// What merging the lines gave.
    pub merged: Option<Vec<LineString>>,
    /// How far the ends of each merged line are from the others.
    pub ends: Option<Vec<LineGaps>>,
}

impl FilterFacts {
    /// The facts are about `n` lines.
    pub open spec fn about(&self, n: nat) -> bool {
        &&& full_rows(self.touches@, n)
        &&& self.to_targets@.len() == n
        &&& self.lengths@.len() == n
    }
}

impl BridgeFacts {
    /// There is a bridge for each gap.
    pub open spec fn wf(&self) -> bool {
        &&& self.bridges@.len() == self.gaps@.len()
        &&& forall|g: int|
            0 <= g < self.gaps@.len() ==> (#[trigger] self.bridges@[g])@.len()
                == self.gaps@[g]@.len()
    }
}

/// What is done next with new lines.
#[derive(Debug)]
pub enum FollowUpStep {
    /// Measure the lines against groups and targets.
    MeasureLines(Vec<LineString>),
    /// Find the bridges from the components of the lines to the groups.
    FindBridges(Vec<LineString>),
    /// Merge the lines.
    Merge(Vec<LineString>),
    /// Measure how far the ends of the lines are from the others.
    MeasureEnds(Vec<LineString>),
    /// The lines to add.
    Settled(Vec<LineString>),
}

/// A step by the lines that it is about.
#[verifier::ext_equal]
pub enum FollowUpMove {
    MeasureLines(Seq<Seq<Coord>>),
    FindBridges(Seq<Seq<Coord>>),
    Merge(Seq<Seq<Coord>>),
    MeasureEnds(Seq<Seq<Coord>>),
    Settled(Seq<Seq<Coord>>),
}

impl View for FollowUpStep {
    type V = FollowUpMove;

    open spec fn view(&self) -> FollowUpMove {
        match *self {
            FollowUpStep::MeasureLines(list) => FollowUpMove::MeasureLines(lines(list@)),
            FollowUpStep::FindBridges(list) => FollowUpMove::FindBridges(lines(list@)),
            FollowUpStep::Merge(list) => FollowUpMove::Merge(lines(list@)),
            FollowUpStep::MeasureEnds(list) => FollowUpMove::MeasureEnds(lines(list@)),
            FollowUpStep::Settled(list) => FollowUpMove::Settled(lines(list@)),
        }
    }
}

/// The lines without those that crowd a group, and the ones that are kept of these.
pub open spec fn filtered(drawn: Seq<Seq<Coord>>, facts: FilterFacts) -> Seq<Seq<Coord>> {
    picked(
        drawn,
        chosen(facts.touches@, facts.to_targets@, facts.lengths@, drawn.len() as int),
    )
}

/// The lines and the bridges from them to the groups.
pub open spec fn reconnected(
    connections: Seq<Seq<Coord>>,
    facts: BridgeFacts,
    eps: Measure,
) -> Seq<Seq<Coord>> {
    if connections.len() == 0 {
        Seq::empty()
    } else {
        connections + all_bridges(facts.gaps@, facts.bridges@, eps, facts.gaps@.len() as int)
    }
}

/// The step that removes lines with a loose end.
pub open spec fn trim_move(
    connections: Seq<Seq<Coord>>,
    merged: Option<Vec<LineString>>,
    ends: Option<Vec<LineGaps>>,
    eps: Measure,
) -> FollowUpMove {
    if connections.len() <= 1 {
        FollowUpMove::Settled(connections)
    } else if merged is None {
        FollowUpMove::Merge(connections)
    } else {
        let all = exploded(connections, lines(merged->0@));
        if all.len() <= 1 {
            FollowUpMove::Settled(all)
        } else if ends is None {
            FollowUpMove::MeasureEnds(all)
        } else {
            FollowUpMove::Settled(trimmed(connections, lines(merged->0@), ends->0@, eps))
        }
    }
}

/// The lines that are trimmed in the end: those that were drawn, or, where they
/// are reconnected, what is left of them and the bridges.
pub open spec fn to_trim(
    drawn: Seq<Seq<Coord>>,
    follow_up: FollowUp,
    answers: FollowUpAnswers,
    eps: Measure,
) -> Seq<Seq<Coord>> {
    if follow_up == FollowUp::Reconnect {
        reconnected(filtered(drawn, answers.filter->0), answers.bridge->0, eps)
    } else {
        drawn
    }
}

/// What is done next with the lines of an outcome.
pub open spec fn follow_up_move(
    drawn: Seq<Seq<Coord>>,
    follow_up: FollowUp,
    answers: FollowUpAnswers,
    eps: Measure,
) -> FollowUpMove {
    if follow_up == FollowUp::Keep {
        FollowUpMove::Settled(drawn)
    } else if follow_up == FollowUp::Reconnect && answers.filter is None {
        FollowUpMove::MeasureLines(drawn)
    } else if follow_up == FollowUp::Reconnect && answers.bridge is None {
        FollowUpMove::FindBridges(filtered(drawn, answers.filter->0))
    } else {
        trim_move(to_trim(drawn, follow_up, answers, eps), answers.merged, answers.ends, eps)
    }
}

/// The answers fit the lines that they are about.
pub open spec fn fitting(
    drawn: Seq<Seq<Coord>>,
    follow_up: FollowUp,
    answers: FollowUpAnswers,
    eps: Measure,
) -> bool {
    &&& follow_up == FollowUp::Reconnect && answers.filter is Some ==> answers.filter->0.about(
        drawn.len(),
    )
    &&& follow_up == FollowUp::Reconnect && answers.bridge is Some ==> answers.bridge->0.wf()
    &&& follow_up != FollowUp::Keep && answers.merged is Some && answers.ends is Some ==> {
        let connections = to_trim(drawn, follow_up, answers, eps);
        answers.ends->0@.len() == exploded(connections, lines(answers.merged->0@)).len()
    }
}

fn trim_step(
    connections: Vec<LineString>,
    merged: &Option<Vec<LineString>>,
    ends: &Option<Vec<LineGaps>>,
    eps: Measure,
) -> (r: FollowUpStep)
    requires
        merged is Some && ends is Some ==> ends->0@.len() == exploded(
            lines(connections@),
            lines(merged->0@),
        ).len(),
    ensures
        r@ == trim_move(lines(connections@), *merged, *ends, eps),
{
    if connections.len() <= 1 {
        return FollowUpStep::Settled(connections);
    }
    match merged {
        None => FollowUpStep::Merge(connections),
        Some(merged) => {
            let all = merge_and_explode(&connections, merged);
            assert(lines(all@).len() == all@.len());
            if all.len() <= 1 {
                return FollowUpStep::Settled(all);
            }
            match ends {
                None => FollowUpStep::MeasureEnds(all),
                Some(ends) => FollowUpStep::Settled(
                    remove_dangles(&connections, merged, ends, eps),
                ),
            }
        },
    }
}

/// Goes on with the lines of an outcome, until they can be added. They are kept as
/// they are; or lines with a loose end are removed from them; or, before that, they
/// are filtered, and joined to the groups that they do not reach.
pub fn settle(
    drawn: &Vec<LineString>,
    follow_up: FollowUp,
    answers: &FollowUpAnswers,
    eps: Measure,
) -> (r: FollowUpStep)
    requires
        fitting(lines(drawn@), follow_up, *answers, eps),
    ensures
        r@ == follow_up_move(lines(drawn@), follow_up, *answers, eps),
{
    match follow_up {
        FollowUp::Keep => FollowUpStep::Settled(copy_lines(drawn)),
        FollowUp::RemoveDangles => trim_step(copy_lines(drawn), &answers.merged, &answers.ends, eps),
        FollowUp::Reconnect => {
            let facts = match &answers.filter {
                None => {
                    return FollowUpStep::MeasureLines(copy_lines(drawn));
                },
                Some(facts) => facts,
            };
            let kept = filter_connections(drawn, &facts.touches, &facts.to_targets, &facts.lengths);
            assert(lines(kept@) == filtered(lines(drawn@), *facts));
            assert(lines(kept@).len() == kept@.len());
            let lanes = match &answers.bridge {
                None => {
                    return FollowUpStep::FindBridges(kept);
                },
                Some(lanes) => lanes,
            };
            let joined = reconnect_c_groups(&kept, &lanes.gaps, &lanes.bridges, eps);
            assert(lines(joined@) == reconnected(lines(kept@), *lanes, eps));
            trim_step(joined, &answers.merged, &answers.ends, eps)
        },
    }
}

/// A step asks only for what was not answered yet: with all answers given the
/// lines are settled.
pub proof fn follow_up_ends_when_answered(
    drawn: Seq<Seq<Coord>>,
    follow_up: FollowUp,
    answers: FollowUpAnswers,
    eps: Measure,
)
    ensures
        match follow_up_move(drawn, follow_up, answers, eps) {
            FollowUpMove::MeasureLines(_) => answers.filter is None,
            FollowUpMove::FindBridges(_) => answers.bridge is None,
            FollowUpMove::Merge(_) => answers.merged is None,
            FollowUpMove::MeasureEnds(_) => answers.ends is None,
            FollowUpMove::Settled(_) => true,
        },
{
}

/// Nothing is drawn anew: every line that is added was drawn, is a bridge, or comes
/// from merging these.
pub proof fn settled_lines_were_there(
    drawn: Seq<Seq<Coord>>,
    follow_up: FollowUp,
    answers: FollowUpAnswers,
    eps: Measure,
    line: Seq<Coord>,
)
    requires
        follow_up_move(drawn, follow_up, answers, eps) matches FollowUpMove::Settled(added)
            && added.contains(line),
    ensures
        follow_up == FollowUp::Keep ==> drawn.contains(line),
        follow_up != FollowUp::Keep ==> to_trim(drawn, follow_up, answers, eps).contains(line)
            || (answers.merged is Some && lines(answers.merged->0@).contains(line)),
{
    if follow_up != FollowUp::Keep {
        let connections = to_trim(drawn, follow_up, answers, eps);
        if connections.len() > 1 {
            let all = exploded(connections, lines(answers.merged->0@));
            if all.len() > 1 {
                let tolerance = eps.greater(Measure { bits: crate::types::ONE });
                let keep = crate::connections::is_fast(all, answers.ends->0@, tolerance);
                crate::lists::select_holds_kept(all, keep, all.len() as int);
                let k = choose|k: int| 0 <= k < all.len() && keep(k) && all[k] == line;
                assert(all.contains(line));
            }
        }
    }
}

} // verus!
