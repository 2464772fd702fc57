//! How new lines are prepared before they enter the network.
use crate::connections::{exploded, merge_and_explode};
use crate::dedup::{dedup_geometries, fresh};
use crate::lists::select;
use crate::types::{copy_lines, lines, Coord, LineString};
use vstd::prelude::*;

verus! {

/// What was answered so far.
#[derive(Debug)]
pub struct AdditionAnswers {
    /// What merging the lines gave.
    pub merged: Option<Vec<LineString>>,
    /// The merged lines in normalised form.
    pub normalized: Option<Vec<LineString>>,
}

/// What is done next with the lines to add.
#[derive(Debug)]
pub enum AdditionStep {
    /// Merge the lines.
    Merge(Vec<LineString>),
    /// Normalise the lines.
    Normalize(Vec<LineString>),
    /// Simplify the lines; they can be added then.
    Simplify(Vec<LineString>),
}

/// A step by the lines that it is about.
#[verifier::ext_equal]
pub enum AdditionMove {
    Merge(Seq<Seq<Coord>>),
    Normalize(Seq<Seq<Coord>>),
    Simplify(Seq<Seq<Coord>>),
}

impl View for AdditionStep {
    type V = AdditionMove;

    open spec fn view(&self) -> AdditionMove {
        match *self {
            AdditionStep::Merge(list) => AdditionMove::Merge(lines(list@)),
            AdditionStep::Normalize(list) => AdditionMove::Normalize(lines(list@)),
            AdditionStep::Simplify(list) => AdditionMove::Simplify(lines(list@)),
        }
    }
}

/// The lines of a merge, each once: without those that an earlier line is the same
/// as.
pub open spec fn distinct(all: Seq<Seq<Coord>>, normalized: Seq<Seq<Coord>>) -> Seq<Seq<Coord>> {
    select(all, fresh(normalized), all.len() as int)
}

/// What is done next with the lines to add.
pub open spec fn addition_move(to_add: Seq<Seq<Coord>>, answers: AdditionAnswers) -> AdditionMove {
    if to_add.len() == 0 {
        AdditionMove::Simplify(Seq::empty())
    } else if answers.merged is None {
        AdditionMove::Merge(to_add)
    } else {
        let all = exploded(to_add, lines(answers.merged->0@));
        if answers.normalized is None {
            AdditionMove::Normalize(all)
        } else {
            AdditionMove::Simplify(distinct(all, lines(answers.normalized->0@)))
        }
    }
}

/// Goes on with lines that are to be added: they are merged, and repetitions are
/// left out. What is left is to be simplified.
pub fn prepare_additions(to_add: &Vec<LineString>, answers: &AdditionAnswers) -> (r: AdditionStep)
    requires
        to_add@.len() > 0 && answers.merged is Some && answers.normalized is Some
            ==> answers.normalized->0@.len() == exploded(
            lines(to_add@),
            lines(answers.merged->0@),
        ).len(),
    ensures
        r@ == addition_move(lines(to_add@), *answers),
{
    if to_add.len() == 0 {
        let none: Vec<LineString> = Vec::new();
        assert(lines(none@) =~= Seq::empty());
        return AdditionStep::Simplify(none);
    }
    let merged = match &answers.merged {
        None => {
            return AdditionStep::Merge(copy_lines(to_add));
        },
        Some(merged) => merged,
    };
    let all = merge_and_explode(to_add, merged);
    assert(lines(all@).len() == all@.len());
    match &answers.normalized {
        None => AdditionStep::Normalize(all),
        Some(normalized) => AdditionStep::Simplify(dedup_geometries(&all, normalized)),
    }
}

/// Of lines that come out the same when normalised, the first one is kept.
pub proof fn first_of_each_is_added(all: Seq<Seq<Coord>>, normalized: Seq<Seq<Coord>>, i: int)
    requires
        normalized.len() == all.len(),
        0 <= i < all.len(),
        forall|j: int| 0 <= j < i ==> #[trigger] crate::dedup::line_key(normalized[j])
            != crate::dedup::line_key(normalized[i]),
    ensures
        distinct(all, normalized).contains(all[i]),
{
    crate::lists::select_holds_kept(all, fresh(normalized), all.len() as int);
    assert(fresh(normalized)(i));
}

} // verus!
