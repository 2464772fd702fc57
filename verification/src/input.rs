//! The network that a simplification starts from.
use crate::types::{lines, EdgeStatus, LineString, StreetNetwork};
use vstd::prelude::*;

verus! {

/// There are not as many identifiers as lines.
#[derive(Clone, Copy, PartialEq, Eq, Structural, Debug)]
pub struct IdMismatch {
    pub n_ids: usize,
    pub n_geometries: usize,
}

/// The identifier of the edge `k`: the one given for it, or its position.
pub open spec fn own_id(edge_ids: Option<Vec<u64>>, k: int) -> usize {
    match edge_ids {
        Some(ids) => ids@[k] as usize,
        None => k as usize,
    }
}

impl StreetNetwork {
    /// The network of the lines as they are given: each edge descends from itself.
    /// The identifiers of the edges are their positions, unless others are given.
    pub fn original(geometries: Vec<LineString>, edge_ids: &Option<Vec<u64>>) -> (r: Result<
        StreetNetwork,
        IdMismatch,
    >)
        ensures
            match r {
                Ok(network) => {
                    &&& *edge_ids matches Some(ids) ==> ids@.len() == geometries@.len()
                    &&& network.wf()
                    &&& lines(network.geometries@) == lines(geometries@)
                    &&& forall|k: int|
                        0 <= k < geometries@.len() ==> (#[trigger] network@[k]).status
                            == EdgeStatus::Original && network@[k].parents =~= seq![
                            own_id(*edge_ids, k),
                        ]
                    &&& *edge_ids matches Some(ids) ==> forall|k: int|
                        0 <= k < geometries@.len() ==> (#[trigger] network@[k]).parents =~= seq![
                            ids@[k] as usize,
                        ]
                    &&& *edge_ids is None ==> forall|k: int|
                        0 <= k < geometries@.len() ==> (#[trigger] network@[k]).parents =~= seq![
                            k as usize,
                        ]
                },
                Err(error) => {
                    &&& *edge_ids matches Some(ids) && ids@.len() != geometries@.len()
                        && error.n_ids == ids@.len()
                    &&& error.n_geometries == geometries@.len()
                },
            },
    {
        let n = geometries.len();
        match edge_ids {
            Some(ids) => {
                if ids.len() != n {
                    return Err(IdMismatch { n_ids: ids.len(), n_geometries: n });
                }
            },
            None => {},
        }
        let mut statuses: Vec<EdgeStatus> = Vec::new();
        let mut parent_ids: Vec<Vec<usize>> = Vec::new();
        let mut k: usize = 0;
        while k < n
            invariant
                k <= n,
                *edge_ids matches Some(ids) ==> ids@.len() == n,
                statuses@.len() == k,
                parent_ids@.len() == k,
                forall|j: int| 0 <= j < k ==> #[trigger] statuses@[j] == EdgeStatus::Original,
                forall|j: int|
                    0 <= j < k ==> (#[trigger] parent_ids@[j])@ == seq![own_id(*edge_ids, j)],
            decreases n - k,
        {
            let id: usize = match edge_ids {
                Some(ids) => ids[k] as usize,
                None => k,
            };
            let mut own: Vec<usize> = Vec::new();
            own.push(id);
            assert(own@ =~= seq![own_id(*edge_ids, k as int)]);
            statuses.push(EdgeStatus::Original);
            parent_ids.push(own);
            k = k + 1;
        }
        let network = StreetNetwork { geometries, statuses, parent_ids };
        assert forall|j: int| 0 <= j < n implies (#[trigger] network@[j]).status
            == EdgeStatus::Original && network@[j].parents =~= seq![own_id(*edge_ids, j)] by {
            assert(network.statuses@[j] == EdgeStatus::Original);
            assert(network.parent_ids@[j]@ == seq![own_id(*edge_ids, j)]);
        }
        Ok(network)
    }
}

} // verus!
