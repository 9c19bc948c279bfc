use vstd::prelude::*;
use crate::distance_matrix::{names_servers, sorted_by_distance, DistanceCell};

verus! {

/// The server in cell `i` of `row` has room for `req`.
pub open spec fn fits(req: usize, row: Seq<DistanceCell>, capacities: Seq<usize>, i: int) -> bool {
    0 <= i < row.len() && capacities[row[i].node_id as int] >= req
}

/// No server of `row` has room for `req`.
pub open spec fn no_fit(req: usize, row: Seq<DistanceCell>, capacities: Seq<usize>) -> bool {
    forall|i: int| 0 <= i < row.len() ==> !#[trigger] fits(req, row, capacities, i)
}

/// Cell `i` is the first of `row` whose server has room for `req`.
pub open spec fn first_fit(req: usize, row: Seq<DistanceCell>, capacities: Seq<usize>, i: int) -> bool {
    &&& fits(req, row, capacities, i)
    &&& forall|j: int| 0 <= j < i ==> !#[trigger] fits(req, row, capacities, j)
}

/// The server in cell `i` has room for `req` and is as near as the nearest server that has.
pub open spec fn nearest_fit(req: usize, row: Seq<DistanceCell>, capacities: Seq<usize>, i: int) -> bool {
    &&& fits(req, row, capacities, i)
    &&& forall|j: int| 0 <= j < row.len() && #[trigger] fits(req, row, capacities, j) ==> row[i].distance <= row[j].distance
}

/// Among the nearest servers with room for `req`, that in cell `i` has the least room, and
/// is the first in the row of those that have.
pub open spec fn best_fit(req: usize, row: Seq<DistanceCell>, capacities: Seq<usize>, i: int) -> bool {
    &&& nearest_fit(req, row, capacities, i)
    &&& forall|j: int|
        0 <= j < row.len() && #[trigger] nearest_fit(req, row, capacities, j) ==> {
            let here = capacities[row[i].node_id as int];
            let there = capacities[row[j].node_id as int];
            here < there || (here == there && i <= j)
        }
}

/// Among the nearest servers with room for `req`, that in cell `i` has the most room, and
/// is the last in the row of those that have.
pub open spec fn worst_fit(req: usize, row: Seq<DistanceCell>, capacities: Seq<usize>, i: int) -> bool {
    &&& nearest_fit(req, row, capacities, i)
    &&& forall|j: int|
        0 <= j < row.len() && #[trigger] nearest_fit(req, row, capacities, j) ==> {
            let here = capacities[row[i].node_id as int];
            let there = capacities[row[j].node_id as int];
            here > there || (here == there && i >= j)
        }
}

/// A rule that picks the server to place a VNF on.
pub trait NodeSelection {
    /// Whether the rule can read `row`.
    spec fn reads(&self, row: Seq<DistanceCell>) -> bool;

    /// The cell of `row` that the rule picks for a VNF of size `req`, where some server of
    /// the row has room for it.
    spec fn picks(&self, req: usize, row: Seq<DistanceCell>, capacities: Seq<usize>, i: int) -> bool;

    /// The rule picks at most one cell.
    proof fn lemma_picks_one(&self, req: usize, row: Seq<DistanceCell>, capacities: Seq<usize>, i: int, j: int)
        requires
            self.picks(req, row, capacities, i),
            self.picks(req, row, capacities, j),
        ensures
            i == j,
    ;

    /// The server to place a VNF of size `req_capacity` on: one of `row`, which lists servers
    /// by their distance from where the VNF before it was placed. `None` if no server of the
    /// row has room.
    fn select(&self, req_capacity: usize, row: &Vec<DistanceCell>, capacities: &Vec<usize>) -> (r: Option<usize>)
        requires
            names_servers(row@, capacities.len() as int),
            self.reads(row@),
        ensures
            r is None <==> no_fit(req_capacity, row@, capacities@),
            r matches Some(node) ==> exists|i: int|
                0 <= i < row.len() && #[trigger] self.picks(req_capacity, row@, capacities@, i) && fits(
                    req_capacity,
                    row@,
                    capacities@,
                    i,
                ) && row[i].node_id == node,
    ;
}

/// Picks the first server with room.
#[derive(Clone, Copy, Debug)]
pub struct FirstFit {}

impl FirstFit {
    pub fn new() -> (r: FirstFit) {
        FirstFit {  }
    }
}

impl NodeSelection for FirstFit {
    open spec fn reads(&self, row: Seq<DistanceCell>) -> bool {
        true
    }

    open spec fn picks(&self, req: usize, row: Seq<DistanceCell>, capacities: Seq<usize>, i: int) -> bool {
        first_fit(req, row, capacities, i)
    }

    proof fn lemma_picks_one(&self, req: usize, row: Seq<DistanceCell>, capacities: Seq<usize>, i: int, j: int) {
        if i < j {
            assert(!fits(req, row, capacities, i));
        } else if j < i {
            assert(!fits(req, row, capacities, j));
        }
    }

    fn select(&self, req_capacity: usize, row: &Vec<DistanceCell>, capacities: &Vec<usize>) -> (r: Option<usize>) {
        let mut i: usize = 0;
        while i < row.len()
            invariant
                i <= row.len(),
                names_servers(row@, capacities.len() as int),
                forall|j: int| 0 <= j < i ==> !#[trigger] fits(req_capacity, row@, capacities@, j),
            decreases row.len() - i,
        {
            let node = row[i].node_id;
            if capacities[node] >= req_capacity {
                proof {
                    assert(fits(req_capacity, row@, capacities@, i as int));
                    assert(self.picks(req_capacity, row@, capacities@, i as int));
                }
                return Some(node);
            }
            i = i + 1;
        }
        None
    }
}

/// Picks, among the nearest servers with room, the one with the least room.
#[derive(Clone, Copy, Debug)]
pub struct BestFit {}

impl BestFit {
    pub fn new() -> (r: BestFit) {
        BestFit {  }
    }
}

impl NodeSelection for BestFit {
    open spec fn reads(&self, row: Seq<DistanceCell>) -> bool {
        sorted_by_distance(row)
    }

    open spec fn picks(&self, req: usize, row: Seq<DistanceCell>, capacities: Seq<usize>, i: int) -> bool {
        best_fit(req, row, capacities, i)
    }

    proof fn lemma_picks_one(&self, req: usize, row: Seq<DistanceCell>, capacities: Seq<usize>, i: int, j: int) {
        assert(nearest_fit(req, row, capacities, i));
        assert(nearest_fit(req, row, capacities, j));
    }

    fn select(&self, req_capacity: usize, row: &Vec<DistanceCell>, capacities: &Vec<usize>) -> (r: Option<usize>) {
        let mut best: Option<usize> = None;
        let mut best_capacity: usize = usize::MAX;
        let mut i: usize = 0;
        let mut passed = false;
        while i < row.len() && !passed
            invariant
                i <= row.len(),
                names_servers(row@, capacities.len() as int),
                sorted_by_distance(row@),
                passed ==> i < row.len() && best is Some && row[best->Some_0 as int].distance < row[i as int].distance,
                best is None ==> forall|j: int| 0 <= j < i ==> !#[trigger] fits(req_capacity, row@, capacities@, j),
                best matches Some(b) ==> {
                    &&& b < i
                    &&& fits(req_capacity, row@, capacities@, b as int)
                    &&& best_capacity == capacities[row[b as int].node_id as int]
                    &&& forall|j: int|
                        0 <= j < i && #[trigger] fits(req_capacity, row@, capacities@, j) ==> {
                            &&& row[b as int].distance <= row[j].distance
                            &&& row[j].distance == row[b as int].distance ==> {
                                let there = capacities[row[j].node_id as int];
                                best_capacity < there || (best_capacity == there && b <= j)
                            }
                        }
                },
            decreases row.len() - i + if passed { 0int } else { 1int },
        {
            let cell = row[i];
            // Only the nearest servers with room are considered.
            passed = match best {
                Some(b) => row[b].distance < cell.distance,
                None => false,
            };
            if !passed {
                let capacity = capacities[cell.node_id];
                if capacity >= req_capacity && (best.is_none() || capacity < best_capacity) {
                    proof {
                        assert(fits(req_capacity, row@, capacities@, i as int));
                    }
                    best = Some(i);
                    best_capacity = capacity;
                }
                i = i + 1;
            }
        }
        match best {
            None => None,
            Some(b) => {
                proof {
                    assert forall|j: int| 0 <= j < row.len() && #[trigger] fits(
                        req_capacity,
                        row@,
                        capacities@,
                        j,
                    ) implies row[b as int].distance <= row[j].distance && (row[j].distance == row[b as int].distance
                        ==> {
                        let there = capacities[row[j].node_id as int];
                        best_capacity < there || (best_capacity == there && b <= j)
                    }) by {
                        if j >= i {
                            assert(passed);
                            assert(row[i as int].distance <= row[j].distance);
                        }
                    }
                    assert(nearest_fit(req_capacity, row@, capacities@, b as int));
                    assert(best_fit(req_capacity, row@, capacities@, b as int));
                    assert(self.picks(req_capacity, row@, capacities@, b as int));
                }
                Some(row[b].node_id)
            },
        }
    }
}

/// Picks, among the nearest servers with room, the one with the most room.
#[derive(Clone, Copy, Debug)]
pub struct WorstFit {}

impl WorstFit {
    pub fn new() -> (r: WorstFit) {
        WorstFit {  }
    }
}

impl NodeSelection for WorstFit {
    open spec fn reads(&self, row: Seq<DistanceCell>) -> bool {
        sorted_by_distance(row)
    }

    open spec fn picks(&self, req: usize, row: Seq<DistanceCell>, capacities: Seq<usize>, i: int) -> bool {
        worst_fit(req, row, capacities, i)
    }

    proof fn lemma_picks_one(&self, req: usize, row: Seq<DistanceCell>, capacities: Seq<usize>, i: int, j: int) {
        assert(nearest_fit(req, row, capacities, i));
        assert(nearest_fit(req, row, capacities, j));
    }

    fn select(&self, req_capacity: usize, row: &Vec<DistanceCell>, capacities: &Vec<usize>) -> (r: Option<usize>) {
        let mut best: Option<usize> = None;
        let mut best_capacity: usize = req_capacity;
        let mut i: usize = 0;
        let mut passed = false;
        while i < row.len() && !passed
            invariant
                i <= row.len(),
                names_servers(row@, capacities.len() as int),
                sorted_by_distance(row@),
                passed ==> i < row.len() && best is Some && row[best->Some_0 as int].distance < row[i as int].distance,
                best_capacity >= req_capacity,
                best is None ==> best_capacity == req_capacity,
                best is None ==> forall|j: int| 0 <= j < i ==> !#[trigger] fits(req_capacity, row@, capacities@, j),
                best matches Some(b) ==> {
                    &&& b < i
                    &&& fits(req_capacity, row@, capacities@, b as int)
                    &&& best_capacity == capacities[row[b as int].node_id as int]
                    &&& forall|j: int|
                        0 <= j < i && #[trigger] fits(req_capacity, row@, capacities@, j) ==> {
                            &&& row[b as int].distance <= row[j].distance
                            &&& row[j].distance == row[b as int].distance ==> {
                                let there = capacities[row[j].node_id as int];
                                best_capacity > there || (best_capacity == there && b >= j)
                            }
                        }
                },
            decreases row.len() - i + if passed { 0int } else { 1int },
        {
            let cell = row[i];
            // Only the nearest servers with room are considered.
            passed = match best {
                Some(b) => row[b].distance < cell.distance,
                None => false,
            };
            if !passed {
                let capacity = capacities[cell.node_id];
                if capacity >= best_capacity {
                    proof {
                        assert(fits(req_capacity, row@, capacities@, i as int));
                    }
                    best = Some(i);
                    best_capacity = capacity;
                }
                i = i + 1;
            }
        }
        match best {
            None => None,
            Some(b) => {
                proof {
                    assert forall|j: int| 0 <= j < row.len() && #[trigger] fits(
                        req_capacity,
                        row@,
                        capacities@,
                        j,
                    ) implies row[b as int].distance <= row[j].distance && (row[j].distance == row[b as int].distance
                        ==> {
                        let there = capacities[row[j].node_id as int];
                        best_capacity > there || (best_capacity == there && b >= j)
                    }) by {
                        if j >= i {
                            assert(passed);
                            assert(row[i as int].distance <= row[j].distance);
                        }
                    }
                    assert(nearest_fit(req_capacity, row@, capacities@, b as int));
                    assert(worst_fit(req_capacity, row@, capacities@, b as int));
                    assert(self.picks(req_capacity, row@, capacities@, b as int));
                }
                Some(row[b].node_id)
            },
        }
    }
}

} // verus!
