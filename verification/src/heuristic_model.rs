use vstd::prelude::*;
use std::collections::HashSet;
use crate::datacentre::Datacentre;
use crate::route::{NodeType, RouteNode};

verus! {

/// The datacentre nodes that the first `upto` nodes of a route pass through.
pub open spec fn route_components(route: Seq<RouteNode>, upto: int) -> Set<usize>
    decreases upto,
{
    if upto <= 0 {
        Set::empty()
    } else {
        let before = route_components(route, upto - 1);
        match route[upto - 1].node_type {
            NodeType::Component(id) => before.insert(id),
            NodeType::VNF(_, _) => before,
        }
    }
}

/// The datacentre nodes that the first `upto` routes pass through.
pub open spec fn components_used(routes: Seq<(usize, Vec<RouteNode>)>, upto: int) -> Set<usize>
    decreases upto,
{
    if upto <= 0 {
        Set::empty()
    } else {
        components_used(routes, upto - 1).union(
            route_components(routes[upto - 1].1@, routes[upto - 1].1@.len() as int),
        )
    }
}

/// The number of nodes of the first `upto` routes together.
pub open spec fn total_length(routes: Seq<(usize, Vec<RouteNode>)>, upto: int) -> nat
    decreases upto,
{
    if upto <= 0 {
        0
    } else {
        total_length(routes, upto - 1) + routes[upto - 1].1@.len()
    }
}

proof fn lemma_total_length_grows(routes: Seq<(usize, Vec<RouteNode>)>, a: int, b: int)
    requires
        a <= b,
    ensures
        total_length(routes, a) <= total_length(routes, b),
    decreases b - a,
{
    if a < b {
        lemma_total_length_grows(routes, a, b - 1);
    }
}

/// A rule of thumb for the worth of a placement: the fewer nodes its routes pass through,
/// and the shorter they are, the better.
pub struct HeuristicModel<'a> {
    pub dc: &'a Datacentre,
}

impl<'a> HeuristicModel<'a> {
    pub fn new(dc: &'a Datacentre) -> (r: HeuristicModel<'a>)
        ensures
            r.dc == dc,
    {
        HeuristicModel { dc }
    }

    /// The number of different datacentre nodes that the routes pass through, and the number
    /// of nodes of all routes together.
    pub fn tally(&self, routes: &Vec<(usize, Vec<RouteNode>)>) -> (r: (usize, usize))
        requires
            total_length(routes@, routes.len() as int) <= usize::MAX,
        ensures
            r.0 == components_used(routes@, routes.len() as int).len(),
            r.1 == total_length(routes@, routes.len() as int),
    {
        let mut ids: HashSet<usize> = HashSet::new();
        let mut sum_len: usize = 0;
        let mut m: usize = 0;
        while m < routes.len()
            invariant
                m <= routes.len(),
                ids@ == components_used(routes@, m as int),
                sum_len == total_length(routes@, m as int),
                total_length(routes@, routes.len() as int) <= usize::MAX,
            decreases routes.len() - m,
        {
            let route = &routes[m].1;
            let ghost before = ids@;
            let mut k: usize = 0;
            while k < route.len()
                invariant
                    k <= route.len(),
                    ids@ == before.union(route_components(route@, k as int)),
                decreases route.len() - k,
            {
                let ghost seen = ids@;
                if let NodeType::Component(id) = route[k].node_type {
                    ids.insert(id);
                }
                proof {
                    assert(ids@ =~= before.union(route_components(route@, k as int + 1)));
                }
                k = k + 1;
            }
            proof {
                lemma_total_length_grows(routes@, m as int + 1, routes.len() as int);
            }
            sum_len = sum_len + route.len();
            m = m + 1;
        }
        (ids.len(), sum_len)
    }
}

} // verus!
