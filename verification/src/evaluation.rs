use vstd::prelude::*;
use crate::route::RouteNode;
use crate::service::Service;

verus! {

/// The ids of the services that routes were laid out for.
pub open spec fn placed_ids(routes: Seq<(usize, Vec<RouteNode>)>) -> Seq<usize> {
    Seq::new(routes.len(), |m: int| routes[m].0)
}

/// The number of services with an id below `upto` that are not among `ids`.
pub open spec fn unplaced(ids: Seq<usize>, upto: int) -> nat
    decreases upto,
{
    if upto <= 0 {
        0
    } else {
        unplaced(ids, upto - 1) + if ids.contains((upto - 1) as usize) { 0nat } else { 1nat }
    }
}

/// The number of services that no route was laid out for.
pub fn num_unplaced(routes: &Vec<(usize, Vec<RouteNode>)>, services: &Vec<Service>) -> (r: usize)
    requires
        forall|m: int| 0 <= m < routes.len() ==> (#[trigger] routes[m]).0 < services.len(),
    ensures
        r == unplaced(placed_ids(routes@), services.len() as int),
        r <= services.len(),
{
    let ghost ids = placed_ids(routes@);
    let mut seen: Vec<bool> = Vec::new();
    let mut k: usize = 0;
    while k < services.len()
        invariant
            k <= services.len(),
            seen.len() == k,
            forall|e: int| 0 <= e < k ==> !#[trigger] seen[e],
        decreases services.len() - k,
    {
        seen.push(false);
        k = k + 1;
    }
    let mut m: usize = 0;
    while m < routes.len()
        invariant
            m <= routes.len(),
            ids == placed_ids(routes@),
            seen.len() == services.len(),
            forall|e: int| 0 <= e < routes.len() ==> (#[trigger] routes[e]).0 < services.len(),
            forall|x: int| 0 <= x < seen.len() ==> (#[trigger] seen[x] <==> ids.take(m as int).contains(x as usize)),
        decreases routes.len() - m,
    {
        let s_id = routes[m].0;
        let ghost before = seen@;
        seen[s_id] = true;
        proof {
            let a = ids.take(m as int);
            let b = ids.take(m as int + 1);
            assert(b =~= a.push(s_id));
            assert forall|x: int| 0 <= x < seen.len() implies (#[trigger] seen[x] <==> b.contains(x as usize)) by {
                if x == s_id {
                    assert(b[m as int] == s_id);
                } else {
                    if b.contains(x as usize) {
                        let e = choose|e: int| 0 <= e < b.len() && b[e] == x as usize;
                        assert(a[e] == x as usize);
                    }
                    if a.contains(x as usize) {
                        let e = choose|e: int| 0 <= e < a.len() && a[e] == x as usize;
                        assert(b[e] == x as usize);
                    }
                }
            }
        }
        m = m + 1;
    }
    proof {
        assert(ids.take(routes.len() as int) =~= ids);
    }
    let mut count: usize = 0;
    let mut k: usize = 0;
    while k < services.len()
        invariant
            k <= services.len(),
            seen.len() == services.len(),
            count == unplaced(ids, k as int),
            count <= k,
            forall|x: int| 0 <= x < seen.len() ==> (#[trigger] seen[x] <==> ids.contains(x as usize)),
        decreases services.len() - k,
    {
        if !seen[k] {
            count = count + 1;
        }
        k = k + 1;
    }
    count
}

/// How far a placement that leaves `num_unplaced` services without a route violates the
/// constraints: not at all where every service has a route; else by the number of services
/// without one, or by 0 where that number is not to count.
pub fn violation(num_unplaced: usize, use_hf_cnstr: bool) -> (r: Option<usize>)
    ensures
        r == if num_unplaced == 0 {
            None::<usize>
        } else if use_hf_cnstr {
            Some(num_unplaced)
        } else {
            Some(0usize)
        },
{
    if num_unplaced == 0 {
        None
    } else if use_hf_cnstr {
        Some(num_unplaced)
    } else {
        Some(0)
    }
}

} // verus!
