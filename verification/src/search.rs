use vstd::prelude::*;
use std::collections::VecDeque;
use crate::datacentre::{
    adjacency, connects, hop_distance, is_walk, lemma_hop_distance, lemma_walk_extends, links_closed, links_simple,
    shortest, walk_of,
};
use crate::marks::{count_true, lemma_count_true_all, lemma_count_true_gap, lemma_count_true_mark};

verus! {

/// A node met on the way out from a server: the node, the node it was met from, and how far
/// that one lies from the server.
#[derive(Clone, Copy, Debug, PartialEq, Eq)]
pub struct Visit {
    pub node: usize,
    pub prev: usize,
    pub dist: usize,
}

/// What holds of the visits of a search from `start`.
///
/// The first visit is that of `start` itself. Every other visit meets a node from one of
/// its neighbours, no node twice from the same neighbour, and the distances never fall.
pub open spec fn visits_ok(adj: Seq<Seq<usize>>, start: int, visits: Seq<Visit>) -> bool {
    &&& visits.len() > 0
    &&& visits[0] == (Visit { node: start as usize, prev: start as usize, dist: 0 })
    &&& forall|e: int|
        0 < e < visits.len() ==> {
            &&& (#[trigger] visits[e]).node < adj.len()
            &&& visits[e].prev < adj.len()
            &&& adj[visits[e].prev as int].contains(visits[e].node)
        }
    &&& forall|e: int, f: int|
        0 <= e < f < visits.len() ==> (#[trigger] visits[e]).dist <= (#[trigger] visits[f]).dist && !(visits[e].node
            == visits[f].node && visits[e].prev == visits[f].prev)
    &&& forall|e: int| 0 < e < visits.len() ==> (#[trigger] visits[e]).node != start
}

/// The search meets node `x`.
pub open spec fn meets(visits: Seq<Visit>, x: int) -> bool {
    exists|e: int| 0 <= e < visits.len() && (#[trigger] visits[e]).node == x
}

/// The level of the node of visit `e` as that visit finds it: one more than that of the node
/// that it was met from.
pub open spec fn level_at(visits: Seq<Visit>, e: int) -> int {
    if e == 0 {
        0
    } else {
        visits[e].dist + 1
    }
}

/// Visit `e` is the first of its node.
pub open spec fn first_at(visits: Seq<Visit>, e: int) -> bool {
    forall|f: int| 0 <= f < e ==> (#[trigger] visits[f]).node != visits[e].node
}

/// Visit `e` meets its node from a node whose first visit came earlier, and tells the level
/// of that node.
pub open spec fn met_from_first(visits: Seq<Visit>, e: int) -> bool {
    exists|q: int|
        0 <= q < e && first_at(visits, q) && (#[trigger] visits[q]).node == visits[e].prev && visits[e].dist
            == level_at(visits, q)
}

/// Node `x` was met before visit `upto`.
pub open spec fn met_before(visits: Seq<Visit>, upto: int, x: usize) -> bool {
    exists|q: int| 0 <= q < upto && (#[trigger] visits[q]).node == x
}

/// The link from the node of visit `q` to node `v` was followed, or `v` had been met before.
pub open spec fn edge_seen(visits: Seq<Visit>, q: int, v: usize) -> bool {
    ||| exists|e: int| 0 < e < visits.len() && (#[trigger] visits[e]).node == v && visits[e].prev == visits[q].node
    ||| met_before(visits, q, v)
}

/// All links from the node of visit `q` were followed, but those to nodes met before.
pub open spec fn edges_seen(adj: Seq<Seq<usize>>, visits: Seq<Visit>, q: int, upto: int) -> bool {
    forall|k: int| 0 <= k < upto ==> edge_seen(visits, q, #[trigger] adj[visits[q].node as int][k])
}

/// The visits are those of a search that goes outwards level by level: every node is met
/// from nodes whose own first visit came earlier, and every link from a node that was met
/// was followed, but those to nodes met before.
pub open spec fn levelled(adj: Seq<Seq<usize>>, start: int, visits: Seq<Visit>) -> bool {
    &&& visits_ok(adj, start, visits)
    &&& 0 <= start < adj.len()
    &&& forall|e: int| 0 < e < visits.len() ==> #[trigger] met_from_first(visits, e)
    &&& forall|q: int|
        0 <= q < visits.len() && #[trigger] first_at(visits, q) ==> edges_seen(
            adj,
            visits,
            q,
            adj[visits[q].node as int].len() as int,
        )
}

/// The visits and the queue after the link from `curr`, at level `dist`, to `neighbour` was
/// looked at: a neighbour that has not been left is met, and waits to be looked at.
pub open spec fn met_one(
    visited: Seq<usize>,
    visits: Seq<Visit>,
    queue: Seq<(usize, usize)>,
    curr: usize,
    dist: usize,
    neighbour: usize,
) -> (Seq<Visit>, Seq<(usize, usize)>) {
    if visited.contains(neighbour) {
        (visits, queue)
    } else {
        (visits.push(Visit { node: neighbour, prev: curr, dist }), queue.push(((dist + 1) as usize, neighbour)))
    }
}

/// The visits and the queue after the first `upto` links from `curr` were looked at.
pub open spec fn met_all(
    row: Seq<usize>,
    visited: Seq<usize>,
    visits: Seq<Visit>,
    queue: Seq<(usize, usize)>,
    curr: usize,
    dist: usize,
    upto: int,
) -> (Seq<Visit>, Seq<(usize, usize)>)
    decreases upto,
{
    if upto <= 0 {
        (visits, queue)
    } else {
        let so_far = met_all(row, visited, visits, queue, curr, dist, upto - 1);
        met_one(visited, so_far.0, so_far.1, curr, dist, row[upto - 1])
    }
}

/// The visits of a search that has made the visits `visits`, has left the nodes `visited`,
/// and has the nodes of `queue` waiting, each with its level. The node that waits first is
/// looked at, unless it has been left: its links are looked at in their order, and it is
/// left.
pub open spec fn search_run(
    adj: Seq<Seq<usize>>,
    queue: Seq<(usize, usize)>,
    visited: Seq<usize>,
    visits: Seq<Visit>,
) -> Seq<Visit>
    decreases adj.len() - visited.len(), queue.len(),
{
    if queue.len() == 0 {
        visits
    } else {
        let dist = queue[0].0;
        let curr = queue[0].1;
        if visited.contains(curr) {
            search_run(adj, queue.drop_first(), visited, visits)
        } else if visited.len() >= adj.len() || curr >= adj.len() {
            visits
        } else {
            let met = met_all(adj[curr as int], visited, visits, queue.drop_first(), curr, dist, adj[curr as int].len() as int);
            search_run(adj, met.1, visited.push(curr), met.0)
        }
    }
}

/// The visits of the search from `start`, in their order.
pub open spec fn searched(adj: Seq<Seq<usize>>, start: int) -> Seq<Visit> {
    search_run(
        adj,
        seq![(0usize, start as usize)],
        Seq::empty(),
        seq![(Visit { node: start as usize, prev: start as usize, dist: 0 })],
    )
}

/// Visit `e` meets its node from a node that has been left, or, with `busy` set, from the
/// node of visit `h`.
spec fn from_left(visited: Seq<usize>, visits: Seq<Visit>, e: int, busy: bool, h: int) -> bool {
    visited.contains(visits[e].prev) || (busy && visits[e].prev == visits[h].node)
}

/// Whether `list` holds `x`.
fn holds(list: &Vec<usize>, x: usize) -> (r: bool)
    ensures
        r == list@.contains(x),
{
    let mut i: usize = 0;
    while i < list.len()
        invariant
            i <= list.len(),
            forall|j: int| 0 <= j < i ==> list@[j] != x,
        decreases list.len() - i,
    {
        if list[i] == x {
            return true;
        }
        i = i + 1;
    }
    false
}

/// A search under way.
struct Search {
    /// The nodes met and not yet looked at, each with its level.
    queue: VecDeque<(usize, usize)>,
    /// The nodes that have been left.
    visited: Vec<usize>,
    visits: Vec<Visit>,
    /// The number of visits whose node has been looked at.
    handled: Ghost<int>,
    left: Ghost<Seq<bool>>,
}

impl Search {
    /// What holds between two steps of the search, and, with `busy` set, while the node of
    /// visit `handled` is looked at.
    spec fn inv(&self, adj: Seq<Seq<usize>>, start: int, busy: bool) -> bool {
        let v = self.visits@;
        let h = self.handled@;
        let b: int = if busy { 1 } else { 0 };
        &&& visits_ok(adj, start, v)
        &&& 0 <= start < adj.len()
        &&& adj.len() <= usize::MAX
        &&& 0 <= h
        &&& h + b <= v.len()
        &&& self.queue@.len() == v.len() - h - b
        &&& forall|e: int|
            0 <= e < self.queue@.len() ==> (#[trigger] self.queue@[e]) == (
                level_at(v, h + b + e) as usize,
                v[h + b + e].node,
            )
        &&& self.left@.len() == adj.len()
        &&& self.visited.len() == count_true(self.left@)
        &&& forall|x: int| 0 <= x < adj.len() ==> (#[trigger] self.left@[x] <==> self.visited@.contains(x as usize))
        &&& forall|x: usize| #[trigger] self.visited@.contains(x) <==> met_before(v, h, x)
        &&& forall|e: int| 0 < e < v.len() ==> #[trigger] met_from_first(v, e)
        &&& forall|q: int|
            0 <= q < h && #[trigger] first_at(v, q) ==> edges_seen(adj, v, q, adj[v[q].node as int].len() as int)
        &&& forall|e: int| 0 <= e < v.len() ==> level_at(v, e) <= self.visited.len() + b
        &&& busy ==> level_at(v, h) <= self.visited.len()
        &&& forall|e: int| 0 < e < v.len() ==> #[trigger] from_left(self.visited@, v, e, busy, h)
        &&& h < v.len() ==> v.last().dist <= level_at(v, h)
    }

    /// Takes the next node to look at.
    fn take(&mut self, Ghost(adj): Ghost<Seq<Seq<usize>>>, Ghost(start): Ghost<int>) -> (r: (usize, usize))
        requires
            old(self).inv(adj, start, false),
            old(self).queue@.len() > 0,
        ensures
            final(self).visits@ == old(self).visits@,
            final(self).visited@ == old(self).visited@,
            final(self).left@ == old(self).left@,
            final(self).handled@ == old(self).handled@,
            final(self).queue@.len() + 1 == old(self).queue@.len(),
            final(self).queue@ == old(self).queue@.drop_first(),
            r == old(self).queue@[0],
            r.1 == old(self).visits@[old(self).handled@].node,
            r.0 == level_at(old(self).visits@, old(self).handled@),
            r.1 < adj.len(),
            final(self).inv(adj, start, true),
            final(self).skipped(adj, start),
    {
        let r = self.queue.pop_front().unwrap();
        proof {
            let v = self.visits@;
            let h = self.handled@;
            assert(self.queue@ =~= old(self).queue@.drop_first());
            assert(old(self).queue@[0] == (level_at(v, h + 0) as usize, v[h + 0].node));
            assert forall|e: int| 0 <= e < self.queue@.len() implies (#[trigger] self.queue@[e]) == (
                level_at(v, h + 1 + e) as usize,
                v[h + 1 + e].node,
            ) by {
                assert(self.queue@[e] == old(self).queue@[e + 1]);
            }
            if h > 0 {
                assert(v[h].node < adj.len());
            }
            assert forall|e: int| 0 < e < v.len() implies #[trigger] from_left(self.visited@, v, e, true, h) by {
                assert(from_left(self.visited@, v, e, false, h));
            }
        }
        r
    }

    /// What holds once a node that had been left before was taken from the queue: all but
    /// that the visit has been counted.
    spec fn skipped(&self, adj: Seq<Seq<usize>>, start: int) -> bool {
        let v = self.visits@;
        let h = self.handled@;
        &&& visits_ok(adj, start, v)
        &&& 0 <= start < adj.len()
        &&& adj.len() <= usize::MAX
        &&& 0 <= h < v.len()
        &&& self.queue@.len() == v.len() - h - 1
        &&& forall|e: int|
            0 <= e < self.queue@.len() ==> (#[trigger] self.queue@[e]) == (
                level_at(v, h + 1 + e) as usize,
                v[h + 1 + e].node,
            )
        &&& self.left@.len() == adj.len()
        &&& self.visited.len() == count_true(self.left@)
        &&& forall|x: int| 0 <= x < adj.len() ==> (#[trigger] self.left@[x] <==> self.visited@.contains(x as usize))
        &&& forall|x: usize| #[trigger] self.visited@.contains(x) <==> met_before(v, h, x)
        &&& forall|e: int| 0 < e < v.len() ==> #[trigger] met_from_first(v, e)
        &&& forall|q: int|
            0 <= q < h && #[trigger] first_at(v, q) ==> edges_seen(adj, v, q, adj[v[q].node as int].len() as int)
        &&& forall|e: int| 0 <= e < v.len() ==> level_at(v, e) <= self.visited.len()
        &&& forall|e: int| 0 < e < v.len() ==> #[trigger] from_left(self.visited@, v, e, false, h)
        &&& v.last().dist <= level_at(v, h)
    }

    /// Counts a visit whose node had been left before.
    fn skip(&mut self, Ghost(adj): Ghost<Seq<Seq<usize>>>, Ghost(start): Ghost<int>)
        requires
            old(self).skipped(adj, start),
            old(self).visited@.contains(old(self).visits@[old(self).handled@].node),
        ensures
            final(self).inv(adj, start, false),
            final(self).visits@ == old(self).visits@,
            final(self).visited@ == old(self).visited@,
            final(self).queue@ == old(self).queue@,
    {
        proof {
            let v = self.visits@;
            let h = self.handled@;
            let x = v[h].node;
            self.handled = Ghost(h + 1);
            if h + 1 < v.len() {
                assert(v[h].dist <= v[h + 1].dist);
                assert(v[0].dist <= v[h + 1].dist);
            }
            assert forall|y: usize| #[trigger] self.visited@.contains(y) <==> met_before(v, h + 1, y) by {
                if met_before(v, h + 1, y) {
                    let q = choose|q: int| 0 <= q < h + 1 && (#[trigger] v[q]).node == y;
                    if q == h {
                        assert(self.visited@.contains(x));
                    } else {
                        assert(met_before(v, h, y));
                    }
                }
                if self.visited@.contains(y) {
                    assert(met_before(v, h, y));
                    let q = choose|q: int| 0 <= q < h && (#[trigger] v[q]).node == y;
                    assert(v[q].node == y);
                }
            }
            assert forall|e: int| 0 < e < v.len() implies #[trigger] from_left(self.visited@, v, e, false, h + 1) by {
                assert(from_left(self.visited@, v, e, false, h));
            }
            assert forall|q: int| 0 <= q < h + 1 && #[trigger] first_at(v, q) implies edges_seen(
                adj,
                v,
                q,
                adj[v[q].node as int].len() as int,
            ) by {
                if q == h {
                    // The node had been met before, so this is not its first visit.
                    assert(met_before(v, h, x));
                    let f = choose|f: int| 0 <= f < h && (#[trigger] v[f]).node == x;
                    assert(v[f].node == v[h].node);
                }
            }
        }
    }

    /// Follows the link from the node that is looked at to its neighbour `neighbour`, unless
    /// the neighbour has been left.
    #[verifier::rlimit(80)]
    #[verifier::spinoff_prover]
    fn meet(
        &mut self,
        curr: usize,
        dist: usize,
        neighbour: usize,
        Ghost(adj): Ghost<Seq<Seq<usize>>>,
        Ghost(start): Ghost<int>,
        Ghost(k): Ghost<int>,
    )
        requires
            old(self).inv(adj, start, true),
            links_simple(adj),
            curr == old(self).visits@[old(self).handled@].node,
            dist == level_at(old(self).visits@, old(self).handled@),
            first_at(old(self).visits@, old(self).handled@),
            !old(self).visited@.contains(curr),
            0 <= k < adj[curr as int].len(),
            neighbour == adj[curr as int][k],
            neighbour < adj.len(),
            edges_seen(adj, old(self).visits@, old(self).handled@, k),
            // The links followed from this node so far are the first `k`.
            forall|e: int|
                0 < e < old(self).visits@.len() && (#[trigger] old(self).visits@[e]).prev == curr ==> exists|t: int|
                    0 <= t < k && adj[curr as int][t] == old(self).visits@[e].node,
            old(self).visits@.last().dist <= dist,
        ensures
            final(self).inv(adj, start, true),
            final(self).handled@ == old(self).handled@,
            final(self).visited@ == old(self).visited@,
            final(self).left@ == old(self).left@,
            final(self).visits@.len() >= old(self).visits@.len(),
            final(self).visits@.take(old(self).visits@.len() as int) == old(self).visits@,
            edges_seen(adj, final(self).visits@, final(self).handled@, k + 1),
            forall|e: int|
                0 < e < final(self).visits@.len() && (#[trigger] final(self).visits@[e]).prev == curr ==> exists|
                    t: int,
                |
                    0 <= t < k + 1 && adj[curr as int][t] == final(self).visits@[e].node,
            final(self).visits@.last().dist <= dist,
            final(self).queue@.len() >= old(self).queue@.len(),
            final(self).queue@.len() - old(self).queue@.len() == final(self).visits@.len() - old(self).visits@.len(),
            (final(self).visits@, final(self).queue@) == met_one(
                old(self).visited@,
                old(self).visits@,
                old(self).queue@,
                curr,
                dist,
                neighbour,
            ),
    {
        let ghost v0 = self.visits@;
        let ghost h = self.handled@;
        let ghost q0 = self.queue@;
        if !holds(&self.visited, neighbour) {
            proof {
                lemma_count_true_gap(self.left@, curr as int);
                assert(level_at(v0, h) <= self.visited.len());
            }
            self.visits.push(Visit { node: neighbour, prev: curr, dist });
            self.queue.push_back((dist + 1, neighbour));
            proof {
                let v = self.visits@;
                let new = v0.len() as int;
                assert(v.take(new) =~= v0);
                assert forall|e: int| 0 <= e < v0.len() implies #[trigger] v[e] == v0[e] by {}
                // The new visit is no node's second from the same neighbour.
                assert forall|e: int, f: int| 0 <= e < f < v.len() implies (#[trigger] v[e]).dist <= (
                #[trigger] v[f]).dist && !(v[e].node == v[f].node && v[e].prev == v[f].prev) by {
                    if f < new {
                        assert(v0[e].dist <= v0[f].dist);
                    } else {
                        assert(v0[e].dist <= v0[new - 1].dist);
                        if v[e].node == neighbour && v[e].prev == curr {
                            if e == 0 {
                                assert(adj[curr as int][k] != curr);
                            } else {
                                let t = choose|t: int| 0 <= t < k && adj[curr as int][t] == v0[e].node;
                                assert(adj[curr as int].no_duplicates());
                            }
                        }
                    }
                }
                if neighbour == start {
                    // The start was the first to be left.
                    if h == 0 {
                        assert(adj[curr as int][k] != curr);
                    } else {
                        assert(v[0].node == start);
                        assert(met_before(v0, h, start as usize));
                    }
                }
                assert(visits_ok(adj, start, v));
                assert forall|e: int| 0 <= e < self.queue@.len() implies (#[trigger] self.queue@[e]) == (
                    level_at(v, h + 1 + e) as usize,
                    v[h + 1 + e].node,
                ) by {
                    if e < q0.len() {
                        assert(self.queue@[e] == q0[e]);
                    }
                }
                assert forall|x: usize| #[trigger] self.visited@.contains(x) <==> met_before(v, h, x) by {
                    if met_before(v, h, x) {
                        let q = choose|q: int| 0 <= q < h && (#[trigger] v[q]).node == x;
                        assert(v0[q].node == x);
                        assert(met_before(v0, h, x));
                    }
                    if met_before(v0, h, x) {
                        let q = choose|q: int| 0 <= q < h && (#[trigger] v0[q]).node == x;
                        assert(v[q].node == x);
                    }
                }
                assert forall|q: int| 0 <= q < v0.len() && first_at(v0, q) implies first_at(v, q) by {
                    assert forall|f: int| 0 <= f < q implies (#[trigger] v[f]).node != v[q].node by {
                        assert(v0[f].node != v0[q].node);
                    }
                }
                assert forall|e: int| 0 < e < v.len() implies #[trigger] met_from_first(v, e) by {
                    if e < new {
                        assert(met_from_first(v0, e));
                        let q = choose|q: int|
                            0 <= q < e && first_at(v0, q) && (#[trigger] v0[q]).node == v0[e].prev && v0[e].dist
                                == level_at(v0, q);
                        assert(v[q].node == v[e].prev);
                    } else {
                        assert(v[h].node == v[e].prev);
                    }
                }
                lemma_edges_stay(adj, v0, v, h);
                assert forall|q: int| 0 <= q < h && #[trigger] first_at(v, q) implies edges_seen(
                    adj,
                    v,
                    q,
                    adj[v[q].node as int].len() as int,
                ) by {
                    assert forall|f: int| 0 <= f < q implies (#[trigger] v0[f]).node != v0[q].node by {
                        assert(v[f].node != v[q].node);
                    }
                    assert(first_at(v0, q));
                    assert(edges_seen(adj, v0, q, adj[v0[q].node as int].len() as int));
                }
                assert(edges_seen(adj, v, h, k + 1)) by {
                    assert(edges_seen(adj, v0, h, k));
                    assert(edges_seen(adj, v, h, k));
                    assert(v[new].node == neighbour && v[new].prev == v[h].node);
                    assert(edge_seen(v, h, neighbour));
                }
                assert(edge_seen(v, h, neighbour)) by {
                    assert(v[new].node == neighbour && v[new].prev == v[h].node);
                }
                assert forall|e: int| 0 < e < v.len() && (#[trigger] v[e]).prev == curr implies exists|t: int|
                    0 <= t < k + 1 && adj[curr as int][t] == v[e].node by {
                    if e < new {
                        assert(v0[e].prev == curr);
                        let t = choose|t: int| 0 <= t < k && adj[curr as int][t] == v0[e].node;
                        assert(adj[curr as int][t] == v[e].node);
                    } else {
                        assert(adj[curr as int][k] == v[e].node);
                    }
                }
                assert forall|e: int| 0 <= e < v.len() implies level_at(v, e) <= self.visited.len() + 1 by {
                    if e < new {
                        assert(level_at(v0, e) <= self.visited.len() + 1);
                    }
                }
                assert forall|e: int| 0 < e < v.len() implies #[trigger] from_left(self.visited@, v, e, true, h) by {
                    if e < new {
                        assert(from_left(self.visited@, v0, e, true, h));
                    }
                }
            }
        } else {
            proof {
                assert(met_before(v0, h, neighbour));
            }
        }
    }

    /// Leaves the node that was looked at.
    fn leave(&mut self, curr: usize, Ghost(adj): Ghost<Seq<Seq<usize>>>, Ghost(start): Ghost<int>)
        requires
            old(self).inv(adj, start, true),
            curr == old(self).visits@[old(self).handled@].node,
            curr < adj.len(),
            !old(self).visited@.contains(curr),
            edges_seen(adj, old(self).visits@, old(self).handled@, adj[curr as int].len() as int),
        ensures
            final(self).inv(adj, start, false),
            final(self).visits@ == old(self).visits@,
            final(self).queue@ == old(self).queue@,
            final(self).visited@.len() == old(self).visited@.len() + 1,
            final(self).visited@ == old(self).visited@.push(curr),
    {
        let ghost done0 = self.visited@;
        let ghost left0 = self.left@;
        self.visited.push(curr);
        proof {
            let v = self.visits@;
            let h = self.handled@;
            lemma_count_true_mark(left0, curr as int);
            self.left = Ghost(left0.update(curr as int, true));
            self.handled = Ghost(h + 1);
            if h + 1 < v.len() {
                assert(v[h].dist <= v[h + 1].dist);
                assert(v[0].dist <= v[h + 1].dist);
            }
            assert forall|y: usize| #[trigger] self.visited@.contains(y) <==> (done0.contains(y) || y == curr) by {
                if done0.contains(y) {
                    let e = choose|e: int| 0 <= e < done0.len() && done0[e] == y;
                    assert(self.visited@[e] == y);
                }
                if self.visited@.contains(y) {
                    let e = choose|e: int| 0 <= e < self.visited@.len() && self.visited@[e] == y;
                    if e < done0.len() {
                        assert(done0[e] == y);
                    }
                }
                assert(self.visited@[done0.len() as int] == curr);
            }
            assert forall|y: usize| #[trigger] self.visited@.contains(y) <==> met_before(v, h + 1, y) by {
                if met_before(v, h + 1, y) {
                    let q = choose|q: int| 0 <= q < h + 1 && (#[trigger] v[q]).node == y;
                    if q < h {
                        assert(met_before(v, h, y));
                    }
                }
                if done0.contains(y) {
                    assert(met_before(v, h, y));
                    let q = choose|q: int| 0 <= q < h && (#[trigger] v[q]).node == y;
                    assert(v[q].node == y);
                }
                if y == curr {
                    assert(v[h].node == y);
                }
            }
            assert forall|x: int| 0 <= x < adj.len() implies (#[trigger] self.left@[x] <==> self.visited@.contains(
                x as usize,
            )) by {
                if x != curr {
                    assert(left0[x] <==> done0.contains(x as usize));
                }
            }
            assert forall|e: int| 0 < e < v.len() implies #[trigger] from_left(self.visited@, v, e, false, h + 1) by {
                assert(from_left(done0, v, e, true, h));
                assert(self.visited@.contains(v[e].prev));
            }
        }
    }
}

/// What was seen of the links of a node stays seen when more visits follow.
proof fn lemma_edges_stay(adj: Seq<Seq<usize>>, before: Seq<Visit>, after: Seq<Visit>, upto: int)
    requires
        before.len() <= after.len(),
        forall|e: int| 0 <= e < before.len() ==> #[trigger] after[e] == before[e],
        0 <= upto <= before.len(),
    ensures
        forall|q: int, v: usize| 0 <= q < upto + 1 && q < before.len() && edge_seen(before, q, v) ==> #[trigger] edge_seen(after, q, v),
        forall|q: int, k: int| 0 <= q < upto + 1 && q < before.len() && edges_seen(adj, before, q, k) ==> #[trigger] edges_seen(adj, after, q, k),
{
    assert forall|q: int, v: usize| 0 <= q < upto + 1 && q < before.len() && edge_seen(before, q, v) implies #[trigger] edge_seen(
        after,
        q,
        v,
    ) by {
        if met_before(before, q, v) {
            let f = choose|f: int| 0 <= f < q && (#[trigger] before[f]).node == v;
            assert(after[f].node == v);
        } else {
            let e = choose|e: int|
                0 < e < before.len() && (#[trigger] before[e]).node == v && before[e].prev == before[q].node;
            assert(after[e].node == v && after[e].prev == after[q].node);
        }
    }
    assert forall|q: int, k: int| 0 <= q < upto + 1 && q < before.len() && edges_seen(adj, before, q, k) implies #[trigger] edges_seen(
        adj,
        after,
        q,
        k,
    ) by {
        assert forall|t: int| 0 <= t < k implies edge_seen(after, q, #[trigger] adj[after[q].node as int][t]) by {
            assert(edge_seen(before, q, adj[before[q].node as int][t]));
        }
    }
}

/// Every visit has a first visit of its node at or before it.
pub proof fn lemma_first_visit(visits: Seq<Visit>, e: int) -> (q: int)
    requires
        0 <= e < visits.len(),
    ensures
        0 <= q <= e,
        first_at(visits, q),
        visits[q].node == visits[e].node,
    decreases e,
{
    if first_at(visits, e) {
        e
    } else {
        let f = choose|f: int| 0 <= f < e && (#[trigger] visits[f]).node == visits[e].node;
        lemma_first_visit(visits, f)
    }
}

/// A set of nodes that holds `from` and, with every node, its neighbours, holds every node
/// that a walk from `from` leads to.
pub proof fn lemma_closed_set_holds_walks(adj: Seq<Seq<usize>>, inside: Seq<bool>, path: Seq<int>, k: int)
    requires
        inside.len() == adj.len(),
        adj.len() <= usize::MAX,
        is_walk(adj, path),
        inside[path[0]],
        forall|i: int, e: int|
            0 <= i < adj.len() && inside[i] && 0 <= e < adj[i].len() && (#[trigger] adj[i][e]) < adj.len()
                ==> inside[adj[i][e] as int],
        0 <= k < path.len(),
    ensures
        inside[path[k]],
    decreases k,
{
    if k > 0 {
        lemma_closed_set_holds_walks(adj, inside, path, k - 1);
        let before = k - 1;
        let i = path[before];
        assert(adj[path[before]].contains(path[before + 1] as usize));
        let e = choose|e: int| 0 <= e < adj[i].len() && adj[i][e] == path[k] as usize;
        assert(adj[i][e] < adj.len());
    }
}

/// Searches the network outwards from `start`, level by level.
///
/// Every node that a walk from `start` leads to is met, from each of its neighbours that is
/// looked at before the node itself has been left.
pub fn equal_cost_search(start: usize, graph: &Vec<Vec<usize>>) -> (visits: Vec<Visit>)
    requires
        start < graph.len(),
        links_closed(adjacency(graph@)),
        links_simple(adjacency(graph@)),
    ensures
        levelled(adjacency(graph@), start as int, visits@),
        forall|x: int| 0 <= x < graph.len() && connects(adjacency(graph@), start as int, x) ==> meets(visits@, x),
        visits@ == searched(adjacency(graph@), start as int),
{
    let ghost adj = adjacency(graph@);
    let n = graph.len();
    let handled: Ghost<int> = Ghost(0int);
    let ghost none: Seq<bool> = Seq::new(n as nat, |x: int| false);
    let left: Ghost<Seq<bool>> = Ghost(none);
    let mut search = Search { queue: VecDeque::new(), visited: Vec::new(), visits: Vec::new(), handled, left };
    search.visits.push(Visit { node: start, prev: start, dist: 0 });
    search.queue.push_back((0, start));
    proof {
        lemma_count_true_all(none);
        assert forall|x: usize| #[trigger] search.visited@.contains(x) <==> met_before(search.visits@, 0, x) by {}
        assert(search.queue@ =~= seq![(0usize, start)]);
        assert(search.visited@ =~= Seq::<usize>::empty());
        assert(search.visits@ =~= seq![(Visit { node: start, prev: start, dist: 0 })]);
    }

    while search.queue.len() > 0
        invariant
            searched(adj, start as int) == search_run(adj, search.queue@, search.visited@, search.visits@),
            n == graph.len(),
            adj == adjacency(graph@),
            links_closed(adj),
            links_simple(adj),
            search.inv(adj, start as int, false),
        decreases n - search.visited.len(), search.queue@.len(),
    {
        proof {
            lemma_count_true_all(search.left@);
        }
        let ghost h = search.handled@;
        let ghost v_in = search.visits@;
        let ghost visited_in = search.visited@;
        let ghost q_in = search.queue@;
        let (dist, curr) = search.take(Ghost(adj), Ghost(start as int));
        let ghost q_rest = search.queue@;
        if holds(&search.visited, curr) {
            search.skip(Ghost(adj), Ghost(start as int));
        } else {
            proof {
                lemma_count_true_gap(search.left@, curr as int);
                assert forall|e: int| 0 < e < v_in.len() implies (#[trigger] v_in[e]).prev != curr by {
                    assert(from_left(search.visited@, v_in, e, false, h));
                }
                // The node was not met before: this is its first visit.
                assert forall|f: int| 0 <= f < h implies (#[trigger] v_in[f]).node != v_in[h].node by {
                    if v_in[f].node == curr {
                        assert(met_before(v_in, h, curr));
                    }
                }
            }
            let neighbours = &graph[curr];
            let mut k: usize = 0;
            while k < neighbours.len()
                invariant
                    k <= neighbours.len(),
                    n == graph.len(),
                    adj == adjacency(graph@),
                    links_closed(adj),
                    links_simple(adj),
                    curr < n,
                    neighbours@ == adj[curr as int],
                    search.inv(adj, start as int, true),
                    search.handled@ == h,
                    0 <= h < v_in.len(),
                    search.visits@.len() >= v_in.len(),
                    search.visits@.take(v_in.len() as int) == v_in,
                    curr == v_in[h].node,
                    dist == level_at(v_in, h),
                    first_at(v_in, h),
                    !search.visited@.contains(curr),
                    search.visited@ == visited_in,
                    edges_seen(adj, search.visits@, h, k as int),
                    forall|e: int|
                        0 < e < search.visits@.len() && (#[trigger] search.visits@[e]).prev == curr ==> exists|t: int|
                            0 <= t < k && adj[curr as int][t] == search.visits@[e].node,
                    search.visits@.last().dist <= dist,
                    search.visited.len() < n,
                    (search.visits@, search.queue@) == met_all(adj[curr as int], visited_in, v_in, q_rest, curr, dist, k as int),
                decreases neighbours.len() - k,
            {
                let ghost v_k = search.visits@;
                proof {
                    assert(adj[curr as int][k as int] < n);
                    assert(v_k[h] == v_k.take(v_in.len() as int)[h]);
                    assert forall|f: int| 0 <= f < h implies (#[trigger] v_k[f]).node != v_k[h].node by {
                        assert(v_k[f] == v_k.take(v_in.len() as int)[f]);
                    }
                }
                search.meet(curr, dist, neighbours[k], Ghost(adj), Ghost(start as int), Ghost(k as int));
                proof {
                    let v = search.visits@;
                    assert(v.take(v_in.len() as int) =~= v_in) by {
                        assert forall|e: int| 0 <= e < v_in.len() implies v[e] == v_in[e] by {
                            assert(v_k[e] == v_k.take(v_in.len() as int)[e]);
                            assert(v[e] == v.take(v_k.len() as int)[e]);
                        }
                    }
                }
                k = k + 1;
            }
            proof {
                assert(search.visits@[h] == search.visits@.take(v_in.len() as int)[h]);
            }
            search.leave(curr, Ghost(adj), Ghost(start as int));
            proof {
                assert(search_run(adj, q_in, visited_in, v_in) == search_run(
                    adj,
                    search.queue@,
                    search.visited@,
                    search.visits@,
                ));
            }
        }
        proof {
            lemma_count_true_all(search.left@);
        }
    }
    proof {
        let v = search.visits@;
        let left = search.left@;
        assert(search.handled@ == v.len());
        assert forall|x: int| 0 <= x < n && meets(v, x) implies left[x] by {
            let e = choose|e: int| 0 <= e < v.len() && (#[trigger] v[e]).node == x;
            assert(met_before(v, v.len() as int, x as usize));
        }
        assert forall|i: int, e: int|
            0 <= i < adj.len() && left[i] && 0 <= e < adj[i].len() && (#[trigger] adj[i][e]) < adj.len() implies left[adj[i][e] as int] by {
            assert(search.visited@.contains(i as usize));
            assert(met_before(v, v.len() as int, i as usize));
            let any = choose|q: int| 0 <= q < v.len() && (#[trigger] v[q]).node == i as usize;
            let q = lemma_first_visit(v, any);
            assert(edges_seen(adj, v, q, adj[v[q].node as int].len() as int));
            let to = adj[i][e];
            assert(edge_seen(v, q, adj[v[q].node as int][e]));
            if met_before(v, q, to) {
                let f = choose|f: int| 0 <= f < q && (#[trigger] v[f]).node == to;
                assert(met_before(v, v.len() as int, to));
            } else {
                let f = choose|f: int| 0 < f < v.len() && (#[trigger] v[f]).node == to && v[f].prev == v[q].node;
                assert(met_before(v, v.len() as int, to));
            }
            assert(search.visited@.contains(to));
        }
        assert(left[start as int]) by {
            assert(v[0].node == start);
            assert(met_before(v, v.len() as int, start));
        }
        assert forall|x: int| 0 <= x < n && connects(adj, start as int, x) implies meets(v, x) by {
            let path = choose|path: Seq<int>| is_walk(adj, path) && path[0] == start as int && path.last() == x;
            lemma_closed_set_holds_walks(adj, left, path, path.len() - 1);
            assert(search.visited@.contains(x as usize));
            assert(met_before(v, v.len() as int, x as usize));
            let e = choose|e: int| 0 <= e < v.len() && (#[trigger] v[e]).node == x as usize;
            assert(v[e].node == x);
        }
    }
    search.visits
}

/// The first visit of node `x`.
pub open spec fn first_visit(visits: Seq<Visit>, x: int) -> int {
    choose|q: int| 0 <= q < visits.len() && first_at(visits, q) && (#[trigger] visits[q]).node == x
}

/// The level of node `x`: that which its first visit finds it at.
pub open spec fn node_level(visits: Seq<Visit>, x: int) -> int {
    level_at(visits, first_visit(visits, x))
}

/// A node that is met has one first visit.
pub proof fn lemma_first_visit_of(visits: Seq<Visit>, x: int)
    requires
        meets(visits, x),
    ensures
        0 <= first_visit(visits, x) < visits.len(),
        first_at(visits, first_visit(visits, x)),
        visits[first_visit(visits, x)].node == x,
        forall|q: int|
            0 <= q < visits.len() && #[trigger] first_at(visits, q) && visits[q].node == x ==> q == first_visit(
                visits,
                x,
            ),
        forall|e: int| 0 <= e < visits.len() && (#[trigger] visits[e]).node == x ==> first_visit(visits, x) <= e,
{
    let e = choose|e: int| 0 <= e < visits.len() && (#[trigger] visits[e]).node == x;
    let q = lemma_first_visit(visits, e);
    assert(visits[q].node == x);
    let first = first_visit(visits, x);
    assert forall|q: int| 0 <= q < visits.len() && #[trigger] first_at(visits, q) && visits[q].node == x implies q
        == first by {
        if q < first {
            assert(visits[q].node != visits[first].node);
        } else if first < q {
            assert(visits[first].node != visits[q].node);
        }
    }
    assert forall|e: int| 0 <= e < visits.len() && (#[trigger] visits[e]).node == x implies first <= e by {
        if e < first {
            assert(visits[e].node != visits[first].node);
        }
    }
}

/// The levels never fall from one visit to the next.
pub proof fn lemma_levels_rise(adj: Seq<Seq<usize>>, start: int, visits: Seq<Visit>, e: int, f: int)
    requires
        visits_ok(adj, start, visits),
        0 <= e <= f < visits.len(),
    ensures
        level_at(visits, e) <= level_at(visits, f),
{
    if e < f {
        assert(visits[e].dist <= visits[f].dist);
    }
}

/// A walk of as many links as its level leads from the start to a node.
pub proof fn lemma_level_walk(adj: Seq<Seq<usize>>, start: int, visits: Seq<Visit>, q: int)
    requires
        levelled(adj, start, visits),
        adj.len() <= usize::MAX,
        0 <= q < visits.len(),
        first_at(visits, q),
    ensures
        walk_of(adj, start, visits[q].node as int, level_at(visits, q)),
    decreases q,
{
    if q == 0 {
        let path = seq![start];
        assert(is_walk(adj, path));
        assert(path.last() == start);
    } else {
        assert(met_from_first(visits, q));
        let p = choose|p: int|
            0 <= p < q && first_at(visits, p) && (#[trigger] visits[p]).node == visits[q].prev && visits[q].dist
                == level_at(visits, p);
        lemma_level_walk(adj, start, visits, p);
        assert(visits[q].prev < adj.len());
        lemma_walk_extends(adj, start, visits[p].node as int, visits[q].node, level_at(visits, p));
    }
}

/// Along a link the level rises by one at most.
pub proof fn lemma_edge_rises(adj: Seq<Seq<usize>>, start: int, visits: Seq<Visit>, u: int, v: usize)
    requires
        levelled(adj, start, visits),
        meets(visits, u),
        0 <= u < adj.len(),
        adj[u].contains(v),
    ensures
        meets(visits, v as int),
        node_level(visits, v as int) <= node_level(visits, u) + 1,
{
    lemma_first_visit_of(visits, u);
    let q = first_visit(visits, u);
    let t = choose|t: int| 0 <= t < adj[u].len() && adj[u][t] == v;
    assert(edges_seen(adj, visits, q, adj[visits[q].node as int].len() as int));
    assert(edge_seen(visits, q, adj[visits[q].node as int][t]));
    if met_before(visits, q, v) {
        let f = choose|f: int| 0 <= f < q && (#[trigger] visits[f]).node == v;
        assert(visits[f].node == v as int);
        lemma_first_visit_of(visits, v as int);
        lemma_levels_rise(adj, start, visits, first_visit(visits, v as int), q);
    } else {
        let e = choose|e: int| 0 < e < visits.len() && (#[trigger] visits[e]).node == v && visits[e].prev == visits[q].node;
        assert(visits[e].node == v as int);
        lemma_first_visit_of(visits, v as int);
        assert(met_from_first(visits, e));
        let p = choose|p: int|
            0 <= p < e && first_at(visits, p) && (#[trigger] visits[p]).node == visits[e].prev && visits[e].dist
                == level_at(visits, p);
        assert(p == q);
        lemma_levels_rise(adj, start, visits, first_visit(visits, v as int), e);
    }
}

/// A node at the end of a walk of `k` links from the start lies at level `k` at most.
pub proof fn lemma_level_least(adj: Seq<Seq<usize>>, start: int, visits: Seq<Visit>, path: Seq<int>, k: int)
    requires
        levelled(adj, start, visits),
        adj.len() <= usize::MAX,
        is_walk(adj, path),
        path[0] == start,
        0 <= k < path.len(),
    ensures
        meets(visits, path[k]),
        node_level(visits, path[k]) <= k,
    decreases k,
{
    if k == 0 {
        assert(visits[0].node == start);
        lemma_first_visit_of(visits, start);
        assert(first_at(visits, 0));
    } else {
        lemma_level_least(adj, start, visits, path, k - 1);
        let before = k - 1;
        assert(adj[path[before]].contains(path[before + 1] as usize));
        lemma_edge_rises(adj, start, visits, path[k - 1], path[k] as usize);
    }
}

/// The level of a node is the number of links of a shortest walk to it from the start.
pub proof fn lemma_level_is_distance(adj: Seq<Seq<usize>>, start: int, visits: Seq<Visit>, x: int)
    requires
        levelled(adj, start, visits),
        adj.len() <= usize::MAX,
        meets(visits, x),
    ensures
        shortest(adj, start, x, node_level(visits, x)),
        hop_distance(adj, start, x) == node_level(visits, x),
{
    lemma_first_visit_of(visits, x);
    lemma_level_walk(adj, start, visits, first_visit(visits, x));
    let level = node_level(visits, x);
    assert forall|shorter: int| #[trigger] walk_of(adj, start, x, shorter) implies level <= shorter by {
        let path = choose|path: Seq<int>|
            is_walk(adj, path) && path.len() == shorter + 1 && path[0] == start && #[trigger] path.last() == x;
        lemma_level_least(adj, start, visits, path, shorter);
    }
    lemma_hop_distance(adj, start, x, level);
}

} // verus!
