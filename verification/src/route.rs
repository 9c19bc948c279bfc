use vstd::prelude::*;
use std::collections::VecDeque;
use crate::marks::{count_true, lemma_count_true_all, lemma_count_true_mark};

verus! {

/// What a node of a route graph stands for.
#[derive(Debug, Clone, Copy, PartialEq, Eq)]
pub enum NodeType {
    /// A server or switch of the datacentre that traffic passes through.
    Component(usize),
    /// A VNF instance: the server that hosts it and its stage in the service chain.
    VNF(usize, usize),
}

/// A node of a route graph. Nodes live in a vector and refer to each other by position.
#[derive(Debug)]
pub struct RouteNode {
    pub node_type: NodeType,
    /// The number of routes that enter the node.
    pub route_count: u32,
    /// The nodes that traffic leaving this node is split over.
    pub next_nodes: Vec<usize>,
}

impl RouteNode {
    pub(crate) fn new_component(dc_node_id: usize) -> (r: RouteNode)
        ensures
            r.node_type == NodeType::Component(dc_node_id),
            r.route_count == 1,
            r.next_nodes@ == Seq::<usize>::empty(),
    {
        RouteNode { node_type: NodeType::Component(dc_node_id), route_count: 1, next_nodes: Vec::new() }
    }

    pub(crate) fn new_vnf(dc_node_id: usize, stage: usize) -> (r: RouteNode)
        ensures
            r.node_type == NodeType::VNF(dc_node_id, stage),
            r.route_count == 1,
            r.next_nodes@ == Seq::<usize>::empty(),
    {
        RouteNode { node_type: NodeType::VNF(dc_node_id, stage), route_count: 1, next_nodes: Vec::new() }
    }

    pub fn is_vnf(&self) -> (r: bool)
        ensures
            r == (self.node_type is VNF),
    {
        match self.node_type {
            NodeType::Component(_) => false,
            NodeType::VNF(_, _) => true,
        }
    }

    /// The datacentre node the route node sits on.
    pub fn dc_id(&self) -> (r: usize)
        ensures
            r == self.spec_dc_id(),
    {
        match self.node_type {
            NodeType::Component(node_id) => node_id,
            NodeType::VNF(node_id, _) => node_id,
        }
    }

    pub open spec fn spec_dc_id(&self) -> usize {
        match self.node_type {
            NodeType::Component(node_id) => node_id,
            NodeType::VNF(node_id, _) => node_id,
        }
    }
}

impl Clone for RouteNode {
    fn clone(&self) -> (r: Self)
        ensures
            r.node_type == self.node_type,
            r.route_count == self.route_count,
            r.next_nodes@ == self.next_nodes@,
    {
        RouteNode {
            node_type: self.node_type,
            route_count: self.route_count,
            next_nodes: self.next_nodes.clone(),
        }
    }
}

/// The successor lists of a route graph, node by node.
pub open spec fn successors(route: Seq<RouteNode>) -> Seq<Seq<usize>> {
    Seq::new(route.len(), |i: int| route[i].next_nodes@)
}

/// Every successor is a node of the graph.
pub open spec fn closed(adj: Seq<Seq<usize>>) -> bool {
    forall|i: int, k: int| 0 <= i < adj.len() && 0 <= k < adj[i].len() ==> #[trigger] adj[i][k] < adj.len()
}

/// How often `j` occurs in `s`.
pub open spec fn count_of(s: Seq<usize>, j: int) -> nat
    decreases s.len(),
{
    if s.len() == 0 {
        0
    } else {
        count_of(s.drop_last(), j) + if s.last() == j { 1nat } else { 0nat }
    }
}

/// The number of edges that enter node `j`.
pub open spec fn edges_into(adj: Seq<Seq<usize>>, j: int) -> nat
    decreases adj.len(),
{
    if adj.len() == 0 {
        0
    } else {
        edges_into(adj.drop_last(), j) + count_of(adj.last(), j)
    }
}

/// `path` walks along edges of the graph.
pub open spec fn is_path(adj: Seq<Seq<usize>>, path: Seq<int>) -> bool {
    &&& path.len() > 0
    &&& forall|k: int| 0 <= k < path.len() ==> 0 <= #[trigger] path[k] < adj.len()
    &&& forall|k: int| 0 <= k < path.len() - 1 ==> adj[path[k]].contains((#[trigger] path[k + 1]) as usize)
}

/// Node `to` can be reached from node `from` along edges.
pub open spec fn reachable(adj: Seq<Seq<usize>>, from: int, to: int) -> bool {
    exists|path: Seq<int>| is_path(adj, path) && path[0] == from && path.last() == to
}

/// `order` lists every node of the graph exactly once.
pub open spec fn is_permutation(order: Seq<usize>, n: int) -> bool {
    &&& order.len() == n
    &&& forall|k: int| 0 <= k < order.len() ==> #[trigger] order[k] < n
    &&& order.no_duplicates()
}

pub proof fn lemma_count_push(s: Seq<usize>, x: usize, j: int)
    ensures
        count_of(s.push(x), j) == count_of(s, j) + if x == j { 1nat } else { 0nat },
{
    assert(s.push(x).drop_last() =~= s);
}

pub proof fn lemma_count_absent(s: Seq<usize>, j: int)
    requires
        forall|k: int| 0 <= k < s.len() ==> s[k] != j,
    ensures
        count_of(s, j) == 0,
    decreases s.len(),
{
    if s.len() > 0 {
        lemma_count_absent(s.drop_last(), j);
    }
}

pub proof fn lemma_count_no_duplicates(s: Seq<usize>, j: int)
    requires
        s.no_duplicates(),
    ensures
        count_of(s, j) <= 1,
    decreases s.len(),
{
    if s.len() > 0 {
        lemma_count_no_duplicates(s.drop_last(), j);
        if s.last() == j {
            lemma_count_absent(s.drop_last(), j);
        }
    }
}

pub proof fn lemma_count_positive(s: Seq<usize>, j: int)
    ensures
        count_of(s, j) > 0 <==> exists|k: int| 0 <= k < s.len() && s[k] == j,
    decreases s.len(),
{
    if s.len() > 0 {
        lemma_count_positive(s.drop_last(), j);
        if s.last() == j {
            assert(s[s.len() - 1] == j);
        } else if count_of(s, j) > 0 {
            let k = choose|k: int| 0 <= k < s.drop_last().len() && s.drop_last()[k] == j;
            assert(s[k] == j);
        } else if exists|k: int| 0 <= k < s.len() && s[k] == j {
            let k = choose|k: int| 0 <= k < s.len() && s[k] == j;
            assert(s.drop_last()[k] == j);
        }
    }
}

pub proof fn lemma_edges_push(adj: Seq<Seq<usize>>, row: Seq<usize>, j: int)
    ensures
        edges_into(adj.push(row), j) == edges_into(adj, j) + count_of(row, j),
{
    assert(adj.push(row).drop_last() =~= adj);
}

pub proof fn lemma_edges_update(adj: Seq<Seq<usize>>, i: int, row: Seq<usize>, j: int)
    requires
        0 <= i < adj.len(),
    ensures
        edges_into(adj.update(i, row), j) + count_of(adj[i], j) == edges_into(adj, j) + count_of(row, j),
    decreases adj.len(),
{
    if i == adj.len() - 1 {
        assert(adj.update(i, row).drop_last() =~= adj.drop_last());
    } else {
        lemma_edges_update(adj.drop_last(), i, row, j);
        assert(adj.update(i, row).drop_last() =~= adj.drop_last().update(i, row));
    }
}

/// A node has at most as many entering edges as there are nodes, if no node lists a
/// successor twice.
pub proof fn lemma_edges_bounded(adj: Seq<Seq<usize>>, j: int)
    requires
        forall|i: int| 0 <= i < adj.len() ==> (#[trigger] adj[i]).no_duplicates(),
    ensures
        edges_into(adj, j) <= adj.len(),
    decreases adj.len(),
{
    if adj.len() > 0 {
        assert forall|i: int| 0 <= i < adj.drop_last().len() implies (#[trigger] adj.drop_last()[i]).no_duplicates() by {
            assert(adj.drop_last()[i] == adj[i]);
        }
        lemma_edges_bounded(adj.drop_last(), j);
        lemma_count_no_duplicates(adj.last(), j);
    }
}

/// Some node before `t` has `t` as a successor.
pub open spec fn has_earlier_parent(adj: Seq<Seq<usize>>, t: int) -> bool {
    exists|i: int| 0 <= i < t && (#[trigger] adj[i]).contains(t as usize)
}

/// If every node but the first has a predecessor before it, every node can be reached from
/// the first.
pub proof fn lemma_reachable_from_root(adj: Seq<Seq<usize>>, j: int)
    requires
        forall|t: int| 0 < t < adj.len() ==> #[trigger] has_earlier_parent(adj, t),
        0 <= j < adj.len(),
    ensures
        reachable(adj, 0, j),
    decreases j,
{
    if j == 0 {
        let path = seq![0int];
        assert(is_path(adj, path));
        assert(path[0] == 0 && path.last() == 0);
    } else {
        assert(has_earlier_parent(adj, j));
        let i = choose|i: int| 0 <= i < j && (#[trigger] adj[i]).contains(j as usize);
        lemma_reachable_from_root(adj, i);
        let p = choose|path: Seq<int>| is_path(adj, path) && path[0] == 0 && path.last() == i;
        let path = p.push(j);
        assert forall|k: int| 0 <= k < path.len() - 1 implies adj[path[k]].contains((#[trigger] path[k + 1]) as usize) by {
            if k < p.len() - 1 {
                assert(path[k] == p[k]);
                assert(path[k + 1] == p[k + 1]);
            } else {
                assert(path[k] == i);
                assert(path[k + 1] == j);
            }
        }
        assert(is_path(adj, path));
        assert(path[0] == 0 && path.last() == j);
    }
}

/// Every node counts at least the edges that enter it, the first node one more: the route's
/// entry.
pub open spec fn counts_cover(route: Seq<RouteNode>) -> bool {
    forall|j: int|
        0 <= j < route.len() ==> (#[trigger] route[j]).route_count >= edges_into(successors(route), j) + if j == 0 {
            1int
        } else {
            0int
        }
}

/// Every node counts exactly the edges that enter it, the first node one more, and no count
/// is zero.
pub open spec fn counts_exact(route: Seq<RouteNode>) -> bool {
    forall|j: int|
        0 <= j < route.len() ==> (#[trigger] route[j]).route_count >= 1 && route[j].route_count == edges_into(
            successors(route),
            j,
        ) + if j == 0 {
            1int
        } else {
            0int
        }
}

/// `rank` grows along every edge.
pub open spec fn ranks(adj: Seq<Seq<usize>>, rank: Seq<nat>) -> bool {
    &&& rank.len() == adj.len()
    &&& forall|i: int, k: int|
        0 <= i < adj.len() && 0 <= k < adj[i].len() && adj[i][k] < adj.len() ==> rank[i] < rank[#[trigger] adj[i][k] as int]
}

/// The graph has no cycle.
pub open spec fn acyclic(adj: Seq<Seq<usize>>) -> bool {
    exists|rank: Seq<nat>| ranks(adj, rank)
}

/// In `order`, every node stands behind all the nodes that have an edge to it.
pub open spec fn respects_edges(adj: Seq<Seq<usize>>, order: Seq<usize>) -> bool {
    forall|k: int, i: int|
        0 <= k < order.len() && 0 <= i < adj.len() && (#[trigger] adj[i]).contains(#[trigger] order[k]) ==> exists|
            e: int,
        |
            0 <= e < k && order[e] == i
}

/// The edges that enter `j` from nodes marked in `done`.
spec fn edges_from_done(adj: Seq<Seq<usize>>, done: Seq<bool>, j: int) -> nat
    decreases adj.len(),
{
    if adj.len() == 0 {
        0
    } else {
        edges_from_done(adj.drop_last(), done.drop_last(), j) + if done.last() {
            count_of(adj.last(), j)
        } else {
            0
        }
    }
}

proof fn lemma_done_none(adj: Seq<Seq<usize>>, done: Seq<bool>, j: int)
    requires
        done.len() == adj.len(),
        forall|i: int| 0 <= i < done.len() ==> !done[i],
    ensures
        edges_from_done(adj, done, j) == 0,
    decreases adj.len(),
{
    if adj.len() > 0 {
        lemma_done_none(adj.drop_last(), done.drop_last(), j);
    }
}

proof fn lemma_done_mark(adj: Seq<Seq<usize>>, done: Seq<bool>, i: int, j: int)
    requires
        done.len() == adj.len(),
        0 <= i < adj.len(),
        !done[i],
    ensures
        edges_from_done(adj, done.update(i, true), j) == edges_from_done(adj, done, j) + count_of(adj[i], j),
    decreases adj.len(),
{
    if i == adj.len() - 1 {
        assert(done.update(i, true).drop_last() =~= done.drop_last());
    } else {
        lemma_done_mark(adj.drop_last(), done.drop_last(), i, j);
        assert(done.update(i, true).drop_last() =~= done.drop_last().update(i, true));
    }
}

/// The marked nodes account for all edges into `j` only if every node with an edge to `j` is
/// marked.
proof fn lemma_done_partial(adj: Seq<Seq<usize>>, done: Seq<bool>, j: int)
    requires
        done.len() == adj.len(),
    ensures
        edges_from_done(adj, done, j) <= edges_into(adj, j),
        edges_from_done(adj, done, j) == edges_into(adj, j) ==> forall|i: int|
            0 <= i < adj.len() && count_of(#[trigger] adj[i], j) > 0 ==> done[i],
    decreases adj.len(),
{
    if adj.len() > 0 {
        lemma_done_partial(adj.drop_last(), done.drop_last(), j);
        if edges_from_done(adj, done, j) == edges_into(adj, j) {
            assert forall|i: int| 0 <= i < adj.len() && count_of(#[trigger] adj[i], j) > 0 implies done[i] by {
                if i < adj.len() - 1 {
                    assert(adj.drop_last()[i] == adj[i]);
                    assert(done.drop_last()[i] == done[i]);
                }
            }
        }
    }
}

/// The sum of the counts.
pub open spec fn total(counts: Seq<u32>) -> nat
    decreases counts.len(),
{
    if counts.len() == 0 {
        0
    } else {
        total(counts.drop_last()) + counts.last() as nat
    }
}

proof fn lemma_total_update(counts: Seq<u32>, i: int, v: u32)
    requires
        0 <= i < counts.len(),
    ensures
        total(counts.update(i, v)) + counts[i] == total(counts) + v,
    decreases counts.len(),
{
    if i == counts.len() - 1 {
        assert(counts.update(i, v).drop_last() =~= counts.drop_last());
    } else {
        lemma_total_update(counts.drop_last(), i, v);
        assert(counts.update(i, v).drop_last() =~= counts.drop_last().update(i, v));
    }
}

proof fn lemma_count_concat(a: Seq<usize>, b: Seq<usize>, j: int)
    ensures
        count_of(a + b, j) == count_of(a, j) + count_of(b, j),
    decreases b.len(),
{
    if b.len() == 0 {
        assert(a + b =~= a);
    } else {
        lemma_count_concat(a, b.drop_last(), j);
        assert((a + b).drop_last() =~= a + b.drop_last());
    }
}

proof fn lemma_count_pop_front(s: Seq<usize>, j: int)
    requires
        s.len() > 0,
    ensures
        count_of(s, j) == count_of(s.subrange(1, s.len() as int), j) + if s[0] == j { 1nat } else { 0nat },
{
    let head = seq![s[0]];
    let tail = s.subrange(1, s.len() as int);
    assert(s =~= head + tail);
    lemma_count_concat(head, tail, j);
    assert(head.drop_last() =~= Seq::<usize>::empty());
    assert(count_of(head.drop_last(), j) == 0);
}

/// A node that was left out has an edge to `j`.
spec fn held_back(adj: Seq<Seq<usize>>, done: Seq<bool>, j: int) -> bool {
    exists|i: int| 0 <= i < adj.len() && !done[i] && (#[trigger] adj[i]).contains(j as usize)
}

/// If every node that was left out has an edge from another node that was left out, and
/// ranks grow along edges, no node was left out.
proof fn lemma_all_done(adj: Seq<Seq<usize>>, done: Seq<bool>, rank: Seq<nat>, bound: nat)
    requires
        ranks(adj, rank),
        done.len() == adj.len(),
        adj.len() <= usize::MAX,
        closed(adj),
        forall|j: int| 0 <= j < adj.len() && !done[j] ==> #[trigger] held_back(adj, done, j),
    ensures
        forall|j: int| 0 <= j < adj.len() && rank[j] < bound ==> #[trigger] done[j],
    decreases bound,
{
    if bound > 0 {
        lemma_all_done(adj, done, rank, (bound - 1) as nat);
        assert forall|j: int| 0 <= j < adj.len() && rank[j] < bound implies #[trigger] done[j] by {
            if !done[j] {
                assert(held_back(adj, done, j));
                let i = choose|i: int| 0 <= i < adj.len() && !done[i] && (#[trigger] adj[i]).contains(j as usize);
                let k = choose|k: int| 0 <= k < adj[i].len() && adj[i][k] == j as usize;
                assert(rank[i] < rank[adj[i][k] as int]);
                assert(done[i]);
            }
        }
    }
}

/// The visits that are still to come when the nodes of `queue` wait, first in first out,
/// `remaining` tells for every node how many routes into it are still to be followed, and
/// the nodes of `order` have been visited. The node that waits first has one route less to
/// wait for; when it waits for none, it is visited, and its successors join the queue.
/// `fuel` bounds the steps.
pub open spec fn fifo_run(
    adj: Seq<Seq<usize>>,
    queue: Seq<usize>,
    remaining: Seq<u32>,
    order: Seq<usize>,
    fuel: nat,
) -> Seq<usize>
    decreases fuel,
{
    if fuel == 0 || queue.len() == 0 {
        order
    } else {
        let curr = queue[0] as int;
        if curr >= remaining.len() || curr >= adj.len() || remaining[curr] == 0 {
            order
        } else {
            let left = (remaining[curr] - 1) as u32;
            let rest = remaining.update(curr, left);
            if left == 0 {
                fifo_run(adj, queue.drop_first() + adj[curr], rest, order.push(queue[0]), (fuel - 1) as nat)
            } else {
                fifo_run(adj, queue.drop_first(), rest, order, (fuel - 1) as nat)
            }
        }
    }
}

/// The route counts of the nodes.
pub open spec fn route_counts(route: Seq<RouteNode>) -> Seq<u32> {
    Seq::new(route.len(), |j: int| route[j].route_count)
}

/// The order in which the nodes of a route are visited: from node 0, first in first out,
/// each node when all the routes that it counts have reached it.
pub open spec fn fifo_order(route: Seq<RouteNode>) -> Seq<usize> {
    fifo_run(
        successors(route),
        seq![0usize],
        route_counts(route),
        Seq::empty(),
        total(route_counts(route)),
    )
}

/// The order in which the nodes of a route are to be visited: node 0 first, and every other
/// node once all the routes that enter it have been followed.
///
/// The result lists nodes, none twice, each behind all the nodes with an edge to it. If the
/// counts are exact and the graph has no cycle, it lists every node.
pub fn iterate_route(route: &Vec<RouteNode>) -> (order: Vec<usize>)
    requires
        route.len() >= 1,
        closed(successors(route@)),
        counts_cover(route@),
    ensures
        order@.no_duplicates(),
        forall|k: int| 0 <= k < order.len() ==> #[trigger] order[k] < route.len(),
        respects_edges(successors(route@), order@),
        counts_exact(route@) && acyclic(successors(route@)) ==> is_permutation(order@, route.len() as int),
        order@ == fifo_order(route@),
{
    let ghost adj = successors(route@);
    let n = route.len();
    let mut num_routes: Vec<u32> = Vec::new();
    let mut i: usize = 0;
    while i < n
        invariant
            i <= n,
            n == route.len(),
            num_routes.len() == i,
            forall|j: int| 0 <= j < i ==> #[trigger] num_routes[j] == route[j].route_count,
        decreases n - i,
    {
        num_routes.push(route[i].route_count);
        i = i + 1;
    }
    let mut queue: VecDeque<usize> = VecDeque::new();
    queue.push_back(0);
    let mut order: Vec<usize> = Vec::new();
    let ghost mut done: Seq<bool> = Seq::new(n as nat, |j: int| false);

    proof {
        assert forall|j: int| 0 <= j < n implies (#[trigger] num_routes[j]) + (if j == 0 {
            1int
        } else {
            0int
        }) + edges_from_done(adj, done, j) == route[j].route_count + count_of(queue@, j) by {
            lemma_done_none(adj, done, j);
            assert(queue@ =~= seq![0usize]);
            assert(queue@.drop_last() =~= Seq::<usize>::empty());
            assert(count_of(queue@.drop_last(), j) == 0);
        }
        lemma_count_true_all(done);
        assert(num_routes@ =~= route_counts(route@));
        assert(queue@ =~= seq![0usize]);
        assert(order@ =~= Seq::<usize>::empty());
    }

    while queue.len() > 0
        invariant
            fifo_order(route@) == fifo_run(adj, queue@, num_routes@, order@, total(num_routes@)),
            n == route.len(),
            adj == successors(route@),
            closed(adj),
            counts_cover(route@),
            num_routes.len() == n,
            done.len() == n,
            forall|k: int| 0 <= k < queue@.len() ==> #[trigger] queue@[k] < n,
            forall|j: int|
                0 <= j < n ==> (#[trigger] num_routes[j]) + (if j == 0 {
                    1int
                } else {
                    0int
                }) + edges_from_done(adj, done, j) == route[j].route_count + count_of(queue@, j),
            forall|j: int| 0 <= j < n && #[trigger] done[j] ==> num_routes[j] == 0,
            counts_exact(route@) ==> forall|j: int| 0 <= j < n && !#[trigger] done[j] ==> num_routes[j] >= 1,
            order@.no_duplicates(),
            forall|k: int| 0 <= k < order.len() ==> #[trigger] order[k] < n && done[order[k] as int],
            forall|j: int| 0 <= j < n && #[trigger] done[j] ==> order@.contains(j as usize),
            order.len() == count_true(done),
            respects_edges(adj, order@),
        decreases total(num_routes@),
    {
        let ghost q0 = queue@;
        let ghost order_in = order@;
        let curr = queue.pop_front().unwrap();
        let ghost q1 = queue@;
        let ghost counts0 = num_routes@;
        proof {
            assert(q1 =~= q0.drop_first());
            assert(curr == q0[0] && curr < n);
            lemma_done_partial(adj, done, curr as int);
            lemma_count_pop_front(q0, curr as int);
            assert(num_routes[curr as int] >= 1);
            lemma_total_update(counts0, curr as int, (counts0[curr as int] - 1) as u32);
            assert forall|j: int| 0 <= j < n implies count_of(q0, j) == count_of(q1, j) + if curr == j {
                1nat
            } else {
                0nat
            } by {
                lemma_count_pop_front(q0, j);
            }
        }
        num_routes[curr] = num_routes[curr] - 1;

        if num_routes[curr] == 0 {
            proof {
                // All edges into the node come from nodes visited before.
                assert(!done[curr as int]);
                assert(edges_from_done(adj, done, curr as int) == edges_into(adj, curr as int));
                assert forall|i: int| 0 <= i < adj.len() && (#[trigger] adj[i]).contains(curr) implies exists|
                    e: int,
                |
                    0 <= e < order.len() && order[e] == i by {
                    lemma_count_positive(adj[i], curr as int);
                    assert(count_of(adj[i], curr as int) > 0);
                    assert(done[i]);
                    assert(order@.contains(i as usize));
                    let e = choose|e: int| 0 <= e < order.len() && order@[e] == i as usize;
                    assert(order[e] == i);
                }
            }
            let ghost order0 = order@;
            order.push(curr);
            proof {
                assert forall|a: int, b: int| 0 <= a < order.len() && 0 <= b < order.len() && a != b implies order[a]
                    != order[b] by {
                    if a < order0.len() && b < order0.len() {
                    } else if a < order0.len() {
                        assert(done[order0[a] as int]);
                    } else {
                        assert(done[order0[b] as int]);
                    }
                }
                assert forall|k: int, i: int|
                    0 <= k < order.len() && 0 <= i < adj.len() && (#[trigger] adj[i]).contains(
                        #[trigger] order[k],
                    ) implies exists|e: int| 0 <= e < k && order[e] == i by {
                    if k < order0.len() {
                        assert(order0[k] == order[k]);
                        let e = choose|e: int| 0 <= e < k && order0[e] == i;
                        assert(order[e] == i);
                    } else {
                        let e = choose|e: int| 0 <= e < order0.len() && order0[e] == i;
                        assert(order[e] == i);
                    }
                }
            }

            let next = &route[curr].next_nodes;
            let mut k: usize = 0;
            while k < next.len()
                invariant
                    k <= next.len(),
                    n == route.len(),
                    curr < n,
                    next@ == adj[curr as int],
                    closed(adj),
                    adj.len() == n,
                    queue@ == q1 + next@.take(k as int),
                    forall|e: int| 0 <= e < q1.len() ==> #[trigger] q1[e] < n,
                decreases next.len() - k,
            {
                proof {
                    assert(adj[curr as int][k as int] < adj.len());
                    assert(next@.take(k as int + 1) =~= next@.take(k as int).push(next[k as int]));
                }
                queue.push_back(next[k]);
                k = k + 1;
            }
            proof {
                assert(next@.take(next.len() as int) =~= next@);
                let done1 = done.update(curr as int, true);
                lemma_count_true_mark(done, curr as int);
                assert forall|j: int| 0 <= j < n implies (#[trigger] num_routes[j]) + (if j == 0 {
                    1int
                } else {
                    0int
                }) + edges_from_done(adj, done1, j) == route[j].route_count + count_of(queue@, j) by {
                    lemma_done_mark(adj, done, curr as int, j);
                    lemma_count_concat(q1, next@, j);
                }
                assert forall|j: int| 0 <= j < n && #[trigger] done1[j] implies order@.contains(j as usize) by {
                    if j == curr {
                        assert(order@[order0.len() as int] == curr);
                    } else {
                        assert(done[j]);
                        let e = choose|e: int| 0 <= e < order0.len() && order0[e] == j as usize;
                        assert(order@[e] == j as usize);
                    }
                }
                assert forall|e: int| 0 <= e < queue@.len() implies #[trigger] queue@[e] < n by {
                    if e >= q1.len() {
                        assert(queue@[e] == adj[curr as int][e - q1.len()]);
                    }
                }
                done = done1;
            }
        }
        proof {
            assert(total(num_routes@) + 1 == total(counts0));
            assert(fifo_run(adj, q0, counts0, order_in, total(counts0)) == fifo_run(
                adj,
                queue@,
                num_routes@,
                order@,
                total(num_routes@),
            ));
        }
    }

    proof {
        assert(queue@.len() == 0);
        if counts_exact(route@) && acyclic(adj) {
            let rank = choose|rank: Seq<nat>| ranks(adj, rank);
            assert(queue@ =~= Seq::<usize>::empty());
            assert forall|j: int| 0 <= j < adj.len() && !done[j] implies #[trigger] held_back(adj, done, j) by {
                lemma_done_partial(adj, done, j);
                assert(num_routes[j] >= 1);
                assert(count_of(queue@, j) == 0);
                assert(edges_from_done(adj, done, j) < edges_into(adj, j));
                lemma_done_gap(adj, done, j);
                let i = choose|i: int| 0 <= i < adj.len() && !done[i] && count_of(#[trigger] adj[i], j) > 0;
                lemma_count_positive(adj[i], j);
                let k = choose|k: int| 0 <= k < adj[i].len() && adj[i][k] == j;
                assert(adj[i][k] == j as usize);
                assert(adj[i].contains(j as usize));
            }
            assert forall|j: int| 0 <= j < n implies done[j] by {
                lemma_all_done(adj, done, rank, rank[j] + 1);
            }
            lemma_count_true_all(done);
        }
    }
    order
}

/// If the marked nodes do not account for all edges into `j`, an unmarked node has an edge
/// to `j`.
proof fn lemma_done_gap(adj: Seq<Seq<usize>>, done: Seq<bool>, j: int)
    requires
        done.len() == adj.len(),
        edges_from_done(adj, done, j) < edges_into(adj, j),
    ensures
        exists|i: int| 0 <= i < adj.len() && !done[i] && count_of(#[trigger] adj[i], j) > 0,
    decreases adj.len(),
{
    if adj.len() > 0 {
        let last = adj.len() - 1;
        if !done[last] && count_of(adj[last], j) > 0 {
        } else {
            lemma_done_gap(adj.drop_last(), done.drop_last(), j);
            let i = choose|i: int|
                0 <= i < adj.drop_last().len() && !done.drop_last()[i] && count_of(
                    #[trigger] adj.drop_last()[i],
                    j,
                ) > 0;
            assert(adj[i] == adj.drop_last()[i]);
            assert(!done[i]);
        }
    }
}

} // verus!
