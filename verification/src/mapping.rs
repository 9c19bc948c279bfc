use vstd::prelude::*;
use std::collections::HashMap;
use std::collections::VecDeque;
use crate::route::{acyclic, closed, count_of, counts_exact, edges_into, has_earlier_parent, ranks, reachable, successors, NodeType, RouteNode};
use crate::route::{lemma_count_absent, lemma_count_push, lemma_edges_bounded, lemma_edges_push, lemma_edges_update, lemma_reachable_from_root};
use crate::datacentre::hop_distance;
use crate::routing::{hops_valid, leads, num_servers, routing_valid, table_ok, tables_of, RoutingTable};
use crate::distance_matrix::{names_servers, DistanceCell};
use crate::placement_strategies::{fits, no_fit, NodeSelection};
use crate::initialisation::{owners, placed, service_cells, spread, spread_randomly};
use crate::random::thread_rng;
use crate::service::Service;
use crate::solution::Solution;

verus! {

/// The most nodes a route graph for `stages` VNFs can have in a datacentre of `nodes` nodes.
pub open spec fn route_capacity(stages: int, nodes: int) -> int {
    2 * stages * (nodes * stages + 1)
}

/// The weight a node carries while it waits to be expanded.
spec fn pending_weight(node_type: NodeType, stage: int, stages: int) -> nat {
    match node_type {
        NodeType::VNF(_, _) => (2 * (stages - stage) - 1) as nat,
        NodeType::Component(_) => (2 * (stages - stage)) as nat,
    }
}

spec fn sum_from(w: Seq<nat>, from: int) -> nat
    decreases w.len() - from,
{
    if from < 0 || from >= w.len() {
        0
    } else {
        w[from] + sum_from(w, from + 1)
    }
}

proof fn lemma_sum_push(w: Seq<nat>, x: nat, from: int)
    requires
        0 <= from <= w.len(),
    ensures
        sum_from(w.push(x), from) == sum_from(w, from) + x,
    decreases w.len() - from,
{
    if from < w.len() {
        lemma_sum_push(w, x, from + 1);
        assert(w.push(x)[from] == w[from]);
    } else {
        assert(sum_from(w.push(x), from + 1) == 0);
    }
}

proof fn lemma_sum_at_least_len(w: Seq<nat>, from: int)
    requires
        0 <= from <= w.len(),
        forall|k: int| 0 <= k < w.len() ==> w[k] >= 1,
    ensures
        sum_from(w, from) >= w.len() - from,
    decreases w.len() - from,
{
    if from < w.len() {
        lemma_sum_at_least_len(w, from + 1);
    }
}

/// The key under which the node for datacentre node `node` at `stage` is remembered.
spec fn key_of(node: int, stage: int, n: int) -> int {
    stage * n + node
}

proof fn lemma_key_bounds(node: int, stage: int, n: int, stages: int)
    requires
        0 <= node < n,
        0 <= stage < stages,
    ensures
        0 <= key_of(node, stage, n) < n * stages,
{
    assert(stage * n + node < n * stages) by (nonlinear_arith)
        requires
            0 <= node < n,
            0 <= stage < stages,
    ;
    assert(0 <= stage * n) by (nonlinear_arith)
        requires
            0 <= stage,
            0 < n,
    ;
}

/// The nodes are labelled as the construction demands: a VNF sits on the server that the
/// sequence names for its stage, a component is a node of the datacentre, and every node
/// carries the weight of its kind and stage.
spec fn labels_ok(
    graph: Seq<RouteNode>,
    stage: Seq<int>,
    weight: Seq<nat>,
    sequence: Seq<usize>,
    n: int,
) -> bool {
    &&& graph.len() == stage.len()
    &&& graph.len() == weight.len()
    &&& forall|j: int|
        0 <= j < graph.len() ==> {
            &&& 0 <= #[trigger] stage[j] < sequence.len()
            &&& weight[j] == pending_weight(graph[j].node_type, stage[j], sequence.len() as int)
            &&& match graph[j].node_type {
                NodeType::VNF(h, k) => k == stage[j] && h == sequence[k as int],
                NodeType::Component(m) => m < n,
            }
        }
}

/// What holds of the edges built so far.
spec fn edges_ok(graph: Seq<RouteNode>, popped: int) -> bool {
    let adj = successors(graph);
    &&& 0 <= popped <= graph.len()
    &&& forall|j: int| popped <= j < graph.len() ==> (#[trigger] graph[j]).next_nodes@.len() == 0
    &&& closed(adj)
    &&& forall|t: int| 0 < t < adj.len() ==> #[trigger] has_earlier_parent(adj, t)
    &&& counts_exact(graph)
    &&& forall|i: int| 0 <= i < adj.len() ==> (#[trigger] adj[i]).no_duplicates()
}

/// What holds of the remembered nodes.
spec fn lookup_ok(lookup: Map<usize, usize>, len: int, cap: int) -> bool {
    &&& lookup.dom().finite()
    &&& forall|k: usize| #[trigger] lookup.contains_key(k) ==> k < cap && lookup[k] < len
    &&& forall|k1: usize, k2: usize|
        lookup.contains_key(k1) && lookup.contains_key(k2) && k1 != k2 ==> #[trigger] lookup[k1]
            != #[trigger] lookup[k2]
}

spec fn queue_ok(queue: Seq<(usize, usize)>, stage: Seq<int>, popped: int) -> bool {
    &&& queue.len() == stage.len() - popped
    &&& forall|k: int|
        0 <= k < queue.len() ==> (#[trigger] queue[k]) == (stage[popped + k] as usize, (popped + k) as usize)
}

proof fn lemma_weights_positive(
    graph: Seq<RouteNode>,
    stage: Seq<int>,
    weight: Seq<nat>,
    sequence: Seq<usize>,
    n: int,
    from: int,
)
    requires
        labels_ok(graph, stage, weight, sequence, n),
        0 <= from <= weight.len(),
    ensures
        sum_from(weight, from) >= weight.len() - from,
{
    assert forall|k: int| 0 <= k < weight.len() implies weight[k] >= 1 by {
        assert(0 <= stage[k] < sequence.len());
    }
    lemma_sum_at_least_len(weight, from);
}

proof fn lemma_lookup_len(lookup: Map<usize, usize>, len: int, cap: int)
    requires
        lookup_ok(lookup, len, cap),
        0 <= cap,
    ensures
        lookup.dom().len() <= cap,
{
    let f = |k: usize| k as int;
    let keys = lookup.dom().map(f);
    let all = vstd::set_lib::set_int_range(0, cap);
    vstd::set_lib::lemma_int_range(0, cap);
    assert forall|x: int| keys.contains(x) implies all.contains(x) by {
        let k = choose|k: usize| lookup.dom().contains(k) && f(k) == x;
        assert(lookup.contains_key(k));
    }
    vstd::set_lib::lemma_len_subset(keys, all);
    assert(vstd::relations::injective_on(f, lookup.dom()));
    vstd::set_lib::lemma_map_size(lookup.dom(), keys, f);
}

proof fn lemma_credit_step(unit: int, cap: int, used: int, used2: int)
    requires
        0 <= unit,
        used <= used2,
    ensures
        unit * (cap - used2) <= unit * (cap - used),
        used2 == used + 1 ==> unit * (cap - used2) == unit * (cap - used) - unit,
        used2 <= cap ==> 0 <= unit * (cap - used2),
{
    assert(unit * (cap - used2) <= unit * (cap - used)) by (nonlinear_arith)
        requires
            0 <= unit,
            used <= used2,
    ;
    assert(used2 == used + 1 ==> unit * (cap - used2) == unit * (cap - used) - unit) by (nonlinear_arith);
    assert(used2 <= cap ==> 0 <= unit * (cap - used2)) by (nonlinear_arith)
        requires
            0 <= unit,
    ;
}

proof fn lemma_edges_fresh(adj: Seq<Seq<usize>>, j: int)
    requires
        closed(adj),
        j >= adj.len(),
    ensures
        edges_into(adj, j) == 0,
    decreases adj.len(),
{
    if adj.len() > 0 {
        let rest = adj.drop_last();
        assert forall|i: int, k: int| 0 <= i < rest.len() && 0 <= k < rest[i].len() implies #[trigger] rest[i][k]
            < rest.len() + 1 by {
            assert(rest[i][k] == adj[i][k]);
        }
        lemma_edges_fresh_below(rest, j, adj.len() as int);
        assert forall|k: int| 0 <= k < adj.last().len() implies adj.last()[k] != j by {
            assert(adj[adj.len() - 1][k] < adj.len());
        }
        lemma_count_absent(adj.last(), j);
    }
}

proof fn lemma_edges_fresh_below(adj: Seq<Seq<usize>>, j: int, bound: int)
    requires
        forall|i: int, k: int| 0 <= i < adj.len() && 0 <= k < adj[i].len() ==> #[trigger] adj[i][k] < bound,
        j >= bound,
    ensures
        edges_into(adj, j) == 0,
    decreases adj.len(),
{
    if adj.len() > 0 {
        let rest = adj.drop_last();
        assert forall|i: int, k: int| 0 <= i < rest.len() && 0 <= k < rest[i].len() implies #[trigger] rest[i][k]
            < bound by {
            assert(rest[i][k] == adj[i][k]);
        }
        lemma_edges_fresh_below(rest, j, bound);
        assert forall|k: int| 0 <= k < adj.last().len() implies adj.last()[k] != j by {
            assert(adj[adj.len() - 1][k] < bound);
        }
        lemma_count_absent(adj.last(), j);
    }
}

/// Appending a node without successors: the properties of the edges carry over.
proof fn lemma_append_node(g0: Seq<RouteNode>, g1: Seq<RouteNode>, popped: int)
    requires
        edges_ok(g0, popped),
        g1.len() == g0.len() + 1,
        forall|j: int| 0 <= j < g0.len() ==> g1[j] == g0[j],
        g1[g0.len() as int].next_nodes@.len() == 0,
        g0.len() >= 1,
    ensures
        successors(g1) == successors(g0).push(Seq::<usize>::empty()),
        forall|j: int| 0 <= j < g1.len() ==> edges_into(successors(g1), j) == if j < g0.len() {
            edges_into(successors(g0), j)
        } else {
            0
        },
        closed(successors(g1)),
        forall|i: int| 0 <= i < g1.len() ==> (#[trigger] successors(g1)[i]).no_duplicates(),
        forall|t: int| 0 < t < g0.len() ==> #[trigger] has_earlier_parent(successors(g1), t),
{
    let a0 = successors(g0);
    let a1 = successors(g1);
    assert(g1[g0.len() as int].next_nodes@ =~= Seq::<usize>::empty());
    assert(a1 =~= a0.push(Seq::<usize>::empty()));
    assert forall|j: int| 0 <= j < g1.len() implies edges_into(a1, j) == if j < g0.len() {
        edges_into(a0, j)
    } else {
        0
    } by {
        lemma_edges_push(a0, Seq::<usize>::empty(), j);
        if j >= g0.len() {
            lemma_edges_fresh(a0, j);
        }
    }
    assert forall|t: int| 0 < t < g0.len() implies #[trigger] has_earlier_parent(a1, t) by {
        assert(has_earlier_parent(a0, t));
        let i = choose|i: int| 0 <= i < t && (#[trigger] a0[i]).contains(t as usize);
        assert(a1[i] == a0[i]);
    }
}

/// Adding the edge from `from` to `to`: the properties of the edges carry over, with one
/// more edge into `to`.
proof fn lemma_append_edge(g0: Seq<RouteNode>, g1: Seq<RouteNode>, from: int, to: usize)
    requires
        g1.len() == g0.len(),
        0 <= from < g0.len(),
        to < g0.len(),
        forall|j: int| 0 <= j < g0.len() && j != from ==> (#[trigger] g1[j]).next_nodes@ == g0[j].next_nodes@,
        g1[from].next_nodes@ == g0[from].next_nodes@.push(to),
        closed(successors(g0)),
        forall|i: int| 0 <= i < g0.len() ==> (#[trigger] successors(g0)[i]).no_duplicates(),
        !g0[from].next_nodes@.contains(to),
    ensures
        successors(g1) == successors(g0).update(from, g0[from].next_nodes@.push(to)),
        forall|j: int| 0 <= j < g1.len() ==> edges_into(successors(g1), j) == edges_into(successors(g0), j) + if j
            == to {
            1int
        } else {
            0int
        },
        closed(successors(g1)),
        forall|i: int| 0 <= i < g1.len() ==> (#[trigger] successors(g1)[i]).no_duplicates(),
        forall|t: int|
            0 < t < g0.len() && has_earlier_parent(successors(g0), t) ==> #[trigger] has_earlier_parent(
                successors(g1),
                t,
            ),
        from < to ==> has_earlier_parent(successors(g1), to as int),
{
    let a0 = successors(g0);
    let a1 = successors(g1);
    let row = g0[from].next_nodes@.push(to);
    assert(a1 =~= a0.update(from, row));
    assert forall|j: int| 0 <= j < g1.len() implies edges_into(a1, j) == edges_into(a0, j) + if j == to {
        1int
    } else {
        0int
    } by {
        lemma_edges_update(a0, from, row, j);
        lemma_count_push(a0[from], to, j);
    }
    assert forall|i: int, k: int| 0 <= i < a1.len() && 0 <= k < a1[i].len() implies #[trigger] a1[i][k] < a1.len() by {
        if i == from {
            if k < a0[from].len() {
                assert(a1[i][k] == a0[i][k]);
            }
        } else {
            assert(a1[i][k] == a0[i][k]);
        }
    }
    assert forall|i: int| 0 <= i < g1.len() implies (#[trigger] a1[i]).no_duplicates() by {
        if i == from {
            assert(a0[from].no_duplicates());
            assert forall|x: int, y: int| 0 <= x < row.len() && 0 <= y < row.len() && x != y implies row[x] != row[y] by {
                if x < a0[from].len() && y < a0[from].len() {
                } else if x < a0[from].len() {
                    assert(a0[from].contains(a0[from][x]));
                } else {
                    assert(a0[from].contains(a0[from][y]));
                }
            }
        } else {
            assert(a1[i] == a0[i]);
            assert(a0[i].no_duplicates());
        }
    }
    assert forall|t: int| 0 < t < g0.len() && has_earlier_parent(a0, t) implies #[trigger] has_earlier_parent(
        a1,
        t,
    ) by {
        let i = choose|i: int| 0 <= i < t && (#[trigger] a0[i]).contains(t as usize);
        let k = choose|k: int| 0 <= k < a0[i].len() && a0[i][k] == t as usize;
        assert(a1[i][k] == t as usize);
    }
    if from < to {
        assert(a1[from][a0[from].len() as int] == to);
        assert(a1[from].contains(to));
    }
}

/// The route graph under construction.
struct RouteBuilder {
    graph: Vec<RouteNode>,
    /// From the key of a datacentre node and a stage to the node's position in the graph.
    lookup: HashMap<usize, usize>,
    /// The nodes still to expand, each with the stage it is expanded at.
    queue: VecDeque<(usize, usize)>,
    stage_of: Ghost<Seq<int>>,
    weight: Ghost<Seq<nat>>,
    popped: Ghost<int>,
}

impl RouteBuilder {
    spec fn inv(&self, sequence: Seq<usize>, n: int) -> bool {
        &&& labels_ok(self.graph@, self.stage_of@, self.weight@, sequence, n)
        &&& edges_ok(self.graph@, self.popped@)
        &&& lookup_ok(self.lookup@, self.graph.len() as int, n * sequence.len())
        &&& queue_ok(self.queue@, self.stage_of@, self.popped@)
        &&& self.graph.len() >= 1
        &&& sequence.len() <= usize::MAX
    }

    /// An upper bound on the expansions still to come.
    spec fn potential(&self, sequence: Seq<usize>, n: int) -> int {
        sum_from(self.weight@, self.popped@) + 2 * sequence.len() * (n * sequence.len()
            - self.lookup@.dom().len())
    }

    /// The nodes that were there before are what they were, but for the successors of
    /// `parent`.
    spec fn extends(&self, before: &RouteBuilder, parent: int) -> bool {
        &&& self.graph.len() >= before.graph.len()
        &&& self.popped@ == before.popped@
        &&& forall|j: int|
            0 <= j < before.graph.len() ==> {
                &&& (#[trigger] self.graph[j]).node_type == before.graph[j].node_type
                &&& j != parent ==> self.graph[j].next_nodes@ == before.graph[j].next_nodes@
                &&& self.stage_of@[j] == before.stage_of@[j]
            }
    }

    proof fn lemma_potential_bounds(&self, sequence: Seq<usize>, n: int)
        requires
            self.inv(sequence, n),
            0 <= n,
        ensures
            self.graph.len() <= self.popped@ + sum_from(self.weight@, self.popped@),
            0 <= 2 * sequence.len() * (n * sequence.len() - self.lookup@.dom().len()),
            self.graph.len() <= self.popped@ + self.potential(sequence, n),
    {
        lemma_weights_positive(self.graph@, self.stage_of@, self.weight@, sequence, n, self.popped@);
        let cap = n * sequence.len();
        assert(0 <= cap) by (nonlinear_arith)
            requires
                0 <= n,
                cap == n * sequence.len(),
        ;
        lemma_lookup_len(self.lookup@, self.graph.len() as int, cap);
        lemma_credit_step(
            2 * (sequence.len() as int),
            cap,
            self.lookup@.dom().len() as int,
            self.lookup@.dom().len() as int,
        );
    }

    /// What was remembered and expanded in `before` is so in `after`, which has grown from
    /// it at `parent`.
    proof fn lemma_grown(
        &self,
        before: &RouteBuilder,
        after: &RouteBuilder,
        sequence: Seq<usize>,
        tables: Seq<RoutingTable>,
        n: int,
        parent: int,
    )
        requires
            before.inv(sequence, n),
            after.inv(sequence, n),
            after.extends(before, parent),
            after.lookup@ == before.lookup@,
            0 <= parent < before.graph.len(),
            types_ok(before.lookup@, before.graph@, before.stage_of@, n, sequence.len() as int),
            expanded_upto(before.graph@, before.stage_of@, sequence, tables, parent),
        ensures
            types_ok(after.lookup@, after.graph@, after.stage_of@, n, sequence.len() as int),
            expanded_upto(after.graph@, after.stage_of@, sequence, tables, parent),
    {
        lemma_types_stay(
            before.lookup@,
            before.graph@,
            before.stage_of@,
            after.graph@,
            after.stage_of@,
            n,
            sequence.len() as int,
        );
        lemma_staged_stays(
            before.graph@,
            before.stage_of@,
            after.graph@,
            after.stage_of@,
            sequence,
            tables,
            parent,
        );
    }

    /// A new node that `curr`, the node last expanded, leads to stands in the order of the
    /// search.
    proof fn lemma_child_ordered(
        &self,
        before: &RouteBuilder,
        after: &RouteBuilder,
        origin: Seq<int>,
        sequence: Seq<usize>,
        n: int,
        curr: int,
    )
        requires
            before.inv(sequence, n),
            after.inv(sequence, n),
            after.extends(before, curr),
            0 <= curr < before.graph.len(),
            curr < before.popped@,
            ordered(before.graph@, origin, curr + 1),
            after.graph.len() == before.graph.len() + 1,
            after.graph[curr].next_nodes@ == before.graph[curr].next_nodes@.push(before.graph.len()),
        ensures
            ordered(after.graph@, origin.push(curr), curr + 1),
    {
        let adj = successors(before.graph@);
        let adj2 = successors(after.graph@);
        assert(after.graph[before.graph.len() as int].next_nodes@.len() == 0);
        assert forall|j: int| 0 <= j < adj.len() && j != curr implies #[trigger] adj2[j] == adj[j] by {
            assert(after.graph[j].next_nodes@ == before.graph[j].next_nodes@);
        }
        lemma_order_child(adj, adj2, origin, curr);
    }

    /// One more route from `curr`, the node last expanded, leaves the nodes in the order
    /// of the search.
    proof fn lemma_route_ordered(
        &self,
        before: &RouteBuilder,
        after: &RouteBuilder,
        origin: Seq<int>,
        sequence: Seq<usize>,
        n: int,
        curr: int,
        to: usize,
    )
        requires
            before.inv(sequence, n),
            after.inv(sequence, n),
            after.extends(before, curr),
            0 <= curr < before.graph.len(),
            to < before.graph.len(),
            ordered(before.graph@, origin, curr + 1),
            !before.graph[curr].next_nodes@.contains(to),
            after.graph.len() == before.graph.len(),
            after.graph[curr].next_nodes@ == before.graph[curr].next_nodes@.push(to),
        ensures
            ordered(after.graph@, origin, curr + 1),
    {
        let adj = successors(before.graph@);
        let adj2 = successors(after.graph@);
        assert forall|j: int| 0 <= j < adj.len() && j != curr implies #[trigger] adj2[j] == adj[j] by {
            assert(after.graph[j].next_nodes@ == before.graph[j].next_nodes@);
        }
        lemma_order_route(adj, adj2, origin, curr, to);
    }

    /// Takes the next node to expand.
    fn pop(&mut self, Ghost(sequence): Ghost<Seq<usize>>, Ghost(n): Ghost<int>) -> (r: (usize, usize))
        requires
            old(self).inv(sequence, n),
            old(self).queue@.len() > 0,
        ensures
            final(self).inv(sequence, n),
            final(self).graph@ == old(self).graph@,
            final(self).lookup@ == old(self).lookup@,
            final(self).popped@ == old(self).popped@ + 1,
            final(self).stage_of@ == old(self).stage_of@,
            r.1 == old(self).popped@,
            r.0 == old(self).stage_of@[r.1 as int],
            r.0 < sequence.len(),
            final(self).potential(sequence, n) + old(self).weight@[r.1 as int] == old(self).potential(
                sequence,
                n,
            ),
            old(self).weight@[r.1 as int] == pending_weight(
                old(self).graph[r.1 as int].node_type,
                r.0 as int,
                sequence.len() as int,
            ),
    {
        let r = self.queue.pop_front().unwrap();
        proof {
            let p = self.popped@;
            assert(0 <= self.stage_of@[p] < sequence.len());
            assert(old(self).queue@[0] == (self.stage_of@[p + 0] as usize, (p + 0) as usize));
            assert(sum_from(self.weight@, p) == self.weight@[p] + sum_from(self.weight@, p + 1));
            self.popped = Ghost(p + 1);
            assert forall|k: int| 0 <= k < self.queue@.len() implies (#[trigger] self.queue@[k]) == (
                self.stage_of@[p + 1 + k] as usize,
                (p + 1 + k) as usize,
            ) by {
                assert(self.queue@[k] == old(self).queue@[k + 1]);
            }
        }
        r
    }

    /// Adds a node as a successor of `parent`, to be expanded at `stage`.
    fn add_child(
        &mut self,
        parent: usize,
        node: RouteNode,
        stage: usize,
        Ghost(sequence): Ghost<Seq<usize>>,
        Ghost(n): Ghost<int>,
    ) -> (node_id: usize)
        requires
            old(self).inv(sequence, n),
            parent < old(self).popped@,
            node.route_count == 1,
            node.next_nodes@.len() == 0,
            stage < sequence.len(),
            match node.node_type {
                NodeType::VNF(h, k) => k == stage && h == sequence[k as int],
                NodeType::Component(m) => m < n,
            },
        ensures
            final(self).inv(sequence, n),
            final(self).extends(old(self), parent as int),
            node_id == old(self).graph.len(),
            final(self).graph.len() == old(self).graph.len() + 1,
            final(self).graph[node_id as int].node_type == node.node_type,
            final(self).stage_of@ == old(self).stage_of@.push(stage as int),
            final(self).graph[parent as int].next_nodes@ == old(self).graph[parent as int].next_nodes@.push(
                node_id,
            ),
            final(self).lookup@ == old(self).lookup@,
            final(self).potential(sequence, n) == old(self).potential(sequence, n) + pending_weight(
                node.node_type,
                stage as int,
                sequence.len() as int,
            ),
    {
        let ghost g0 = self.graph@;
        let ghost w = pending_weight(node.node_type, stage as int, sequence.len() as int);
        let node_id = self.graph.len();
        self.graph.push(node);
        let ghost g1 = self.graph@;
        self.graph[parent].next_nodes.push(node_id);
        self.queue.push_back((stage, node_id));
        proof {
            lemma_sum_push(self.weight@, w, self.popped@);
            self.stage_of = Ghost(self.stage_of@.push(stage as int));
            self.weight = Ghost(self.weight@.push(w));
            lemma_append_node(g0, g1, self.popped@);
            assert(!g1[parent as int].next_nodes@.contains(node_id)) by {
                assert(successors(g0)[parent as int] == g0[parent as int].next_nodes@);
            }
            lemma_append_edge(g1, self.graph@, parent as int, node_id);
            assert forall|k: int| 0 <= k < self.queue@.len() implies (#[trigger] self.queue@[k]) == (
                self.stage_of@[self.popped@ + k] as usize,
                (self.popped@ + k) as usize,
            ) by {
                if k < old(self).queue@.len() {
                    assert(self.queue@[k] == old(self).queue@[k]);
                }
            }
        }
        node_id
    }

    /// Lets one more route, from `parent`, enter the node `to`.
    fn add_route(&mut self, parent: usize, to: usize, Ghost(sequence): Ghost<Seq<usize>>, Ghost(n): Ghost<int>)
        requires
            old(self).inv(sequence, n),
            parent < old(self).popped@,
            to < old(self).graph.len(),
            !old(self).graph[parent as int].next_nodes@.contains(to),
            old(self).graph.len() + 1 < u32::MAX,
        ensures
            final(self).inv(sequence, n),
            final(self).extends(old(self), parent as int),
            final(self).graph.len() == old(self).graph.len(),
            final(self).stage_of@ == old(self).stage_of@,
            final(self).graph[parent as int].next_nodes@ == old(self).graph[parent as int].next_nodes@.push(to),
            final(self).lookup@ == old(self).lookup@,
            final(self).potential(sequence, n) == old(self).potential(sequence, n),
    {
        let ghost g0 = self.graph@;
        proof {
            lemma_edges_bounded(successors(g0), to as int);
        }
        self.graph[to].route_count = self.graph[to].route_count + 1;
        let ghost g1 = self.graph@;
        self.graph[parent].next_nodes.push(to);
        proof {
            assert(successors(g1) =~= successors(g0));
            lemma_append_edge(g1, self.graph@, parent as int, to);
        }
    }

    /// Remembers the newest node under `key`.
    fn remember(&mut self, key: usize, node_id: usize, Ghost(sequence): Ghost<Seq<usize>>, Ghost(n): Ghost<int>)
        requires
            old(self).inv(sequence, n),
            key < n * sequence.len(),
            node_id < old(self).graph.len(),
            forall|k: usize| #[trigger] old(self).lookup@.contains_key(k) ==> old(self).lookup@[k] < node_id,
        ensures
            final(self).inv(sequence, n),
            final(self).extends(old(self), -1),
            final(self).graph@ == old(self).graph@,
            final(self).stage_of@ == old(self).stage_of@,
            final(self).lookup@ == old(self).lookup@.insert(key, node_id),
            final(self).potential(sequence, n) <= old(self).potential(sequence, n),
            !old(self).lookup@.contains_key(key) ==> final(self).potential(sequence, n) + 2 * sequence.len()
                == old(self).potential(sequence, n),
    {
        self.lookup.insert(key, node_id);
        proof {
            lemma_credit_step(
                2 * (sequence.len() as int),
                n * sequence.len(),
                old(self).lookup@.dom().len() as int,
                self.lookup@.dom().len() as int,
            );
        }
    }
}

/// What expanding node `j` gives it, where `stage` says for each node the stage it is
/// expanded at. A VNF but the last is followed by its host, which is expanded at the next
/// stage. A component that is the host of the VNF of its stage is followed by that VNF. Any
/// other component is followed by its next hops towards that host, in the order of its
/// routing table.
pub open spec fn expanded(
    graph: Seq<RouteNode>,
    stage: Seq<int>,
    sequence: Seq<usize>,
    tables: Seq<RoutingTable>,
    j: int,
) -> bool {
    let next = graph[j].next_nodes@;
    match graph[j].node_type {
        NodeType::VNF(h, k) => if k + 1 < sequence.len() {
            &&& next.len() == 1
            &&& graph[next[0] as int].node_type == NodeType::Component(h)
            &&& stage[next[0] as int] == k + 1
        } else {
            next.len() == 0
        },
        NodeType::Component(m) => {
            let target = sequence[stage[j]];
            if m == target {
                &&& next.len() == 1
                &&& graph[next[0] as int].node_type == NodeType::VNF(m, stage[j] as usize)
            } else {
                leads_on(graph, stage, next, tables[m as int].hops(target as int), stage[j])
            }
        },
    }
}

/// The nodes `next` are components for the hops `hops`, one for one, expanded at stage `s`.
pub open spec fn leads_on(graph: Seq<RouteNode>, stage: Seq<int>, next: Seq<usize>, hops: Seq<usize>, s: int) -> bool {
    &&& next.len() == hops.len()
    &&& forall|i: int|
        0 <= i < hops.len() ==> graph[next[i] as int].node_type == NodeType::Component(#[trigger] hops[i]) && stage[next[i] as int]
            == s
}

/// `stage` names a stage for each node, that of a VNF being its own, and every node up to
/// `upto` is expanded.
pub open spec fn staged(
    graph: Seq<RouteNode>,
    stage: Seq<int>,
    sequence: Seq<usize>,
    tables: Seq<RoutingTable>,
    upto: int,
) -> bool {
    &&& stage.len() == graph.len()
    &&& forall|j: int|
        0 <= j < graph.len() ==> {
            &&& 0 <= #[trigger] stage[j] < sequence.len()
            &&& match graph[j].node_type {
                NodeType::VNF(_, k) => k == stage[j],
                NodeType::Component(_) => true,
            }
        }
    &&& forall|j: int| 0 <= j < upto ==> #[trigger] expanded(graph, stage, sequence, tables, j)
    &&& distinct_places(graph, stage)
}

/// Every node of `graph` is followed by what the routing tables lead to, and no two nodes
/// are of the same kind at the same stage.
pub open spec fn follows_tables(graph: Seq<RouteNode>, sequence: Seq<usize>, tables: Seq<RoutingTable>) -> bool {
    exists|stage: Seq<int>| #[trigger] staged(graph, stage, sequence, tables, graph.len() as int)
}

/// Along the routing tables, every next hop towards `target` stands lower than the node
/// that it is a next hop of.
pub open spec fn descends(tables: Seq<RoutingTable>, target: int, height: Seq<int>) -> bool {
    &&& height.len() == tables.len()
    &&& forall|m: int, i: int|
        0 <= m < tables.len() && m != target && 0 <= i < tables[m].hops(target).len() ==> height[(
        #[trigger] tables[m].hops(target)[i]) as int] < height[m]
}

/// Towards `target` the next hops of the tables descend by some heights.
pub open spec fn draws_towards(tables: Seq<RoutingTable>, target: int) -> bool {
    exists|height: Seq<int>| descends(tables, target, height)
}

/// Towards every server of `sequence` the next hops of the tables descend.
pub open spec fn draws_nearer(tables: Seq<RoutingTable>, sequence: Seq<usize>) -> bool {
    forall|k: int| 0 <= k < sequence.len() ==> draws_towards(tables, #[trigger] sequence[k] as int)
}

/// The routing tables of a datacentre draw nearer to every server: the next hops descend by
/// the distance to the server.
pub proof fn lemma_tables_draw_nearer(
    tables: Seq<RoutingTable>,
    adj: Seq<Seq<usize>>,
    servers: int,
    sequence: Seq<usize>,
)
    requires
        tables_of(tables, adj, servers),
        forall|k: int| 0 <= k < sequence.len() ==> sequence[k] < servers,
    ensures
        draws_nearer(tables, sequence),
{
    assert forall|k: int| 0 <= k < sequence.len() implies draws_towards(tables, #[trigger] sequence[k] as int) by {
        let target = sequence[k] as int;
        let height = Seq::new(tables.len(), |m: int| hop_distance(adj, target, m));
        assert forall|m: int, i: int|
            0 <= m < tables.len() && m != target && 0 <= i < tables[m].hops(target).len() implies height[(
        #[trigger] tables[m].hops(target)[i]) as int] < height[m] by {
            assert(table_ok(tables[m], adj, m));
            assert(hops_valid(tables[m].hops(target), adj.len() as int));
            assert(leads(adj, m, target, tables[m].hops(target)[i]));
        }
        assert(descends(tables, target, height));
    }
}

/// Heights by which the next hops towards the server of stage `s` descend.
spec fn height_for(tables: Seq<RoutingTable>, sequence: Seq<usize>, s: int) -> Seq<int> {
    choose|height: Seq<int>| descends(tables, sequence[s] as int, height)
}

/// A bound on the first `upto` heights, whatever their sign.
spec fn reach(height: Seq<int>, upto: int) -> int
    decreases upto,
{
    if upto <= 0 {
        0
    } else {
        let rest = reach(height, upto - 1);
        let h = if height[upto - 1] < 0 {
            -height[upto - 1]
        } else {
            height[upto - 1]
        };
        if h > rest {
            h
        } else {
            rest
        }
    }
}

/// A bound on the heights of the first `upto` stages.
spec fn summit(tables: Seq<RoutingTable>, sequence: Seq<usize>, upto: int) -> int
    decreases upto,
{
    if upto <= 0 {
        0
    } else {
        let rest = summit(tables, sequence, upto - 1);
        let r = reach(height_for(tables, sequence, upto - 1), tables.len() as int);
        if r > rest {
            r
        } else {
            rest
        }
    }
}

proof fn lemma_reach(height: Seq<int>, upto: int, m: int)
    requires
        0 <= m < upto <= height.len(),
    ensures
        -reach(height, upto) <= height[m] <= reach(height, upto),
        0 <= reach(height, upto),
    decreases upto,
{
    if m < upto - 1 {
        lemma_reach(height, upto - 1, m);
    } else if upto > 1 {
        lemma_reach(height, upto - 1, 0);
    }
}

proof fn lemma_summit(tables: Seq<RoutingTable>, sequence: Seq<usize>, upto: int, s: int, m: int)
    requires
        0 <= s < upto <= sequence.len(),
        0 <= m < tables.len(),
        draws_nearer(tables, sequence),
    ensures
        height_for(tables, sequence, s).len() == tables.len(),
        descends(tables, sequence[s] as int, height_for(tables, sequence, s)),
        -summit(tables, sequence, upto) <= height_for(tables, sequence, s)[m] <= summit(tables, sequence, upto),
        0 <= summit(tables, sequence, upto),
    decreases upto,
{
    let k = upto - 1;
    assert(draws_towards(tables, sequence[k] as int));
    assert(draws_towards(tables, sequence[s] as int));
    lemma_reach(height_for(tables, sequence, k), tables.len() as int, m);
    if s < upto - 1 {
        lemma_summit(tables, sequence, upto - 1, s, m);
    } else if upto > 1 {
        lemma_summit(tables, sequence, upto - 1, 0, m);
    }
}

/// The rank of a node: stage by stage, within a stage the components from the highest to
/// the lowest, and then the VNF.
spec fn node_rank(
    graph: Seq<RouteNode>,
    stage: Seq<int>,
    sequence: Seq<usize>,
    tables: Seq<RoutingTable>,
    top: int,
    j: int,
) -> nat {
    let within = match graph[j].node_type {
        NodeType::VNF(_, _) => 2 * top + 1,
        NodeType::Component(m) => top - height_for(tables, sequence, stage[j])[m as int],
    };
    (stage[j] * (2 * top + 2) + within) as nat
}

proof fn lemma_rank_order(low_stage: int, low_within: int, high_stage: int, high_within: int, width: int)
    requires
        0 <= low_stage,
        0 <= low_within < width,
        0 <= high_within < width,
        low_stage < high_stage || (low_stage == high_stage && low_within < high_within),
    ensures
        0 <= low_stage * width + low_within < high_stage * width + high_within,
{
    assert(0 <= low_stage * width) by (nonlinear_arith)
        requires
            0 <= low_stage,
            0 < width,
    ;
    if low_stage < high_stage {
        assert(low_stage * width + width <= high_stage * width) by (nonlinear_arith)
            requires
                low_stage + 1 <= high_stage,
                0 < width,
        ;
    }
}

/// A route graph whose nodes are all expanded along tables that draw nearer has no cycle.
proof fn lemma_staged_acyclic(graph: Seq<RouteNode>, stage: Seq<int>, sequence: Seq<usize>, tables: Seq<RoutingTable>)
    requires
        staged(graph, stage, sequence, tables, graph.len() as int),
        routes_for(graph, sequence, tables.len() as int),
        sequence.len() <= usize::MAX,
        routing_valid(tables),
        forall|k: int| 0 <= k < sequence.len() ==> sequence[k] < num_servers(tables),
        draws_nearer(tables, sequence),
    ensures
        acyclic(successors(graph)),
{
    let adj = successors(graph);
    let top = summit(tables, sequence, sequence.len() as int);
    let width = 2 * top + 2;
    let rank = Seq::new(graph.len(), |j: int| node_rank(graph, stage, sequence, tables, top, j));
    assert forall|i: int, k: int| 0 <= i < adj.len() && 0 <= k < adj[i].len() && adj[i][k] < adj.len() implies rank[i]
        < rank[#[trigger] adj[i][k] as int] by {
        let c = adj[i][k] as int;
        let next = graph[i].next_nodes@;
        assert(next == adj[i]);
        assert(expanded(graph, stage, sequence, tables, i));
        assert(0 <= stage[i] < sequence.len());
        assert(0 <= stage[c] < sequence.len());
        let s = stage[i];
        let within_i = match graph[i].node_type {
            NodeType::VNF(_, _) => 2 * top + 1,
            NodeType::Component(m) => top - height_for(tables, sequence, stage[i])[m as int],
        };
        let within_c = match graph[c].node_type {
            NodeType::VNF(_, _) => 2 * top + 1,
            NodeType::Component(m) => top - height_for(tables, sequence, stage[c])[m as int],
        };
        lemma_summit(tables, sequence, sequence.len() as int, s, 0);
        match graph[i].node_type {
            NodeType::Component(m) => {
                lemma_summit(tables, sequence, sequence.len() as int, s, m as int);
            },
            NodeType::VNF(_, _) => {},
        }
        match graph[c].node_type {
            NodeType::Component(m) => {
                lemma_summit(tables, sequence, sequence.len() as int, stage[c], m as int);
            },
            NodeType::VNF(_, _) => {},
        }
        match graph[i].node_type {
            NodeType::VNF(h, v) => {
                assert(v + 1 < sequence.len());
                assert(k == 0);
            },
            NodeType::Component(m) => {
                let target = sequence[s];
                if m == target {
                    assert(k == 0);
                    assert(stage[c] == s);
                } else {
                    let hops = tables[m as int].hops(target as int);
                    assert(leads_on(graph, stage, next, hops, s));
                    assert(graph[next[k] as int].node_type == NodeType::Component(hops[k]));
                    if stage[c] == s {
                        let height = height_for(tables, sequence, s);
                        assert(descends(tables, target as int, height));
                        assert(height[tables[m as int].hops(target as int)[k] as int] < height[m as int]);
                    }
                }
            },
        }
        lemma_rank_order(s, within_i, stage[c], within_c, width);
    }
    assert(ranks(adj, rank));
}

/// A node of the greatest rank among the first `upto`.
proof fn lemma_top_rank(rank: Seq<nat>, upto: int) -> (top: int)
    requires
        0 < upto <= rank.len(),
    ensures
        0 <= top < upto,
        forall|j: int| 0 <= j < upto ==> rank[j] <= rank[top],
    decreases upto,
{
    if upto == 1 {
        0
    } else {
        let rest = lemma_top_rank(rank, upto - 1);
        if rank[upto - 1] > rank[rest] {
            upto - 1
        } else {
            rest
        }
    }
}

/// Every stage before that of node `j` has its VNF: the stages are entered one after the
/// other, each from the VNF of the stage before.
proof fn lemma_stages_entered(
    graph: Seq<RouteNode>,
    stage: Seq<int>,
    origin: Seq<int>,
    sequence: Seq<usize>,
    tables: Seq<RoutingTable>,
    j: int,
    k: int,
) -> (v: int)
    requires
        staged(graph, stage, sequence, tables, graph.len() as int),
        routes_for(graph, sequence, tables.len() as int),
        in_search_order(successors(graph), origin),
        sequence.len() <= usize::MAX,
        graph.len() <= usize::MAX,
        0 <= j < graph.len(),
        0 <= k < stage[j],
    ensures
        0 <= v < graph.len(),
        graph[v].node_type == NodeType::VNF(sequence[k], k as usize),
    decreases j,
{
    let adj = successors(graph);
    if j == 0 {
        assert(graph[0].node_type == NodeType::VNF(sequence[0], 0));
        assert(0 <= stage[0] < sequence.len());
        0
    } else {
        let p = origin[j];
        assert(adj[p].contains(j as usize));
        let e = choose|e: int| 0 <= e < adj[p].len() && adj[p][e] == j as usize;
        let next = graph[p].next_nodes@;
        assert(next == adj[p]);
        assert(expanded(graph, stage, sequence, tables, p));
        assert(0 <= stage[p] < sequence.len());
        assert(0 <= stage[j] < sequence.len());
        assert(next[e] as int == j);
        match graph[p].node_type {
            NodeType::VNF(h, s) => {
                assert(e == 0);
                assert(stage[j] == s + 1);
                if k == s {
                    p
                } else {
                    lemma_stages_entered(graph, stage, origin, sequence, tables, p, k)
                }
            },
            NodeType::Component(m) => {
                if m == sequence[stage[p]] {
                    assert(e == 0);
                } else {
                    let hops = tables[m as int].hops(sequence[stage[p]] as int);
                    assert(leads_on(graph, stage, next, hops, stage[p]));
                    assert(graph[next[e] as int].node_type == NodeType::Component(hops[e]));
                }
                assert(stage[j] == stage[p]);
                lemma_stages_entered(graph, stage, origin, sequence, tables, p, k)
            },
        }
    }
}

/// The graph holds the VNF of stage `k`, on the server of that stage.
pub open spec fn has_vnf(graph: Seq<RouteNode>, sequence: Seq<usize>, k: int) -> bool {
    exists|j: int| 0 <= j < graph.len() && (#[trigger] graph[j]).node_type == NodeType::VNF(sequence[k], k as usize)
}

/// The routes of a placement along tables that draw nearer end in the last VNF, and pass a
/// VNF at every stage: the node without a successor is the VNF of the last stage, and for
/// every stage the graph holds its VNF, on the server of that stage.
pub proof fn lemma_routes_end(graph: Seq<RouteNode>, sequence: Seq<usize>, tables: Seq<RoutingTable>)
    requires
        is_route(graph, sequence, tables),
        routing_valid(tables),
        0 < sequence.len() <= usize::MAX,
        graph.len() <= usize::MAX,
        forall|k: int| 0 <= k < sequence.len() ==> sequence[k] < num_servers(tables),
        draws_nearer(tables, sequence),
    ensures
        forall|j: int|
            0 <= j < graph.len() ==> ((#[trigger] graph[j]).next_nodes@.len() == 0 <==> graph[j].node_type
                == NodeType::VNF(sequence[sequence.len() - 1], (sequence.len() - 1) as usize)),
        forall|k: int| 0 <= k < sequence.len() ==> #[trigger] has_vnf(graph, sequence, k),
        forall|i: int, j: int|
            #![trigger graph[i], graph[j]]
            0 <= i < j < graph.len() && graph[i].node_type is VNF ==> graph[i].node_type != graph[j].node_type,
{
    let last = sequence.len() - 1;
    let adj = successors(graph);
    let stage = choose|stage: Seq<int>| #[trigger] staged(graph, stage, sequence, tables, graph.len() as int);
    let origin = choose|origin: Seq<int>| in_search_order(adj, origin);
    let rank = choose|rank: Seq<nat>| ranks(adj, rank);
    assert forall|j: int| 0 <= j < graph.len() implies ((#[trigger] graph[j]).next_nodes@.len() == 0 <==> graph[j].node_type
        == NodeType::VNF(sequence[last], last as usize)) by {
        assert(expanded(graph, stage, sequence, tables, j));
        assert(0 <= stage[j] < sequence.len());
        match graph[j].node_type {
            NodeType::VNF(h, k) => {},
            NodeType::Component(m) => {
                let target = sequence[stage[j]];
                if m != target {
                    let table = tables[m as int];
                    assert(table.wf());
                    table.lemma_row_exists(target as int);
                    assert(table.hops(target as int).len() > 0);
                }
            },
        }
    }
    // A node of the greatest rank has no successor.
    let top = lemma_top_rank(rank, graph.len() as int);
    if graph[top].next_nodes@.len() > 0 {
        assert(adj[top] == graph[top].next_nodes@);
        assert(adj[top][0] < adj.len());
        assert(rank[top] < rank[adj[top][0] as int]);
    }
    assert(graph[top].node_type == NodeType::VNF(sequence[last], last as usize));
    assert(stage[top] == last);
    assert forall|k: int| 0 <= k < sequence.len() implies #[trigger] has_vnf(graph, sequence, k) by {
        if k < last {
            let v = lemma_stages_entered(graph, stage, origin, sequence, tables, top, k);
            assert(graph[v].node_type == NodeType::VNF(sequence[k], k as usize));
        } else {
            assert(graph[top].node_type == NodeType::VNF(sequence[k], k as usize));
        }
    }
    assert forall|i: int, j: int|
        #![trigger graph[i], graph[j]]
        0 <= i < j < graph.len() && graph[i].node_type is VNF implies graph[i].node_type != graph[j].node_type by {
        if graph[i].node_type == graph[j].node_type {
            assert(0 <= stage[i] < sequence.len() && 0 <= stage[j] < sequence.len());
        }
    }
}

/// Every remembered node is a component for the datacentre node that it is remembered for.
spec fn types_ok(lookup: Map<usize, usize>, graph: Seq<RouteNode>, stage: Seq<int>, n: int, stages: int) -> bool {
    forall|m: int, s: int|
        0 <= m < n && 0 <= s < stages && lookup.contains_key(#[trigger] key_of(m, s, n) as usize) ==> remembered(
            graph,
            stage,
            lookup[key_of(m, s, n) as usize] as int,
            m,
            s,
        )
}

/// Node `id` is a component for datacentre node `m`, expanded at stage `s`.
spec fn remembered(graph: Seq<RouteNode>, stage: Seq<int>, id: int, m: int, s: int) -> bool {
    &&& graph[id].node_type == NodeType::Component(m as usize)
    &&& stage[id] == s
}

proof fn lemma_key_unique(a: int, s: int, b: int, t: int, n: int)
    requires
        0 <= a < n,
        0 <= b < n,
        0 <= s,
        0 <= t,
        key_of(a, s, n) == key_of(b, t, n),
    ensures
        a == b,
        s == t,
{
    assert(s == t && a == b) by (nonlinear_arith)
        requires
            0 <= a < n,
            0 <= b < n,
            0 <= s,
            0 <= t,
            s * n + a == t * n + b,
    ;
}

/// Remembering a component for its own datacentre node keeps the remembered nodes right.
proof fn lemma_types_insert(
    lookup: Map<usize, usize>,
    graph: Seq<RouteNode>,
    stage: Seq<int>,
    n: int,
    stages: int,
    m0: int,
    s0: int,
    id: usize,
)
    requires
        types_ok(lookup, graph, stage, n, stages),
        0 <= m0 < n,
        0 <= s0 < stages,
        n * stages <= usize::MAX,
        remembered(graph, stage, id as int, m0, s0),
    ensures
        types_ok(lookup.insert(key_of(m0, s0, n) as usize, id), graph, stage, n, stages),
{
    let after = lookup.insert(key_of(m0, s0, n) as usize, id);
    lemma_key_bounds(m0, s0, n, stages);
    assert forall|m: int, s: int|
        0 <= m < n && 0 <= s < stages && after.contains_key(#[trigger] key_of(m, s, n) as usize) implies remembered(
        graph,
        stage,
        after[key_of(m, s, n) as usize] as int,
        m,
        s,
    ) by {
        lemma_key_bounds(m, s, n, stages);
        if key_of(m, s, n) == key_of(m0, s0, n) {
            lemma_key_unique(m, s, m0, s0, n);
        } else {
            assert(lookup.contains_key(key_of(m, s, n) as usize));
        }
    }
}

/// Nodes that keep their kind keep the remembered nodes right.
proof fn lemma_types_stay(
    lookup: Map<usize, usize>,
    before: Seq<RouteNode>,
    stage_before: Seq<int>,
    after: Seq<RouteNode>,
    stage_after: Seq<int>,
    n: int,
    stages: int,
)
    requires
        types_ok(lookup, before, stage_before, n, stages),
        lookup_ok(lookup, before.len() as int, n * stages),
        before.len() <= after.len(),
        forall|j: int|
            0 <= j < before.len() ==> (#[trigger] after[j]).node_type == before[j].node_type && stage_after[j]
                == stage_before[j],
    ensures
        types_ok(lookup, after, stage_after, n, stages),
{
    assert forall|m: int, s: int|
        0 <= m < n && 0 <= s < stages && lookup.contains_key(#[trigger] key_of(m, s, n) as usize) implies remembered(
        after,
        stage_after,
        lookup[key_of(m, s, n) as usize] as int,
        m,
        s,
    ) by {
        let id = lookup[key_of(m, s, n) as usize];
        assert(id < before.len());
        assert(after[id as int].node_type == before[id as int].node_type);
        assert(remembered(before, stage_before, id as int, m, s));
    }
}

/// Nodes that keep their kind, their stage and their successors stay expanded.
proof fn lemma_staged_stays(
    before: Seq<RouteNode>,
    stage_before: Seq<int>,
    after: Seq<RouteNode>,
    stage_after: Seq<int>,
    sequence: Seq<usize>,
    tables: Seq<RoutingTable>,
    upto: int,
)
    requires
        0 <= upto <= before.len() <= after.len(),
        expanded_upto(before, stage_before, sequence, tables, upto),
        closed(successors(before)),
        stage_before.len() == before.len(),
        stage_after.len() == after.len(),
        forall|j: int|
            0 <= j < before.len() ==> (#[trigger] after[j]).node_type == before[j].node_type && stage_after[j]
                == stage_before[j],
        forall|j: int| 0 <= j < upto ==> (#[trigger] after[j]).next_nodes@ == before[j].next_nodes@,
    ensures
        expanded_upto(after, stage_after, sequence, tables, upto),
{
    let adj = successors(before);
    assert forall|j: int| 0 <= j < upto implies #[trigger] expanded(after, stage_after, sequence, tables, j) by {
        assert(expanded(before, stage_before, sequence, tables, j));
        let next = before[j].next_nodes@;
        assert(after[j].next_nodes@ == next);
        assert(after[j].node_type == before[j].node_type);
        assert(adj[j] == next);
        assert forall|i: int| 0 <= i < next.len() implies after[next[i] as int].node_type == before[next[i] as int].node_type
            && stage_after[next[i] as int] == stage_before[next[i] as int] by {
            assert(adj[j][i] < adj.len());
            assert(after[next[i] as int].node_type == before[next[i] as int].node_type);
        }
        match before[j].node_type {
            NodeType::VNF(h, k) => {},
            NodeType::Component(m) => {
                let target = sequence[stage_before[j]];
                if m != target {
                    let hops = tables[m as int].hops(target as int);
                    let s = stage_before[j];
                    assert(leads_on(before, stage_before, next, hops, s));
                    assert forall|i: int| 0 <= i < hops.len() implies after[next[i] as int].node_type
                        == NodeType::Component(#[trigger] hops[i]) && stage_after[next[i] as int] == s by {
                        assert(before[next[i] as int].node_type == NodeType::Component(hops[i]));
                    }
                }
            },
        }
    }
}

/// No two nodes are of the same kind at the same stage: a datacentre node has one
/// component for every stage at which routes pass it, and a stage has one VNF.
pub open spec fn distinct_places(graph: Seq<RouteNode>, stage: Seq<int>) -> bool {
    forall|i: int, j: int|
        #![trigger graph[i], graph[j]]
        0 <= i < j < graph.len() ==> graph[i].node_type != graph[j].node_type || stage[i] != stage[j]
}

/// `origin` names for every node but the first the node that first led to it. The nodes
/// stand in the order in which they were first led to: behind the node that first led to
/// them, those of an earlier such node first, and those of one node in the order in which
/// it lists them.
pub open spec fn in_search_order(adj: Seq<Seq<usize>>, origin: Seq<int>) -> bool {
    &&& origin.len() == adj.len()
    &&& forall|j: int| 1 <= j < adj.len() ==> 0 <= #[trigger] origin[j] < j && adj[origin[j]].contains(j as usize)
    &&& forall|i: int, j: int| 1 <= i < j < adj.len() ==> #[trigger] origin[i] <= #[trigger] origin[j]
    &&& forall|p: int, e: int|
        0 <= p < adj.len() && 0 <= e < adj[p].len() && 1 <= adj[p][e] < adj.len() ==> origin[(#[trigger] adj[p][e]) as int] <= p
    &&& forall|p: int, e: int, f: int|
        #![trigger adj[p][e], adj[p][f]]
        0 <= p < adj.len() && 0 <= e < f < adj[p].len() && 1 <= adj[p][e] < adj.len() && 1 <= adj[p][f] < adj.len()
            && origin[adj[p][e] as int] == p && origin[adj[p][f] as int] == p ==> adj[p][e] < adj[p][f]
}

/// The nodes of `graph` stand in the order of the search that found them.
pub open spec fn numbered(graph: Seq<RouteNode>) -> bool {
    exists|origin: Seq<int>| in_search_order(successors(graph), origin)
}

/// What keeps the nodes apart while the graph is built. `vnf_at` names the VNF of every
/// stage that has one, and `maker` the component that led to it. Every VNF is the one of
/// its stage; every component is remembered for its datacentre node and stage, and stands
/// at a stage whose predecessor's VNF was expanded among the first `popped` nodes.
spec fn unique_ok(
    graph: Seq<RouteNode>,
    stage: Seq<int>,
    lookup: Map<usize, usize>,
    vnf_at: Seq<int>,
    maker: Seq<int>,
    sequence: Seq<usize>,
    n: int,
    popped: int,
) -> bool {
    &&& vnf_at.len() == sequence.len()
    &&& maker.len() == sequence.len()
    &&& stage.len() == graph.len()
    &&& forall|s: int|
        0 <= s < vnf_at.len() && 0 <= #[trigger] vnf_at[s] ==> vnf_at[s] < graph.len() && graph[vnf_at[s]].node_type is VNF
            && stage[vnf_at[s]] == s
    &&& forall|j: int|
        0 <= j < graph.len() && (#[trigger] graph[j]).node_type is VNF ==> 0 <= stage[j] < vnf_at.len() && vnf_at[stage[j]]
            == j
    &&& forall|j: int| 0 <= j < graph.len() && (#[trigger] graph[j]).node_type is Component ==> known(graph, stage, lookup, vnf_at, n, popped, j)
    &&& forall|s: int|
        1 <= s < vnf_at.len() && 0 <= vnf_at[s] ==> 0 <= #[trigger] maker[s] < popped && maker[s] < graph.len()
            && graph[maker[s]].node_type == NodeType::Component(sequence[s]) && stage[maker[s]] == s
}

/// The component `j` is remembered for its datacentre node and stage, and the VNF of the
/// stage before was expanded among the first `popped` nodes.
spec fn known(
    graph: Seq<RouteNode>,
    stage: Seq<int>,
    lookup: Map<usize, usize>,
    vnf_at: Seq<int>,
    n: int,
    popped: int,
    j: int,
) -> bool {
    let m = graph[j].node_type->Component_0;
    &&& 1 <= stage[j] < vnf_at.len()
    &&& m < n
    &&& lookup.contains_key(key_of(m as int, stage[j], n) as usize)
    &&& lookup[key_of(m as int, stage[j], n) as usize] == j
    &&& 0 <= vnf_at[stage[j] - 1] < popped
}

/// Nodes that are kept apart are at different places.
proof fn lemma_unique_distinct(
    graph: Seq<RouteNode>,
    stage: Seq<int>,
    lookup: Map<usize, usize>,
    vnf_at: Seq<int>,
    maker: Seq<int>,
    sequence: Seq<usize>,
    n: int,
    popped: int,
)
    requires
        unique_ok(graph, stage, lookup, vnf_at, maker, sequence, n, popped),
    ensures
        distinct_places(graph, stage),
{
    assert forall|i: int, j: int|
        #![trigger graph[i], graph[j]]
        0 <= i < j < graph.len() implies graph[i].node_type != graph[j].node_type || stage[i] != stage[j] by {
        if graph[i].node_type == graph[j].node_type && stage[i] == stage[j] {
            match graph[i].node_type {
                NodeType::VNF(_, _) => {
                    assert(vnf_at[stage[i]] == i);
                    assert(vnf_at[stage[j]] == j);
                },
                NodeType::Component(m) => {
                    assert(known(graph, stage, lookup, vnf_at, n, popped, i));
                    assert(known(graph, stage, lookup, vnf_at, n, popped, j));
                },
            }
        }
    }
}

/// Nodes stay apart while the graph keeps its nodes and what is remembered.
proof fn lemma_unique_same(
    before: Seq<RouteNode>,
    after: Seq<RouteNode>,
    stage: Seq<int>,
    lookup: Map<usize, usize>,
    vnf_at: Seq<int>,
    maker: Seq<int>,
    sequence: Seq<usize>,
    n: int,
    popped: int,
    later: int,
)
    requires
        unique_ok(before, stage, lookup, vnf_at, maker, sequence, n, popped),
        popped <= later,
        after.len() == before.len(),
        forall|j: int| 0 <= j < before.len() ==> (#[trigger] after[j]).node_type == before[j].node_type,
    ensures
        unique_ok(after, stage, lookup, vnf_at, maker, sequence, n, later),
{
    assert forall|j: int| 0 <= j < after.len() && (#[trigger] after[j]).node_type is Component implies known(
        after,
        stage,
        lookup,
        vnf_at,
        n,
        later,
        j,
    ) by {
        assert(before[j].node_type is Component);
        assert(known(before, stage, lookup, vnf_at, n, popped, j));
    }
    assert forall|j: int| 0 <= j < after.len() && (#[trigger] after[j]).node_type is VNF implies 0 <= stage[j]
        < vnf_at.len() && vnf_at[stage[j]] == j by {
        assert(before[j].node_type is VNF);
    }
    assert forall|s: int|
        0 <= s < vnf_at.len() && 0 <= #[trigger] vnf_at[s] implies vnf_at[s] < after.len() && after[vnf_at[s]].node_type is VNF
        && stage[vnf_at[s]] == s by {
        assert(before[vnf_at[s]].node_type is VNF);
    }
    assert forall|s: int|
        1 <= s < vnf_at.len() && 0 <= vnf_at[s] implies 0 <= #[trigger] maker[s] < later && maker[s] < after.len()
        && after[maker[s]].node_type == NodeType::Component(sequence[s]) && stage[maker[s]] == s by {
        assert(after[maker[s]].node_type == before[maker[s]].node_type);
    }
}

/// A new component, remembered for its datacentre node and stage, which were not
/// remembered, stays apart from the nodes that are there.
proof fn lemma_unique_component(
    before: Seq<RouteNode>,
    after: Seq<RouteNode>,
    stage: Seq<int>,
    lookup: Map<usize, usize>,
    vnf_at: Seq<int>,
    maker: Seq<int>,
    sequence: Seq<usize>,
    n: int,
    popped: int,
    m: int,
    s: int,
)
    requires
        unique_ok(before, stage, lookup, vnf_at, maker, sequence, n, popped),
        after.len() == before.len() + 1,
        forall|j: int| 0 <= j < before.len() ==> (#[trigger] after[j]).node_type == before[j].node_type,
        after[before.len() as int].node_type == NodeType::Component(m as usize),
        0 <= m < n,
        1 <= s < sequence.len(),
        n * sequence.len() <= usize::MAX,
        before.len() < usize::MAX,
        !lookup.contains_key(key_of(m, s, n) as usize),
        0 <= vnf_at[s - 1] < popped,
        forall|j: int|
            0 <= j < before.len() && (#[trigger] before[j]).node_type is Component ==> 0 <= stage[j] < sequence.len(),
    ensures
        unique_ok(
            after,
            stage.push(s),
            lookup.insert(key_of(m, s, n) as usize, before.len() as usize),
            vnf_at,
            maker,
            sequence,
            n,
            popped,
        ),
{
    let c = before.len() as int;
    let stage2 = stage.push(s);
    let lookup2 = lookup.insert(key_of(m, s, n) as usize, c as usize);
    lemma_key_bounds(m, s, n, sequence.len() as int);
    assert forall|j: int| 0 <= j < after.len() && (#[trigger] after[j]).node_type is Component implies known(
        after,
        stage2,
        lookup2,
        vnf_at,
        n,
        popped,
        j,
    ) by {
        if j < c {
            assert(before[j].node_type is Component);
            assert(known(before, stage, lookup, vnf_at, n, popped, j));
            let mj = before[j].node_type->Component_0 as int;
            lemma_key_bounds(mj, stage[j], n, sequence.len() as int);
            if key_of(mj, stage[j], n) == key_of(m, s, n) {
                lemma_key_unique(mj, stage[j], m, s, n);
            }
        }
    }
    assert forall|j: int| 0 <= j < after.len() && (#[trigger] after[j]).node_type is VNF implies 0 <= stage2[j]
        < vnf_at.len() && vnf_at[stage2[j]] == j by {
        assert(before[j].node_type is VNF);
    }
    assert forall|t: int|
        0 <= t < vnf_at.len() && 0 <= #[trigger] vnf_at[t] implies vnf_at[t] < after.len() && after[vnf_at[t]].node_type is VNF
        && stage2[vnf_at[t]] == t by {
        assert(before[vnf_at[t]].node_type is VNF);
    }
    assert forall|t: int|
        1 <= t < vnf_at.len() && 0 <= vnf_at[t] implies 0 <= #[trigger] maker[t] < popped && maker[t] < after.len()
        && after[maker[t]].node_type == NodeType::Component(sequence[t]) && stage2[maker[t]] == t by {
        assert(after[maker[t]].node_type == before[maker[t]].node_type);
    }
}

/// The host of the VNF that is expanded, `curr`, is not remembered for the next stage.
proof fn lemma_host_is_new(
    graph: Seq<RouteNode>,
    stage: Seq<int>,
    lookup: Map<usize, usize>,
    vnf_at: Seq<int>,
    maker: Seq<int>,
    sequence: Seq<usize>,
    n: int,
    curr: int,
    h: int,
)
    requires
        unique_ok(graph, stage, lookup, vnf_at, maker, sequence, n, curr),
        types_ok(lookup, graph, stage, n, sequence.len() as int),
        lookup_ok(lookup, graph.len() as int, n * sequence.len()),
        0 <= curr < graph.len(),
        graph[curr].node_type is VNF,
        0 <= stage[curr],
        stage[curr] + 1 < sequence.len(),
        0 <= h < n,
    ensures
        !lookup.contains_key(key_of(h, stage[curr] + 1, n) as usize),
{
    let key = key_of(h, stage[curr] + 1, n) as usize;
    if lookup.contains_key(key) {
        let id = lookup[key] as int;
        assert(remembered(graph, stage, id, h, stage[curr] + 1));
        assert(graph[id].node_type is Component);
        assert(known(graph, stage, lookup, vnf_at, n, curr, id));
        assert(vnf_at[stage[curr]] == curr);
    }
}

/// The VNF that the component `curr`, which is expanded, leads to is the first of its
/// stage, and stays apart from the nodes that are there.
proof fn lemma_unique_vnf(
    before: Seq<RouteNode>,
    after: Seq<RouteNode>,
    stage: Seq<int>,
    lookup: Map<usize, usize>,
    vnf_at: Seq<int>,
    maker: Seq<int>,
    sequence: Seq<usize>,
    n: int,
    curr: int,
)
    requires
        unique_ok(before, stage, lookup, vnf_at, maker, sequence, n, curr),
        0 <= curr < before.len(),
        0 <= stage[curr] < sequence.len(),
        before[curr].node_type == NodeType::Component(sequence[stage[curr]]),
        after.len() == before.len() + 1,
        forall|j: int| 0 <= j < before.len() ==> (#[trigger] after[j]).node_type == before[j].node_type,
        after[before.len() as int].node_type is VNF,
        n * sequence.len() <= usize::MAX,
    ensures
        unique_ok(
            after,
            stage.push(stage[curr]),
            lookup,
            vnf_at.update(stage[curr], before.len() as int),
            maker.update(stage[curr], curr),
            sequence,
            n,
            curr + 1,
        ),
{
    let s = stage[curr];
    let v = before.len() as int;
    let stage2 = stage.push(s);
    let vnf2 = vnf_at.update(s, v);
    let maker2 = maker.update(s, curr);
    assert(known(before, stage, lookup, vnf_at, n, curr, curr));
    // No VNF stands at this stage: the component that led to it would be this one, which
    // was not expanded before.
    if vnf_at[s] >= 0 {
        let mk = maker[s];
        assert(before[mk].node_type is Component);
        assert(known(before, stage, lookup, vnf_at, n, curr, mk));
        assert(false);
    }
    assert forall|j: int| 0 <= j < after.len() && (#[trigger] after[j]).node_type is Component implies known(
        after,
        stage2,
        lookup,
        vnf2,
        n,
        curr + 1,
        j,
    ) by {
        assert(before[j].node_type is Component);
        assert(known(before, stage, lookup, vnf_at, n, curr, j));
    }
    assert forall|j: int| 0 <= j < after.len() && (#[trigger] after[j]).node_type is VNF implies 0 <= stage2[j]
        < vnf2.len() && vnf2[stage2[j]] == j by {
        if j < v {
            assert(before[j].node_type is VNF);
            assert(vnf_at[stage[j]] == j);
        }
    }
    assert forall|t: int|
        0 <= t < vnf2.len() && 0 <= #[trigger] vnf2[t] implies vnf2[t] < after.len() && after[vnf2[t]].node_type is VNF
        && stage2[vnf2[t]] == t by {
        if t != s {
            assert(vnf_at[t] == vnf2[t]);
            assert(before[vnf_at[t]].node_type is VNF);
        }
    }
    assert forall|t: int|
        1 <= t < vnf2.len() && 0 <= vnf2[t] implies 0 <= #[trigger] maker2[t] < curr + 1 && maker2[t] < after.len()
        && after[maker2[t]].node_type == NodeType::Component(sequence[t]) && stage2[maker2[t]] == t by {
        if t != s {
            assert(vnf_at[t] == vnf2[t]);
            assert(maker[t] == maker2[t]);
            assert(after[maker[t]].node_type == before[maker[t]].node_type);
        }
    }
}

/// Every node but the first was first led to by one of the first `popped` nodes.
spec fn origin_below(origin: Seq<int>, popped: int) -> bool {
    forall|j: int| 1 <= j < origin.len() ==> #[trigger] origin[j] < popped
}

/// A new node that `curr`, the node last expanded, leads to stands in the order of the
/// search.
proof fn lemma_order_child(before: Seq<Seq<usize>>, after: Seq<Seq<usize>>, origin: Seq<int>, curr: int)
    requires
        in_search_order(before, origin),
        origin_below(origin, curr + 1),
        closed(before),
        0 <= curr < before.len(),
        before.len() < usize::MAX,
        after.len() == before.len() + 1,
        after[curr] == before[curr].push(before.len() as usize),
        forall|j: int| 0 <= j < before.len() && j != curr ==> #[trigger] after[j] == before[j],
        after[before.len() as int].len() == 0,
    ensures
        in_search_order(after, origin.push(curr)),
        origin_below(origin.push(curr), curr + 1),
{
    let c = before.len() as int;
    let origin2 = origin.push(curr);
    assert forall|p: int, e: int| 0 <= p < after.len() && 0 <= e < after[p].len() implies (p < c && (if p == curr && e
        == before[curr].len() {
        after[p][e] == c
    } else {
        e < before[p].len() && after[p][e] == before[p][e] && before[p][e] < c
    })) by {
        if p == curr && e < before[curr].len() {
            assert(after[p][e] == before[p][e]);
        }
    }
    assert forall|j: int| 1 <= j < after.len() implies 0 <= #[trigger] origin2[j] < j && after[origin2[j]].contains(
        j as usize,
    ) by {
        if j < c {
            assert(before[origin[j]].contains(j as usize));
            let e = choose|e: int| 0 <= e < before[origin[j]].len() && before[origin[j]][e] == j as usize;
            if origin[j] == curr {
                assert(after[curr][e] == j as usize);
            } else {
                assert(after[origin[j]][e] == j as usize);
            }
        } else {
            assert(after[curr][before[curr].len() as int] == c as usize);
        }
    }
    assert forall|i: int, j: int| 1 <= i < j < after.len() implies #[trigger] origin2[i] <= #[trigger] origin2[j] by {
        if j == c {
            assert(origin[i] < curr + 1);
        }
    }
    assert forall|p: int, e: int|
        0 <= p < after.len() && 0 <= e < after[p].len() && 1 <= after[p][e] < after.len() implies origin2[(
    #[trigger] after[p][e]) as int] <= p by {
        if !(p == curr && e == before[curr].len()) {
            assert(after[p][e] == before[p][e]);
            assert(origin[before[p][e] as int] <= p);
        }
    }
    assert forall|p: int, e: int, f: int|
        #![trigger after[p][e], after[p][f]]
        0 <= p < after.len() && 0 <= e < f < after[p].len() && 1 <= after[p][e] < after.len() && 1 <= after[p][f]
            < after.len() && origin2[after[p][e] as int] == p && origin2[after[p][f] as int] == p implies after[p][e]
        < after[p][f] by {
        if p == curr && f == before[curr].len() {
            assert(after[p][e] == before[p][e]);
        } else {
            assert(after[p][e] == before[p][e]);
            assert(after[p][f] == before[p][f]);
        }
    }
}

/// One more route from `curr`, the node last expanded, to a node that it did not lead to
/// before leaves the nodes in the order of the search.
proof fn lemma_order_route(before: Seq<Seq<usize>>, after: Seq<Seq<usize>>, origin: Seq<int>, curr: int, to: usize)
    requires
        in_search_order(before, origin),
        origin_below(origin, curr + 1),
        closed(before),
        0 <= curr < before.len(),
        to < before.len(),
        !before[curr].contains(to),
        after.len() == before.len(),
        after[curr] == before[curr].push(to),
        forall|j: int| 0 <= j < before.len() && j != curr ==> #[trigger] after[j] == before[j],
    ensures
        in_search_order(after, origin),
{
    let last = before[curr].len() as int;
    assert forall|j: int| 1 <= j < after.len() implies 0 <= #[trigger] origin[j] < j && after[origin[j]].contains(
        j as usize,
    ) by {
        let e = choose|e: int| 0 <= e < before[origin[j]].len() && before[origin[j]][e] == j as usize;
        if origin[j] == curr {
            assert(after[curr][e] == j as usize);
        } else {
            assert(after[origin[j]][e] == j as usize);
        }
    }
    assert forall|p: int, e: int|
        0 <= p < after.len() && 0 <= e < after[p].len() && 1 <= after[p][e] < after.len() implies origin[(
    #[trigger] after[p][e]) as int] <= p by {
        if p == curr && e == last {
            assert(origin[to as int] < curr + 1);
        } else {
            assert(after[p][e] == before[p][e]);
        }
    }
    assert forall|p: int, e: int, f: int|
        #![trigger after[p][e], after[p][f]]
        0 <= p < after.len() && 0 <= e < f < after[p].len() && 1 <= after[p][e] < after.len() && 1 <= after[p][f]
            < after.len() && origin[after[p][e] as int] == p && origin[after[p][f] as int] == p implies after[p][e]
        < after[p][f] by {
        if p == curr && f == last {
            // The node would have been led to by `curr` before.
            assert(before[origin[to as int]].contains(to));
            assert(false);
        } else {
            assert(after[p][e] == before[p][e]);
            assert(after[p][f] == before[p][f]);
        }
    }
}

/// The nodes stand in the order of the search, each first led to by one of the first
/// `popped` nodes.
spec fn ordered(graph: Seq<RouteNode>, origin: Seq<int>, popped: int) -> bool {
    in_search_order(successors(graph), origin) && origin_below(origin, popped)
}

/// One more successor, for one more hop, goes with the hops so far.
proof fn lemma_leads_on_push(
    before: Seq<RouteNode>,
    stage_before: Seq<int>,
    after: Seq<RouteNode>,
    stage_after: Seq<int>,
    next: Seq<usize>,
    hops: Seq<usize>,
    idx: int,
    node_id: usize,
    parent: int,
    s: int,
)
    requires
        0 <= idx < hops.len(),
        leads_on(before, stage_before, next, hops.take(idx), s),
        before.len() <= after.len(),
        closed(successors(before)),
        0 <= parent < before.len(),
        next == before[parent].next_nodes@,
        forall|j: int|
            0 <= j < before.len() ==> (#[trigger] after[j]).node_type == before[j].node_type && stage_after[j]
                == stage_before[j],
        node_id < after.len(),
        remembered(after, stage_after, node_id as int, hops[idx] as int, s),
    ensures
        leads_on(after, stage_after, next.push(node_id), hops.take(idx + 1), s),
{
    let longer = hops.take(idx + 1);
    let shorter = hops.take(idx);
    let adj = successors(before);
    assert(adj[parent] == next);
    assert forall|i: int| 0 <= i < longer.len() implies after[next.push(node_id)[i] as int].node_type
        == NodeType::Component(#[trigger] longer[i]) && stage_after[next.push(node_id)[i] as int] == s by {
        if i < idx {
            assert(before[next[i] as int].node_type == NodeType::Component(shorter[i]));
            assert(adj[parent][i] < adj.len());
            assert(after[next[i] as int].node_type == before[next[i] as int].node_type);
        }
    }
}

/// Every node up to `upto` is expanded.
spec fn expanded_upto(
    graph: Seq<RouteNode>,
    stage: Seq<int>,
    sequence: Seq<usize>,
    tables: Seq<RoutingTable>,
    upto: int,
) -> bool {
    forall|j: int| 0 <= j < upto ==> #[trigger] expanded(graph, stage, sequence, tables, j)
}

/// `graph` is a route graph for the placement `sequence` in a datacentre of `n` nodes: it
/// starts at the first VNF, every node can be reached from there, every node counts the
/// edges that enter it (the first node one more), and every VNF sits on the server that the
/// sequence names for its stage.
pub open spec fn routes_for(graph: Seq<RouteNode>, sequence: Seq<usize>, n: int) -> bool {
    &&& graph.len() >= 1
    &&& graph[0].node_type == NodeType::VNF(sequence[0], 0)
    &&& closed(successors(graph))
    &&& forall|j: int| 0 <= j < graph.len() ==> reachable(successors(graph), 0, j)
    &&& counts_exact(graph)
    &&& forall|j: int|
        0 <= j < graph.len() ==> match (#[trigger] graph[j]).node_type {
            NodeType::VNF(h, k) => k < sequence.len() && h == sequence[k as int],
            NodeType::Component(m) => m < n,
        }
}

/// Expands a placement into its route graph.
///
/// `sequence` names, stage by stage, the server that hosts each VNF of a service. The graph
/// starts at the first VNF; from each VNF but the last it passes through the host itself and
/// then along every equal-cost route to the host of the next VNF. A node that several routes
/// reach exists once, and counts the routes that enter it.
pub fn find_routes(sequence: Vec<usize>, routing_tables: &Vec<RoutingTable>) -> (graph: Vec<RouteNode>)
    requires
        sequence.len() > 0,
        routing_valid(routing_tables@),
        forall|k: int| 0 <= k < sequence.len() ==> sequence[k] < num_servers(routing_tables@),
        route_capacity(sequence.len() as int, routing_tables.len() as int) < u32::MAX,
    ensures
        is_route(graph@, sequence@, routing_tables@),
{
    let n = routing_tables.len();
    let stages = sequence.len();
    let init_server_id = sequence[0];
    let init_node = RouteNode::new_vnf(init_server_id, 0);

    let ghost first_stage: Seq<int> = seq![0int];
    let ghost first_weight: Seq<nat> = seq![(2 * stages - 1) as nat];
    let stage_of: Ghost<Seq<int>> = Ghost(first_stage);
    let weight: Ghost<Seq<nat>> = Ghost(first_weight);
    let popped: Ghost<int> = Ghost(0int);
    let mut b = RouteBuilder {
        graph: Vec::new(),
        lookup: HashMap::new(),
        queue: VecDeque::new(),
        stage_of,
        weight,
        popped,
    };
    b.graph.push(init_node);
    b.queue.push_back((0, 0));

    let ghost seq_view = sequence@;
    let ghost budget: int = route_capacity(stages as int, n as int) - 1;
    let ghost mut vnf_at: Seq<int> = Seq::new(stages as nat, |s: int| if s == 0 { 0int } else { -1int });
    let ghost mut maker: Seq<int> = Seq::new(stages as nat, |s: int| -1int);
    let ghost mut origin: Seq<int> = seq![-1int];

    proof {
        let cap: int = n * stages;
        let unit: int = 2 * stages;
        assert(0 <= cap && unit * cap + unit == route_capacity(stages as int, n as int) && cap + 1 <= unit * cap
            + unit) by (nonlinear_arith)
            requires
                cap == n * stages,
                unit == 2 * stages,
                stages >= 1,
                route_capacity(stages as int, n as int) == 2 * stages * (n * stages + 1),
        ;
        assert(b.lookup@.dom() =~= Set::<usize>::empty());
        assert(sum_from(b.weight@, 1) == 0);
        assert(sum_from(b.weight@, 0) == b.weight@[0]);
        assert(successors(b.graph@) =~= seq![Seq::<usize>::empty()]);
        assert(edges_into(successors(b.graph@).drop_last(), 0) == 0);
        assert(count_of(Seq::<usize>::empty(), 0) == 0);
        assert(edges_into(successors(b.graph@), 0) == 0);
    }

    while b.queue.len() > 0
        invariant
            n == routing_tables.len(),
            stages == sequence.len(),
            stages > 0,
            seq_view == sequence@,
            budget == route_capacity(stages as int, n as int) - 1,
            budget + 1 < u32::MAX,
            n * stages <= budget,
            routing_valid(routing_tables@),
            forall|k: int| 0 <= k < sequence.len() ==> sequence[k] < num_servers(routing_tables@),
            b.inv(seq_view, n as int),
            b.popped@ + b.potential(seq_view, n as int) <= budget,
            b.graph[0].node_type == NodeType::VNF(sequence[0], 0),
            types_ok(b.lookup@, b.graph@, b.stage_of@, n as int, stages as int),
            expanded_upto(b.graph@, b.stage_of@, seq_view, routing_tables@, b.popped@),
            unique_ok(b.graph@, b.stage_of@, b.lookup@, vnf_at, maker, seq_view, n as int, b.popped@),
            ordered(b.graph@, origin, b.popped@),
        decreases b.potential(seq_view, n as int),
    {
        proof {
            b.lemma_potential_bounds(seq_view, n as int);
        }
        let ghost phi_in = b.potential(seq_view, n as int);
        let (stage, curr) = b.pop(Ghost(seq_view), Ghost(n as int));
        let ghost w_curr = phi_in - b.potential(seq_view, n as int);
        let ghost b_top = b;
        proof {
            assert(ordered(b.graph@, origin, curr + 1));
            assert(0 <= b.stage_of@[curr as int] < stages);
            assert(b.graph[curr as int].next_nodes@.len() == 0);
        }

        if let NodeType::VNF(server_id, _) = b.graph[curr].node_type {
            if stage < sequence.len() - 1 {
                proof {
                    lemma_key_bounds(server_id as int, stage + 1, n as int, stages as int);
                    assert(0 <= (stage + 1) * n) by (nonlinear_arith)
                        requires
                            0 <= stage,
                            0 <= n,
                    ;
                }
                proof {
                    lemma_host_is_new(
                        b.graph@,
                        b.stage_of@,
                        b.lookup@,
                        vnf_at,
                        maker,
                        seq_view,
                        n as int,
                        curr as int,
                        server_id as int,
                    );
                    lemma_unique_same(
                        b.graph@,
                        b.graph@,
                        b.stage_of@,
                        b.lookup@,
                        vnf_at,
                        maker,
                        seq_view,
                        n as int,
                        curr as int,
                        curr + 1,
                    );
                }
                let server = RouteNode::new_component(server_id);
                let next_pos = b.add_child(curr, server, stage + 1, Ghost(seq_view), Ghost(n as int));
                let ghost b_mid = b;
                // The host is expanded at the next stage, and remembered for it.
                b.remember((stage + 1) * n + server_id, next_pos, Ghost(seq_view), Ghost(n as int));
                proof {
                    b.lemma_grown(&b_top, &b_mid, seq_view, routing_tables@, n as int, curr as int);
                    lemma_types_insert(
                        b_mid.lookup@,
                        b_mid.graph@,
                        b_mid.stage_of@,
                        n as int,
                        stages as int,
                        server_id as int,
                        stage + 1,
                        next_pos,
                    );
                    assert(b.graph[curr as int].next_nodes@ =~= seq![next_pos]);
                    assert(expanded(b.graph@, b.stage_of@, seq_view, routing_tables@, curr as int));
                    lemma_unique_component(
                        b_top.graph@,
                        b.graph@,
                        b_top.stage_of@,
                        b_top.lookup@,
                        vnf_at,
                        maker,
                        seq_view,
                        n as int,
                        curr + 1,
                        server_id as int,
                        stage + 1,
                    );
                    b.lemma_child_ordered(&b_top, &b_mid, origin, seq_view, n as int, curr as int);
                    origin = origin.push(curr as int);
                }
            } else {
                proof {
                    assert(expanded(b.graph@, b.stage_of@, seq_view, routing_tables@, curr as int));
                    lemma_unique_same(
                        b.graph@,
                        b.graph@,
                        b.stage_of@,
                        b.lookup@,
                        vnf_at,
                        maker,
                        seq_view,
                        n as int,
                        curr as int,
                        curr + 1,
                    );
                }
            }
        } else {
            let target = sequence[stage];
            let curr_dc_node = b.graph[curr].dc_id();
            let next_dc_nodes = routing_tables[curr_dc_node].find(target);
            proof {
                let table = routing_tables[curr_dc_node as int];
                table.lemma_row_exists(target as int);
                assert(hops_valid(table.hops(target as int), n as int));
                assert(hops_valid(next_dc_nodes@, n as int));
            }

            if curr_dc_node == target {
                let vnf = RouteNode::new_vnf(curr_dc_node, stage);
                let node_id = b.add_child(curr, vnf, stage, Ghost(seq_view), Ghost(n as int));
                proof {
                    b.lemma_grown(&b_top, &b, seq_view, routing_tables@, n as int, curr as int);
                    assert(b.graph[curr as int].next_nodes@ =~= seq![node_id]);
                    assert(expanded(b.graph@, b.stage_of@, seq_view, routing_tables@, curr as int));
                    lemma_unique_vnf(
                        b_top.graph@,
                        b.graph@,
                        b_top.stage_of@,
                        b_top.lookup@,
                        vnf_at,
                        maker,
                        seq_view,
                        n as int,
                        curr as int,
                    );
                    vnf_at = vnf_at.update(stage as int, node_id as int);
                    maker = maker.update(stage as int, curr as int);
                    b.lemma_child_ordered(&b_top, &b, origin, seq_view, n as int, curr as int);
                    origin = origin.push(curr as int);
                }
            } else {
                let ghost b0 = b;
                proof {
                    assert(next_dc_nodes@.take(0) =~= Seq::<usize>::empty());
                    lemma_unique_same(
                        b.graph@,
                        b.graph@,
                        b.stage_of@,
                        b.lookup@,
                        vnf_at,
                        maker,
                        seq_view,
                        n as int,
                        curr as int,
                        curr + 1,
                    );
                }
                let mut idx: usize = 0;
                while idx < next_dc_nodes.len()
                    invariant
                        n == routing_tables.len(),
                        stages == sequence.len(),
                        seq_view == sequence@,
                        budget + 1 < u32::MAX,
                        n * stages <= budget,
                        stage < stages,
                        hops_valid(next_dc_nodes@, n as int),
                        idx <= next_dc_nodes.len(),
                        b.inv(seq_view, n as int),
                        b.extends(&b0, curr as int),
                        curr < b0.graph.len(),
                        curr < b.popped@,
                        b.graph[curr as int].next_nodes@.len() == idx,
                        forall|k: int|
                            0 <= k < idx ==> b.lookup@.contains_key(
                                key_of((#[trigger] next_dc_nodes[k]) as int, stage as int, n as int) as usize,
                            ) && b.graph[curr as int].next_nodes@[k] == b.lookup@[key_of(
                                next_dc_nodes[k] as int,
                                stage as int,
                                n as int,
                            ) as usize],
                        b.potential(seq_view, n as int) + w_curr <= phi_in,
                        b.popped@ + phi_in <= budget + 1,
                        w_curr >= 2,
                        types_ok(b.lookup@, b.graph@, b.stage_of@, n as int, stages as int),
                        expanded_upto(b.graph@, b.stage_of@, seq_view, routing_tables@, curr as int),
                        leads_on(
                            b.graph@,
                            b.stage_of@,
                            b.graph[curr as int].next_nodes@,
                            next_dc_nodes@.take(idx as int),
                            stage as int,
                        ),
                        unique_ok(b.graph@, b.stage_of@, b.lookup@, vnf_at, maker, seq_view, n as int, curr + 1),
                        ordered(b.graph@, origin, curr + 1),
                        b.graph[curr as int].node_type is Component,
                        b.stage_of@[curr as int] == stage,
                    decreases next_dc_nodes.len() - idx,
                {
                    let next_dc_node = next_dc_nodes[idx];
                    proof {
                        lemma_key_bounds(next_dc_node as int, stage as int, n as int, stages as int);
                        assert(0 <= stage * n) by (nonlinear_arith)
                            requires
                                0 <= stage,
                                0 <= n,
                        ;
                        b.lemma_potential_bounds(seq_view, n as int);
                    }
                    let lk_next = stage * n + next_dc_node;
                    let ghost b_in = b;
                    proof {
                        assert forall|k: int| 0 <= k < idx implies key_of(
                            (#[trigger] next_dc_nodes[k]) as int,
                            stage as int,
                            n as int,
                        ) as usize != lk_next && (b_in.lookup@.contains_key(lk_next)
                            ==> b_in.graph[curr as int].next_nodes@[k] != b_in.lookup@[lk_next]) by {
                            lemma_key_bounds(next_dc_nodes[k] as int, stage as int, n as int, stages as int);
                            let other = key_of(next_dc_nodes[k] as int, stage as int, n as int) as usize;
                            assert(b_in.lookup@.contains_key(other));
                            if b_in.lookup@.contains_key(lk_next) {
                                assert(b_in.lookup@[other] != b_in.lookup@[lk_next]);
                            }
                        }
                    }

                    let found = b.lookup.get(&lk_next);
                    if found.is_some() {
                        let node_id: usize = *found.unwrap();
                        proof {
                            assert(b_in.lookup@.contains_key(lk_next) && b_in.lookup@[lk_next] == node_id);
                            assert forall|k: int| 0 <= k < idx implies b_in.graph[curr as int].next_nodes@[k]
                                != node_id by {
                                assert(next_dc_nodes[k] < n);
                            }
                        }
                        proof {
                            assert(lk_next == key_of(next_dc_node as int, stage as int, n as int) as usize);
                            assert(remembered(
                                b_in.graph@,
                                b_in.stage_of@,
                                node_id as int,
                                next_dc_node as int,
                                stage as int,
                            ));
                        }
                        // The node is in the graph already: one more route enters it.
                        b.add_route(curr, node_id, Ghost(seq_view), Ghost(n as int));
                        proof {
                            b.lemma_grown(&b_in, &b, seq_view, routing_tables@, n as int, curr as int);
                            lemma_leads_on_push(
                                b_in.graph@,
                                b_in.stage_of@,
                                b.graph@,
                                b.stage_of@,
                                b_in.graph[curr as int].next_nodes@,
                                next_dc_nodes@,
                                idx as int,
                                node_id,
                                curr as int,
                                stage as int,
                            );
                            lemma_unique_same(
                                b_in.graph@,
                                b.graph@,
                                b.stage_of@,
                                b.lookup@,
                                vnf_at,
                                maker,
                                seq_view,
                                n as int,
                                curr + 1,
                                curr + 1,
                            );
                            b.lemma_route_ordered(&b_in, &b, origin, seq_view, n as int, curr as int, node_id);
                        }
                    } else {
                        // The first route to reach the node.
                        let component = RouteNode::new_component(next_dc_node);
                        let node_id = b.add_child(curr, component, stage, Ghost(seq_view), Ghost(n as int));
                        let ghost b_mid = b;
                        b.remember(lk_next, node_id, Ghost(seq_view), Ghost(n as int));
                        proof {
                            b.lemma_grown(&b_in, &b_mid, seq_view, routing_tables@, n as int, curr as int);
                            lemma_types_insert(
                                b_mid.lookup@,
                                b_mid.graph@,
                                b_mid.stage_of@,
                                n as int,
                                stages as int,
                                next_dc_node as int,
                                stage as int,
                                node_id,
                            );
                            assert(known(b_in.graph@, b_in.stage_of@, b_in.lookup@, vnf_at, n as int, curr + 1, curr as int));
                            lemma_unique_component(
                                b_in.graph@,
                                b.graph@,
                                b_in.stage_of@,
                                b_in.lookup@,
                                vnf_at,
                                maker,
                                seq_view,
                                n as int,
                                curr + 1,
                                next_dc_node as int,
                                stage as int,
                            );
                            b.lemma_child_ordered(&b_in, &b_mid, origin, seq_view, n as int, curr as int);
                            origin = origin.push(curr as int);
                            lemma_leads_on_push(
                                b_in.graph@,
                                b_in.stage_of@,
                                b.graph@,
                                b.stage_of@,
                                b_in.graph[curr as int].next_nodes@,
                                next_dc_nodes@,
                                idx as int,
                                node_id,
                                curr as int,
                                stage as int,
                            );
                        }
                    }
                    idx = idx + 1;
                }
                proof {
                    assert(next_dc_nodes@.take(next_dc_nodes.len() as int) =~= next_dc_nodes@);
                    assert(b.stage_of@[curr as int] == stage);
                    assert(expanded(b.graph@, b.stage_of@, seq_view, routing_tables@, curr as int));
                }
            }
        }
        proof {
            b.lemma_potential_bounds(seq_view, n as int);
        }
    }

    proof {
        let adj = successors(b.graph@);
        assert forall|j: int| 0 <= j < b.graph.len() implies reachable(adj, 0, j) by {
            lemma_reachable_from_root(adj, j);
        }
        assert forall|j: int| 0 <= j < b.graph.len() implies match (#[trigger] b.graph[j]).node_type {
            NodeType::VNF(h, k) => k < sequence.len() && h == sequence[k as int],
            NodeType::Component(m) => m < routing_tables.len(),
        } by {
            assert(0 <= b.stage_of@[j] < sequence.len());
        }
        lemma_unique_distinct(b.graph@, b.stage_of@, b.lookup@, vnf_at, maker, seq_view, n as int, b.popped@);
        assert(staged(b.graph@, b.stage_of@, sequence@, routing_tables@, b.graph.len() as int));
        assert(numbered(b.graph@));
        if draws_nearer(routing_tables@, sequence@) {
            lemma_staged_acyclic(b.graph@, b.stage_of@, sequence@, routing_tables@);
        }
    }
    b.graph
}

/// The server that the rule `sel` places a VNF of size `req` on, if any of `row` has room.
pub open spec fn chosen<Z: NodeSelection>(sel: &Z, req: usize, row: Seq<DistanceCell>, caps: Seq<usize>) -> Option<
    usize,
> {
    if no_fit(req, row, caps) {
        None
    } else {
        Some(
            row[choose|i: int| 0 <= i < row.len() && #[trigger] sel.picks(req, row, caps, i) && fits(req, row, caps, i)].node_id,
        )
    }
}

/// The servers that the stages of a service from stage `t` on are placed on, where the
/// stage before was placed on `pos` and `caps` is what the servers have left. Every stage
/// is placed by the rule `sel` among the servers near the stage before it, and takes its
/// size from what its server has left. `None` if a stage finds no room.
pub open spec fn place<Z: NodeSelection>(
    sel: &Z,
    sizes: Seq<usize>,
    dm: Seq<Vec<DistanceCell>>,
    pos: int,
    caps: Seq<usize>,
    t: int,
) -> Option<Seq<usize>>
    decreases sizes.len() - t,
{
    if t >= sizes.len() {
        Some(Seq::empty())
    } else {
        match chosen(sel, sizes[t], dm[pos]@, caps) {
            None => None,
            Some(x) => match place(
                sel,
                sizes,
                dm,
                x as int,
                caps.update(x as int, (caps[x as int] - sizes[t]) as usize),
                t + 1,
            ) {
                None => None,
                Some(rest) => Some(seq![x] + rest),
            },
        }
    }
}

/// What the stages `from..to` of a placement take from server `x`.
pub open spec fn load(sequence: Seq<usize>, sizes: Seq<usize>, x: int, from: int, to: int) -> nat
    decreases to - from,
{
    if from >= to {
        0
    } else {
        load(sequence, sizes, x, from, to - 1) + if sequence[to - 1] == x {
            sizes[to - 1] as nat
        } else {
            0nat
        }
    }
}

/// What the servers have left after a placement.
pub open spec fn deducted(caps: Seq<usize>, sequence: Seq<usize>, sizes: Seq<usize>) -> Seq<usize> {
    Seq::new(caps.len(), |x: int| (caps[x] - load(sequence, sizes, x, 0, sequence.len() as int)) as usize)
}

proof fn lemma_load_front(sequence: Seq<usize>, sizes: Seq<usize>, x: int, from: int, to: int)
    requires
        from < to,
    ensures
        load(sequence, sizes, x, from, to) == load(sequence, sizes, x, from + 1, to) + if sequence[from] == x {
            sizes[from] as nat
        } else {
            0nat
        },
    decreases to - from,
{
    if from + 1 < to {
        lemma_load_front(sequence, sizes, x, from, to - 1);
    } else {
        assert(load(sequence, sizes, x, from, to - 1) == 0);
        assert(load(sequence, sizes, x, from + 1, to) == 0);
    }
}

proof fn lemma_load_push(sequence: Seq<usize>, node: usize, sizes: Seq<usize>, x: int, to: int)
    requires
        0 <= to <= sequence.len(),
    ensures
        load(sequence.push(node), sizes, x, 0, to) == load(sequence, sizes, x, 0, to),
    decreases to,
{
    if to > 0 {
        lemma_load_push(sequence, node, sizes, x, to - 1);
    }
}

/// The distance matrix has a row for every server and every position of a genotype of
/// `positions` positions, and the rule `sel` can read every row.
pub open spec fn rows_ok<Z: NodeSelection>(sel: &Z, dm: Seq<Vec<DistanceCell>>, servers: int, positions: int) -> bool {
    &&& servers <= dm.len()
    &&& positions <= dm.len()
    &&& forall|r: int| 0 <= r < dm.len() ==> names_servers((#[trigger] dm[r])@, servers) && sel.reads(dm[r]@)
}

/// Places the stages of `service`, the first among the servers near `start`. Where a stage
/// finds no room, what the stages before it took is given back.
pub fn place_service<Z: NodeSelection>(
    sel: &Z,
    service: &Service,
    start: usize,
    dm: &Vec<Vec<DistanceCell>>,
    capacities: &mut Vec<usize>,
) -> (r: Option<Vec<usize>>)
    requires
        start < dm.len(),
        rows_ok(sel, dm@, old(capacities).len() as int, 0),
    ensures
        final(capacities).len() == old(capacities).len(),
        match r {
            None => {
                &&& place(sel, service.sizes(), dm@, start as int, old(capacities)@, 0) is None
                &&& final(capacities)@ == old(capacities)@
            },
            Some(sequence) => {
                &&& place(sel, service.sizes(), dm@, start as int, old(capacities)@, 0) == Some(sequence@)
                &&& final(capacities)@ == deducted(old(capacities)@, sequence@, service.sizes())
                &&& sequence.len() == service.vnfs.len()
                &&& forall|t: int| 0 <= t < sequence.len() ==> #[trigger] sequence[t] < old(capacities).len()
            },
        },
{
    let ghost sizes = service.sizes();
    let ghost caps0 = capacities@;
    let mut pos = start;
    let mut sequence: Vec<usize> = Vec::new();
    let mut t: usize = 0;
    while t < service.vnfs.len()
        invariant
            t <= service.vnfs.len(),
            sizes == service.sizes(),
            caps0 == old(capacities)@,
            sequence.len() == t,
            pos < dm.len(),
            capacities.len() == caps0.len(),
            rows_ok(sel, dm@, caps0.len() as int, 0),
            forall|e: int| 0 <= e < sequence.len() ==> #[trigger] sequence[e] < caps0.len(),
            forall|x: int| 0 <= x < caps0.len() ==> (#[trigger] capacities[x]) + load(sequence@, sizes, x, 0, t as int) == caps0[x],
            place(sel, sizes, dm@, start as int, caps0, 0) == match place(sel, sizes, dm@, pos as int, capacities@, t as int) {
                None => None::<Seq<usize>>,
                Some(rest) => Some(sequence@ + rest),
            },
        decreases service.vnfs.len() - t,
    {
        let vnf = service.vnfs[t];
        let row = &dm[pos];
        let space_at = sel.select(vnf.size, row, capacities);
        proof {
            assert(sizes[t as int] == vnf.size);
            if let Some(node) = space_at {
                let i = choose|i: int|
                    0 <= i < row.len() && #[trigger] sel.picks(vnf.size, row@, capacities@, i) && fits(
                        vnf.size,
                        row@,
                        capacities@,
                        i,
                    ) && row[i].node_id == node;
                let c = choose|i: int|
                    0 <= i < row.len() && #[trigger] sel.picks(vnf.size, row@, capacities@, i) && fits(
                        vnf.size,
                        row@,
                        capacities@,
                        i,
                    );
                sel.lemma_picks_one(vnf.size, row@, capacities@, i, c);
                assert(!no_fit(vnf.size, row@, capacities@));
                assert(chosen(sel, vnf.size, row@, capacities@) == Some(node));
                assert(node < caps0.len());
            }
        }
        match space_at {
            None => {
                // No room for this stage: give back what the stages before it took.
                proof {
                    assert(chosen(sel, vnf.size, row@, capacities@) is None);
                    assert(place(sel, sizes, dm@, pos as int, capacities@, t as int) is None);
                    assert(place(sel, sizes, dm@, start as int, caps0, 0) is None);
                }
                let mut i: usize = 0;
                while i < sequence.len()
                    invariant
                        i <= sequence.len(),
                        sequence.len() == t,
                        t < service.vnfs.len(),
                        sizes == service.sizes(),
                        capacities.len() == caps0.len(),
                        forall|e: int| 0 <= e < sequence.len() ==> #[trigger] sequence[e] < caps0.len(),
                        forall|x: int|
                            0 <= x < caps0.len() ==> (#[trigger] capacities[x]) + load(
                                sequence@,
                                sizes,
                                x,
                                i as int,
                                t as int,
                            ) == caps0[x],
                    decreases sequence.len() - i,
                {
                    let at = sequence[i];
                    let size = service.vnfs[i].size;
                    proof {
                        assert(sizes[i as int] == size);
                        assert forall|x: int| 0 <= x < caps0.len() implies load(sequence@, sizes, x, i as int, t as int)
                            == load(sequence@, sizes, x, i as int + 1, t as int) + if sequence@[i as int] == x {
                            sizes[i as int] as nat
                        } else {
                            0nat
                        } by {
                            lemma_load_front(sequence@, sizes, x, i as int, t as int);
                        }
                        assert(capacities[at as int] + load(sequence@, sizes, at as int, i as int, t as int)
                            == caps0[at as int]);
                    }
                    capacities[at] = capacities[at] + size;
                    i = i + 1;
                }
                proof {
                    assert(capacities@ =~= caps0);
                }
                return None;
            },
            Some(curr) => {
                let ghost caps_in = capacities@;
                let ghost seq_in = sequence@;
                capacities[curr] = capacities[curr] - vnf.size;
                sequence.push(curr);
                proof {
                    assert(capacities@ =~= caps_in.update(curr as int, (caps_in[curr as int] - sizes[t as int]) as usize));
                    assert forall|x: int| 0 <= x < caps0.len() implies (#[trigger] capacities[x]) + load(
                        sequence@,
                        sizes,
                        x,
                        0,
                        t as int + 1,
                    ) == caps0[x] by {
                        lemma_load_push(seq_in, curr, sizes, x, t as int);
                    }
                    match place(sel, sizes, dm@, curr as int, capacities@, t as int + 1) {
                        None => {},
                        Some(rest) => {
                            assert(seq_in + (seq![curr] + rest) =~= sequence@ + rest);
                        },
                    }
                }
                pos = curr;
            },
        }
        t = t + 1;
    }
    proof {
        assert(sequence@ + Seq::<usize>::empty() =~= sequence@);
        assert(capacities@ =~= deducted(caps0, sequence@, sizes));
    }
    Some(sequence)
}

/// A service that was placed: its id and the servers that host its stages.
pub type Placed = (usize, Seq<usize>);

/// The placements of the services `services[j..]` asked for at position `start`, in their
/// order, and what the servers have left after them. A service that finds no room is left
/// out and takes nothing.
pub open spec fn map_services<Z: NodeSelection>(
    sel: &Z,
    services: Seq<&Service>,
    start: int,
    dm: Seq<Vec<DistanceCell>>,
    caps: Seq<usize>,
    j: int,
) -> (Seq<Placed>, Seq<usize>)
    decreases services.len() - j,
{
    if j >= services.len() {
        (Seq::empty(), caps)
    } else {
        let sizes = services[j].sizes();
        match place(sel, sizes, dm, start, caps, 0) {
            None => map_services(sel, services, start, dm, caps, j + 1),
            Some(sequence) => {
                let rest = map_services(sel, services, start, dm, deducted(caps, sequence, sizes), j + 1);
                (seq![(services[j].id, sequence)] + rest.0, rest.1)
            },
        }
    }
}

/// The placements of the services asked for at the positions `i..` of a genotype, in their
/// order, and what the servers have left after them.
pub open spec fn map_positions<Z: NodeSelection>(
    sel: &Z,
    cells: Seq<Seq<&Service>>,
    dm: Seq<Vec<DistanceCell>>,
    caps: Seq<usize>,
    i: int,
) -> (Seq<Placed>, Seq<usize>)
    decreases cells.len() - i,
{
    if i >= cells.len() {
        (Seq::empty(), caps)
    } else {
        let here = map_services(sel, cells[i], i, dm, caps, 0);
        let rest = map_positions(sel, cells, dm, here.1, i + 1);
        (here.0 + rest.0, rest.1)
    }
}

/// `routes` holds, for each of `placed` in order, the id of the service and a route graph
/// for its placement.
pub open spec fn routes_of(routes: Seq<(usize, Vec<RouteNode>)>, placed: Seq<Placed>, tables: Seq<RoutingTable>) -> bool {
    &&& routes.len() == placed.len()
    &&& forall|m: int|
        0 <= m < routes.len() ==> (#[trigger] routes[m]).0 == placed[m].0 && is_route(routes[m].1@, placed[m].1, tables)
}

/// `graph` is the route graph for the placement `sequence` along the routing tables
/// `tables`; it has no cycle where the tables draw nearer to the servers of the placement.
pub open spec fn is_route(graph: Seq<RouteNode>, sequence: Seq<usize>, tables: Seq<RoutingTable>) -> bool {
    &&& routes_for(graph, sequence, tables.len() as int)
    &&& follows_tables(graph, sequence, tables)
    &&& numbered(graph)
    &&& draws_nearer(tables, sequence) ==> acyclic(successors(graph))
}

/// Every service can be laid out in a datacentre of `n` nodes: it has a stage, and its route
/// graph stays within what a route count can hold.
pub open spec fn services_ok(cells: Seq<Seq<&Service>>, n: int) -> bool {
    forall|i: int, j: int|
        0 <= i < cells.len() && 0 <= j < cells[i].len() ==> service_ok(*#[trigger] cells[i][j], n)
}

/// The service can be laid out in a datacentre of `n` nodes: it has a stage, and its route
/// graph stays within what a route count can hold.
pub open spec fn service_ok(service: Service, n: int) -> bool {
    service.vnfs.len() > 0 && route_capacity(service.vnfs.len() as int, n) < u32::MAX
}

/// Turns a genotype into routes.
pub trait Mapping<X> {
    /// The genotypes that the mapping can read.
    spec fn accepts(&self, ind: &Solution<X>) -> bool;

    /// `routes` is what the mapping makes of `ind`.
    spec fn maps(&self, ind: &Solution<X>, routes: Seq<(usize, Vec<RouteNode>)>) -> bool;

    /// For every service that found room, its id and its route graph.
    fn apply(&self, ind: &Solution<X>) -> (r: Vec<(usize, Vec<RouteNode>)>)
        requires
            self.accepts(ind),
        ensures
            self.maps(ind, r@),
    ;
}

/// Maps a genotype that lists, position by position, the services to place near the server
/// of that position.
pub struct ServiceToRouteMapping<'a, X: NodeSelection> {
    pub node_selection: X,
    pub capacities: &'a Vec<usize>,
    pub distance_matrix: &'a Vec<Vec<DistanceCell>>,
    pub routing_tables: &'a Vec<RoutingTable>,
}

impl<'a, X: NodeSelection> ServiceToRouteMapping<'a, X> {
    pub fn new(
        node_selection: X,
        capacities: &'a Vec<usize>,
        distance_matrix: &'a Vec<Vec<DistanceCell>>,
        routing_tables: &'a Vec<RoutingTable>,
    ) -> (r: ServiceToRouteMapping<'a, X>)
        ensures
            r.node_selection == node_selection,
            r.capacities == capacities,
            r.distance_matrix == distance_matrix,
            r.routing_tables == routing_tables,
    {
        ServiceToRouteMapping { node_selection, capacities, distance_matrix, routing_tables }
    }

    /// The capacities name servers that the routing tables know, and the distance matrix
    /// has a row that the rule can read for each of them.
    pub open spec fn wf(&self) -> bool {
        &&& routing_valid(self.routing_tables@)
        &&& self.capacities.len() <= num_servers(self.routing_tables@)
        &&& rows_ok(&self.node_selection, self.distance_matrix@, self.capacities.len() as int, 0)
    }
}

/// Places the services that a genotype asks for, position by position, and lays out the
/// routes of those that found room.
pub fn route_services<'a, Z: NodeSelection>(
    node_selection: &Z,
    point: &Vec<Vec<&'a Service>>,
    capacities: &Vec<usize>,
    distance_matrix: &Vec<Vec<DistanceCell>>,
    routing_tables: &Vec<RoutingTable>,
) -> (r: Vec<(usize, Vec<RouteNode>)>)
    requires
        routing_valid(routing_tables@),
        capacities.len() <= num_servers(routing_tables@),
        rows_ok(node_selection, distance_matrix@, capacities.len() as int, point.len() as int),
        services_ok(service_cells(point@), routing_tables.len() as int),
    ensures
        routes_of(
            r@,
            map_positions(node_selection, service_cells(point@), distance_matrix@, capacities@, 0).0,
            routing_tables@,
        ),
{
    let mut phenotype: Vec<(usize, Vec<RouteNode>)> = Vec::new();
    let caps_in = capacities;
    let mut capacities = capacities.clone();
    let ghost sel = node_selection;
    let ghost dm = distance_matrix@;
    let ghost n = routing_tables.len() as int;
    let ghost whole = map_positions(sel, service_cells(point@), dm, caps_in@, 0);
    let ghost mut placed: Seq<Placed> = Seq::empty();

    let mut i: usize = 0;
    while i < point.len()
        invariant
            i <= point.len(),
            routing_valid(routing_tables@),
            caps_in.len() <= num_servers(routing_tables@),
            rows_ok(sel, dm, caps_in.len() as int, point.len() as int),
            services_ok(service_cells(point@), n),
            sel == node_selection,
            dm == distance_matrix@,
            n == routing_tables.len(),
            capacities.len() == caps_in.len(),
            routes_of(phenotype@, placed, routing_tables@),
            whole.0 == placed + map_positions(sel, service_cells(point@), dm, capacities@, i as int).0,
        decreases point.len() - i,
    {
        let services = &point[i];
        let ghost placed_in = placed;
        let ghost caps_at = capacities@;
        let ghost here = map_services(sel, services@, i as int, dm, caps_at, 0);
        let mut j: usize = 0;
        while j < services.len()
            invariant
                j <= services.len(),
                i < point.len(),
                services == &point[i as int],
                routing_valid(routing_tables@),
                caps_in.len() <= num_servers(routing_tables@),
                rows_ok(sel, dm, caps_in.len() as int, point.len() as int),
                services_ok(service_cells(point@), n),
                sel == node_selection,
                dm == distance_matrix@,
                n == routing_tables.len(),
                capacities.len() == caps_in.len(),
                routes_of(phenotype@, placed, routing_tables@),
                placed.len() >= placed_in.len(),
                placed.subrange(0, placed_in.len() as int) == placed_in,
                here.0 == placed.subrange(placed_in.len() as int, placed.len() as int) + map_services(
                    sel,
                    services@,
                    i as int,
                    dm,
                    capacities@,
                    j as int,
                ).0,
                here.1 == map_services(sel, services@, i as int, dm, capacities@, j as int).1,
            decreases services.len() - j,
        {
            let service = services[j];
            let ghost caps_before = capacities@;
            let ghost placed_before = placed;
            let ghost routes_before = phenotype@;
            proof {
                assert(service_cells(point@)[i as int] == services@);
                assert(service_ok(*service_cells(point@)[i as int][j as int], n));
            }
            // Find room for the chain of VNFs, starting near this position.
            match place_service(node_selection, service, i, distance_matrix, &mut capacities) {
                Some(sequence) => {
                    let ghost servers = sequence@;
                    let routes = find_routes(sequence, routing_tables);
                    phenotype.push((service.id, routes));
                    proof {
                        placed = placed_before.push((service.id, servers));
                        assert forall|m: int| 0 <= m < phenotype@.len() implies (#[trigger] phenotype@[m]).0
                            == placed[m].0 && is_route(phenotype@[m].1@, placed[m].1, routing_tables@) by {
                            if m < routes_before.len() {
                                assert(phenotype@[m] == routes_before[m]);
                            }
                        }
                        let cut = placed_in.len() as int;
                        let rest = map_services(sel, services@, i as int, dm, capacities@, j as int + 1);
                        assert(placed.subrange(cut, placed.len() as int) + rest.0 =~= placed_before.subrange(
                            cut,
                            placed_before.len() as int,
                        ) + (seq![(service.id, servers)] + rest.0));
                        assert(placed.subrange(0, cut) =~= placed_before.subrange(0, cut));
                    }
                },
                None => {},
            }
            j = j + 1;
        }
        proof {
            let cut = placed_in.len() as int;
            let rest = map_positions(sel, service_cells(point@), dm, capacities@, i as int + 1);
            assert(service_cells(point@)[i as int] == services@);
            assert(placed.subrange(cut, placed.len() as int) + Seq::<Placed>::empty() =~= placed.subrange(
                cut,
                placed.len() as int,
            ));
            assert(placed =~= placed_in + placed.subrange(cut, placed.len() as int));
            assert(placed + rest.0 =~= placed_in + (here.0 + rest.0));
        }
        i = i + 1;
    }
    proof {
        assert(placed + Seq::<Placed>::empty() =~= placed);
    }
    phenotype
}

impl<'a, Z: NodeSelection> Mapping<Vec<&'a Service>> for ServiceToRouteMapping<'a, Z> {
    open spec fn accepts(&self, ind: &Solution<Vec<&'a Service>>) -> bool {
        &&& self.wf()
        &&& ind.point.len() <= self.distance_matrix.len()
        &&& services_ok(service_cells(ind.point@), self.routing_tables.len() as int)
    }

    open spec fn maps(&self, ind: &Solution<Vec<&'a Service>>, routes: Seq<(usize, Vec<RouteNode>)>) -> bool {
        routes_of(
            routes,
            map_positions(
                &self.node_selection,
                service_cells(ind.point@),
                self.distance_matrix@,
                self.capacities@,
                0,
            ).0,
            self.routing_tables@,
        )
    }

    fn apply(&self, ind: &Solution<Vec<&'a Service>>) -> (r: Vec<(usize, Vec<RouteNode>)>) {
        route_services(
            &self.node_selection,
            &ind.point,
            self.capacities,
            self.distance_matrix,
            self.routing_tables,
        )
    }
}

/// Maps a genotype that says, service by service, how many instances to place; where each
/// is placed is drawn at random.
pub struct IntStringToRouteMapping<'a, X: NodeSelection> {
    pub node_selection: X,
    pub services: &'a Vec<Service>,
    pub capacities: &'a Vec<usize>,
    pub distance_matrix: &'a Vec<Vec<DistanceCell>>,
    pub routing_tables: &'a Vec<RoutingTable>,
}

impl<'a, X: NodeSelection> IntStringToRouteMapping<'a, X> {
    pub fn new(
        node_selection: X,
        services: &'a Vec<Service>,
        capacities: &'a Vec<usize>,
        distance_matrix: &'a Vec<Vec<DistanceCell>>,
        routing_tables: &'a Vec<RoutingTable>,
    ) -> (r: IntStringToRouteMapping<'a, X>)
        ensures
            r.node_selection == node_selection,
            r.services == services,
            r.capacities == capacities,
            r.distance_matrix == distance_matrix,
            r.routing_tables == routing_tables,
    {
        IntStringToRouteMapping { node_selection, services, capacities, distance_matrix, routing_tables }
    }
}

/// Every cell of a genotype spread over `services` holds services of `services`.
proof fn lemma_placed_from(services: Seq<Service>, len: nat, owner: Seq<usize>, positions: Seq<usize>)
    requires
        owner.len() == positions.len(),
        forall|d: int| 0 <= d < positions.len() ==> #[trigger] positions[d] < len,
        forall|d: int| 0 <= d < owner.len() ==> #[trigger] owner[d] < services.len(),
    ensures
        placed(services, len, owner, positions).len() == len,
        forall|i: int, j: int|
            0 <= i < len && 0 <= j < placed(services, len, owner, positions)[i].len() ==> exists|k: int|
                0 <= k < services.len() && *#[trigger] placed(services, len, owner, positions)[i][j] == services[k],
    decreases owner.len(),
{
    if owner.len() > 0 {
        lemma_placed_from(services, len, owner.drop_last(), positions.drop_last());
        let before = placed(services, len, owner.drop_last(), positions.drop_last());
        let after = placed(services, len, owner, positions);
        let pos = positions.last() as int;
        assert(positions[positions.len() - 1] < len);
        assert forall|i: int, j: int| 0 <= i < len && 0 <= j < after[i].len() implies exists|k: int|
            0 <= k < services.len() && *#[trigger] after[i][j] == services[k] by {
            if i == pos && j == before[pos].len() {
                assert(owner[owner.len() - 1] < services.len());
                assert(*after[i][j] == services[owner.last() as int]);
            } else {
                assert(after[i][j] == before[i][j]);
            }
        }
    }
}

proof fn lemma_owners_below(counts: Seq<usize>)
    ensures
        forall|d: int| 0 <= d < owners(counts).len() ==> #[trigger] owners(counts)[d] < counts.len(),
    decreases counts.len(),
{
    if counts.len() > 0 {
        lemma_owners_below(counts.drop_last());
        let before = owners(counts.drop_last());
        assert forall|d: int| 0 <= d < owners(counts).len() implies #[trigger] owners(counts)[d] < counts.len() by {
            if d < before.len() {
                assert(owners(counts)[d] == before[d]);
            }
        }
    }
}

impl<'a, Z: NodeSelection> Mapping<usize> for IntStringToRouteMapping<'a, Z> {
    open spec fn accepts(&self, ind: &Solution<usize>) -> bool {
        &&& routing_valid(self.routing_tables@)
        &&& self.capacities.len() <= num_servers(self.routing_tables@)
        &&& rows_ok(
            &self.node_selection,
            self.distance_matrix@,
            self.capacities.len() as int,
            self.capacities.len() as int,
        )
        &&& ind.point.len() <= self.services.len()
        &&& self.capacities.len() > 0 || forall|i: int| 0 <= i < ind.point.len() ==> ind.point[i] == 0
        &&& forall|k: int|
            0 <= k < self.services.len() ==> service_ok(#[trigger] self.services[k], self.routing_tables.len() as int)
    }

    open spec fn maps(&self, ind: &Solution<usize>, routes: Seq<(usize, Vec<RouteNode>)>) -> bool {
        exists|cells: Seq<Seq<&Service>>|
            {
                &&& #[trigger] spread_randomly(self.services@, ind.point@, self.capacities.len() as nat, cells)
                &&& routes_of(
                    routes,
                    map_positions(&self.node_selection, cells, self.distance_matrix@, self.capacities@, 0).0,
                    self.routing_tables@,
                )
            }
    }

    fn apply(&self, ind: &Solution<usize>) -> (r: Vec<(usize, Vec<RouteNode>)>) {
        let solution_len = self.capacities.len();
        let mut rng = thread_rng();
        let service_string = spread(self.services, &ind.point, solution_len, &mut rng);
        proof {
            let cells = service_cells(service_string@);
            let positions = choose|positions: Seq<usize>|
                {
                    &&& positions.len() == owners(ind.point@).len()
                    &&& forall|d: int| 0 <= d < positions.len() ==> #[trigger] positions[d] < solution_len
                    &&& cells == #[trigger] placed(self.services@, solution_len as nat, owners(ind.point@), positions)
                };
            lemma_owners_below(ind.point@);
            lemma_placed_from(self.services@, solution_len as nat, owners(ind.point@), positions);
            assert forall|i: int, j: int| 0 <= i < cells.len() && 0 <= j < cells[i].len() implies service_ok(
                *#[trigger] cells[i][j],
                self.routing_tables.len() as int,
            ) by {
                let k = choose|k: int| 0 <= k < self.services@.len() && *cells[i][j] == self.services@[k];
                assert(service_ok(self.services[k], self.routing_tables.len() as int));
            }
        }
        route_services(
            &self.node_selection,
            &service_string,
            self.capacities,
            self.distance_matrix,
            self.routing_tables,
        )
    }
}

} // verus!
