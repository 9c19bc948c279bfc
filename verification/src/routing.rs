use vstd::prelude::*;
use crate::datacentre::{
    adjacency, connected, connects, hop_distance, lemma_no_distance, links_simple, links_symmetric,
    Datacentre,
};
use crate::search::{
    edge_seen, edges_seen, equal_cost_search, first_at, first_visit, lemma_first_visit_of, lemma_level_is_distance,
    lemma_levels_rise, level_at, levelled, meets, met_before, met_from_first, searched, Visit,
};

verus! {

/// A run of consecutive destinations, `start` included and `end` excluded.
#[derive(Clone, Copy, Debug, PartialEq, Eq)]
pub struct Span {
    pub start: usize,
    pub end: usize,
}

/// The routing table of one node: for every destination server the equal-cost next hops
/// towards it, with runs of destinations that share their next hops stored once.
#[derive(Debug)]
pub struct RoutingTable {
    pub ranges: Vec<Span>,
    pub values: Vec<Vec<usize>>,
    pub min_distance: usize,
}

/// A list of next hops names nodes of a datacentre of `n` nodes, each at most once.
pub open spec fn hops_valid(hops: Seq<usize>, n: int) -> bool {
    &&& hops.no_duplicates()
    &&& forall|k: int| 0 <= k < hops.len() ==> #[trigger] hops[k] < n
}

/// The number of destination servers that a datacentre's routing tables cover.
pub open spec fn num_servers(tables: Seq<RoutingTable>) -> int {
    if tables.len() == 0 {
        0
    } else {
        tables[0].num_dests()
    }
}

/// The tables hold one well-formed table per node, all for the same destination servers,
/// and every next hop is a node.
pub open spec fn routing_valid(tables: Seq<RoutingTable>) -> bool {
    &&& num_servers(tables) <= tables.len()
    &&& forall|m: int|
        0 <= m < tables.len() ==> {
            &&& (#[trigger] tables[m]).wf()
            &&& tables[m].num_dests() == num_servers(tables)
            &&& forall|d: int|
                0 <= d < tables[m].num_dests() ==> hops_valid(#[trigger] tables[m].hops(d), tables.len() as int)
        }
}

/// Whether two lists of next hops are the same.
fn same_hops(a: &Vec<usize>, b: &Vec<usize>) -> (r: bool)
    ensures
        r == (a@ == b@),
{
    if a.len() != b.len() {
        return false;
    }
    let mut i: usize = 0;
    while i < a.len()
        invariant
            i <= a.len(),
            a.len() == b.len(),
            forall|j: int| 0 <= j < i ==> a@[j] == b@[j],
        decreases a.len() - i,
    {
        if a[i] != b[i] {
            assert(a@[i as int] != b@[i as int]);
            return false;
        }
        i = i + 1;
    }
    assert(a@ =~= b@);
    true
}

impl RoutingTable {
    /// The runs start at destination 0, follow each other without gap or overlap, none is
    /// empty or without a next hop, and neighbouring runs differ in their next hops.
    pub open spec fn wf(&self) -> bool {
        &&& self.ranges.len() == self.values.len()
        &&& self.ranges.len() > 0 ==> self.ranges[0].start == 0
        &&& forall|i: int| 0 <= i < self.ranges.len() ==> (#[trigger] self.ranges[i]).start < self.ranges[i].end
        &&& forall|i: int, j: int|
            0 <= i && j == i + 1 && j < self.ranges.len() ==> (#[trigger] self.ranges[j]).start == (
            #[trigger] self.ranges[i]).end
        &&& forall|i: int| 0 <= i < self.values.len() ==> (#[trigger] self.values[i]).len() > 0
        &&& forall|i: int, j: int|
            0 <= i && j == i + 1 && j < self.values.len() ==> (#[trigger] self.values[j])@ != (
            #[trigger] self.values[i])@
    }

    /// The number of destinations the table covers: destinations `0..num_dests()`.
    pub open spec fn num_dests(&self) -> int {
        if self.ranges.len() == 0 {
            0
        } else {
            self.ranges[self.ranges.len() - 1].end as int
        }
    }

    /// The run that holds destination `dest`.
    pub open spec fn row_of(&self, dest: int) -> int {
        choose|i: int| 0 <= i < self.ranges.len() && (#[trigger] self.ranges[i]).start <= dest < self.ranges[i].end
    }

    /// The next hops towards destination `dest`.
    pub open spec fn hops(&self, dest: int) -> Seq<usize> {
        self.values[self.row_of(dest)]@
    }

    /// Runs further down the table hold larger destinations.
    pub proof fn lemma_rows_ordered(&self, i: int, j: int)
        requires
            self.wf(),
            0 <= i < j < self.ranges.len(),
        ensures
            self.ranges[i].end <= self.ranges[j].start,
        decreases j - i,
    {
        if i + 1 < j {
            self.lemma_rows_ordered(i, j - 1);
        }
    }

    /// A destination lies in exactly one run.
    pub proof fn lemma_row_unique(&self, dest: int, i: int)
        requires
            self.wf(),
            0 <= i < self.ranges.len(),
            self.ranges[i].start <= dest < self.ranges[i].end,
        ensures
            self.row_of(dest) == i,
    {
        let r = self.row_of(dest);
        if r < i {
            self.lemma_rows_ordered(r, i);
        } else if i < r {
            self.lemma_rows_ordered(i, r);
        }
    }

    /// Every covered destination lies in some run.
    pub proof fn lemma_row_exists(&self, dest: int)
        requires
            self.wf(),
            0 <= dest < self.num_dests(),
        ensures
            0 <= self.row_of(dest) < self.ranges.len(),
            self.ranges[self.row_of(dest)].start <= dest < self.ranges[self.row_of(dest)].end,
    {
        self.lemma_row_exists_below(dest, self.ranges.len() - 1);
    }

    proof fn lemma_row_exists_below(&self, dest: int, k: int)
        requires
            self.wf(),
            0 <= k < self.ranges.len(),
            0 <= dest < self.ranges[k].end,
        ensures
            exists|i: int| 0 <= i <= k && (#[trigger] self.ranges[i]).start <= dest < self.ranges[i].end,
        decreases k,
    {
        if self.ranges[k].start <= dest {
        } else {
            self.lemma_row_exists_below(dest, k - 1);
        }
    }

    pub fn new() -> (r: RoutingTable)
        ensures
            r.wf(),
            r.num_dests() == 0,
            r.ranges.len() == 0,
            r.min_distance == usize::MAX,
    {
        RoutingTable { ranges: Vec::new(), values: Vec::new(), min_distance: usize::MAX }
    }

    /// The number of runs.
    pub fn len(&self) -> (r: usize)
        ensures
            r == self.ranges.len(),
    {
        self.ranges.len()
    }

    /// The next hops towards `destination`.
    pub fn find(&self, destination: usize) -> (r: &Vec<usize>)
        requires
            self.wf(),
            destination < self.num_dests(),
        ensures
            r@ == self.hops(destination as int),
            r.len() > 0,
    {
        let mut i: usize = 0;
        while i < self.ranges.len()
            invariant
                self.wf(),
                destination < self.num_dests(),
                i <= self.ranges.len(),
                forall|j: int| 0 <= j < i ==> (#[trigger] self.ranges[j]).end <= destination,
            decreases self.ranges.len() - i,
        {
            if destination < self.ranges[i].end {
                proof {
                    if i > 0 {
                        assert(self.ranges[i as int - 1].end <= destination);
                    }
                    self.lemma_row_unique(destination as int, i as int);
                }
                return &self.values[i];
            }
            i = i + 1;
        }
        proof {
            assert(self.ranges[self.ranges.len() - 1].end <= destination);
        }
        unreached()
    }

    /// Offers `direction` as a next hop towards `server`, reached at `distance`.
    ///
    /// Destinations are offered in ascending order: `server` is the last destination the
    /// table covers or the one after it. A route longer than those recorded for the same
    /// destination is dropped, one as long joins them, and a shorter one takes their place:
    /// only the next hops at the least distance are kept.
    #[verifier::rlimit(60)]
    #[verifier::spinoff_prover]
    pub fn consider(&mut self, server: usize, direction: usize, distance: usize)
        requires
            old(self).wf(),
            server < usize::MAX,
            server == old(self).num_dests() || server + 1 == old(self).num_dests(),
        ensures
            final(self).wf(),
            ({
                let same = server + 1 == old(self).num_dests();
                if same && distance > old(self).min_distance {
                    *final(self) == *old(self)
                } else {
                    &&& final(self).min_distance == distance
                    &&& final(self).num_dests() == server + 1
                    &&& final(self).hops(server as int) == (if same && distance == old(self).min_distance {
                        old(self).hops(server as int)
                    } else {
                        Seq::empty()
                    }).push(direction)
                    &&& forall|d: int| 0 <= d < server ==> final(self).hops(d) == old(self).hops(d)
                }
            }),
    {
        let mut last_idx = self.get_last_idx();
        let same_server = self.ranges.len() > 0 && server == self.ranges[last_idx].end - 1;

        if same_server && distance > self.min_distance {
            return ;
        }
        let shorter = distance < self.min_distance;
        self.min_distance = distance;

        if same_server {
            if self.ranges[last_idx].start != server {
                // The destination shares a run with its predecessors: give it a run of its own.
                self.ranges.push(Span { start: server, end: server + 1 });
                let copy = self.values[last_idx].clone();
                self.values.push(copy);
                let prev = self.ranges[last_idx];
                self.ranges[last_idx] = Span { start: prev.start, end: prev.end - 1 };
                last_idx = last_idx + 1;
            }
            if shorter {
                // The routes recorded so far are longer: they are dropped.
                self.values[last_idx].clear();
            }
            self.values[last_idx].push(direction);
        } else {
            self.ranges.push(Span { start: server, end: server + 1 });
            let mut row = Vec::new();
            row.push(direction);
            self.values.push(row);
            last_idx = last_idx + 1;
        }

        if self.ranges.len() != 1 {
            if same_hops(&self.values[last_idx], &self.values[last_idx - 1]) {
                let prev = self.ranges[last_idx - 1];
                self.ranges[last_idx - 1] = Span { start: prev.start, end: prev.end + 1 };
                self.values.pop();
                self.ranges.pop();
            }
        }
        proof {
            let before = *old(self);
            let after = *self;
            let last = after.ranges.len() - 1;
            after.lemma_row_unique(server as int, last);
            if same_server {
                before.lemma_row_unique(server as int, before.ranges.len() - 1);
            }
            assert(after.hops(server as int) =~= (if same_server && distance == before.min_distance {
                before.hops(server as int)
            } else {
                Seq::empty()
            }).push(direction));
            assert forall|d: int| 0 <= d < server implies after.hops(d) == before.hops(d) by {
                before.lemma_row_exists(d);
                let r = before.row_of(d);
                after.lemma_row_unique(d, r);
            }
        }
    }

    fn get_last_idx(&self) -> (r: usize)
        ensures
            r == if self.ranges.len() == 0 { 0 } else { self.ranges.len() - 1 },
    {
        let len = self.ranges.len();
        if len <= 1 {
            0
        } else {
            len - 1
        }
    }
}

/// `hop` leads from node `x` towards server `dest`: it is `dest` itself where `x` is, and
/// else a node that has `x` as a neighbour and lies one link nearer to `dest` than `x`.
pub open spec fn leads(adj: Seq<Seq<usize>>, x: int, dest: int, hop: usize) -> bool {
    if x == dest {
        hop == dest
    } else {
        &&& hop < adj.len()
        &&& adj[hop as int].contains(x as usize)
        &&& hop_distance(adj, dest, hop as int) + 1 == hop_distance(adj, dest, x)
    }
}

/// The table of node `x` is well formed, and all its next hops lead towards their
/// destinations, none twice.
pub open spec fn table_ok(table: RoutingTable, adj: Seq<Seq<usize>>, x: int) -> bool {
    &&& table.wf()
    &&& forall|d: int|
        0 <= d < table.num_dests() ==> hops_valid(#[trigger] table.hops(d), adj.len() as int) && forall|k: int|
            0 <= k < table.hops(d).len() ==> leads(adj, x, d, #[trigger] table.hops(d)[k])
}

/// The next hops of `table` towards `server` were met, in this order, on the visits that
/// `src` names: all the visits of `x` before `upto` at the distance of the first.
spec fn hops_from(table: RoutingTable, server: int, visits: Seq<Visit>, x: int, src: Seq<int>, upto: int) -> bool {
    &&& src.len() == table.hops(server).len()
    &&& forall|k: int|
        0 <= k < src.len() ==> 0 <= (#[trigger] src[k]) < upto && visits[src[k]].node == x && visits[src[k]].prev
            == table.hops(server)[k] && visits[src[k]].dist == table.min_distance
    &&& table.min_distance == visits[first_visit(visits, x)].dist
    &&& forall|e: int|
        0 <= e < upto && (#[trigger] visits[e]).node == x && visits[e].dist == table.min_distance ==> src.contains(e)
}

/// The nodes from which the first `upto` visits met node `x` at the distance of its first
/// visit, in the order of the visits.
pub open spec fn hops_in(visits: Seq<Visit>, x: int, upto: int) -> Seq<usize>
    decreases upto,
{
    if upto <= 0 {
        Seq::empty()
    } else {
        let rest = hops_in(visits, x, upto - 1);
        let v = visits[upto - 1];
        if v.node == x && v.dist == visits[first_visit(visits, x)].dist {
            rest.push(v.prev)
        } else {
            rest
        }
    }
}

/// The next hops of `table` towards server `d` are the nodes from which the search from `d`
/// met node `x` at the least distance, in the order in which it did.
pub open spec fn hops_by_search(table: RoutingTable, adj: Seq<Seq<usize>>, x: int, d: int) -> bool {
    table.hops(d) == hops_in(searched(adj, d), x, searched(adj, d).len() as int)
}

/// Towards each of the first `dests` servers, the next hops of `table` are those of the
/// search from the server.
pub open spec fn searched_upto(table: RoutingTable, adj: Seq<Seq<usize>>, x: int, dests: int) -> bool {
    forall|d: int| 0 <= d < dests ==> #[trigger] hops_by_search(table, adj, x, d)
}

/// The next hops of `hops` are those of the first `idx` visits, where any of them met `y`.
spec fn tracks(hops: Seq<usize>, visits: Seq<Visit>, y: int, idx: int, met: bool) -> bool {
    if met {
        hops == hops_in(visits, y, idx)
    } else {
        hops_in(visits, y, idx) == Seq::<usize>::empty()
    }
}

/// One more visit: it is of another node, or it is dropped as farther than the first, or
/// its neighbour joins the next hops.
proof fn lemma_tracks_step(
    before: Seq<usize>,
    after: Seq<usize>,
    visits: Seq<Visit>,
    y: int,
    idx: int,
    met: bool,
)
    requires
        0 <= idx < visits.len(),
        tracks(before, visits, y, idx, met),
        visits[idx].node != y ==> after == before,
        visits[idx].node == y && visits[idx].dist != visits[first_visit(visits, y)].dist ==> after == before && met,
        visits[idx].node == y && visits[idx].dist == visits[first_visit(visits, y)].dist ==> after == (if met {
            before
        } else {
            Seq::empty()
        }).push(visits[idx].prev),
    ensures
        tracks(after, visits, y, idx + 1, met || visits[idx].node == y),
{
}

/// Every neighbour of `x` that lies one link nearer to server `d` than `x` is among the
/// next hops of `table` towards `d`.
pub open spec fn all_nearer(table: RoutingTable, adj: Seq<Seq<usize>>, x: int, d: int) -> bool {
    forall|h: int|
        0 <= h < adj.len() && x != d && #[trigger] adj[h].contains(x as usize) && hop_distance(adj, d, h) + 1
            == hop_distance(adj, d, x) ==> table.hops(d).contains(h as usize)
}

/// Towards each of the first `dests` servers, `table` names every neighbour of `x` that
/// lies one link nearer.
pub open spec fn nearer_upto(table: RoutingTable, adj: Seq<Seq<usize>>, x: int, dests: int) -> bool {
    forall|d: int| 0 <= d < dests ==> #[trigger] all_nearer(table, adj, x, d)
}

/// A table that holds all the visits of `x` at the distance of the first names every
/// neighbour of `x` that lies one link nearer to the server.
proof fn lemma_hops_complete(
    adj: Seq<Seq<usize>>,
    server: int,
    visits: Seq<Visit>,
    table: RoutingTable,
    x: int,
    src: Seq<int>,
)
    requires
        levelled(adj, server, visits),
        adj.len() <= usize::MAX,
        0 <= x < adj.len(),
        forall|y: int| 0 <= y < adj.len() ==> meets(visits, y),
        hops_from(table, server, visits, x, src, visits.len() as int),
    ensures
        all_nearer(table, adj, x, server),
{
    assert forall|h: int|
        0 <= h < adj.len() && x != server && #[trigger] adj[h].contains(x as usize) && hop_distance(adj, server, h) + 1
            == hop_distance(adj, server, x) implies table.hops(server).contains(h as usize) by {
        assert(meets(visits, h));
        assert(meets(visits, x));
        lemma_first_visit_of(visits, h);
        lemma_first_visit_of(visits, x);
        lemma_level_is_distance(adj, server, visits, h);
        lemma_level_is_distance(adj, server, visits, x);
        let q = first_visit(visits, h);
        let fx = first_visit(visits, x);
        let t = choose|t: int| 0 <= t < adj[h].len() && adj[h][t] == x as usize;
        assert(edges_seen(adj, visits, q, adj[visits[q].node as int].len() as int));
        assert(edge_seen(visits, q, adj[visits[q].node as int][t]));
        if met_before(visits, q, x as usize) {
            let f = choose|f: int| 0 <= f < q && (#[trigger] visits[f]).node == x as usize;
            assert(fx <= f);
            lemma_levels_rise(adj, server, visits, fx, q);
            assert(false);
        }
        let e = choose|e: int| 0 < e < visits.len() && (#[trigger] visits[e]).node == x as usize && visits[e].prev
            == visits[q].node;
        assert(met_from_first(visits, e));
        let p = choose|p: int|
            0 <= p < e && first_at(visits, p) && (#[trigger] visits[p]).node == visits[e].prev && visits[e].dist
                == level_at(visits, p);
        assert(p == q);
        assert(fx > 0) by {
            if fx == 0 {
                assert(visits[0].node == server);
            }
        }
        assert(visits[e].dist == table.min_distance);
        assert(src.contains(e));
        let k = choose|k: int| 0 <= k < src.len() && src[k] == e;
        assert(table.hops(server)[k] == h as usize);
    }
}

/// A visit whose distance is that of the first visit of its node meets the node from one
/// link nearer to the start.
proof fn lemma_hop_is_nearer(adj: Seq<Seq<usize>>, start: int, visits: Seq<Visit>, e: int)
    requires
        levelled(adj, start, visits),
        adj.len() <= usize::MAX,
        0 < e < visits.len(),
        visits[e].dist == visits[first_visit(visits, visits[e].node as int)].dist,
    ensures
        hop_distance(adj, start, visits[e].prev as int) + 1 == hop_distance(adj, start, visits[e].node as int),
{
    let x = visits[e].node as int;
    assert(meets(visits, x));
    lemma_first_visit_of(visits, x);
    lemma_level_is_distance(adj, start, visits, x);
    assert(first_visit(visits, x) > 0) by {
        if first_visit(visits, x) == 0 {
            assert(visits[0].node == start);
        }
    }
    assert(met_from_first(visits, e));
    let p = choose|p: int|
        0 <= p < e && first_at(visits, p) && (#[trigger] visits[p]).node == visits[e].prev && visits[e].dist
            == level_at(visits, p);
    let prev = visits[e].prev as int;
    assert(meets(visits, prev));
    lemma_first_visit_of(visits, prev);
    lemma_level_is_distance(adj, start, visits, prev);
}

/// Offers the tables the visits of the search from `server`, in their order.
#[verifier::rlimit(100)]
#[verifier::spinoff_prover]
fn feed(tables: &mut Vec<RoutingTable>, visits: &Vec<Visit>, server: usize, Ghost(adj): Ghost<Seq<Seq<usize>>>)
    requires
        adj.len() == old(tables).len(),
        server < adj.len(),
        server < usize::MAX,
        levelled(adj, server as int, visits@),
        forall|x: int| 0 <= x < adj.len() ==> meets(visits@, x),
        forall|x: int|
            0 <= x < adj.len() ==> table_ok(#[trigger] old(tables)[x], adj, x) && old(tables)[x].num_dests() == server,
        forall|x: int| 0 <= x < adj.len() ==> nearer_upto(#[trigger] old(tables)[x], adj, x, server as int),
        forall|x: int| 0 <= x < adj.len() ==> searched_upto(#[trigger] old(tables)[x], adj, x, server as int),
        visits@ == searched(adj, server as int),
    ensures
        final(tables).len() == old(tables).len(),
        forall|x: int|
            0 <= x < adj.len() ==> table_ok(#[trigger] final(tables)[x], adj, x) && final(tables)[x].num_dests()
                == server + 1,
        forall|x: int| 0 <= x < adj.len() ==> nearer_upto(#[trigger] final(tables)[x], adj, x, server + 1),
        forall|x: int| 0 <= x < adj.len() ==> searched_upto(#[trigger] final(tables)[x], adj, x, server + 1),
{
    let n = tables.len();
    let ghost mut src: Seq<Seq<int>> = Seq::new(n as nat, |x: int| Seq::<int>::empty());
    let mut idx: usize = 0;
    while idx < visits.len()
        invariant
            idx <= visits.len(),
            n == tables.len(),
            n == adj.len(),
            server < n,
            server < usize::MAX,
            levelled(adj, server as int, visits@),
            src.len() == n,
            forall|x: int| 0 <= x < n ==> table_ok(#[trigger] tables[x], adj, x),
            forall|x: int| 0 <= x < n ==> nearer_upto(#[trigger] tables[x], adj, x, server as int),
            forall|x: int| 0 <= x < n ==> searched_upto(#[trigger] tables[x], adj, x, server as int),
            forall|x: int|
                0 <= x < n ==> tracks(
                    (#[trigger] tables[x]).hops(server as int),
                    visits@,
                    x,
                    idx as int,
                    meets(visits@.take(idx as int), x),
                ),
            visits@ == searched(adj, server as int),
            forall|x: int| 0 <= x < adj.len() ==> meets(visits@, x),
            forall|x: int|
                0 <= x < n ==> (#[trigger] tables[x]).num_dests() == if meets(visits@.take(idx as int), x) {
                    server + 1
                } else {
                    server as int
                },
            forall|x: int|
                0 <= x < n && meets(visits@.take(idx as int), x) ==> hops_from(
                    #[trigger] tables[x],
                    server as int,
                    visits@,
                    x,
                    src[x],
                    idx as int,
                ),
        decreases visits.len() - idx,
    {
        let v = visits[idx];
        let ghost before = tables@;
        let ghost x = v.node as int;
        let ghost met = meets(visits@.take(idx as int), x);
        proof {
            if idx > 0 {
                assert(visits@[idx as int].node < adj.len());
            } else {
                assert(v.node == server);
            }
            assert(table_ok(tables[x], adj, x));
            assert(meets(visits@, x));
            lemma_first_visit_of(visits@, x);
        }
        tables[v.node].consider(server, v.prev, v.dist);
        proof {
            let old_table = before[x];
            let new_table = tables[x];
            let taken = visits@.take(idx as int);
            let taken2 = visits@.take(idx as int + 1);
            assert(taken2 =~= taken.push(v));
            assert forall|y: int| meets(taken2, y) <==> meets(taken, y) || y == x by {
                if meets(taken, y) {
                    let e = choose|e: int| 0 <= e < taken.len() && (#[trigger] taken[e]).node == y;
                    assert(taken2[e].node == y);
                }
                if meets(taken2, y) {
                    let e = choose|e: int| 0 <= e < taken2.len() && (#[trigger] taken2[e]).node == y;
                    if e < idx {
                        assert(taken[e].node == y);
                    }
                }
                assert(taken2[idx as int].node == x);
            }
            let dropped = met && v.dist > old_table.min_distance;
            // Where the new hop came from.
            let from = if met {
                src[x]
            } else {
                Seq::<int>::empty()
            };
            if met {
                assert(meets(taken, x));
                assert(hops_from(old_table, server as int, visits@, x, src[x], idx as int));
            }
            if !dropped {
                src = src.update(x, from.push(idx as int));
                // No earlier visit met the node from the same neighbour.
                assert forall|k: int| 0 <= k < from.len() implies from[k] < idx && visits@[from[k]].prev != v.prev by {
                    assert(visits@[from[k]].node == visits@[idx as int].node);
                }
                // A later visit is no nearer than an earlier one.
                if met && from.len() > 0 {
                    assert(visits@[from[0]].dist <= visits@[idx as int].dist);
                }
                if met {
                    assert(old_table.hops(server as int).len() > 0) by {
                        old_table.lemma_row_exists(server as int);
                    }
                }
                let hops = new_table.hops(server as int);
                assert(hops.no_duplicates()) by {
                    assert forall|a: int, b: int| 0 <= a < hops.len() && 0 <= b < hops.len() && a != b implies hops[a]
                        != hops[b] by {
                        let old_hops = old_table.hops(server as int);
                        if met {
                            assert(hops_valid(old_hops, adj.len() as int));
                            assert(hops =~= old_hops.push(v.prev));
                            if a < from.len() && b < from.len() {
                                assert(old_hops[a] != old_hops[b]);
                            } else if a < from.len() {
                                assert(visits@[from[a]].prev == old_hops[a]);
                            } else if b < from.len() {
                                assert(visits@[from[b]].prev == old_hops[b]);
                            }
                        } else {
                            assert(hops =~= seq![v.prev]);
                        }
                    }
                }
                // The distance of the visit is that of the first visit of the node.
                let first = first_visit(visits@, x);
                if met {
                    assert(visits@[first].dist <= visits@[idx as int].dist);
                } else {
                    assert forall|f: int| 0 <= f < idx implies (#[trigger] visits@[f]).node != visits@[idx as int].node by {
                        if visits@[f].node == x {
                            assert(taken[f].node == x);
                        }
                    }
                    assert(first_at(visits@, idx as int));
                }
                assert(visits@[idx as int].dist == visits@[first].dist);
                assert forall|k: int| 0 <= k < hops.len() implies leads(adj, x, server as int, #[trigger] hops[k]) by {
                    if k < from.len() {
                        assert(leads(adj, x, server as int, old_table.hops(server as int)[k]));
                    } else {
                        if idx == 0 {
                        } else {
                            assert(visits@[idx as int].node != server);
                            assert(adj[visits@[idx as int].prev as int].contains(visits@[idx as int].node));
                            lemma_hop_is_nearer(adj, server as int, visits@, idx as int);
                        }
                    }
                }
                assert forall|k: int| 0 <= k < hops.len() implies #[trigger] hops[k] < adj.len() by {
                    if k < from.len() {
                        assert(old_table.hops(server as int)[k] < adj.len());
                    } else if idx > 0 {
                        assert(visits@[idx as int].prev < adj.len());
                    }
                }
            }
            assert(table_ok(new_table, adj, x)) by {
                assert forall|d: int| 0 <= d < new_table.num_dests() implies hops_valid(
                    #[trigger] new_table.hops(d),
                    adj.len() as int,
                ) && forall|k: int|
                    0 <= k < new_table.hops(d).len() ==> leads(adj, x, d, #[trigger] new_table.hops(d)[k]) by {
                    if d < server || dropped {
                        assert(new_table.hops(d) == old_table.hops(d));
                        assert(hops_valid(old_table.hops(d), adj.len() as int));
                    }
                }
            }
            assert forall|y: int| 0 <= y < n implies table_ok(#[trigger] tables[y], adj, y) by {
                if y != x {
                    assert(tables[y] == before[y]);
                }
            }
            assert forall|y: int| 0 <= y < n implies searched_upto(#[trigger] tables[y], adj, y, server as int) by {
                assert(searched_upto(before[y], adj, y, server as int));
                if y != x {
                    assert(tables[y] == before[y]);
                } else {
                    assert forall|d: int| 0 <= d < server implies #[trigger] hops_by_search(tables[y], adj, y, d) by {
                        assert(hops_by_search(before[y], adj, y, d));
                        assert(new_table.hops(d) == old_table.hops(d));
                    }
                }
            }
            assert forall|y: int| 0 <= y < n implies tracks(
                (#[trigger] tables[y]).hops(server as int),
                visits@,
                y,
                idx as int + 1,
                meets(taken2, y),
            ) by {
                assert(tracks(before[y].hops(server as int), visits@, y, idx as int, meets(taken, y)));
                assert(visits@[idx as int].node == x);
                if y != x {
                    assert(tables[y] == before[y]);
                } else if dropped {
                    assert(hops_from(before[y], server as int, visits@, y, from, idx as int));
                    assert(new_table == old_table);
                } else {
                    let first = first_visit(visits@, x);
                    assert(visits@[idx as int].dist == visits@[first].dist);
                    if met {
                        assert(hops_from(before[y], server as int, visits@, y, from, idx as int));
                        assert(v.dist == old_table.min_distance);
                    }
                }
                lemma_tracks_step(
                    before[y].hops(server as int),
                    tables[y].hops(server as int),
                    visits@,
                    y,
                    idx as int,
                    meets(taken, y),
                );
            }
            assert forall|y: int| 0 <= y < n implies nearer_upto(#[trigger] tables[y], adj, y, server as int) by {
                assert(nearer_upto(before[y], adj, y, server as int));
                if y != x {
                    assert(tables[y] == before[y]);
                } else {
                    assert forall|d: int| 0 <= d < server implies #[trigger] all_nearer(tables[y], adj, y, d) by {
                        assert(all_nearer(before[y], adj, y, d));
                        assert(new_table.hops(d) == old_table.hops(d));
                    }
                }
            }
            assert forall|y: int| 0 <= y < n implies (#[trigger] tables[y]).num_dests() == if meets(taken2, y) {
                server + 1
            } else {
                server as int
            } by {
                if y != x {
                    assert(tables[y] == before[y]);
                }
            }
            assert forall|y: int| 0 <= y < n && meets(taken2, y) implies hops_from(
                #[trigger] tables[y],
                server as int,
                visits@,
                y,
                src[y],
                idx as int + 1,
            ) by {
                if y != x {
                    assert(tables[y] == before[y]);
                    assert(meets(taken, y));
                    assert(hops_from(before[y], server as int, visits@, y, src[y], idx as int));
                    assert(visits@[idx as int].node == x);
                } else if dropped {
                    assert(hops_from(before[y], server as int, visits@, y, src[y], idx as int));
                } else {
                    let list = src[x];
                    assert forall|e: int|
                        0 <= e < idx + 1 && (#[trigger] visits@[e]).node == x && visits@[e].dist
                            == new_table.min_distance implies list.contains(e) by {
                        if e < idx {
                            assert(taken[e].node == x);
                            assert(meets(taken, x));
                            assert(from.contains(e));
                            let k = choose|k: int| 0 <= k < from.len() && from[k] == e;
                            assert(list[k] == e);
                        } else {
                            assert(list[from.len() as int] == e);
                        }
                    }
                }
            }
        }
        idx = idx + 1;
    }
    proof {
        assert(visits@.take(visits.len() as int) =~= visits@);
        assert forall|x: int| 0 <= x < adj.len() implies nearer_upto(#[trigger] tables[x], adj, x, server + 1) by {
            assert(nearer_upto(tables[x], adj, x, server as int));
            assert(meets(visits@, x));
            lemma_hops_complete(adj, server as int, visits@, tables[x], x, src[x]);
        }
        assert forall|x: int| 0 <= x < adj.len() implies searched_upto(#[trigger] tables[x], adj, x, server + 1) by {
            assert(searched_upto(tables[x], adj, x, server as int));
            assert(meets(visits@, x));
            assert(hops_by_search(tables[x], adj, x, server as int));
        }
    }
}

/// The routing tables of a datacentre, one for every node.
///
/// The table of a node names, for every server, the neighbours of the node through which
/// the search from the server first met it.
pub fn get_tables(datacentre: &Datacentre) -> (tables: Vec<RoutingTable>)
    requires
        datacentre.wf(),
        datacentre.num_servers < usize::MAX,
        links_simple(adjacency(datacentre.graph@)),
        connected(adjacency(datacentre.graph@), datacentre.num_servers as int),
    ensures
        tables.len() == datacentre.graph.len(),
        routing_valid(tables@),
        tables.len() > 0 ==> num_servers(tables@) == datacentre.num_servers,
        forall|x: int| 0 <= x < tables.len() ==> table_ok(#[trigger] tables[x], adjacency(datacentre.graph@), x),
        tables_of(tables@, adjacency(datacentre.graph@), datacentre.num_servers as int),
{
    let graph = &datacentre.graph;
    let ghost adj = adjacency(graph@);
    let n = graph.len();
    let mut tables: Vec<RoutingTable> = Vec::new();
    let mut i: usize = 0;
    while i < n
        invariant
            i <= n,
            tables.len() == i,
            forall|x: int| 0 <= x < i ==> (#[trigger] tables[x]).wf() && tables[x].num_dests() == 0,
        decreases n - i,
    {
        tables.push(RoutingTable::new());
        i = i + 1;
    }

    let mut server: usize = 0;
    while server < datacentre.num_servers
        invariant
            server <= datacentre.num_servers,
            datacentre.wf(),
            datacentre.num_servers < usize::MAX,
            graph == &datacentre.graph,
            adj == adjacency(graph@),
            n == graph.len(),
            links_simple(adj),
            connected(adj, datacentre.num_servers as int),
            tables.len() == n,
            forall|x: int| 0 <= x < n ==> table_ok(#[trigger] tables[x], adj, x) && tables[x].num_dests() == server,
            forall|x: int| 0 <= x < n ==> nearer_upto(#[trigger] tables[x], adj, x, server as int),
            forall|x: int| 0 <= x < n ==> searched_upto(#[trigger] tables[x], adj, x, server as int),
        decreases datacentre.num_servers - server,
    {
        let visits = equal_cost_search(server, graph);
        proof {
            assert forall|x: int| 0 <= x < adj.len() implies meets(visits@, x) by {
                assert(connects(adj, server as int, x));
            }
        }
        feed(&mut tables, &visits, server, Ghost(adj));
        server = server + 1;
    }
    tables
}

/// `way` follows next hops of the tables towards server `dest`: every node on it but the
/// last is not `dest`, and is followed by one of its next hops towards `dest`.
pub open spec fn follows(tables: Seq<RoutingTable>, dest: int, way: Seq<int>) -> bool {
    &&& way.len() > 0
    &&& forall|i: int| 0 <= i < way.len() ==> 0 <= #[trigger] way[i] < tables.len()
    &&& forall|i: int|
        0 <= i < way.len() - 1 ==> way[i] != dest && tables[way[i]].hops(dest).contains((#[trigger] way[i + 1]) as usize)
}

/// The tables are those of the datacentre with the links `adj`: one for every node, well
/// formed, for all servers, and with the next hops that lead towards their destinations:
/// all the neighbours that lie one link nearer, in the order in which the search from the
/// destination met the node from them.
pub open spec fn tables_of(tables: Seq<RoutingTable>, adj: Seq<Seq<usize>>, servers: int) -> bool {
    &&& tables.len() == adj.len()
    &&& tables.len() <= usize::MAX
    &&& forall|x: int| 0 <= x < tables.len() ==> table_ok(#[trigger] tables[x], adj, x) && tables[x].num_dests() == servers
    &&& forall|x: int| 0 <= x < tables.len() ==> nearer_upto(#[trigger] tables[x], adj, x, servers)
    &&& forall|x: int| 0 <= x < tables.len() ==> searched_upto(#[trigger] tables[x], adj, x, servers)
}

/// Every node has a next hop towards every server.
pub proof fn lemma_next_hops_exist(tables: Seq<RoutingTable>, adj: Seq<Seq<usize>>, servers: int, x: int, dest: int)
    requires
        tables_of(tables, adj, servers),
        0 <= x < tables.len(),
        0 <= dest < servers,
    ensures
        tables[x].hops(dest).len() > 0,
{
    assert(table_ok(tables[x], adj, x));
    tables[x].lemma_row_exists(dest);
}

/// Every neighbour of a node that lies one link nearer to a server is among its next hops
/// towards the server.
pub proof fn lemma_next_hops_are_all(
    tables: Seq<RoutingTable>,
    adj: Seq<Seq<usize>>,
    servers: int,
    x: int,
    dest: int,
    h: int,
)
    requires
        tables_of(tables, adj, servers),
        0 <= x < tables.len(),
        0 <= dest < servers,
        x != dest,
        0 <= h < adj.len(),
        adj[h].contains(x as usize),
        hop_distance(adj, dest, h) + 1 == hop_distance(adj, dest, x),
    ensures
        tables[x].hops(dest).contains(h as usize),
{
    assert(nearer_upto(tables[x], adj, x, servers));
    assert(all_nearer(tables[x], adj, x, dest));
}

/// Whoever follows next hops towards a server draws one link nearer with every hop: after
/// `i` hops there are `i` links fewer to go than at the outset.
pub proof fn lemma_next_hops_draw_nearer(
    tables: Seq<RoutingTable>,
    adj: Seq<Seq<usize>>,
    servers: int,
    dest: int,
    way: Seq<int>,
    i: int,
)
    requires
        tables_of(tables, adj, servers),
        0 <= dest < servers,
        follows(tables, dest, way),
        0 <= i < way.len(),
    ensures
        hop_distance(adj, dest, way[i]) + i == hop_distance(adj, dest, way[0]),
    decreases i,
{
    if i > 0 {
        lemma_next_hops_draw_nearer(tables, adj, servers, dest, way, i - 1);
        let before = i - 1;
        let x = way[before];
        let hops = tables[x].hops(dest);
        assert(hops.contains(way[before + 1] as usize));
        let k = choose|k: int| 0 <= k < hops.len() && hops[k] == way[i] as usize;
        assert(table_ok(tables[x], adj, x));
        assert(leads(adj, x, dest, hops[k]));
    }
}

/// Whoever follows next hops towards a server is there after as many hops as a shortest
/// walk has links, and not before.
pub proof fn lemma_next_hops_reach_server(
    tables: Seq<RoutingTable>,
    adj: Seq<Seq<usize>>,
    servers: int,
    dest: int,
    way: Seq<int>,
)
    requires
        tables_of(tables, adj, servers),
        0 <= dest < servers,
        servers <= adj.len(),
        follows(tables, dest, way),
        connected(adj, servers),
    ensures
        way.last() == dest <==> way.len() - 1 == hop_distance(adj, dest, way[0]),
{
    let last = way.len() - 1;
    lemma_next_hops_draw_nearer(tables, adj, servers, dest, way, last);
    assert(connects(adj, dest, way[last]));
    lemma_no_distance(adj, dest, way[last]);
}

/// Every node has a next hop towards every server, and where links lead back every next
/// hop of a node other than the server is one of its neighbours.
pub proof fn lemma_next_hops_are_neighbours(
    tables: Seq<RoutingTable>,
    adj: Seq<Seq<usize>>,
    servers: int,
    dest: int,
    x: int,
    k: int,
)
    requires
        tables_of(tables, adj, servers),
        0 <= dest < servers,
        0 <= x < tables.len(),
        0 <= k < tables[x].hops(dest).len(),
        x != dest,
        links_symmetric(adj),
    ensures
        tables[x].hops(dest).len() > 0,
        adj[x].contains(tables[x].hops(dest)[k]),
{
    let hop = tables[x].hops(dest)[k];
    assert(table_ok(tables[x], adj, x));
    assert(leads(adj, x, dest, hop));
    let at = choose|at: int| 0 <= at < adj[hop as int].len() && adj[hop as int][at] == x as usize;
    assert(adj[adj[hop as int][at] as int].contains(hop));
}

} // verus!
