use vstd::prelude::*;
use std::collections::HashSet;
use crate::datacentre::{adjacency, connects, is_walk, lemma_walk_extends, shortest, walk_of, Datacentre};
use crate::search::lemma_closed_set_holds_walks;
use crate::marks::{count_true, lemma_count_true_all, lemma_count_true_mark};
use crate::random::{gen_range, thread_rng};

verus! {

/// A server and its distance, in hops, from the server whose row the cell stands in.
#[derive(Clone, Copy, Debug, PartialEq, Eq)]
pub struct DistanceCell {
    pub node_id: usize,
    pub distance: usize,
}

/// For every server the servers nearest to it, nearest first.
pub type DistanceMatrix = Vec<Vec<DistanceCell>>;

/// The cells of a row stand in order of distance.
pub open spec fn sorted_by_distance(row: Seq<DistanceCell>) -> bool {
    forall|i: int, j: int| 0 <= i <= j < row.len() ==> (#[trigger] row[i]).distance <= (#[trigger] row[j]).distance
}

/// Every cell of a row names one of `n` servers.
pub open spec fn names_servers(row: Seq<DistanceCell>, n: int) -> bool {
    forall|i: int| 0 <= i < row.len() ==> (#[trigger] row[i]).node_id < n
}

/// No two cells name the same server.
pub open spec fn distinct_servers(row: Seq<DistanceCell>) -> bool {
    forall|i: int, j: int| 0 <= i < j < row.len() ==> (#[trigger] row[i]).node_id != (#[trigger] row[j]).node_id
}

/// `row` lists servers near server `start`: `start` itself first, then other servers, none
/// twice, in order of distance, each with its distance from `start`.
pub open spec fn lists_nearest(adj: Seq<Seq<usize>>, servers: int, start: int, row: Seq<DistanceCell>) -> bool {
    &&& row.len() >= 1
    &&& row[0] == (DistanceCell { node_id: start as usize, distance: 0 })
    &&& names_servers(row, servers)
    &&& sorted_by_distance(row)
    &&& distinct_servers(row)
    &&& forall|i: int| 0 <= i < row.len() ==> shortest(adj, start, (#[trigger] row[i]).node_id as int, row[i].distance as int)
}

/// No server that `row` leaves out is nearer to `start` than the last that it lists.
pub open spec fn leaves_out_farther(adj: Seq<Seq<usize>>, servers: int, start: int, row: Seq<DistanceCell>) -> bool {
    forall|x: int, len: int|
        0 <= x < servers && !listed(row, x) && #[trigger] walk_of(adj, start, x, len) ==> row.last().distance <= len
}

/// A list without doubles stays one when an item is taken out and the last takes its place.
proof fn lemma_swap_remove_distinct(list: Seq<usize>, at: int)
    requires
        list.no_duplicates(),
        0 <= at < list.len(),
    ensures
        list.update(at, list.last()).drop_last().no_duplicates(),
        forall|x: usize|
            list.update(at, list.last()).drop_last().contains(x) <==> (list.contains(x) && x != list[at]),
{
    let rest = list.update(at, list.last()).drop_last();
    assert forall|x: usize| rest.contains(x) <==> (list.contains(x) && x != list[at]) by {
        if rest.contains(x) {
            let k = choose|k: int| 0 <= k < rest.len() && rest[k] == x;
            if k == at {
                assert(list[list.len() - 1] == x);
            } else {
                assert(list[k] == x);
            }
        }
        if list.contains(x) && x != list[at] {
            let k = choose|k: int| 0 <= k < list.len() && list[k] == x;
            if k == list.len() - 1 {
                assert(rest[at] == x);
            } else {
                assert(rest[k] == x);
            }
        }
    }
}

/// A cell of `row` names server `x`.
pub open spec fn listed(row: Seq<DistanceCell>, x: int) -> bool {
    exists|i: int| 0 <= i < row.len() && (#[trigger] row[i]).node_id == x
}

/// `row` lists every server that a walk from `start` leads to.
pub open spec fn lists_all(adj: Seq<Seq<usize>>, servers: int, start: int, row: Seq<DistanceCell>) -> bool {
    forall|x: int| 0 <= x < servers && #[trigger] connects(adj, start, x) ==> listed(row, x)
}

/// How far a search has come. `marks` holds the nodes that were found and `done` those that
/// were left: every neighbour of a node that was left was found, and a server that was left
/// is listed. A node that was found and not left waits in a horizon, but for `busy`.
spec fn searched(
    adj: Seq<Seq<usize>>,
    marks: Seq<bool>,
    done: Seq<bool>,
    current: Seq<usize>,
    next: Seq<usize>,
    row: Seq<DistanceCell>,
    servers: int,
    busy: int,
) -> bool {
    &&& done.len() == adj.len()
    &&& marks.len() == adj.len()
    &&& forall|x: int| 0 <= x < done.len() && #[trigger] done[x] ==> marks[x] && x != busy
    &&& forall|i: int, e: int|
        0 <= i < adj.len() && done[i] && 0 <= e < adj[i].len() && (#[trigger] adj[i][e]) < adj.len() ==> marks[adj[i][e] as int]
    &&& forall|x: int|
        0 <= x < done.len() && !#[trigger] done[x] && marks[x] && x != busy ==> current.contains(x as usize)
            || next.contains(x as usize)
    &&& forall|x: int| 0 <= x < servers && x < done.len() && #[trigger] done[x] ==> listed(row, x)
    &&& forall|k: int| 0 <= k < current.len() ==> (#[trigger] current[k]) < done.len() && !done[current[k] as int]
    &&& forall|k: int| 0 <= k < next.len() ==> (#[trigger] next[k]) < done.len() && !done[next[k] as int]
}

/// Taking a node out of the horizon makes it the busy node.
proof fn lemma_searched_takes(
    adj: Seq<Seq<usize>>,
    marks: Seq<bool>,
    done: Seq<bool>,
    before: Seq<usize>,
    after: Seq<usize>,
    next: Seq<usize>,
    row: Seq<DistanceCell>,
    servers: int,
    taken: usize,
)
    requires
        searched(adj, marks, done, before, next, row, servers, -1),
        adj.len() <= usize::MAX,
        before.contains(taken),
        forall|x: usize| after.contains(x) <==> (before.contains(x) && x != taken),
    ensures
        searched(adj, marks, done, after, next, row, servers, taken as int),
        !done[taken as int],
        taken < adj.len(),
{
    let at = choose|k: int| 0 <= k < before.len() && before[k] == taken;
    assert(!done[before[at] as int]);
    assert forall|k: int| 0 <= k < after.len() implies (#[trigger] after[k]) < done.len() && !done[after[k] as int] by {
        assert(after.contains(after[k]));
        let e = choose|e: int| 0 <= e < before.len() && before[e] == after[k];
        assert(!done[before[e] as int]);
    }
}

/// The levels of a search that has come to `distance`. A node that was found has a level,
/// at most one beyond `distance`; the nodes of the horizon and the busy node are at
/// `distance`, those of the next horizon one beyond; and a neighbour of a node that was left
/// is at most one level beyond it.
spec fn levels(
    adj: Seq<Seq<usize>>,
    marks: Seq<bool>,
    done: Seq<bool>,
    current: Seq<usize>,
    next: Seq<usize>,
    level: Seq<int>,
    distance: int,
    busy: int,
) -> bool {
    &&& level.len() == adj.len()
    &&& marks.len() == adj.len()
    &&& done.len() == adj.len()
    &&& forall|x: int| 0 <= x < adj.len() && marks[x] ==> 0 <= #[trigger] level[x] <= distance + 1
    &&& forall|k: int|
        0 <= k < current.len() ==> (#[trigger] current[k]) < adj.len() && marks[current[k] as int] && level[current[k] as int]
            == distance
    &&& forall|k: int|
        0 <= k < next.len() ==> (#[trigger] next[k]) < adj.len() && marks[next[k] as int] && level[next[k] as int]
            == distance + 1
    &&& 0 <= busy < adj.len() ==> marks[busy] && level[busy] == distance
    &&& forall|i: int, e: int|
        0 <= i < adj.len() && done[i] && 0 <= e < adj[i].len() && (#[trigger] adj[i][e]) < adj.len() ==> level[adj[i][e] as int]
            <= level[i] + 1
}

/// Taking a node out of the horizon keeps the levels.
proof fn lemma_levels_takes(
    adj: Seq<Seq<usize>>,
    marks: Seq<bool>,
    done: Seq<bool>,
    before: Seq<usize>,
    after: Seq<usize>,
    next: Seq<usize>,
    level: Seq<int>,
    distance: int,
    taken: usize,
)
    requires
        levels(adj, marks, done, before, next, level, distance, -1),
        before.contains(taken),
        forall|x: usize| after.contains(x) <==> (before.contains(x) && x != taken),
    ensures
        levels(adj, marks, done, after, next, level, distance, taken as int),
{
    let at = choose|k: int| 0 <= k < before.len() && before[k] == taken;
    assert(level[before[at] as int] == distance);
    assert forall|k: int| 0 <= k < after.len() implies (#[trigger] after[k]) < adj.len() && marks[after[k] as int]
        && level[after[k] as int] == distance by {
        assert(after.contains(after[k]));
        let e = choose|e: int| 0 <= e < before.len() && before[e] == after[k];
        assert(level[before[e] as int] == distance);
    }
}

/// A neighbour of the busy node that is found is one level beyond it.
proof fn lemma_levels_finds(
    adj: Seq<Seq<usize>>,
    marks: Seq<bool>,
    done: Seq<bool>,
    current: Seq<usize>,
    next: Seq<usize>,
    row: Seq<DistanceCell>,
    servers: int,
    level: Seq<int>,
    distance: int,
    busy: int,
    found: usize,
)
    requires
        searched(adj, marks, done, current, next, row, servers, busy),
        levels(adj, marks, done, current, next, level, distance, busy),
        found < adj.len(),
        !marks[found as int],
        0 <= distance,
    ensures
        levels(
            adj,
            marks.update(found as int, true),
            done,
            current,
            next.push(found),
            level.update(found as int, distance + 1),
            distance,
            busy,
        ),
{
    let marks2 = marks.update(found as int, true);
    let next2 = next.push(found);
    let level2 = level.update(found as int, distance + 1);
    assert forall|k: int| 0 <= k < next2.len() implies (#[trigger] next2[k]) < adj.len() && marks2[next2[k] as int]
        && level2[next2[k] as int] == distance + 1 by {
        if k < next.len() {
            assert(next2[k] == next[k]);
        }
    }
    assert forall|i: int, e: int|
        0 <= i < adj.len() && done[i] && 0 <= e < adj[i].len() && (#[trigger] adj[i][e]) < adj.len() implies level2[adj[i][e] as int]
        <= level2[i] + 1 by {
        assert(marks[adj[i][e] as int]);
        assert(marks[i]);
    }
}

/// Leaving the busy node keeps the levels.
proof fn lemma_levels_leaves(
    adj: Seq<Seq<usize>>,
    marks: Seq<bool>,
    done: Seq<bool>,
    current: Seq<usize>,
    next: Seq<usize>,
    level: Seq<int>,
    distance: int,
    busy: int,
)
    requires
        levels(adj, marks, done, current, next, level, distance, busy),
        0 <= busy < adj.len(),
        forall|e: int| 0 <= e < adj[busy].len() && (#[trigger] adj[busy][e]) < adj.len() ==> marks[adj[busy][e] as int],
    ensures
        levels(adj, marks, done.update(busy, true), current, next, level, distance, -1),
{
    let done2 = done.update(busy, true);
    assert forall|i: int, e: int|
        0 <= i < adj.len() && done2[i] && 0 <= e < adj[i].len() && (#[trigger] adj[i][e]) < adj.len() implies level[adj[i][e] as int]
        <= level[i] + 1 by {
        if i == busy {
            assert(marks[adj[i][e] as int]);
        }
    }
}

/// When the horizon is empty the next horizon takes its place, one level on.
proof fn lemma_levels_swap(
    adj: Seq<Seq<usize>>,
    marks: Seq<bool>,
    done: Seq<bool>,
    next: Seq<usize>,
    level: Seq<int>,
    distance: int,
)
    requires
        levels(adj, marks, done, Seq::<usize>::empty(), next, level, distance, -1),
    ensures
        levels(adj, marks, done, next, Seq::<usize>::empty(), level, distance + 1, -1),
{
}

/// A walk of `k` links from `start` ends on a node found at a level of at most `k`, unless
/// it is longer than the search has come.
proof fn lemma_walk_bound(
    adj: Seq<Seq<usize>>,
    marks: Seq<bool>,
    done: Seq<bool>,
    current: Seq<usize>,
    next: Seq<usize>,
    row: Seq<DistanceCell>,
    servers: int,
    level: Seq<int>,
    distance: int,
    busy: int,
    start: int,
    path: Seq<int>,
    k: int,
)
    requires
        searched(adj, marks, done, current, next, row, servers, busy),
        levels(adj, marks, done, current, next, level, distance, busy),
        adj.len() <= usize::MAX,
        is_walk(adj, path),
        path[0] == start,
        marks[start],
        level[start] == 0,
        0 <= k < path.len(),
        0 <= distance,
    ensures
        k > distance || (marks[path[k]] && level[path[k]] <= k),
    decreases k,
{
    if k > 0 {
        lemma_walk_bound(adj, marks, done, current, next, row, servers, level, distance, busy, start, path, k - 1);
        let i = path[k - 1];
        if k - 1 <= distance {
            assert(adj[i].contains(path[k - 1 + 1] as usize));
            let e = choose|e: int| 0 <= e < adj[i].len() && adj[i][e] == path[k] as usize;
            assert(adj[i][e] < adj.len());
            if done[i] {
                assert(marks[adj[i][e] as int]);
            } else if i != busy {
                lemma_waits_far(adj, marks, done, current, next, row, servers, level, distance, busy, i);
            }
        }
    }
}

/// A node that was found and not left is not below the level that the search has come to.
proof fn lemma_waits_far(
    adj: Seq<Seq<usize>>,
    marks: Seq<bool>,
    done: Seq<bool>,
    current: Seq<usize>,
    next: Seq<usize>,
    row: Seq<DistanceCell>,
    servers: int,
    level: Seq<int>,
    distance: int,
    busy: int,
    x: int,
)
    requires
        searched(adj, marks, done, current, next, row, servers, busy),
        levels(adj, marks, done, current, next, level, distance, busy),
        adj.len() <= usize::MAX,
        0 <= x < adj.len(),
        marks[x],
        !done[x],
    ensures
        level[x] >= distance,
{
    if x != busy {
        if current.contains(x as usize) {
            let k = choose|k: int| 0 <= k < current.len() && current[k] == x as usize;
            assert(level[current[k] as int] == distance);
        } else {
            assert(next.contains(x as usize));
            let k = choose|k: int| 0 <= k < next.len() && next[k] == x as usize;
            assert(level[next[k] as int] == distance + 1);
        }
    }
}

/// The level of a node that was found is its distance from `start`.
proof fn lemma_level_shortest(
    adj: Seq<Seq<usize>>,
    marks: Seq<bool>,
    done: Seq<bool>,
    current: Seq<usize>,
    next: Seq<usize>,
    row: Seq<DistanceCell>,
    servers: int,
    level: Seq<int>,
    distance: int,
    busy: int,
    start: int,
    x: int,
)
    requires
        searched(adj, marks, done, current, next, row, servers, busy),
        levels(adj, marks, done, current, next, level, distance, busy),
        adj.len() <= usize::MAX,
        marks[start],
        level[start] == 0,
        0 <= x < adj.len(),
        marks[x],
        walk_of(adj, start, x, level[x]),
        0 <= distance,
    ensures
        shortest(adj, start, x, level[x]),
{
    assert forall|shorter: int| #[trigger] walk_of(adj, start, x, shorter) implies level[x] <= shorter by {
        let path = choose|path: Seq<int>|
            is_walk(adj, path) && path.len() == shorter + 1 && path[0] == start && #[trigger] path.last() == x;
        lemma_walk_bound(adj, marks, done, current, next, row, servers, level, distance, busy, start, path, shorter);
    }
}

/// A server that is not listed when the search stops at the busy node is no nearer than
/// the search has come.
proof fn lemma_unlisted_far(
    adj: Seq<Seq<usize>>,
    marks: Seq<bool>,
    done: Seq<bool>,
    current: Seq<usize>,
    next: Seq<usize>,
    row: Seq<DistanceCell>,
    servers: int,
    level: Seq<int>,
    distance: int,
    busy: int,
    start: int,
)
    requires
        searched(adj, marks, done, current, next, row, servers, busy),
        levels(adj, marks, done, current, next, level, distance, busy),
        adj.len() <= usize::MAX,
        marks[start],
        level[start] == 0,
        0 <= busy < adj.len(),
        listed(row, busy),
        row.len() > 0,
        row.last().distance == distance,
    ensures
        leaves_out_farther(adj, servers, start, row),
{
    assert forall|x: int, len: int|
        0 <= x < servers && !listed(row, x) && #[trigger] walk_of(adj, start, x, len) implies row.last().distance
        <= len by {
        let path = choose|path: Seq<int>|
            is_walk(adj, path) && path.len() == len + 1 && path[0] == start && #[trigger] path.last() == x;
        lemma_walk_bound(adj, marks, done, current, next, row, servers, level, distance, busy, start, path, len);
        if len <= distance {
            assert(!done[x]);
            lemma_waits_far(adj, marks, done, current, next, row, servers, level, distance, busy, x);
        }
    }
}

/// A row that lists every server that a walk leads to leaves none out.
proof fn lemma_all_listed(adj: Seq<Seq<usize>>, servers: int, start: int, row: Seq<DistanceCell>)
    requires
        lists_all(adj, servers, start, row),
    ensures
        leaves_out_farther(adj, servers, start, row),
{
    assert forall|x: int, len: int|
        0 <= x < servers && !listed(row, x) && #[trigger] walk_of(adj, start, x, len) implies row.last().distance
        <= len by {
        let path = choose|path: Seq<int>|
            is_walk(adj, path) && path.len() == len + 1 && path[0] == start && #[trigger] path.last() == x;
        assert(connects(adj, start, x));
    }
}

/// A row that grows lists what it listed.
proof fn lemma_listed_stays(row: Seq<DistanceCell>, cell: DistanceCell, x: int)
    requires
        listed(row, x) || cell.node_id == x,
    ensures
        listed(row.push(cell), x),
{
    let longer = row.push(cell);
    if listed(row, x) {
        let i = choose|i: int| 0 <= i < row.len() && (#[trigger] row[i]).node_id == x;
        assert(longer[i].node_id == x);
    } else {
        assert(longer[row.len() as int].node_id == x);
    }
}

/// Listing one more server leaves the search where it is.
proof fn lemma_searched_lists(
    adj: Seq<Seq<usize>>,
    marks: Seq<bool>,
    done: Seq<bool>,
    current: Seq<usize>,
    next: Seq<usize>,
    row: Seq<DistanceCell>,
    servers: int,
    busy: int,
    cell: DistanceCell,
)
    requires
        searched(adj, marks, done, current, next, row, servers, busy),
    ensures
        searched(adj, marks, done, current, next, row.push(cell), servers, busy),
{
    assert forall|x: int| 0 <= x < servers && x < done.len() && #[trigger] done[x] implies listed(row.push(cell), x) by {
        lemma_listed_stays(row, cell, x);
    }
}

/// Finding a neighbour of the busy node leaves the search where it is.
proof fn lemma_searched_finds(
    adj: Seq<Seq<usize>>,
    marks: Seq<bool>,
    done: Seq<bool>,
    current: Seq<usize>,
    next: Seq<usize>,
    row: Seq<DistanceCell>,
    servers: int,
    busy: int,
    found: usize,
)
    requires
        searched(adj, marks, done, current, next, row, servers, busy),
        found < adj.len(),
        !marks[found as int],
    ensures
        searched(adj, marks.update(found as int, true), done, current, next.push(found), row, servers, busy),
{
    let marks2 = marks.update(found as int, true);
    let next2 = next.push(found);
    assert forall|x: int| 0 <= x < done.len() && !#[trigger] done[x] && marks2[x] && x != busy implies current.contains(
        x as usize,
    ) || next2.contains(x as usize) by {
        if x == found {
            assert(next2[next.len() as int] == found);
        } else if next.contains(x as usize) {
            let k = choose|k: int| 0 <= k < next.len() && next[k] == x as usize;
            assert(next2[k] == x as usize);
        }
    }
    assert forall|k: int| 0 <= k < next2.len() implies (#[trigger] next2[k]) < done.len() && !done[next2[k] as int] by {
        if k < next.len() {
            assert(next2[k] == next[k]);
        }
    }
}

/// Leaving the busy node, whose neighbours were all found, leaves no node busy.
proof fn lemma_searched_leaves(
    adj: Seq<Seq<usize>>,
    marks: Seq<bool>,
    done: Seq<bool>,
    current: Seq<usize>,
    next: Seq<usize>,
    row: Seq<DistanceCell>,
    servers: int,
    busy: int,
)
    requires
        searched(adj, marks, done, current, next, row, servers, busy),
        0 <= busy < adj.len(),
        marks[busy],
        forall|e: int| 0 <= e < adj[busy].len() && (#[trigger] adj[busy][e]) < adj.len() ==> marks[adj[busy][e] as int],
        busy < servers ==> listed(row, busy),
        !current.contains(busy as usize),
        !next.contains(busy as usize),
    ensures
        searched(adj, marks, done.update(busy, true), current, next, row, servers, -1),
{
    assert forall|k: int| 0 <= k < current.len() implies (#[trigger] current[k]) != busy by {
        assert(current.contains(current[k]));
    }
    assert forall|k: int| 0 <= k < next.len() implies (#[trigger] next[k]) != busy by {
        assert(next.contains(next[k]));
    }
}

/// When no node waits, every server that a walk leads to is listed.
proof fn lemma_searched_all(
    adj: Seq<Seq<usize>>,
    marks: Seq<bool>,
    done: Seq<bool>,
    row: Seq<DistanceCell>,
    servers: int,
    start: int,
)
    requires
        searched(adj, marks, done, Seq::<usize>::empty(), Seq::<usize>::empty(), row, servers, -1),
        adj.len() <= usize::MAX,
        0 <= start < adj.len(),
        marks[start],
    ensures
        lists_all(adj, servers, start, row),
{
    assert forall|x: int| 0 <= x < adj.len() && marks[x] implies #[trigger] done[x] by {
        if !done[x] {
            assert(Seq::<usize>::empty().contains(x as usize));
        }
    }
    assert forall|x: int| 0 <= x < servers && #[trigger] connects(adj, start, x) implies listed(row, x) by {
        let path = choose|path: Seq<int>| is_walk(adj, path) && path[0] == start && path.last() == x;
        assert forall|i: int, e: int|
            0 <= i < adj.len() && marks[i] && 0 <= e < adj[i].len() && (#[trigger] adj[i][e]) < adj.len() implies marks[adj[i][e] as int] by {
            assert(done[i]);
        }
        lemma_closed_set_holds_walks(adj, marks, path, path.len() - 1);
        assert(done[x]);
    }
}

/// An empty distance matrix for `num_servers` servers.
fn new_dm(num_servers: usize, num_nearest: usize) -> (r: DistanceMatrix)
    ensures
        r.len() == num_servers,
        forall|i: int| 0 <= i < num_servers ==> (#[trigger] r[i])@ == Seq::<DistanceCell>::empty(),
{
    let mut cache: DistanceMatrix = Vec::new();
    let mut i: usize = 0;
    while i < num_servers
        invariant
            i <= num_servers,
            cache.len() == i,
            forall|k: int| 0 <= k < i ==> (#[trigger] cache[k])@ == Seq::<DistanceCell>::empty(),
        decreases num_servers - i,
    {
        cache.push(Vec::with_capacity(num_nearest));
        i = i + 1;
    }
    cache
}

/// Appends to row `start` of `cache` the servers nearest to server `start`, each with its
/// distance: `num_nearest` of them, or all that can be reached where they are fewer, and
/// `start` itself in any case.
///
/// The network is searched outwards from `start`, level by level, and the nodes of a level
/// are taken in an order drawn at random, so that among servers equally far it is left to
/// chance which are listed.
pub fn set_nearest(cache: &mut DistanceMatrix, dc: &Datacentre, start: usize, num_nearest: usize)
    requires
        dc.wf(),
        start < dc.num_servers,
        start < old(cache).len(),
        old(cache)[start as int]@.len() == 0,
    ensures
        final(cache).len() == old(cache).len(),
        forall|i: int| 0 <= i < old(cache).len() && i != start ==> #[trigger] final(cache)[i] == old(cache)[i],
        lists_nearest(adjacency(dc.graph@), dc.num_servers as int, start as int, final(cache)[start as int]@),
        final(cache)[start as int]@.len() <= num_nearest || final(cache)[start as int]@.len() == 1,
        final(cache)[start as int]@.len() >= num_nearest || lists_all(
            adjacency(dc.graph@),
            dc.num_servers as int,
            start as int,
            final(cache)[start as int]@,
        ),
        leaves_out_farther(adjacency(dc.graph@), dc.num_servers as int, start as int, final(cache)[start as int]@),
{
    let ghost adj = adjacency(dc.graph@);
    let n = dc.graph.len();
    let mut current_horizon: Vec<usize> = Vec::new();
    current_horizon.push(start);
    let mut next_horizon: Vec<usize> = Vec::new();

    let mut visited: HashSet<usize> = HashSet::new();
    visited.insert(start);

    let mut distance: usize = 0;
    let mut num_seen: usize = 0;
    let mut rng = thread_rng();
    let mut full = false;

    let ghost mut marks: Seq<bool> = Seq::new(n as nat, |x: int| x == start);
    let ghost mut done: Seq<bool> = Seq::new(n as nat, |x: int| false);
    let ghost mut level: Seq<int> = Seq::new(n as nat, |x: int| 0int);
    proof {
        let none = Seq::new(n as nat, |x: int| false);
        lemma_count_true_all(none);
        lemma_count_true_mark(none, start as int);
        assert(marks =~= none.update(start as int, true));
        assert(walk_of(adj, start as int, start as int, 0)) by {
            let path = seq![start as int];
            assert(is_walk(adj, path));
            assert(path.last() == start as int);
        }
        assert(current_horizon@ =~= seq![start]);
        assert forall|x: int| 0 <= x < n && marks[x] implies current_horizon@.contains(x as usize) by {
            assert(current_horizon@[0] == start);
        }
    }

    while current_horizon.len() > 0 && !full
        invariant
            n == dc.graph.len(),
            marks[start as int],
            level[start as int] == 0,
            full ==> num_seen >= num_nearest,
            full ==> leaves_out_farther(adj, dc.num_servers as int, start as int, cache[start as int]@),
            !full ==> levels(adj, marks, done, current_horizon@, next_horizon@, level, distance as int, -1),
            !full ==> searched(
                adj,
                marks,
                done,
                current_horizon@,
                next_horizon@,
                cache[start as int]@,
                dc.num_servers as int,
                -1,
            ),
            !full && current_horizon.len() == 0 ==> next_horizon.len() == 0,
            adj == adjacency(dc.graph@),
            dc.wf(),
            start < dc.num_servers,
            start < cache.len(),
            cache.len() == old(cache).len(),
            forall|i: int| 0 <= i < cache.len() && i != start ==> #[trigger] cache[i] == old(cache)[i],
            marks.len() == n,
            forall|x: int| 0 <= x < n ==> (#[trigger] marks[x] <==> visited@.contains(x as usize)),
            forall|x: usize| #[trigger] visited@.contains(x) ==> x < n,
            count_true(marks) <= n,
            current_horizon@.no_duplicates(),
            next_horizon@.no_duplicates(),
            forall|k: int|
                0 <= k < current_horizon.len() ==> visited@.contains(#[trigger] current_horizon[k]) && walk_of(
                    adj,
                    start as int,
                    current_horizon[k] as int,
                    distance as int,
                ),
            forall|k: int|
                0 <= k < next_horizon.len() ==> visited@.contains(#[trigger] next_horizon[k]) && walk_of(
                    adj,
                    start as int,
                    next_horizon[k] as int,
                    distance + 1,
                ),
            forall|a: int, b: int|
                0 <= a < current_horizon.len() && 0 <= b < next_horizon.len() ==> #[trigger] current_horizon[a]
                    != #[trigger] next_horizon[b],
            num_seen == cache[start as int]@.len(),
            distance <= count_true(marks),
            current_horizon.len() + next_horizon.len() <= count_true(marks),
            distance + current_horizon.len() + next_horizon.len() <= count_true(marks) || current_horizon.len() == 0,
            num_seen == 0 ==> current_horizon@ == seq![start] && distance == 0,
            num_seen > 0 ==> lists_nearest(adj, dc.num_servers as int, start as int, cache[start as int]@),
            forall|i: int|
                0 <= i < cache[start as int]@.len() ==> (#[trigger] cache[start as int]@[i]).distance <= distance
                    && visited@.contains(cache[start as int]@[i].node_id),
            forall|i: int, k: int|
                0 <= i < cache[start as int]@.len() && 0 <= k < current_horizon.len() ==> (
                #[trigger] cache[start as int]@[i]).node_id != #[trigger] current_horizon[k],
            forall|i: int, k: int|
                0 <= i < cache[start as int]@.len() && 0 <= k < next_horizon.len() ==> (
                #[trigger] cache[start as int]@[i]).node_id != #[trigger] next_horizon[k],
            full ==> num_seen > 0,
            num_seen <= num_nearest || num_seen == 1,
            !full ==> num_seen < num_nearest || num_seen == 0,
        decreases n - count_true(marks) + current_horizon.len() + next_horizon.len() + if full { 0int } else { 1int },
    {
        // Choose a node of the horizon at random to expand.
        let rn = gen_range(&mut rng, 0, current_horizon.len());
        let ghost horizon_in = current_horizon@;
        let node_id = current_horizon.swap_remove(rn);
        proof {
            lemma_swap_remove_distinct(horizon_in, rn as int);
            assert(horizon_in.contains(node_id));
            lemma_searched_takes(
                adj,
                marks,
                done,
                horizon_in,
                current_horizon@,
                next_horizon@,
                cache[start as int]@,
                dc.num_servers as int,
                node_id,
            );
            assert(!next_horizon@.contains(node_id)) by {
                if next_horizon@.contains(node_id) {
                    let b = choose|b: int| 0 <= b < next_horizon.len() && next_horizon[b] == node_id;
                    assert(horizon_in[rn as int] != next_horizon[b]);
                }
            }
            lemma_levels_takes(
                adj,
                marks,
                done,
                horizon_in,
                current_horizon@,
                next_horizon@,
                level,
                distance as int,
                node_id,
            );
            lemma_level_shortest(
                adj,
                marks,
                done,
                current_horizon@,
                next_horizon@,
                cache[start as int]@,
                dc.num_servers as int,
                level,
                distance as int,
                node_id as int,
                start as int,
                node_id as int,
            );
            assert(walk_of(adj, start as int, node_id as int, distance as int));
            assert forall|k: int| 0 <= k < current_horizon.len() implies visited@.contains(
                #[trigger] current_horizon[k],
            ) && walk_of(adj, start as int, current_horizon[k] as int, distance as int) && current_horizon[k] != node_id by {
                assert(current_horizon@.contains(current_horizon[k]));
                let e = choose|e: int| 0 <= e < horizon_in.len() && horizon_in[e] == current_horizon[k];
                assert(visited@.contains(horizon_in[e]));
            }
            assert forall|a: int, b: int|
                0 <= a < current_horizon.len() && 0 <= b < next_horizon.len() implies #[trigger] current_horizon[a]
                != #[trigger] next_horizon[b] by {
                assert(current_horizon@.contains(current_horizon[a]));
                let e = choose|e: int| 0 <= e < horizon_in.len() && horizon_in[e] == current_horizon[a];
                assert(horizon_in[e] != next_horizon[b]);
            }
            assert forall|b: int| 0 <= b < next_horizon.len() implies #[trigger] next_horizon[b] != node_id by {
                assert(horizon_in[rn as int] != next_horizon[b]);
            }
            assert forall|i: int| 0 <= i < cache[start as int]@.len() implies (#[trigger] cache[start as int]@[i]).node_id
                != node_id by {
                assert(cache[start as int]@[i].node_id != horizon_in[rn as int]);
            }
            assert forall|i: int, k: int|
                0 <= i < cache[start as int]@.len() && 0 <= k < current_horizon.len() implies (
            #[trigger] cache[start as int]@[i]).node_id != #[trigger] current_horizon[k] by {
                assert(current_horizon@.contains(current_horizon[k]));
                let e = choose|e: int| 0 <= e < horizon_in.len() && horizon_in[e] == current_horizon[k];
                assert(cache[start as int]@[i].node_id != horizon_in[e]);
            }
        }

        // A server that was found goes into the distance matrix.
        if dc.is_server(node_id) {
            let ghost row_in = cache[start as int]@;
            cache[start].push(DistanceCell { node_id, distance });
            num_seen = num_seen + 1;
            proof {
                let row = cache[start as int]@;
                let cell = DistanceCell { node_id, distance };
                assert(row =~= row_in.push(cell));
                lemma_searched_lists(
                    adj,
                    marks,
                    done,
                    current_horizon@,
                    next_horizon@,
                    row_in,
                    dc.num_servers as int,
                    node_id as int,
                    cell,
                );
                lemma_listed_stays(row_in, cell, node_id as int);
                assert forall|i: int, j: int| 0 <= i <= j < row.len() implies (#[trigger] row[i]).distance <= (
                #[trigger] row[j]).distance by {
                    if j < row_in.len() {
                        assert(row[i] == row_in[i] && row[j] == row_in[j]);
                    } else if i < row_in.len() {
                        assert(row[i] == row_in[i]);
                    }
                }
                assert forall|i: int, j: int| 0 <= i < j < row.len() implies (#[trigger] row[i]).node_id != (
                #[trigger] row[j]).node_id by {
                    if j < row_in.len() {
                        assert(row[i] == row_in[i] && row[j] == row_in[j]);
                    } else {
                        assert(row[i] == row_in[i]);
                    }
                }
                assert forall|i: int| 0 <= i < row.len() implies (#[trigger] row[i]).node_id < dc.num_servers && shortest(
                    adj,
                    start as int,
                    row[i].node_id as int,
                    row[i].distance as int,
                ) by {
                    if i < row_in.len() {
                        assert(row[i] == row_in[i]);
                    }
                }
                if row_in.len() > 0 {
                    assert(row[0] == row_in[0]);
                }
                assert(lists_nearest(adj, dc.num_servers as int, start as int, row));
                assert forall|i: int| 0 <= i < row.len() implies (#[trigger] row[i]).distance <= distance
                    && visited@.contains(row[i].node_id) by {
                    if i < row_in.len() {
                        assert(row[i] == row_in[i]);
                    }
                }
                assert forall|i: int, k: int| 0 <= i < row.len() && 0 <= k < current_horizon.len() implies (
                #[trigger] row[i]).node_id != #[trigger] current_horizon[k] by {
                    if i < row_in.len() {
                        assert(row[i] == row_in[i]);
                    }
                }
                assert forall|i: int, k: int| 0 <= i < row.len() && 0 <= k < next_horizon.len() implies (
                #[trigger] row[i]).node_id != #[trigger] next_horizon[k] by {
                    if i < row_in.len() {
                        assert(row[i] == row_in[i]);
                    }
                }
            }
            if num_seen >= num_nearest {
                full = true;
                proof {
                    lemma_unlisted_far(
                        adj,
                        marks,
                        done,
                        current_horizon@,
                        next_horizon@,
                        cache[start as int]@,
                        dc.num_servers as int,
                        level,
                        distance as int,
                        node_id as int,
                        start as int,
                    );
                }
            }
        }
        if !full {
            let neighbours = &dc.graph[node_id];
            let ghost next_in = next_horizon@;
            let ghost marks_in = marks;

            // Add the neighbours that are new to the next horizon.
            let mut k: usize = 0;
            while k < neighbours.len()
                invariant
                    k <= neighbours.len(),
                    n == dc.graph.len(),
                    adj == adjacency(dc.graph@),
                    dc.wf(),
                    node_id < n,
                    neighbours@ == adj[node_id as int],
                    walk_of(adj, start as int, node_id as int, distance as int),
                    marks.len() == n,
                    forall|x: int| 0 <= x < n ==> (#[trigger] marks[x] <==> visited@.contains(x as usize)),
                    forall|x: usize| #[trigger] visited@.contains(x) ==> x < n,
                    count_true(marks) <= n,
                    visited@.contains(node_id),
                    next_horizon@.no_duplicates(),
                    forall|e: int|
                        0 <= e < next_horizon.len() ==> visited@.contains(#[trigger] next_horizon[e]) && walk_of(
                            adj,
                            start as int,
                            next_horizon[e] as int,
                            distance + 1,
                        ),
                    forall|e: int| 0 <= e < current_horizon.len() ==> visited@.contains(#[trigger] current_horizon[e]),
                    forall|i: int|
                        0 <= i < cache[start as int]@.len() ==> visited@.contains(
                            (#[trigger] cache[start as int]@[i]).node_id,
                        ),
                    forall|a: int, b: int|
                        0 <= a < current_horizon.len() && 0 <= b < next_horizon.len() ==> #[trigger] current_horizon[a]
                            != #[trigger] next_horizon[b],
                    forall|i: int, e: int|
                        0 <= i < cache[start as int]@.len() && 0 <= e < next_horizon.len() ==> (
                        #[trigger] cache[start as int]@[i]).node_id != #[trigger] next_horizon[e],
                    next_horizon.len() - next_in.len() == count_true(marks) - count_true(marks_in),
                    next_in.len() <= next_horizon.len(),
                    start < cache.len(),
                    marks[start as int],
                    level[start as int] == 0,
                    levels(adj, marks, done, current_horizon@, next_horizon@, level, distance as int, node_id as int),
                    searched(
                        adj,
                        marks,
                        done,
                        current_horizon@,
                        next_horizon@,
                        cache[start as int]@,
                        dc.num_servers as int,
                        node_id as int,
                    ),
                    forall|e: int| 0 <= e < k ==> marks[(#[trigger] adj[node_id as int][e]) as int],
                    !next_horizon@.contains(node_id),
                decreases neighbours.len() - k,
            {
                let neighbour = neighbours[k];
                proof {
                    assert(adj[node_id as int][k as int] < adj.len());
                    assert(adj[node_id as int].contains(neighbour));
                }
                if !visited.contains(&neighbour) {
                    let ghost next_k = next_horizon@;
                    let ghost seen = visited@;
                    next_horizon.push(neighbour);
                    visited.insert(neighbour);
                    proof {
                        lemma_levels_finds(
                            adj,
                            marks,
                            done,
                            current_horizon@,
                            next_k,
                            cache[start as int]@,
                            dc.num_servers as int,
                            level,
                            distance as int,
                            node_id as int,
                            neighbour,
                        );
                        level = level.update(neighbour as int, distance + 1);
                        lemma_searched_finds(
                            adj,
                            marks,
                            done,
                            current_horizon@,
                            next_k,
                            cache[start as int]@,
                            dc.num_servers as int,
                            node_id as int,
                            neighbour,
                        );
                        assert(!next_horizon@.contains(node_id)) by {
                            if next_horizon@.contains(node_id) {
                                let b = choose|b: int| 0 <= b < next_horizon.len() && next_horizon[b] == node_id;
                                if b < next_k.len() {
                                    assert(next_k[b] == node_id);
                                }
                            }
                        }
                        lemma_count_true_mark(marks, neighbour as int);
                        marks = marks.update(neighbour as int, true);
                        lemma_count_true_all(marks);
                        lemma_walk_extends(adj, start as int, node_id as int, neighbour, distance as int);
                        assert forall|a: int, b: int|
                            0 <= a < next_horizon.len() && 0 <= b < next_horizon.len() && a != b implies next_horizon[a]
                            != next_horizon[b] by {
                            if a < next_k.len() && b < next_k.len() {
                                assert(next_k[a] != next_k[b]);
                            } else if a < next_k.len() {
                                assert(seen.contains(next_k[a]));
                            } else {
                                assert(seen.contains(next_k[b]));
                            }
                        }
                        assert forall|e: int| 0 <= e < next_horizon.len() implies visited@.contains(
                            #[trigger] next_horizon[e],
                        ) && walk_of(adj, start as int, next_horizon[e] as int, distance + 1) by {
                            if e < next_k.len() {
                                assert(next_horizon[e] == next_k[e]);
                            }
                        }
                        assert forall|a: int, b: int|
                            0 <= a < current_horizon.len() && 0 <= b < next_horizon.len() implies #[trigger] current_horizon[a]
                            != #[trigger] next_horizon[b] by {
                            if b < next_k.len() {
                                assert(next_horizon[b] == next_k[b]);
                            } else {
                                assert(seen.contains(current_horizon[a]));
                            }
                        }
                        assert forall|i: int, e: int|
                            0 <= i < cache[start as int]@.len() && 0 <= e < next_horizon.len() implies (
                        #[trigger] cache[start as int]@[i]).node_id != #[trigger] next_horizon[e] by {
                            if e < next_k.len() {
                                assert(next_horizon[e] == next_k[e]);
                            } else {
                                assert(seen.contains(cache[start as int]@[i].node_id));
                            }
                        }
                    }
                }
                k = k + 1;
            }
            proof {
                lemma_levels_leaves(
                    adj,
                    marks,
                    done,
                    current_horizon@,
                    next_horizon@,
                    level,
                    distance as int,
                    node_id as int,
                );
                lemma_searched_leaves(
                    adj,
                    marks,
                    done,
                    current_horizon@,
                    next_horizon@,
                    cache[start as int]@,
                    dc.num_servers as int,
                    node_id as int,
                );
                done = done.update(node_id as int, true);
            }

            if current_horizon.len() == 0 {
                proof {
                    lemma_count_true_all(marks);
                    assert(current_horizon@ =~= Seq::<usize>::empty());
                    lemma_levels_swap(adj, marks, done, next_horizon@, level, distance as int);
                }
                current_horizon = next_horizon;
                next_horizon = Vec::new();
                distance = distance + 1;
                proof {
                    assert(next_horizon@ =~= Seq::<usize>::empty());
                }
            }
        }
    }
    proof {
        if num_seen == 0 {
            assert(current_horizon@.len() == 1);
        }
        if !full {
            assert(current_horizon@ =~= Seq::<usize>::empty());
            assert(next_horizon@ =~= Seq::<usize>::empty());
            lemma_searched_all(adj, marks, done, cache[start as int]@, dc.num_servers as int, start as int);
            lemma_all_listed(adj, dc.num_servers as int, start as int, cache[start as int]@);
        }
    }
}

/// For every server of a datacentre, the `num_nearest` servers nearest to it.
pub fn build_cache(graph: &Datacentre, num_nearest: usize) -> (cache: DistanceMatrix)
    requires
        graph.wf(),
    ensures
        cache.len() == graph.num_servers,
        forall|start: int|
            0 <= start < graph.num_servers ==> lists_nearest(
                adjacency(graph.graph@),
                graph.num_servers as int,
                start,
                (#[trigger] cache[start])@,
            ) && (cache[start]@.len() <= num_nearest || cache[start]@.len() == 1) && (cache[start]@.len()
                >= num_nearest || lists_all(adjacency(graph.graph@), graph.num_servers as int, start, cache[start]@))
                && leaves_out_farther(adjacency(graph.graph@), graph.num_servers as int, start, cache[start]@),
{
    let num_servers = graph.num_servers;
    let mut cache: DistanceMatrix = new_dm(num_servers, num_nearest);
    let mut start: usize = 0;
    while start < num_servers
        invariant
            start <= num_servers,
            num_servers == graph.num_servers,
            graph.wf(),
            cache.len() == num_servers,
            forall|s: int|
                0 <= s < start ==> lists_nearest(
                    adjacency(graph.graph@),
                    graph.num_servers as int,
                    s,
                    (#[trigger] cache[s])@,
                ) && (cache[s]@.len() <= num_nearest || cache[s]@.len() == 1) && (cache[s]@.len() >= num_nearest
                    || lists_all(adjacency(graph.graph@), graph.num_servers as int, s, cache[s]@))
                    && leaves_out_farther(adjacency(graph.graph@), graph.num_servers as int, s, cache[s]@),
            forall|s: int| start <= s < num_servers ==> (#[trigger] cache[s])@ == Seq::<DistanceCell>::empty(),
        decreases num_servers - start,
    {
        set_nearest(&mut cache, graph, start, num_nearest);
        start = start + 1;
    }
    cache
}

} // verus!
