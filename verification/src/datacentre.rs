use vstd::prelude::*;

verus! {

/// The kinds of datacentre network.
#[derive(Clone, Copy, Debug, PartialEq, Eq)]
pub enum Topology {
    FatTree,
    LeafSpine,
    DCell,
}

impl Topology {
    /// The name of the topology.
    pub fn name(&self) -> (r: &'static str)
        ensures
            r@ == match self {
                Topology::DCell => "DCell"@,
                Topology::FatTree => "FatTree"@,
                Topology::LeafSpine => "LeafSpine"@,
            },
    {
        match self {
            Topology::DCell => "DCell",
            Topology::FatTree => "FatTree",
            Topology::LeafSpine => "LeafSpine",
        }
    }
}

/// A datacentre network: servers and switches, and the links between them.
///
/// The nodes are numbered, the servers first.
#[derive(Debug)]
pub struct Datacentre {
    /// For every node its neighbours.
    pub graph: Vec<Vec<usize>>,
    pub num_ports: usize,
    pub num_servers: usize,
}

/// The neighbours of every node, as sequences.
pub open spec fn adjacency(graph: Seq<Vec<usize>>) -> Seq<Seq<usize>> {
    Seq::new(graph.len(), |i: int| graph[i]@)
}

/// Every neighbour is a node.
pub open spec fn links_closed(adj: Seq<Seq<usize>>) -> bool {
    forall|i: int, k: int| 0 <= i < adj.len() && 0 <= k < adj[i].len() ==> #[trigger] adj[i][k] < adj.len()
}

/// Every link leads back: a node is a neighbour of each of its neighbours.
pub open spec fn links_symmetric(adj: Seq<Seq<usize>>) -> bool {
    forall|i: int, k: int|
        0 <= i < adj.len() && 0 <= k < adj[i].len() && adj[i][k] < adj.len() ==> adj[#[trigger] adj[i][k] as int].contains(
            i as usize,
        )
}

/// No node is its own neighbour, and no node is listed twice among the neighbours of
/// another.
pub open spec fn links_simple(adj: Seq<Seq<usize>>) -> bool {
    &&& forall|i: int| 0 <= i < adj.len() ==> (#[trigger] adj[i]).no_duplicates()
    &&& forall|i: int, k: int| 0 <= i < adj.len() && 0 <= k < adj[i].len() ==> #[trigger] adj[i][k] != i
}

/// `path` walks along links.
pub open spec fn is_walk(adj: Seq<Seq<usize>>, path: Seq<int>) -> bool {
    &&& path.len() > 0
    &&& forall|k: int| 0 <= k < path.len() ==> 0 <= #[trigger] path[k] < adj.len()
    &&& forall|k: int| 0 <= k < path.len() - 1 ==> adj[path[k]].contains((#[trigger] path[k + 1]) as usize)
}

/// A walk leads from node `from` to node `to`.
pub open spec fn connects(adj: Seq<Seq<usize>>, from: int, to: int) -> bool {
    exists|path: Seq<int>| is_walk(adj, path) && path[0] == from && path.last() == to
}

/// A walk of `len` links leads from node `from` to node `to`.
pub open spec fn walk_of(adj: Seq<Seq<usize>>, from: int, to: int, len: int) -> bool {
    exists|path: Seq<int>| is_walk(adj, path) && path.len() == len + 1 && path[0] == from && #[trigger] path.last() == to
}

/// `len` is the number of links of a shortest walk from node `from` to node `to`.
pub open spec fn shortest(adj: Seq<Seq<usize>>, from: int, to: int, len: int) -> bool {
    &&& walk_of(adj, from, to, len)
    &&& forall|shorter: int| #[trigger] walk_of(adj, from, to, shorter) ==> len <= shorter
}

/// The number of links of a shortest walk from node `from` to node `to`.
pub open spec fn hop_distance(adj: Seq<Seq<usize>>, from: int, to: int) -> int {
    choose|len: int| shortest(adj, from, to, len)
}

/// There is but one length of a shortest walk.
pub proof fn lemma_hop_distance(adj: Seq<Seq<usize>>, from: int, to: int, len: int)
    requires
        shortest(adj, from, to, len),
    ensures
        hop_distance(adj, from, to) == len,
{
    let other = hop_distance(adj, from, to);
    assert(shortest(adj, from, to, other));
    assert(walk_of(adj, from, to, other));
    assert(walk_of(adj, from, to, len));
}

/// Where a walk leads from `from` to `to`, a shortest walk does.
pub proof fn lemma_shortest_exists(adj: Seq<Seq<usize>>, from: int, to: int, len: int)
    requires
        walk_of(adj, from, to, len),
    ensures
        shortest(adj, from, to, hop_distance(adj, from, to)),
        0 <= hop_distance(adj, from, to) <= len,
    decreases len,
{
    let path = choose|path: Seq<int>|
        is_walk(adj, path) && path.len() == len + 1 && path[0] == from && #[trigger] path.last() == to;
    assert(len >= 0);
    if forall|shorter: int| #[trigger] walk_of(adj, from, to, shorter) ==> len <= shorter {
        assert(shortest(adj, from, to, len));
        lemma_hop_distance(adj, from, to, len);
    } else {
        let shorter = choose|shorter: int| #[trigger] walk_of(adj, from, to, shorter) && !(len <= shorter);
        let other = choose|other: Seq<int>|
            is_walk(adj, other) && other.len() == shorter + 1 && other[0] == from && #[trigger] other.last() == to;
        lemma_shortest_exists(adj, from, to, shorter);
    }
}

/// A node lies no link from itself, and only from itself.
pub proof fn lemma_no_distance(adj: Seq<Seq<usize>>, from: int, to: int)
    requires
        0 <= from < adj.len(),
        connects(adj, from, to),
    ensures
        hop_distance(adj, from, to) == 0 <==> from == to,
{
    let path = choose|path: Seq<int>| is_walk(adj, path) && path[0] == from && path.last() == to;
    assert(walk_of(adj, from, to, path.len() - 1));
    lemma_shortest_exists(adj, from, to, path.len() - 1);
    if from == to {
        let stay = seq![from];
        assert(is_walk(adj, stay));
        assert(stay.last() == to);
        assert(walk_of(adj, from, to, 0));
    }
    if hop_distance(adj, from, to) == 0 {
        let short = choose|short: Seq<int>|
            is_walk(adj, short) && short.len() == 0 + 1 && short[0] == from && #[trigger] short.last() == to;
        assert(short[0] == short.last());
    }
}

/// A walk that ends with the link from `via` to `to` is one link longer than the walk to
/// `via`.
pub proof fn lemma_walk_extends(adj: Seq<Seq<usize>>, from: int, via: int, to: usize, len: int)
    requires
        walk_of(adj, from, via, len),
        0 <= via < adj.len(),
        adj[via].contains(to),
        to < adj.len(),
    ensures
        walk_of(adj, from, to as int, len + 1),
{
    let path = choose|path: Seq<int>|
        is_walk(adj, path) && path.len() == len + 1 && path[0] == from && #[trigger] path.last() == via;
    let longer = path.push(to as int);
    assert forall|k: int| 0 <= k < longer.len() - 1 implies adj[longer[k]].contains((#[trigger] longer[k + 1]) as usize) by {
        if k < path.len() - 1 {
            assert(longer[k] == path[k]);
            assert(longer[k + 1] == path[k + 1]);
        }
    }
    assert(is_walk(adj, longer));
    assert(longer.last() == to as int);
}

/// From every server a walk leads to every node.
pub open spec fn connected(adj: Seq<Seq<usize>>, servers: int) -> bool {
    forall|s: int, x: int| 0 <= s < servers && 0 <= x < adj.len() ==> #[trigger] connects(adj, s, x)
}

impl Datacentre {
    /// The servers are nodes, and every neighbour is a node.
    pub open spec fn wf(&self) -> bool {
        &&& self.num_servers <= self.graph.len()
        &&& links_closed(adjacency(self.graph@))
    }

    pub fn is_server(&self, node_id: usize) -> (r: bool)
        ensures
            r == (node_id < self.num_servers),
    {
        node_id < self.num_servers
    }

    pub fn num_components(&self) -> (r: usize)
        ensures
            r == self.graph.len(),
    {
        self.graph.len()
    }
}

/// `n` nodes without links.
fn isolated(n: usize) -> (graph: Vec<Vec<usize>>)
    ensures
        graph.len() == n,
        forall|i: int| 0 <= i < n ==> (#[trigger] graph[i])@ == Seq::<usize>::empty(),
{
    let mut graph: Vec<Vec<usize>> = Vec::new();
    let mut i: usize = 0;
    while i < n
        invariant
            i <= n,
            graph.len() == i,
            forall|j: int| 0 <= j < i ==> (#[trigger] graph[j])@ == Seq::<usize>::empty(),
        decreases n - i,
    {
        graph.push(Vec::new());
        i = i + 1;
    }
    graph
}

/// Appends the nodes `first + step * t`, for `t` below `count`, to the neighbours of `node`.
fn link_run(graph: &mut Vec<Vec<usize>>, node: usize, first: usize, step: usize, count: usize)
    requires
        node < old(graph).len(),
        first + step * count <= usize::MAX,
    ensures
        final(graph).len() == old(graph).len(),
        forall|i: int| 0 <= i < old(graph).len() && i != node ==> #[trigger] final(graph)[i] == old(graph)[i],
        final(graph)[node as int]@ == old(graph)[node as int]@ + Seq::new(
            count as nat,
            |t: int| (first + step * t) as usize,
        ),
{
    let ghost before = graph[node as int]@;
    let mut t: usize = 0;
    let mut next: usize = first;
    while t < count
        invariant
            t <= count,
            node < graph.len(),
            graph.len() == old(graph).len(),
            first + step * count <= usize::MAX,
            t < count ==> next == first + step * t,
            forall|i: int| 0 <= i < graph.len() && i != node ==> #[trigger] graph[i] == old(graph)[i],
            graph[node as int]@ == before + Seq::new(t as nat, |u: int| (first + step * u) as usize),
        decreases count - t,
    {
        let ghost row = graph[node as int]@;
        graph[node].push(next);
        proof {
            assert(step * (t + 1) == step * t + step) by (nonlinear_arith);
            assert(step * (t + 1) <= step * count) by (nonlinear_arith)
                requires
                    t + 1 <= count,
            ;
            assert(graph[node as int]@ =~= before + Seq::new((t + 1) as nat, |u: int| (first + step * u) as usize));
        }
        t = t + 1;
        if t < count {
            proof {
                assert(step * (t + 1) == step * t + step) by (nonlinear_arith);
                assert(step * (t + 1) <= step * count) by (nonlinear_arith)
                    requires
                        t + 1 <= count,
                ;
            }
            next = next + step;
        }
    }
    proof {
        assert(step * 0 == 0) by (nonlinear_arith);
    }
}

/// The number of servers of a fat tree of switches with `k` ports.
pub open spec fn fat_tree_servers(k: int) -> int {
    k * k * k / 4
}

/// The number of nodes of a fat tree of switches with `k` ports: the servers, as many edge
/// switches as aggregation switches, and the core switches.
pub open spec fn fat_tree_nodes(k: int) -> int {
    fat_tree_servers(k) + 2 * (k * (k / 2)) + (k / 2) * (k / 2)
}

/// The neighbours of node `node` in a fat tree of switches with `k` ports.
///
/// A server hangs on one edge switch. An edge switch links its servers and the aggregation
/// switches of its pod, an aggregation switch the edge switches of its pod and its core
/// switches, and a core switch one aggregation switch of every pod.
pub open spec fn fat_tree_row(k: int, node: int) -> Seq<usize> {
    let half = k / 2;
    let servers = fat_tree_servers(k);
    let edges = k * half;
    if node < servers {
        seq![(servers + node / half) as usize]
    } else if node < servers + edges {
        let i = node - servers;
        Seq::new(half as nat, |t: int| (i * half + 1 * t) as usize) + Seq::new(
            half as nat,
            |t: int| (i / half * half + servers + edges + 1 * t) as usize,
        )
    } else if node < servers + 2 * edges {
        let i = node - servers - edges;
        Seq::new(half as nat, |t: int| (i / half * half + servers + 1 * t) as usize) + Seq::new(
            half as nat,
            |t: int| (i % half + (servers + 2 * edges) + half * t) as usize,
        )
    } else {
        let i = node - servers - 2 * edges;
        Seq::new(k as nat, |t: int| (i % half + (servers + edges) + half * t) as usize)
    }
}

/// The fat-tree topology.
pub struct FatTree;

impl FatTree {
    /// A fat tree of switches with `num_ports` ports.
    pub fn new(num_ports: usize) -> (dc: Datacentre)
        requires
            num_ports * num_ports * num_ports <= usize::MAX,
            fat_tree_nodes(num_ports as int) + num_ports <= usize::MAX,
        ensures
            dc.num_ports == num_ports,
            dc.num_servers == fat_tree_servers(num_ports as int),
            dc.graph.len() == fat_tree_nodes(num_ports as int),
            forall|node: int|
                0 <= node < dc.graph.len() ==> (#[trigger] dc.graph[node])@ == fat_tree_row(num_ports as int, node),
    {
        let ghost k = num_ports as int;
        let half = num_ports / 2;
        proof {
            assert(num_ports * num_ports <= num_ports * num_ports * num_ports || num_ports == 0) by (nonlinear_arith);
            assert(num_ports * half <= num_ports * num_ports) by (nonlinear_arith)
                requires
                    half <= num_ports,
            ;
            assert(half * half <= num_ports * num_ports) by (nonlinear_arith)
                requires
                    half <= num_ports,
            ;
            assert(0 <= num_ports * half && 0 <= half * half) by (nonlinear_arith);
        }
        let num_servers = num_ports * num_ports * num_ports / 4;
        let num_edges = num_ports * half;
        let num_agg = num_edges;
        let num_core = half * half;
        let num_nodes = num_servers + num_edges + num_agg + num_core;

        let mut graph = isolated(num_nodes);

        let edg_off = num_servers;
        let agg_off = num_servers + num_edges;
        let cor_off = num_servers + num_edges + num_agg;

        let mut i: usize = 0;
        while i < num_servers
            invariant
                i <= num_servers,
                k == num_ports,
                num_ports * num_ports * num_ports <= usize::MAX,
                half == num_ports / 2,
                num_servers == fat_tree_servers(k),
                num_edges == k * half,
                num_agg == num_edges,
                num_core == half * half,
                num_nodes == fat_tree_nodes(k),
                fat_tree_nodes(k) + num_ports <= usize::MAX,
                graph.len() == num_nodes,
                forall|node: int| 0 <= node < i ==> (#[trigger] graph[node])@ == fat_tree_row(k, node),
                forall|node: int| i <= node < num_nodes ==> (#[trigger] graph[node])@ == Seq::<usize>::empty(),
            decreases num_servers - i,
        {
            proof {
                if half == 0 {
                    assert(num_ports * num_ports * num_ports <= 1) by (nonlinear_arith)
                        requires
                            num_ports <= 1,
                    ;
                }
                assert(i / half <= i) by (nonlinear_arith)
                    requires
                        half > 0,
                        i >= 0,
                ;
            }
            // Integer division rounds towards zero.
            let edge_id = i / half;
            graph[i].push(edge_id + num_servers);
            proof {
                assert(graph[i as int]@ =~= fat_tree_row(k, i as int));
            }
            i = i + 1;
        }

        let mut i: usize = 0;
        while i < num_edges
            invariant
                i <= num_edges,
                k == num_ports,
                half == num_ports / 2,
                num_servers == fat_tree_servers(k),
                num_edges == k * half,
                num_agg == num_edges,
                num_core == half * half,
                num_nodes == fat_tree_nodes(k),
                fat_tree_nodes(k) + num_ports <= usize::MAX,
                edg_off == num_servers,
                agg_off == num_servers + num_edges,
                graph.len() == num_nodes,
                forall|node: int| 0 <= node < num_servers + i ==> (#[trigger] graph[node])@ == fat_tree_row(k, node),
                forall|node: int|
                    num_servers + i <= node < num_nodes ==> (#[trigger] graph[node])@ == Seq::<usize>::empty(),
            decreases num_edges - i,
        {
            proof {
                assert(half > 0) by (nonlinear_arith)
                    requires
                        k * half > 0,
                ;
                assert(i * half + half <= num_servers) by {
                    // Every edge switch links `half` servers, and there are as many servers
                    // as that takes.
                    assert((i + 1) * half <= k * half * half) by (nonlinear_arith)
                        requires
                            i + 1 <= k * half,
                            half > 0,
                    ;
                    assert(k * half * half <= k * k * k / 4) by (nonlinear_arith)
                        requires
                            half == k / 2,
                            k >= 0,
                    ;
                    assert((i + 1) * half == i * half + half) by (nonlinear_arith);
                }
                assert(0 <= i * half) by (nonlinear_arith)
                    requires
                        0 <= i,
                        0 <= half,
                ;
                assert(i / half * half <= i) by (nonlinear_arith)
                    requires
                        half > 0,
                        i >= 0,
                ;
                assert(0 <= i / half * half) by (nonlinear_arith)
                    requires
                        half > 0,
                        i >= 0,
                ;
                assert(1 * half == half) by (nonlinear_arith);
            }
            // The servers of the switch.
            let server_min = i * half;
            link_run(&mut graph, i + edg_off, server_min, 1, half);

            // The aggregation switches of its pod.
            let agg_min = (i / half) * half;
            link_run(&mut graph, i + edg_off, agg_min + agg_off, 1, half);
            proof {
                assert(graph[i + edg_off]@ =~= fat_tree_row(k, i + edg_off));
            }
            i = i + 1;
        }

        let mut i: usize = 0;
        while i < num_agg
            invariant
                i <= num_agg,
                k == num_ports,
                half == num_ports / 2,
                num_servers == fat_tree_servers(k),
                num_edges == k * half,
                num_agg == num_edges,
                num_core == half * half,
                num_nodes == fat_tree_nodes(k),
                fat_tree_nodes(k) + num_ports <= usize::MAX,
                edg_off == num_servers,
                agg_off == num_servers + num_edges,
                cor_off == num_servers + num_edges + num_agg,
                graph.len() == num_nodes,
                forall|node: int| 0 <= node < agg_off + i ==> (#[trigger] graph[node])@ == fat_tree_row(k, node),
                forall|node: int| agg_off + i <= node < num_nodes ==> (#[trigger] graph[node])@ == Seq::<usize>::empty(),
            decreases num_agg - i,
        {
            proof {
                assert(half > 0) by (nonlinear_arith)
                    requires
                        k * half > 0,
                ;
                assert(i / half * half <= i) by (nonlinear_arith)
                    requires
                        half > 0,
                        i >= 0,
                ;
                assert(0 <= i / half * half) by (nonlinear_arith)
                    requires
                        half > 0,
                        i >= 0,
                ;
                assert(1 * half == half) by (nonlinear_arith);
                assert(i % half < half);
            }
            // The edge switches of its pod.
            let edge_min = (i / half) * half;
            link_run(&mut graph, i + agg_off, edge_min + edg_off, 1, half);

            // Its core switches.
            link_run(&mut graph, i + agg_off, i % half + cor_off, half, half);
            proof {
                assert(graph[i + agg_off]@ =~= fat_tree_row(k, i + agg_off));
            }
            i = i + 1;
        }

        let mut i: usize = 0;
        while i < num_core
            invariant
                i <= num_core,
                k == num_ports,
                half == num_ports / 2,
                num_servers == fat_tree_servers(k),
                num_edges == k * half,
                num_agg == num_edges,
                num_core == half * half,
                num_nodes == fat_tree_nodes(k),
                fat_tree_nodes(k) + num_ports <= usize::MAX,
                agg_off == num_servers + num_edges,
                cor_off == num_servers + num_edges + num_agg,
                graph.len() == num_nodes,
                forall|node: int| 0 <= node < cor_off + i ==> (#[trigger] graph[node])@ == fat_tree_row(k, node),
                forall|node: int| cor_off + i <= node < num_nodes ==> (#[trigger] graph[node])@ == Seq::<usize>::empty(),
            decreases num_core - i,
        {
            proof {
                assert(half > 0) by (nonlinear_arith)
                    requires
                        half * half > 0,
                ;
                assert(i % half < half);
                assert(half * k == k * half) by (nonlinear_arith);
            }
            // One aggregation switch of every pod.
            link_run(&mut graph, i + cor_off, i % half + agg_off, half, num_ports);
            proof {
                assert(graph[i + cor_off]@ =~= fat_tree_row(k, i + cor_off));
            }
            i = i + 1;
        }

        Datacentre { graph, num_ports, num_servers }
    }
}

/// The number of servers of a leaf-spine network: every leaf switch spends the ports that
/// the spine switches leave it on servers.
pub open spec fn leaf_spine_servers(k: int, spines: int) -> int {
    (k - spines) * k
}

/// The number of nodes of a leaf-spine network of `k` leaf switches with `k` ports.
pub open spec fn leaf_spine_nodes(k: int, spines: int) -> int {
    spines + k + leaf_spine_servers(k, spines)
}

/// The neighbours of node `node` in a leaf-spine network.
///
/// A server hangs on one leaf switch. A leaf switch links its servers and every spine
/// switch, a spine switch every leaf switch.
pub open spec fn leaf_spine_row(k: int, spines: int, node: int) -> Seq<usize> {
    let per = k - spines;
    let servers = leaf_spine_servers(k, spines);
    if node < servers {
        seq![(servers + node / per) as usize]
    } else if node < servers + k {
        let i = node - servers;
        Seq::new(per as nat, |t: int| (i * per + 1 * t) as usize) + Seq::new(
            spines as nat,
            |t: int| (servers + k + 1 * t) as usize,
        )
    } else {
        Seq::new(k as nat, |t: int| (servers + 1 * t) as usize)
    }
}

/// The leaf-spine topology.
pub struct LeafSpine;

impl LeafSpine {
    /// A leaf-spine network of `num_ports` leaf switches with `num_ports` ports, and
    /// `num_spine` spine switches.
    pub fn new(num_ports: usize, num_spine: usize) -> (dc: Datacentre)
        requires
            num_spine <= num_ports,
            leaf_spine_nodes(num_ports as int, num_spine as int) <= usize::MAX,
        ensures
            dc.num_ports == num_ports,
            dc.num_servers == leaf_spine_servers(num_ports as int, num_spine as int),
            dc.graph.len() == leaf_spine_nodes(num_ports as int, num_spine as int),
            forall|node: int|
                0 <= node < dc.graph.len() ==> (#[trigger] dc.graph[node])@ == leaf_spine_row(
                    num_ports as int,
                    num_spine as int,
                    node,
                ),
    {
        let ghost k = num_ports as int;
        let ghost spines = num_spine as int;
        let per = num_ports - num_spine;
        let num_leaf = num_ports;
        proof {
            assert(0 <= per * num_leaf) by (nonlinear_arith)
                requires
                    0 <= per,
                    0 <= num_leaf,
            ;
        }
        let num_servers = per * num_leaf;
        let num_nodes = num_spine + num_leaf + num_servers;

        let mut graph = isolated(num_nodes);

        let leaf_off = num_servers;
        let spin_off = num_servers + num_leaf;

        let mut i: usize = 0;
        while i < num_servers
            invariant
                i <= num_servers,
                k == num_ports,
                spines == num_spine,
                per == k - spines,
                num_leaf == num_ports,
                num_servers == leaf_spine_servers(k, spines),
                num_nodes == leaf_spine_nodes(k, spines),
                num_nodes <= usize::MAX,
                leaf_off == num_servers,
                graph.len() == num_nodes,
                forall|node: int| 0 <= node < i ==> (#[trigger] graph[node])@ == leaf_spine_row(k, spines, node),
                forall|node: int| i <= node < num_nodes ==> (#[trigger] graph[node])@ == Seq::<usize>::empty(),
            decreases num_servers - i,
        {
            proof {
                assert(per > 0) by (nonlinear_arith)
                    requires
                        per * k > 0,
                        per >= 0,
                ;
                assert(i / per < k) by (nonlinear_arith)
                    requires
                        per > 0,
                        0 <= i < per * k,
                ;
            }
            // Integer division rounds towards zero.
            let leaf_id = i / per;
            graph[i].push(leaf_id + leaf_off);
            proof {
                assert(graph[i as int]@ =~= leaf_spine_row(k, spines, i as int));
            }
            i = i + 1;
        }

        let mut i: usize = 0;
        while i < num_leaf
            invariant
                i <= num_leaf,
                k == num_ports,
                spines == num_spine,
                per == k - spines,
                num_leaf == num_ports,
                num_servers == leaf_spine_servers(k, spines),
                num_nodes == leaf_spine_nodes(k, spines),
                num_nodes <= usize::MAX,
                leaf_off == num_servers,
                spin_off == num_servers + num_leaf,
                graph.len() == num_nodes,
                forall|node: int|
                    0 <= node < num_servers + i ==> (#[trigger] graph[node])@ == leaf_spine_row(k, spines, node),
                forall|node: int|
                    num_servers + i <= node < num_nodes ==> (#[trigger] graph[node])@ == Seq::<usize>::empty(),
            decreases num_leaf - i,
        {
            proof {
                assert(i * per + per <= per * k) by (nonlinear_arith)
                    requires
                        i + 1 <= k,
                        0 <= per,
                ;
                assert(0 <= i * per) by (nonlinear_arith)
                    requires
                        0 <= i,
                        0 <= per,
                ;
                assert(1 * per == per && 1 * num_spine == num_spine) by (nonlinear_arith);
            }
            // The servers of the switch.
            let server_min = i * per;
            link_run(&mut graph, i + leaf_off, server_min, 1, per);

            // The spine switches.
            link_run(&mut graph, i + leaf_off, spin_off, 1, num_spine);
            proof {
                assert(graph[i + leaf_off]@ =~= leaf_spine_row(k, spines, i + leaf_off));
            }
            i = i + 1;
        }

        let mut i: usize = 0;
        while i < num_spine
            invariant
                i <= num_spine,
                k == num_ports,
                spines == num_spine,
                per == k - spines,
                num_leaf == num_ports,
                num_servers == leaf_spine_servers(k, spines),
                num_nodes == leaf_spine_nodes(k, spines),
                num_nodes <= usize::MAX,
                leaf_off == num_servers,
                spin_off == num_servers + num_leaf,
                graph.len() == num_nodes,
                forall|node: int| 0 <= node < spin_off + i ==> (#[trigger] graph[node])@ == leaf_spine_row(k, spines, node),
                forall|node: int| spin_off + i <= node < num_nodes ==> (#[trigger] graph[node])@ == Seq::<usize>::empty(),
            decreases num_spine - i,
        {
            proof {
                assert(1 * num_leaf == num_leaf) by (nonlinear_arith);
            }
            // The leaf switches.
            link_run(&mut graph, i + spin_off, leaf_off, 1, num_leaf);
            proof {
                assert(graph[i + spin_off]@ =~= leaf_spine_row(k, spines, i + spin_off));
            }
            i = i + 1;
        }

        Datacentre { graph, num_ports, num_servers }
    }
}

/// The number of servers of a DCell of level `level` of switches with `k` ports.
pub open spec fn dcell_servers(level: int, k: int) -> int
    decreases level,
{
    if level <= 0 {
        k
    } else {
        (dcell_servers(level - 1, k) + 1) * dcell_servers(level - 1, k)
    }
}

/// The number of cells of the level below that a DCell of level `level` is made of.
pub open spec fn dcell_cells(level: int, k: int) -> int {
    if level <= 0 {
        1
    } else {
        dcell_servers(level - 1, k) + 1
    }
}

/// What digit `j` of the number of a server may be, in a DCell of level `top`: the digits
/// name, from the top level down, the cell that the server lies in, and the last digit the
/// server in its cell.
pub open spec fn digit_bound(top: int, j: int, k: int) -> int {
    if j >= top {
        k
    } else {
        dcell_cells(top - j, k)
    }
}

/// The digits are digits of the number of a server in a DCell of level `top`.
pub open spec fn digits_ok(digits: Seq<usize>, top: int, k: int) -> bool {
    forall|j: int| 0 <= j < digits.len() ==> (#[trigger] digits[j]) < digit_bound(top, j, k)
}

/// The server that the digits name: the servers are numbered cell by cell.
pub open spec fn id_of(digits: Seq<usize>, k: int) -> int
    decreases digits.len(),
{
    if digits.len() <= 1 {
        digits[0] as int
    } else {
        digits[0] * dcell_servers(digits.len() - 2, k) + id_of(digits.drop_first(), k)
    }
}

proof fn lemma_servers_grow(level: int, k: int)
    requires
        0 <= k,
        0 <= level,
    ensures
        0 <= dcell_servers(level, k),
        level > 0 ==> dcell_servers(level - 1, k) <= dcell_servers(level, k),
        dcell_servers(level, k) % k == 0 || k == 0,
        k > 0 ==> dcell_servers(level, k) >= k,
        k > 0 ==> dcell_servers(level, k) > level,
    decreases level,
{
    if level > 0 {
        lemma_servers_grow(level - 1, k);
        let t = dcell_servers(level - 1, k);
        assert(0 <= (t + 1) * t && t <= (t + 1) * t) by (nonlinear_arith)
            requires
                0 <= t,
        ;
        assert(t >= 1 ==> t + 1 <= (t + 1) * t) by (nonlinear_arith);
        if k > 0 {
            let q = t / k;
            vstd::arithmetic::div_mod::lemma_fundamental_div_mod(t, k);
            assert((t + 1) * t == (q * (t + 1)) * k) by (nonlinear_arith)
                requires
                    t == k * q,
            ;
            vstd::arithmetic::div_mod::lemma_mod_multiples_basic(q * (t + 1), k);
        }
    } else if k > 0 {
        vstd::arithmetic::div_mod::lemma_mod_multiples_basic(1, k);
    }
}

proof fn lemma_servers_grow_far(low: int, high: int, k: int)
    requires
        0 <= k,
        0 <= low <= high,
    ensures
        0 <= dcell_servers(low, k) <= dcell_servers(high, k),
    decreases high - low,
{
    lemma_servers_grow(high, k);
    if low < high {
        lemma_servers_grow_far(low, high - 1, k);
    }
}

/// The digits of a server name a server of the DCell.
proof fn lemma_id_bound(digits: Seq<usize>, k: int)
    requires
        digits.len() >= 1,
        0 < k,
        digits_ok(digits, digits.len() - 1, k),
    ensures
        0 <= id_of(digits, k) < dcell_servers(digits.len() - 1, k),
    decreases digits.len(),
{
    let top = digits.len() - 1;
    if digits.len() > 1 {
        let rest = digits.drop_first();
        assert forall|j: int| 0 <= j < rest.len() implies (#[trigger] rest[j]) < digit_bound(top - 1, j, k) by {
            assert(rest[j] == digits[j + 1]);
            assert(digits[j + 1] < digit_bound(top, j + 1, k));
        }
        lemma_id_bound(rest, k);
        let t = dcell_servers(top - 1, k);
        let d = digits[0] as int;
        assert(digits[0] < digit_bound(top, 0, k));
        assert(d * t + t <= (t + 1) * t && 0 <= d * t) by (nonlinear_arith)
            requires
                0 <= d < t + 1,
                0 <= t,
        ;
    } else {
        assert(digits[0] < digit_bound(top, 0, k));
    }
}

/// The links `adj` with one more link: `b` becomes the last neighbour of `a`, and then `a`
/// the last neighbour of `b`.
pub open spec fn link_rows(adj: Seq<Seq<usize>>, a: int, b: int) -> Seq<Seq<usize>> {
    let once = adj.update(a, adj[a].push(b as usize));
    once.update(b, once[b].push(a as usize))
}

/// The links `adj` with the links `links` added one after the other.
pub open spec fn linked(adj: Seq<Seq<usize>>, links: Seq<(int, int)>) -> Seq<Seq<usize>>
    decreases links.len(),
{
    if links.len() == 0 {
        adj
    } else {
        link_rows(linked(adj, links.drop_last()), links.last().0, links.last().1)
    }
}

/// The first server of the cell that the digits `prefix` name, in a DCell of level `top`.
pub open spec fn base_of(prefix: Seq<usize>, top: int, k: int) -> int
    decreases prefix.len(),
{
    if prefix.len() == 0 {
        0
    } else {
        prefix[0] * dcell_servers(top - 1, k) + base_of(prefix.drop_first(), top - 1, k)
    }
}

/// The links of the first `upto` servers from `base` on with their switch: the servers are
/// numbered from 0 and the switches from `sw`, and `k` servers share a switch.
pub open spec fn switch_links(base: int, k: int, sw: int, upto: int) -> Seq<(int, int)> {
    Seq::new(
        if upto > 0 {
            upto as nat
        } else {
            0
        },
        |p: int| (base + p, sw + (base + p) / k),
    )
}

/// The links of cell `i` with the cells after it, up to cell `upto`, among cells of `t`
/// servers that begin at `base`: server `j - 1` of cell `i` is linked with server `i` of
/// cell `j`.
pub open spec fn cross_row(base: int, t: int, i: int, upto: int) -> Seq<(int, int)> {
    Seq::new(
        if upto > i + 1 {
            (upto - i - 1) as nat
        } else {
            0
        },
        |e: int| (base + i * t + (i + e), base + (i + 1 + e) * t + i),
    )
}

/// The links of the first `rows` cells, each with the cells after it, among `t + 1` cells
/// of `t` servers that begin at `base`.
pub open spec fn cross_links(base: int, t: int, rows: int) -> Seq<(int, int)>
    decreases rows,
{
    if rows <= 0 {
        Seq::empty()
    } else {
        cross_links(base, t, rows - 1) + cross_row(base, t, rows - 1, t + 1)
    }
}

/// The links of the DCell of level `level` whose servers begin at `base`, in the order in
/// which they are made: those inside its cells, cell by cell, and then those between its
/// cells. At level 0 they are the links of its servers with their switch.
pub open spec fn cell_links(base: int, level: int, k: int, sw: int) -> Seq<(int, int)>
    decreases level, 1int, 0int,
{
    if level <= 0 {
        switch_links(base, k, sw, k)
    } else {
        inner_links(base, level, k, sw, dcell_cells(level, k)) + cross_links(
            base,
            dcell_servers(level - 1, k),
            dcell_servers(level - 1, k),
        )
    }
}

/// The links inside the first `cells` cells of the DCell of level `level` whose servers
/// begin at `base`.
pub open spec fn inner_links(base: int, level: int, k: int, sw: int, cells: int) -> Seq<(int, int)>
    decreases level, 0int, cells,
{
    if level <= 0 || cells <= 0 {
        Seq::empty()
    } else {
        inner_links(base, level, k, sw, cells - 1) + cell_links(
            base + (cells - 1) * dcell_servers(level - 1, k),
            level - 1,
            k,
            sw,
        )
    }
}

/// One more link is added last.
proof fn lemma_linked_push(adj: Seq<Seq<usize>>, links: Seq<(int, int)>, a: int, b: int)
    ensures
        linked(adj, links.push((a, b))) == link_rows(linked(adj, links), a, b),
{
    assert(links.push((a, b)).drop_last() =~= links);
}

/// Links added in two runs are added in one.
proof fn lemma_linked_append(adj: Seq<Seq<usize>>, first: Seq<(int, int)>, second: Seq<(int, int)>)
    ensures
        linked(adj, first + second) == linked(linked(adj, first), second),
    decreases second.len(),
{
    if second.len() == 0 {
        assert(first + second =~= first);
    } else {
        lemma_linked_append(adj, first, second.drop_last());
        assert((first + second).drop_last() =~= first + second.drop_last());
    }
}

/// The number of a server is the first of its cell and its number within the cell.
proof fn lemma_id_splits(prefix: Seq<usize>, tail: Seq<usize>, k: int)
    requires
        tail.len() >= 1,
    ensures
        id_of(prefix + tail, k) == base_of(prefix, prefix.len() + tail.len() - 1, k) + id_of(tail, k),
    decreases prefix.len(),
{
    if prefix.len() == 0 {
        assert(prefix + tail =~= tail);
    } else {
        let all = prefix + tail;
        assert(all.drop_first() =~= prefix.drop_first() + tail);
        assert(all[0] == prefix[0]);
        lemma_id_splits(prefix.drop_first(), tail, k);
    }
}

/// One more digit chooses a cell of the level below.
proof fn lemma_base_push(prefix: Seq<usize>, digit: usize, top: int, k: int)
    ensures
        base_of(prefix.push(digit), top, k) == base_of(prefix, top, k) + digit * dcell_servers(
            top - 1 - prefix.len(),
            k,
        ),
    decreases prefix.len(),
{
    let longer = prefix.push(digit);
    if prefix.len() == 0 {
        assert(longer.drop_first() =~= Seq::<usize>::empty());
        assert(longer[0] == digit);
        assert(base_of(longer.drop_first(), top - 1, k) == 0);
    } else {
        assert(longer.drop_first() =~= prefix.drop_first().push(digit));
        assert(longer[0] == prefix[0]);
        lemma_base_push(prefix.drop_first(), digit, top - 1, k);
    }
}

/// The link of one more server with its switch.
proof fn lemma_switch_step(adj: Seq<Seq<usize>>, before: Seq<Seq<usize>>, base: int, k: int, sw: int, i: int)
    requires
        0 <= i,
        before == linked(adj, switch_links(base, k, sw, i)),
    ensures
        link_rows(before, base + i, sw + (base + i) / k) == linked(adj, switch_links(base, k, sw, i + 1)),
{
    assert(switch_links(base, k, sw, i + 1) =~= switch_links(base, k, sw, i).push((base + i, sw + (base + i) / k)));
    lemma_linked_push(adj, switch_links(base, k, sw, i), base + i, sw + (base + i) / k);
}

/// The links inside one more cell.
proof fn lemma_inner_step(
    adj: Seq<Seq<usize>>,
    before: Seq<Seq<usize>>,
    after: Seq<Seq<usize>>,
    base: int,
    level: int,
    k: int,
    sw: int,
    i: int,
)
    requires
        0 <= i,
        level > 0,
        before == linked(adj, inner_links(base, level, k, sw, i)),
        after == linked(before, cell_links(base + i * dcell_servers(level - 1, k), level - 1, k, sw)),
    ensures
        after == linked(adj, inner_links(base, level, k, sw, i + 1)),
{
    lemma_linked_append(
        adj,
        inner_links(base, level, k, sw, i),
        cell_links(base + i * dcell_servers(level - 1, k), level - 1, k, sw),
    );
}

/// The link of cell `i` with one more cell `j`, after the links `first`.
proof fn lemma_cross_step(
    adj: Seq<Seq<usize>>,
    before: Seq<Seq<usize>>,
    first: Seq<(int, int)>,
    base: int,
    t: int,
    i: int,
    j: int,
)
    requires
        0 <= i < j,
        before == linked(adj, first + cross_row(base, t, i, j)),
    ensures
        link_rows(before, base + i * t + (j - 1), base + j * t + i) == linked(
            adj,
            first + cross_row(base, t, i, j + 1),
        ),
{
    let e = j - i - 1;
    assert(i + e == j - 1 && i + 1 + e == j);
    let link = (base + i * t + (j - 1), base + j * t + i);
    assert(cross_row(base, t, i, j + 1) =~= cross_row(base, t, i, j).push(link));
    assert(first + cross_row(base, t, i, j + 1) =~= (first + cross_row(base, t, i, j)).push(link));
    lemma_linked_push(adj, first + cross_row(base, t, i, j), link.0, link.1);
}

/// The links of one more cell with the cells after it, after the links `inner`.
proof fn lemma_cross_row_done(inner: Seq<(int, int)>, base: int, t: int, i: int)
    requires
        0 <= i,
    ensures
        (inner + cross_links(base, t, i)) + cross_row(base, t, i, t + 1) == inner + cross_links(base, t, i + 1),
        (inner + cross_links(base, t, i)) + cross_row(base, t, i, i + 1) == inner + cross_links(base, t, i),
{
    assert((inner + cross_links(base, t, i)) + cross_row(base, t, i, t + 1) =~= inner + cross_links(base, t, i + 1));
    assert((inner + cross_links(base, t, i)) + cross_row(base, t, i, i + 1) =~= inner + cross_links(base, t, i));
}

/// The DCell topology.
pub struct DCell;

impl DCell {
    /// A DCell of level `level` of switches with `num_ports` ports: the servers come first,
    /// then the switches, and the links are those of `cell_links`, made in that order.
    pub fn new(num_ports: usize, level: usize) -> (dc: Datacentre)
        requires
            num_ports > 0,
            dcell_servers(level as int, num_ports as int) + dcell_servers(level as int, num_ports as int) / (
            num_ports as int) <= usize::MAX,
        ensures
            dc.num_ports == num_ports,
            dc.num_servers == dcell_servers(level as int, num_ports as int),
            dc.graph.len() == dc.num_servers + dc.num_servers / num_ports,
            dc.wf(),
            adjacency(dc.graph@) == linked(
                Seq::new(dc.graph.len() as nat, |i: int| Seq::<usize>::empty()),
                cell_links(0, level as int, num_ports as int, dc.num_servers as int),
            ),
    {
        proof {
            lemma_servers_grow(level as int, num_ports as int);
        }
        let num_servers = DCell::num_servers(level, num_ports);
        let num_switches = num_servers / num_ports;
        let num_nodes = num_servers + num_switches;

        let mut graph = isolated(num_nodes);
        proof {
            assert(links_closed(adjacency(graph@)));
            assert(adjacency(graph@) =~= Seq::new(num_nodes as nat, |i: int| Seq::<usize>::empty()));
        }
        DCell::build_dcells(&mut graph, Vec::new(), num_ports, level, num_servers);

        Datacentre { graph, num_ports, num_servers }
    }

    /// Links the servers of the DCell of level `level` that the digits `prefix` name, with
    /// their switches and with each other: the links of `cell_links` are added to the graph,
    /// in that order.
    fn build_dcells(graph: &mut Vec<Vec<usize>>, prefix: Vec<usize>, num_ports: usize, level: usize, sw_offset: usize)
        requires
            num_ports > 0,
            prefix.len() + level < usize::MAX,
            digits_ok(prefix@, prefix.len() + level, num_ports as int),
            sw_offset == dcell_servers(prefix.len() + level, num_ports as int),
            old(graph).len() == sw_offset + sw_offset / num_ports,
            links_closed(adjacency(old(graph)@)),
        ensures
            final(graph).len() == old(graph).len(),
            links_closed(adjacency(final(graph)@)),
            adjacency(final(graph)@) == linked(
                adjacency(old(graph)@),
                cell_links(
                    base_of(prefix@, prefix.len() + level, num_ports as int),
                    level as int,
                    num_ports as int,
                    sw_offset as int,
                ),
            ),
        decreases level,
    {
        let ghost k = num_ports as int;
        let ghost top = (prefix.len() + level) as int;
        let ghost adj = adjacency(graph@);
        let ghost base = base_of(prefix@, top, k);
        let ghost sw = sw_offset as int;
        proof {
            lemma_servers_grow_far(level as int, top, k);
            lemma_servers_grow(top, k);
            if level > 0 {
                lemma_servers_grow_far(level - 1, top, k);
                lemma_servers_grow(level as int, k);
                lemma_servers_grow(level - 1, k);
                let t = dcell_servers(level - 1, k);
                assert(t < (t + 1) * t) by (nonlinear_arith)
                    requires
                        t >= 1,
                ;
            }
        }
        if level == 0 {
            let mut i: usize = 0;
            while i < num_ports
                invariant
                    i <= num_ports,
                    num_ports > 0,
                    k == num_ports,
                    level == 0,
                    top == prefix.len(),
                    prefix.len() < usize::MAX,
                    digits_ok(prefix@, top, k),
                    sw_offset == dcell_servers(top, k),
                    sw_offset % num_ports == 0,
                    graph.len() == sw_offset + sw_offset / num_ports,
                    links_closed(adjacency(graph@)),
                    base == base_of(prefix@, top, k),
                    sw == sw_offset,
                    adjacency(graph@) == linked(adj, switch_links(base, k, sw, i as int)),
                decreases num_ports - i,
            {
                let mut new_prefix = prefix.clone();
                new_prefix.push(i);
                proof {
                    assert(new_prefix@ =~= prefix@.push(i));
                    assert forall|j: int| 0 <= j < new_prefix.len() implies (#[trigger] new_prefix[j]) < digit_bound(
                        top,
                        j,
                        k,
                    ) by {
                        if j < prefix.len() {
                            assert(prefix[j] < digit_bound(top, j, k));
                        }
                    }
                    lemma_id_bound(new_prefix@, k);
                    let digit = seq![i];
                    assert(new_prefix@ =~= prefix@ + digit);
                    lemma_id_splits(prefix@, digit, k);
                    assert(id_of(digit, k) == i);
                }
                let srv_id = DCell::to_id(&new_prefix, num_ports);
                let sw_id = srv_id / num_ports;
                proof {
                    vstd::arithmetic::div_mod::lemma_fundamental_div_mod(sw_offset as int, k);
                    vstd::arithmetic::div_mod::lemma_multiply_divide_lt(srv_id as int, k, sw_offset as int / k);
                    lemma_switch_step(adj, adjacency(graph@), base, k, sw, i as int);
                }
                link(graph, srv_id, sw_offset + sw_id);
                i = i + 1;
            }
            return ;
        }
        let gl = DCell::num_dcells(level, num_ports);

        let mut i: usize = 0;
        while i < gl
            invariant
                i <= gl,
                num_ports > 0,
                k == num_ports,
                level > 0,
                top == prefix.len() + level,
                top < usize::MAX,
                gl == dcell_cells(level as int, k),
                digits_ok(prefix@, top, k),
                sw_offset == dcell_servers(top, k),
                graph.len() == sw_offset + sw_offset / num_ports,
                links_closed(adjacency(graph@)),
                base == base_of(prefix@, top, k),
                sw == sw_offset,
                adjacency(graph@) == linked(adj, inner_links(base, level as int, k, sw, i as int)),
            decreases gl - i,
        {
            let mut new_prefix = prefix.clone();
            new_prefix.push(i);
            proof {
                assert(new_prefix@ =~= prefix@.push(i));
                assert forall|j: int| 0 <= j < new_prefix.len() implies (#[trigger] new_prefix[j]) < digit_bound(
                    top,
                    j,
                    k,
                ) by {
                    if j < prefix.len() {
                        assert(prefix[j] < digit_bound(top, j, k));
                    }
                }
            }
            let ghost before = adjacency(graph@);
            proof {
                lemma_base_push(prefix@, i, top, k);
            }
            DCell::build_dcells(graph, new_prefix, num_ports, level - 1, sw_offset);
            proof {
                lemma_inner_step(adj, before, adjacency(graph@), base, level as int, k, sw, i as int);
            }
            i = i + 1;
        }

        let tl = DCell::num_servers(level - 1, num_ports);
        let ghost inner = inner_links(base, level as int, k, sw, gl as int);
        proof {
            assert(inner + cross_links(base, tl as int, 0) =~= inner);
        }

        let mut i: usize = 0;
        while i < tl
            invariant
                i <= tl,
                num_ports > 0,
                k == num_ports,
                level > 0,
                top == prefix.len() + level,
                top < usize::MAX,
                gl == dcell_cells(level as int, k),
                tl == dcell_servers(level - 1, k),
                gl == tl + 1,
                digits_ok(prefix@, top, k),
                sw_offset == dcell_servers(top, k),
                graph.len() == sw_offset + sw_offset / num_ports,
                links_closed(adjacency(graph@)),
                base == base_of(prefix@, top, k),
                adjacency(graph@) == linked(adj, inner + cross_links(base, tl as int, i as int)),
            decreases tl - i,
        {
            proof {
                lemma_cross_row_done(inner, base, tl as int, i as int);
            }
            let mut j: usize = i + 1;
            while j < gl
                invariant
                    i < tl,
                    i + 1 <= j <= gl,
                    num_ports > 0,
                    k == num_ports,
                    level > 0,
                    top == prefix.len() + level,
                    top < usize::MAX,
                    gl == dcell_cells(level as int, k),
                    tl == dcell_servers(level - 1, k),
                    gl == tl + 1,
                    digits_ok(prefix@, top, k),
                    sw_offset == dcell_servers(top, k),
                    graph.len() == sw_offset + sw_offset / num_ports,
                    links_closed(adjacency(graph@)),
                    base == base_of(prefix@, top, k),
                    adjacency(graph@) == linked(
                        adj,
                        (inner + cross_links(base, tl as int, i as int)) + cross_row(base, tl as int, i as int, j as int),
                    ),
                decreases gl - j,
            {
                let mut uid_a = DCell::to_tuple(j - 1, num_ports, level - 1);
                let mut uid_b = DCell::to_tuple(i, num_ports, level - 1);
                let ghost tail_a = uid_a@;
                let ghost tail_b = uid_b@;

                let mut n_a = prefix.clone();
                n_a.push(i);
                n_a.append(&mut uid_a);

                let mut n_b = prefix.clone();
                n_b.push(j);
                n_b.append(&mut uid_b);
                proof {
                    assert(n_a@ =~= prefix@.push(i) + tail_a);
                    assert(n_b@ =~= prefix@.push(j) + tail_b);
                    lemma_digits_join(prefix@, i, tail_a, top, level as int, k);
                    lemma_digits_join(prefix@, j, tail_b, top, level as int, k);
                    lemma_id_bound(n_a@, k);
                    lemma_id_bound(n_b@, k);
                    lemma_id_splits(prefix@.push(i), tail_a, k);
                    lemma_id_splits(prefix@.push(j), tail_b, k);
                    lemma_base_push(prefix@, i, top, k);
                    lemma_base_push(prefix@, j, top, k);
                    lemma_cross_step(
                        adj,
                        adjacency(graph@),
                        inner + cross_links(base, tl as int, i as int),
                        base,
                        tl as int,
                        i as int,
                        j as int,
                    );
                }
                let id_a = DCell::to_id(&n_a, num_ports);
                let id_b = DCell::to_id(&n_b, num_ports);

                link(graph, id_a, id_b);
                j = j + 1;
            }
            i = i + 1;
        }
    }

    /// The number of cells of the level below that a DCell of level `level` is made of.
    fn num_dcells(level: usize, num_ports: usize) -> (r: usize)
        requires
            level > 0 ==> dcell_servers(level - 1, num_ports as int) < usize::MAX,
        ensures
            r == dcell_cells(level as int, num_ports as int),
    {
        if level == 0 {
            1
        } else {
            DCell::num_servers(level - 1, num_ports) + 1
        }
    }

    /// The number of servers of a DCell of level `level`.
    fn num_servers(level: usize, num_ports: usize) -> (r: usize)
        requires
            dcell_servers(level as int, num_ports as int) <= usize::MAX,
        ensures
            r == dcell_servers(level as int, num_ports as int),
        decreases level,
    {
        if level == 0 {
            num_ports
        } else {
            proof {
                lemma_servers_grow(level as int, num_ports as int);
                lemma_servers_grow(level - 1, num_ports as int);
                let t = dcell_servers(level - 1, num_ports as int);
                if t >= usize::MAX {
                    assert((t + 1) * t > usize::MAX) by (nonlinear_arith)
                        requires
                            t >= usize::MAX,
                            usize::MAX >= 1,
                    ;
                }
            }
            let below = DCell::num_servers(level - 1, num_ports);
            (below + 1) * below
        }
    }

    /// The number of the server that the digits `prefix` name.
    fn to_id(prefix: &Vec<usize>, num_ports: usize) -> (id: usize)
        requires
            prefix.len() >= 1,
            num_ports > 0,
            digits_ok(prefix@, prefix.len() - 1, num_ports as int),
            dcell_servers(prefix.len() - 1, num_ports as int) <= usize::MAX,
        ensures
            id == id_of(prefix@, num_ports as int),
            id < dcell_servers(prefix.len() - 1, num_ports as int),
    {
        let ghost k = num_ports as int;
        let len = prefix.len();
        let ghost top = len - 1;
        let mut sum = prefix[len - 1];
        proof {
            assert(prefix@.skip(len - 1).len() == 1);
            assert(prefix@.skip(len - 1)[0] == prefix[len - 1]);
        }
        let mut i: usize = 1;
        while i < len
            invariant
                1 <= i <= len,
                len == prefix.len(),
                top == len - 1,
                k == num_ports,
                num_ports > 0,
                digits_ok(prefix@, top, k),
                dcell_servers(top, k) <= usize::MAX,
                sum == id_of(prefix@.skip(len - i), k),
            decreases len - i,
        {
            let ghost tail = prefix@.skip(len - i - 1);
            proof {
                assert(tail.drop_first() =~= prefix@.skip(len - i));
                assert(tail[0] == prefix[len - 1 - i]);
                assert forall|j: int| 0 <= j < tail.len() implies (#[trigger] tail[j]) < digit_bound(i as int, j, k) by {
                    assert(tail[j] == prefix[len - i - 1 + j]);
                    assert(prefix[len - i - 1 + j] < digit_bound(top, len - i - 1 + j, k));
                }
                lemma_id_bound(tail, k);
                lemma_servers_grow_far(i as int, top, k);
                lemma_servers_grow_far(i - 1, top, k);
                let t = dcell_servers(i - 1, k);
                let d = tail[0] as int;
                assert(0 <= d * t <= id_of(tail, k)) by (nonlinear_arith)
                    requires
                        0 <= d,
                        0 <= t,
                        id_of(tail, k) == d * t + id_of(tail.drop_first(), k),
                        0 <= id_of(tail.drop_first(), k),
                ;
            }
            sum = sum + prefix[len - 1 - i] * DCell::num_servers(i - 1, num_ports);
            i = i + 1;
        }
        proof {
            assert(prefix@.skip(0) =~= prefix@);
            lemma_id_bound(prefix@, k);
        }
        sum
    }

    /// The digits of server `uid` of a DCell of level `level`.
    fn to_tuple(uid: usize, num_ports: usize, level: usize) -> (tuple: Vec<usize>)
        requires
            num_ports > 0,
            level < usize::MAX,
            uid < dcell_servers(level as int, num_ports as int),
            dcell_servers(level as int, num_ports as int) <= usize::MAX,
        ensures
            tuple.len() == level + 1,
            digits_ok(tuple@, level as int, num_ports as int),
            id_of(tuple@, num_ports as int) == uid,
    {
        let ghost k = num_ports as int;
        let mut tuple: Vec<usize> = Vec::new();
        let mut rest = uid;
        let ghost mut rests: Seq<int> = seq![uid as int];
        let mut i: usize = 0;
        while i < level
            invariant
                i <= level,
                k == num_ports,
                num_ports > 0,
                dcell_servers(level as int, k) <= usize::MAX,
                tuple.len() == i,
                rests.len() == i + 1,
                rests[i as int] == rest,
                rests[0] == uid,
                forall|j: int| 0 <= j <= i ==> 0 <= #[trigger] rests[j] < dcell_servers(level - j, k),
                forall|j: int| 0 <= j < i ==> #[trigger] split_at(tuple@, rests, level as int, k, j),
            decreases level - i,
        {
            proof {
                lemma_servers_grow_far(level - 1 - i, level as int, k);
                lemma_servers_grow(level - 1 - i, k);
            }
            let below = DCell::num_servers(level - 1 - i, num_ports);
            let ghost tuple_in = tuple@;
            let ghost rests_in = rests;
            tuple.push(rest / below);
            rest = rest % below;
            proof {
                rests = rests.push(rest as int);
                assert forall|j: int| 0 <= j < i + 1 implies #[trigger] split_at(tuple@, rests, level as int, k, j) by {
                    if j < i {
                        assert(split_at(tuple_in, rests_in, level as int, k, j));
                    }
                }
            }
            i = i + 1;
        }
        let ghost tuple_in = tuple@;
        tuple.push(rest % num_ports);
        proof {
            assert forall|j: int| 0 <= j < tuple.len() implies (#[trigger] tuple[j]) < digit_bound(level as int, j, k) by {
                if j < level {
                    assert(split_at(tuple_in, rests, level as int, k, j));
                    let t = dcell_servers(level - 1 - j, k);
                    lemma_servers_grow(level - 1 - j, k);
                    assert(rests[j] < dcell_servers(level - j, k));
                    assert(rests[j] < t * (t + 1)) by (nonlinear_arith)
                        requires
                            rests[j] < (t + 1) * t,
                    ;
                    vstd::arithmetic::div_mod::lemma_multiply_divide_lt(rests[j], t, t + 1);
                }
            }
            assert forall|j: int| 0 <= j < level implies #[trigger] split_at(tuple@, rests, level as int, k, j) by {
                assert(split_at(tuple_in, rests, level as int, k, j));
            }
            lemma_tuple_id(tuple@, rests, level as int, k, 0);
            assert(tuple@.skip(0) =~= tuple@);
        }
        tuple
    }
}

/// Digits of a cell, a digit that chooses a cell of the level below, and the digits of a
/// server of that cell are together the digits of a server.
proof fn lemma_digits_join(prefix: Seq<usize>, digit: usize, tail: Seq<usize>, top: int, level: int, k: int)
    requires
        level > 0,
        top == prefix.len() + level,
        digits_ok(prefix, top, k),
        digit < dcell_cells(level, k),
        tail.len() == level,
        digits_ok(tail, level - 1, k),
    ensures
        (prefix.push(digit) + tail).len() - 1 == top,
        digits_ok(prefix.push(digit) + tail, top, k),
{
    let all = prefix.push(digit) + tail;
    assert forall|j: int| 0 <= j < all.len() implies (#[trigger] all[j]) < digit_bound(top, j, k) by {
        if j < prefix.len() {
            assert(all[j] == prefix[j]);
        } else if j == prefix.len() {
            assert(all[j] == digit);
        } else {
            let e = j - prefix.len() - 1;
            assert(all[j] == tail[e]);
            assert(tail[e] < digit_bound(level - 1, e, k));
        }
    }
}

/// Digit `j` and what is left after it were split off what was left before it.
spec fn split_at(tuple: Seq<usize>, rests: Seq<int>, level: int, k: int, j: int) -> bool {
    &&& tuple[j] == rests[j] / dcell_servers(level - 1 - j, k)
    &&& rests[j + 1] == rests[j] % dcell_servers(level - 1 - j, k)
}

/// The digits that were split off a number name that number.
proof fn lemma_tuple_id(tuple: Seq<usize>, rests: Seq<int>, level: int, k: int, from: int)
    requires
        0 < k,
        0 <= from <= level,
        tuple.len() == level + 1,
        rests.len() == level + 1,
        forall|j: int| 0 <= j <= level ==> 0 <= #[trigger] rests[j] < dcell_servers(level - j, k),
        forall|j: int| 0 <= j < level ==> #[trigger] split_at(tuple, rests, level, k, j),
        tuple[level] == rests[level] % k,
    ensures
        id_of(tuple.skip(from), k) == rests[from],
    decreases level - from,
{
    let tail = tuple.skip(from);
    if from == level {
        assert(tail.len() == 1);
        assert(tail[0] == tuple[level]);
        assert(0 <= rests[level] < dcell_servers(0, k));
        vstd::arithmetic::div_mod::lemma_small_mod(rests[level] as nat, k as nat);
    } else {
        lemma_tuple_id(tuple, rests, level, k, from + 1);
        assert(tail.drop_first() =~= tuple.skip(from + 1));
        assert(tail[0] == tuple[from]);
        assert(tail.len() - 2 == level - 1 - from);
        let t = dcell_servers(level - 1 - from, k);
        lemma_servers_grow(level - 1 - from, k);
        let r = rests[from];
        assert(0 <= r < dcell_servers(level - from, k));
        assert(split_at(tuple, rests, level, k, from));
        assert(tail[0] == r / t && rests[from + 1] == r % t);
        vstd::arithmetic::div_mod::lemma_fundamental_div_mod(r, t);
        assert(r / t * t == t * (r / t)) by (nonlinear_arith);
        assert(id_of(tail, k) == tail[0] * t + id_of(tail.drop_first(), k));
    }
}

/// Links two nodes with each other: each becomes the last neighbour of the other.
fn link(graph: &mut Vec<Vec<usize>>, a: usize, b: usize)
    requires
        a < old(graph).len(),
        b < old(graph).len(),
        links_closed(adjacency(old(graph)@)),
    ensures
        final(graph).len() == old(graph).len(),
        links_closed(adjacency(final(graph)@)),
        adjacency(final(graph)@) == link_rows(adjacency(old(graph)@), a as int, b as int),
{
    let ghost before = adjacency(graph@);
    graph[a].push(b);
    let ghost between = adjacency(graph@);
    graph[b].push(a);
    proof {
        let after = adjacency(graph@);
        assert(between =~= before.update(a as int, before[a as int].push(b)));
        assert(after =~= between.update(b as int, between[b as int].push(a)));
        assert forall|i: int, e: int| 0 <= i < between.len() && 0 <= e < between[i].len() implies #[trigger] between[i][e]
            < between.len() by {
            if i == a && e == before[i].len() {
            } else {
                assert(between[i][e] == before[i][e]);
            }
        }
        assert forall|i: int, e: int| 0 <= i < after.len() && 0 <= e < after[i].len() implies #[trigger] after[i][e]
            < after.len() by {
            if i == b && e == between[i].len() {
            } else {
                assert(after[i][e] == between[i][e]);
            }
        }
    }
}



} // verus!
