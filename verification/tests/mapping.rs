use vnf_placement::datacentre::FatTree;
use vnf_placement::mapping::find_routes;
use vnf_placement::route::{iterate_route, NodeType, RouteNode};
use vnf_placement::routing::get_tables;

#[test]
fn test_find_routes() {
    let dc = FatTree::new(4);
    let rts = get_tables(&dc);

    // ------ Repeated
    let sequence = vec![0, 0, 0];
    let graph = find_routes(sequence, &rts);

    assert_eq!(graph.len(), 5);
    check_sequence(&graph, vec![0, 0, 0, 0, 0], vec![true, false, true, false, true]);

    // ------ Adjacent
    let sequence = vec![2, 3];
    let graph = find_routes(sequence, &rts);

    assert_eq!(graph.len(), 5);
    check_sequence(&graph, vec![2, 2, 17, 3, 3], vec![true, false, false, false, true]);

    // ------ Revisited
    let sequence = vec![4, 5, 4];
    let graph = find_routes(sequence, &rts);

    assert_eq!(graph.len(), 9);
    check_sequence(
        &graph,
        vec![4, 4, 18, 5, 5, 5, 18, 4, 4],
        vec![true, false, false, false, true, false, false, false, true],
    );

    // ------ Split
    let sequence = vec![1, 2];
    let graph = find_routes(sequence, &rts);

    assert_eq!(graph.len(), 8);

    // 1 (VNF)
    let next = check_single(0, 1, true, 1, &graph);

    // 1
    let next = check_single(next, 1, false, 1, &graph);

    // 16
    let next = check_double(next, 16, false, 1, &graph);

    // 24 + 25
    let next_a = check_single(next[0], 24, false, 1, &graph);
    let next_b = check_single(next[1], 25, false, 1, &graph);
    assert_eq!(next_a, next_b);
    let next = next_a;

    // 17
    let next = check_single(next, 17, false, 2, &graph);

    // 2
    let next = check_single(next, 2, false, 1, &graph);

    // 2 (VNF)
    check_last(next, 2, &graph);

    // ----- Big split
    let sequence = vec![0, 15];
    let graph = find_routes(sequence, &rts);

    assert_eq!(graph.len(), 14);

    // 0 (VNF)
    let next = check_single(0, 0, true, 1, &graph);

    // 0
    let next = check_single(next, 0, false, 1, &graph);

    // 16
    let next = check_double(next, 16, false, 1, &graph);

    // 24
    let next_a = check_double(next[0], 24, false, 1, &graph);
    // -- 32
    let next_a_1 = check_single(next_a[0], 32, false, 1, &graph);
    // -- 34
    let next_a_2 = check_single(next_a[1], 34, false, 1, &graph);
    // -- -- 30
    assert_eq!(next_a_1, next_a_2);
    let next_a = check_single(next_a_1, 30, false, 2, &graph);

    // 25
    let next_b = check_double(next[1], 25, false, 1, &graph);
    // -- 33
    let next_b_1 = check_single(next_b[0], 33, false, 1, &graph);
    // -- 35
    let next_b_2 = check_single(next_b[1], 35, false, 1, &graph);
    // -- -- 31
    assert_eq!(next_b_1, next_b_2);
    let next_b = check_single(next_b_1, 31, false, 2, &graph);

    // 23
    assert_eq!(next_a, next_b);
    let next = check_single(next_a, 23, false, 2, &graph);

    // 15
    let next = check_single(next, 15, false, 1, &graph);

    // 15 (VNF)
    check_last(next, 15, &graph);

    // ----- Repeated splits
    let sequence = vec![0, 1, 2];
    let graph = find_routes(sequence, &rts);

    assert_eq!(graph.len(), 12);

    // 0 (VNF)
    let next = check_single(0, 0, true, 1, &graph);

    // 0
    let next = check_single(next, 0, false, 1, &graph);

    // 16
    let next = check_single(next, 16, false, 1, &graph);

    // 1
    let next = check_single(next, 1, false, 1, &graph);

    // 1 (VNF)
    let next = check_single(next, 1, true, 1, &graph);

    // 1
    let next = check_single(next, 1, false, 1, &graph);

    // 16
    let next = check_double(next, 16, false, 1, &graph);

    // -- 24
    let next_a = check_single(next[0], 24, false, 1, &graph);

    // -- 25
    let next_b = check_single(next[1], 25, false, 1, &graph);

    // 17
    assert_eq!(next_a, next_b);
    let next = next_a;
    let next = check_single(next, 17, false, 2, &graph);

    // 2
    let next = check_single(next, 2, false, 1, &graph);

    // 2 (VNF)
    check_last(next, 2, &graph);
}

// Does not work on branching sequences.
fn check_sequence(graph: &Vec<RouteNode>, expected_sequence: Vec<usize>, vnfs: Vec<bool>) {
    let mut next = 0;
    let len = expected_sequence.len();

    for (&elem, is_vnf) in expected_sequence.iter().zip(vnfs).take(len - 1) {
        next = check_single(next, elem, is_vnf, 1, graph);
    }

    check_last(next, expected_sequence[len - 1], graph);
}

fn check_single(position: usize, node_id: usize, is_vnf: bool, num_incoming: u32, graph: &Vec<RouteNode>) -> usize {
    assert_eq!(graph[position].is_vnf(), is_vnf);
    assert_eq!(graph[position].dc_id(), node_id);
    assert_eq!(graph[position].next_nodes.len(), 1);
    assert_eq!(graph[position].route_count, num_incoming);
    graph[position].next_nodes[0]
}

fn check_double(
    position: usize,
    expected: usize,
    is_vnf: bool,
    num_incoming: u32,
    graph: &Vec<RouteNode>,
) -> &Vec<usize> {
    assert_eq!(graph[position].is_vnf(), is_vnf);
    assert_eq!(graph[position].dc_id(), expected);
    assert_eq!(graph[position].next_nodes.len(), 2);
    assert_eq!(graph[position].route_count, num_incoming);

    &graph[position].next_nodes
}

fn check_last(position: usize, expected: usize, graph: &Vec<RouteNode>) {
    assert_eq!(graph[position].dc_id(), expected);
    assert!(graph[position].is_vnf());
    assert_eq!(graph[position].next_nodes.len(), 0);
    assert_eq!(graph[position].route_count, 1);
}

#[test]
fn test_iterate_route() {
    let route = simple_route();
    let expected = vec![0, 1, 2];

    let order = iterate_route(&route);
    assert_eq!(order.len(), 3);
    for curr in order {
        assert_eq!(curr, expected[curr]);
    }

    let route = branching_route();
    let expected: Vec<usize> = (0..10).into_iter().collect();
    let order = iterate_route(&route);
    assert_eq!(order.len(), 10);
    for curr in order {
        assert_eq!(curr, expected[curr]);
    }
}

fn simple_route() -> Vec<RouteNode> {
    vec![
        RouteNode { node_type: NodeType::VNF(0, 0), route_count: 1, next_nodes: vec![1] },
        RouteNode { node_type: NodeType::Component(0), route_count: 1, next_nodes: vec![2] },
        RouteNode { node_type: NodeType::VNF(0, 1), route_count: 1, next_nodes: vec![] },
    ]
}

fn branching_route() -> Vec<RouteNode> {
    vec![
        RouteNode { node_type: NodeType::VNF(0, 0), route_count: 1, next_nodes: vec![1] },
        RouteNode { node_type: NodeType::Component(0), route_count: 1, next_nodes: vec![2, 3] },
        RouteNode { node_type: NodeType::Component(2), route_count: 1, next_nodes: vec![4, 5, 8] },
        RouteNode { node_type: NodeType::Component(3), route_count: 1, next_nodes: vec![6, 7, 8] },
        RouteNode { node_type: NodeType::Component(4), route_count: 1, next_nodes: vec![8] },
        RouteNode { node_type: NodeType::Component(5), route_count: 1, next_nodes: vec![8] },
        RouteNode { node_type: NodeType::Component(6), route_count: 1, next_nodes: vec![8] },
        RouteNode { node_type: NodeType::Component(7), route_count: 1, next_nodes: vec![8] },
        RouteNode { node_type: NodeType::Component(1), route_count: 6, next_nodes: vec![9] },
        RouteNode { node_type: NodeType::VNF(1, 1), route_count: 1, next_nodes: vec![] },
    ]
}

// The order of a route graph visits every node once, behind the nodes that lead to it.
#[test]
fn iterate_route_visits_split_routes_in_order() {
    let dc = FatTree::new(4);
    let rts = get_tables(&dc);
    let graph = find_routes(vec![1, 2], &rts);
    let order = iterate_route(&graph);

    assert_eq!(order.len(), graph.len());
    let mut place = vec![usize::MAX; graph.len()];
    for (at, &node) in order.iter().enumerate() {
        assert_eq!(place[node], usize::MAX);
        place[node] = at;
    }
    for (from, node) in graph.iter().enumerate() {
        for &to in &node.next_nodes {
            assert!(place[from] < place[to]);
        }
    }
    // The component on switch 17 joins two routes.
    let joined: Vec<&RouteNode> = graph.iter().filter(|node| node.dc_id() == 17).collect();
    assert_eq!(joined.len(), 1);
    assert_eq!(joined[0].route_count, 2);
}

// Every count is the number of edges that enter the node, the first node one more.
#[test]
fn route_counts_are_in_degrees() {
    let dc = FatTree::new(4);
    let rts = get_tables(&dc);
    for sequence in vec![vec![0, 15], vec![0, 1, 2], vec![4, 5, 4], vec![3]] {
        let graph = find_routes(sequence.clone(), &rts);
        let mut entering = vec![0u32; graph.len()];
        entering[0] = 1;
        for node in &graph {
            for &to in &node.next_nodes {
                entering[to] += 1;
            }
        }
        for (at, node) in graph.iter().enumerate() {
            assert_eq!(node.route_count, entering[at]);
            if let NodeType::VNF(host, stage) = node.node_type {
                assert_eq!(host, sequence[stage]);
            }
        }
    }
}

#[test]
fn routes_have_no_cycle_and_are_visited_once() {
    let dc = FatTree::new(4);
    let rts = get_tables(&dc);

    for sequence in vec![vec![0, 15, 0], vec![3, 3, 12, 3], vec![7], vec![1, 2]] {
        let graph = find_routes(sequence, &rts);
        let order = iterate_route(&graph);

        // Every node once, and behind all the nodes that lead to it.
        assert_eq!(order.len(), graph.len());
        let mut place = vec![usize::MAX; graph.len()];
        for (k, &node) in order.iter().enumerate() {
            assert_eq!(place[node], usize::MAX);
            place[node] = k;
        }
        for (i, node) in graph.iter().enumerate() {
            for &next in &node.next_nodes {
                assert!(place[i] < place[next]);
            }
        }
    }
}
