use vnf_placement::datacentre::{DCell, Datacentre, FatTree, LeafSpine, Topology};
use vnf_placement::distance_matrix::{build_cache, set_nearest, DistanceCell, DistanceMatrix};
use vnf_placement::evaluation::{num_unplaced, violation};
use vnf_placement::heuristic_model::HeuristicModel;
use vnf_placement::route::{NodeType, RouteNode};
use vnf_placement::routing::get_tables;
use vnf_placement::service::{Service, VNF};
use vnf_placement::stopwatch::{add_spans, Stopwatch};

fn empty_matrix(num_servers: usize) -> DistanceMatrix {
    vec![Vec::new(); num_servers]
}

#[test]
fn test_set_nearest() {
    let dc = FatTree::new(4);
    let num_nearest = 6;
    let num_servers = dc.num_servers;

    let mut dm = empty_matrix(num_servers);

    set_nearest(&mut dm, &dc, 6, num_nearest);

    // Check length
    assert_eq!(dm[6].len(), num_nearest);

    // Check content
    assert_eq!(dm[6][0], DistanceCell { node_id: 6, distance: 0 });
    assert_eq!(dm[6][1], DistanceCell { node_id: 7, distance: 2 });

    assert_eq!(dm[6][2].distance, 4);
    assert_eq!(dm[6][3].distance, 4);
    assert!(vec![4, 5].contains(&dm[6][2].node_id));
    assert!(vec![4, 5].contains(&dm[6][3].node_id));
    assert_ne!(dm[6][2].node_id, dm[6][3].node_id);

    assert_eq!(dm[6][4].distance, 6);
    assert_eq!(dm[6][5].distance, 6);

    // Check randomness
    let mut used_prev = Vec::new();
    for _ in 0..100 {
        dm[6] = vec![];
        set_nearest(&mut dm, &dc, 6, num_nearest);

        let node_id = dm[6][4].node_id;
        assert!(!vec![4, 5, 6, 7].contains(&node_id));
        used_prev.push(node_id);
    }

    used_prev.sort();
    used_prev.dedup();

    assert!(used_prev.len() > 1);
}

#[test]
fn test_build_cache() {
    let dc = FatTree::new(4);
    let num_nearest = 8;
    let num_servers = dc.num_servers;

    let dm = build_cache(&dc, num_nearest);

    // Check length
    assert_eq!(dm.len(), num_servers);

    for i in 0..num_servers {
        assert_eq!(dm[i].len(), num_nearest);
    }

    // Check content
    for i in 0..num_servers {
        // Self
        assert_eq!(dm[i][0].node_id, i);
        assert_eq!(dm[i][0].distance, 0);
        // Neighbour
        assert_eq!(dm[i][1].distance, 2);
    }
}

// Even where none is asked for, a row holds the server itself.
#[test]
fn build_cache_of_none() {
    let dc = FatTree::new(4);
    let dm = build_cache(&dc, 0);
    for i in 0..dc.num_servers {
        assert_eq!(dm[i], vec![DistanceCell { node_id: i, distance: 0 }]);
    }
    let dm = build_cache(&dc, 100);
    for i in 0..dc.num_servers {
        assert_eq!(dm[i].len(), 16);
        let mut servers: Vec<usize> = dm[i].iter().map(|cell| cell.node_id).collect();
        servers.sort();
        assert_eq!(servers, (0..16).collect::<Vec<usize>>());
        for pair in dm[i].windows(2) {
            assert!(pair[0].distance <= pair[1].distance);
        }
    }
}

#[test]
fn fat_tree_of_four_ports() {
    let dc = FatTree::new(4);
    assert_eq!(dc.num_ports, 4);
    assert_eq!(dc.num_servers, 16);
    assert_eq!(dc.num_components(), 36);
    assert!(dc.is_server(15));
    assert!(!dc.is_server(16));
    // A server, an edge switch, an aggregation switch and a core switch.
    assert_eq!(dc.graph[5], vec![18]);
    assert_eq!(dc.graph[18], vec![4, 5, 26, 27]);
    assert_eq!(dc.graph[27], vec![18, 19, 33, 35]);
    assert_eq!(dc.graph[33], vec![25, 27, 29, 31]);
    links_lead_back(&dc);
    assert_eq!(Topology::FatTree.name(), "FatTree");
    assert_eq!(Topology::LeafSpine.name(), "LeafSpine");
    assert_eq!(Topology::DCell.name(), "DCell");
}

#[test]
fn leaf_spine_of_four_ports() {
    let dc = LeafSpine::new(4, 2);
    assert_eq!(dc.num_ports, 4);
    assert_eq!(dc.num_servers, 8);
    assert_eq!(dc.num_components(), 14);
    assert_eq!(dc.graph[3], vec![9]);
    assert_eq!(dc.graph[9], vec![2, 3, 12, 13]);
    assert_eq!(dc.graph[13], vec![8, 9, 10, 11]);
    links_lead_back(&dc);
}

fn links_lead_back(dc: &Datacentre) {
    for (node, neighbours) in dc.graph.iter().enumerate() {
        for &neighbour in neighbours {
            assert!(dc.graph[neighbour].contains(&node));
        }
    }
}

// Following the next hops of the routing tables leads to the server, by a shortest way.
#[test]
fn routing_tables_lead_to_the_server() {
    for dc in vec![FatTree::new(4), LeafSpine::new(4, 2), FatTree::new(6)] {
        let tables = get_tables(&dc);
        assert_eq!(tables.len(), dc.num_components());
        for server in 0..dc.num_servers {
            let far = hops_from(&dc, server);
            for node in 0..dc.num_components() {
                let next = tables[node].find(server);
                assert!(!next.is_empty());
                for &hop in next {
                    if node == server {
                        assert_eq!(hop, server);
                    } else {
                        assert!(dc.graph[node].contains(&hop));
                        assert_eq!(far[hop] + 1, far[node]);
                    }
                }
            }
        }
    }
}

fn hops_from(dc: &Datacentre, start: usize) -> Vec<usize> {
    let mut far = vec![usize::MAX; dc.num_components()];
    far[start] = 0;
    let mut level = vec![start];
    while !level.is_empty() {
        let mut next = Vec::new();
        for &node in &level {
            for &neighbour in &dc.graph[node] {
                if far[neighbour] == usize::MAX {
                    far[neighbour] = far[node] + 1;
                    next.push(neighbour);
                }
            }
        }
        level = next;
    }
    far
}

fn route_node(rn: NodeType) -> RouteNode {
    RouteNode { node_type: rn, route_count: 1, next_nodes: Vec::new() }
}

#[test]
pub fn heuristic_model_test_evaluate() {
    let dc = FatTree::new(4);
    let model = HeuristicModel::new(&dc);

    let mut simple_route = Vec::new();
    simple_route.push((
        0,
        vec![
            route_node(NodeType::VNF(0, 0)),
            route_node(NodeType::Component(0)),
            route_node(NodeType::Component(1)),
            route_node(NodeType::Component(2)),
            route_node(NodeType::Component(3)),
            route_node(NodeType::VNF(1, 1)),
        ],
    ));

    let mut revisited_route = Vec::new();
    revisited_route.push((
        0,
        vec![
            route_node(NodeType::VNF(0, 0)),
            route_node(NodeType::Component(0)),
            route_node(NodeType::Component(1)),
            route_node(NodeType::Component(2)),
            route_node(NodeType::Component(3)),
            route_node(NodeType::VNF(1, 1)),
            route_node(NodeType::Component(1)),
            route_node(NodeType::Component(3)),
            route_node(NodeType::Component(5)),
            route_node(NodeType::VNF(0, 1)),
        ],
    ));

    let mut multiple_routes = Vec::new();
    multiple_routes.push((
        0,
        vec![
            route_node(NodeType::VNF(0, 0)),
            route_node(NodeType::Component(0)),
            route_node(NodeType::Component(1)),
            route_node(NodeType::Component(2)),
            route_node(NodeType::Component(3)),
            route_node(NodeType::VNF(1, 1)),
        ],
    ));
    multiple_routes.push((
        1,
        vec![
            route_node(NodeType::VNF(0, 0)),
            route_node(NodeType::Component(0)),
            route_node(NodeType::Component(1)),
            route_node(NodeType::Component(2)),
            route_node(NodeType::Component(3)),
            route_node(NodeType::Component(4)),
            route_node(NodeType::Component(5)),
            route_node(NodeType::VNF(1, 1)),
        ],
    ));

    let share = |tally: (usize, usize), routes: usize| {
        (tally.0 as f64 / dc.num_components() as f64, tally.1 as f64 / routes as f64)
    };
    let (perc_used_simp, avg_len_simp) = share(model.tally(&simple_route), simple_route.len());
    let (perc_used_rev, avg_len_rev) = share(model.tally(&revisited_route), revisited_route.len());
    let (perc_used_mult, avg_len_mult) = share(model.tally(&multiple_routes), multiple_routes.len());

    assert_eq!(perc_used_simp, 4.0 / 36.0);
    assert_eq!(avg_len_simp, 6.0);

    assert_eq!(perc_used_rev, 5.0 / 36.0);
    assert_eq!(avg_len_rev, 10.0);

    assert_eq!(perc_used_mult, 6.0 / 36.0);
    assert_eq!(avg_len_mult, 7.0);
}

#[test]
fn services_without_routes() {
    let service = |id: usize| Service { id, vnfs: vec![VNF { queue_length: 20, size: 10 }] };
    let services = vec![service(0), service(1), service(2), service(3)];
    let routes = vec![(2, vec![route_node(NodeType::VNF(0, 0))]), (0, Vec::new()), (2, Vec::new())];
    assert_eq!(num_unplaced(&routes, &services), 2);
    assert_eq!(num_unplaced(&Vec::new(), &services), 4);
    assert_eq!(num_unplaced(&Vec::new(), &Vec::new()), 0);
}

#[test]
fn stopwatch_holds_while_paused() {
    let mut watch = Stopwatch::new();
    watch.start();
    let first = watch.read();
    let second = watch.read();
    assert!(first <= second);
    watch.pause();
    let held = watch.read();
    assert_eq!(watch.read(), held);
    assert_eq!(watch.read(), held);
    watch.start();
    assert!(watch.read() >= held);
    assert!(watch.stop() >= held);
    assert_eq!(first, 0);
}

#[test]
fn time_spans_add_up() {
    assert_eq!(add_spans(1, 600_000_000, 2, 700_000_000), (4, 300_000_000));
    assert_eq!(add_spans(0, 0, 0, 999_999_999), (0, 999_999_999));
    assert_eq!(add_spans(u64::MAX, 1, 0, 999_999_999), (u64::MAX, 999_999_999));
    assert_eq!(add_spans(u64::MAX - 1, 500_000_000, 0, 500_000_000), (u64::MAX, 0));
    assert_eq!(add_spans(5, 0, u64::MAX, 0), (u64::MAX, 999_999_999));
}

#[test]
fn dcell_of_two_ports() {
    let dc = DCell::new(2, 1);

    assert_eq!(dc.num_ports, 2);
    assert_eq!(dc.num_servers, 6);
    assert_eq!(dc.graph.len(), 9);

    // Each server is linked with its switch and with one server of another cell.
    assert_eq!(dc.graph[0], vec![6, 2]);
    assert_eq!(dc.graph[1], vec![6, 4]);
    assert_eq!(dc.graph[2], vec![7, 0]);
    assert_eq!(dc.graph[3], vec![7, 5]);
    assert_eq!(dc.graph[4], vec![8, 1]);
    assert_eq!(dc.graph[5], vec![8, 3]);
    assert_eq!(dc.graph[6], vec![0, 1]);
    assert_eq!(dc.graph[7], vec![2, 3]);
    assert_eq!(dc.graph[8], vec![4, 5]);
}

#[test]
fn dcell_of_one_switch() {
    let dc = DCell::new(4, 0);

    assert_eq!(dc.num_servers, 4);
    assert_eq!(dc.graph.len(), 5);
    assert_eq!(dc.graph[4], vec![0, 1, 2, 3]);
    for server in 0..4 {
        assert_eq!(dc.graph[server], vec![4]);
    }
}

#[test]
fn dcell_sizes() {
    assert_eq!(DCell::new(4, 1).num_servers, 20);
    assert_eq!(DCell::new(4, 1).graph.len(), 25);
    assert_eq!(DCell::new(2, 2).num_servers, 42);
    assert_eq!(DCell::new(2, 2).graph.len(), 63);
    for row in DCell::new(2, 2).graph.iter().take(42) {
        assert_eq!(row.len(), 3);
    }
}

#[test]
fn rows_list_every_server_at_its_distance() {
    let dc = FatTree::new(4);
    let cache = build_cache(&dc, 100);

    assert_eq!(cache.len(), 16);
    for (start, row) in cache.iter().enumerate() {
        // Fewer servers than were asked for: all of them are listed.
        assert_eq!(row.len(), 16);
        assert_eq!(row[0], DistanceCell { node_id: start, distance: 0 });
        let mut seen = vec![false; 16];
        for cell in row {
            assert!(!seen[cell.node_id]);
            seen[cell.node_id] = true;
            // Under the same edge switch, in the same pod, or in another pod.
            let expected = if cell.node_id == start {
                0
            } else if cell.node_id / 2 == start / 2 {
                2
            } else if cell.node_id / 4 == start / 4 {
                4
            } else {
                6
            };
            assert_eq!(cell.distance, expected);
        }
        for pair in row.windows(2) {
            assert!(pair[0].distance <= pair[1].distance);
        }
    }
}

#[test]
fn rows_stop_at_the_nearest() {
    let dc = FatTree::new(4);
    let cache = build_cache(&dc, 4);

    for (start, row) in cache.iter().enumerate() {
        assert_eq!(row.len(), 4);
        // The server itself, its neighbour under the edge switch, and two of its pod.
        assert_eq!(row[0].node_id, start);
        assert_eq!(row[1], DistanceCell { node_id: start ^ 1, distance: 2 });
        assert_eq!(row[2].distance, 4);
        assert_eq!(row[3].distance, 4);
        assert_eq!(row[2].node_id / 4, start / 4);
        assert_eq!(row[3].node_id / 4, start / 4);
    }
}

#[test]
fn violation_of_the_constraints() {
    assert_eq!(violation(0, true), None);
    assert_eq!(violation(0, false), None);
    assert_eq!(violation(3, true), Some(3));
    assert_eq!(violation(3, false), Some(0));
}
