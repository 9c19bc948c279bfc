use std::cmp::Ordering;
use vnf_placement::datacentre::FatTree;
use vnf_placement::distance_matrix::{build_cache, DistanceCell};
use vnf_placement::initialisation::{
    min_size, num_instances, InitPop, SAIntStringInitialisation, ServiceAwareInitialisation,
};
use vnf_placement::mapping::{place_service, IntStringToRouteMapping, Mapping, ServiceToRouteMapping};
use vnf_placement::nsgaii::{crowding_comparison_operator, fast_nondominated_sort, NSGAII_Solution};
use vnf_placement::placement_strategies::{BestFit, FirstFit};
use vnf_placement::route::NodeType;
use vnf_placement::routing::get_tables;
use vnf_placement::service::{Service, VNF};
use vnf_placement::solution::{Constraint, Score, Solution};

fn service(id: usize, sizes: &[usize]) -> Service {
    Service { id, vnfs: sizes.iter().map(|&size| VNF { queue_length: 20, size }).collect() }
}

// A line of four servers, each with its neighbours in order of distance.
fn line() -> Vec<Vec<DistanceCell>> {
    (0..4usize)
        .map(|at| {
            let mut row: Vec<DistanceCell> =
                (0..4usize).map(|to| DistanceCell { node_id: to, distance: at.abs_diff(to) }).collect();
            row.sort_by_key(|cell| cell.distance);
            row
        })
        .collect()
}

#[test]
fn a_service_is_placed_stage_by_stage() {
    let dm = line();
    let mut capacities = vec![50, 30, 100, 100];
    let placed = place_service(&FirstFit::new(), &service(0, &[40, 40, 40]), 0, &dm, &mut capacities);
    // The first stage fits on 0, the second on the nearest server with room, the third beside it.
    assert_eq!(placed, Some(vec![0, 2, 2]));
    assert_eq!(capacities, vec![10, 30, 20, 100]);
}

#[test]
fn a_service_without_room_takes_nothing() {
    let dm = line();
    let mut capacities = vec![50, 30, 60, 10];
    let placed = place_service(&FirstFit::new(), &service(0, &[40, 40, 40]), 0, &dm, &mut capacities);
    assert_eq!(placed, None);
    assert_eq!(capacities, vec![50, 30, 60, 10]);
    let placed = place_service(&BestFit::new(), &service(0, &[]), 1, &dm, &mut capacities);
    assert_eq!(placed, Some(Vec::new()));
}

#[test]
fn services_are_mapped_to_routes() {
    let dc = FatTree::new(4);
    let tables = get_tables(&dc);
    let dm = build_cache(&dc, 16);
    let capacities = vec![100; dc.num_servers];
    let big = service(0, &[60, 60]);
    let small = service(1, &[30]);
    let huge = service(2, &[101]);

    let mut point: Vec<Vec<&Service>> = vec![Vec::new(); dc.num_servers];
    point[3] = vec![&big, &huge, &small];
    point[5] = vec![&small];
    let ind = Solution::new(point);

    let mapping = ServiceToRouteMapping::new(FirstFit::new(), &capacities, &dm, &tables);
    let routes = mapping.apply(&ind);

    let ids: Vec<usize> = routes.iter().map(|route| route.0).collect();
    assert_eq!(ids, vec![0, 1, 1]);
    // The first stage of the big service fills server 3, the second goes to a neighbour.
    let big_route = &routes[0].1;
    assert_eq!(big_route[0].node_type, NodeType::VNF(3, 0));
    let last = big_route.iter().find(|node| node.next_nodes.is_empty()).unwrap();
    assert_eq!(last.node_type, NodeType::VNF(2, 1));
    // The small service asked for at 3 still fits there.
    assert_eq!(routes[1].1.len(), 1);
    assert_eq!(routes[1].1[0].node_type, NodeType::VNF(3, 0));
    assert_eq!(routes[2].1[0].node_type, NodeType::VNF(5, 0));
}

#[test]
fn counts_are_mapped_to_routes() {
    let dc = FatTree::new(4);
    let tables = get_tables(&dc);
    let dm = build_cache(&dc, 16);
    let capacities = vec![100; dc.num_servers];
    let services = vec![service(0, &[10, 10]), service(1, &[20])];
    let mapping = IntStringToRouteMapping::new(FirstFit::new(), &services, &capacities, &dm, &tables);
    let routes = mapping.apply(&Solution::new(vec![3, 2]));
    assert_eq!(routes.iter().filter(|route| route.0 == 0).count(), 3);
    assert_eq!(routes.iter().filter(|route| route.0 == 1).count(), 2);
    assert!(mapping.apply(&Solution::new(vec![0, 0])).is_empty());
}

#[test]
fn first_populations() {
    let services = vec![service(0, &[10, 30]), service(1, &[60])];
    assert_eq!(min_size(&services), 100);
    assert_eq!(num_instances(0, 10, 400, 100), 1);
    assert_eq!(num_instances(2, 10, 400, 100), 1);
    assert_eq!(num_instances(5, 10, 400, 100), 2);
    assert_eq!(num_instances(9, 10, 400, 100), 3);

    let init = ServiceAwareInitialisation::new(&services, 4);
    let population = init.apply(10);
    assert_eq!(population.len(), 10);
    for (i, individual) in population.iter().enumerate() {
        assert!(individual.objectives.is_undefined());
        assert_eq!(individual.len(), 4);
        let expected = num_instances(i, 10, 400, 100);
        for s in &services {
            let held: usize =
                individual.point.iter().map(|cell| cell.iter().filter(|held| held.id == s.id).count()).sum();
            assert_eq!(held, expected);
        }
    }

    let counts = SAIntStringInitialisation::new(&services, 4).apply(10);
    assert_eq!(counts.len(), 10);
    assert_eq!(counts[0].point, vec![1, 1]);
    assert_eq!(counts[9].point, vec![3, 3]);
}

fn ranked(objectives: Constraint<Vec<Score>, usize>) -> NSGAII_Solution<u8> {
    let mut solution = Solution::new(vec![0u8]);
    solution.objectives = objectives;
    NSGAII_Solution::new(solution)
}

#[test]
fn a_population_is_sorted_into_fronts() {
    let mut pop = vec![
        ranked(Constraint::Feasible(vec![1, 5])),
        ranked(Constraint::Feasible(vec![2, 6])),
        ranked(Constraint::Feasible(vec![5, 1])),
        ranked(Constraint::Infeasible(2)),
        ranked(Constraint::Feasible(vec![3, 7])),
        ranked(Constraint::Infeasible(1)),
        ranked(Constraint::Feasible(vec![3, 3])),
    ];
    pop[5].crowding_dist = 17;
    let fronts = fast_nondominated_sort(&mut pop);
    let ranks: Vec<usize> = pop.iter().map(|member| member.rank).collect();
    assert_eq!(ranks, vec![0, 1, 0, 4, 2, 3, 0]);
    let sizes: Vec<usize> = fronts.iter().map(|front| front.len()).collect();
    assert_eq!(sizes, vec![3, 1, 1, 1, 1, 0]);
    assert_eq!(fronts[0][1].solution.objectives, Constraint::Feasible(vec![5, 1]));
    assert_eq!(fronts[3][0].crowding_dist, 17);
    assert_eq!(fronts[3][0].rank, 3);

    // No member of a front dominates another, and one of the front before dominates each.
    for (k, front) in fronts.iter().enumerate() {
        for member in front {
            assert!(front.iter().all(|other| !other.dominates(member)));
            if k > 0 {
                assert!(fronts[k - 1].iter().any(|other| other.dominates(member)));
            }
        }
    }
    let mut none: Vec<NSGAII_Solution<u8>> = Vec::new();
    assert_eq!(fast_nondominated_sort(&mut none).len(), 1);
}

#[test]
fn crowded_comparison() {
    let mut a = ranked(Constraint::Feasible(vec![1]));
    let mut b = ranked(Constraint::Feasible(vec![1]));
    a.rank = 1;
    b.rank = 2;
    assert_eq!(crowding_comparison_operator(&a, &b), Ordering::Less);
    assert_eq!(crowding_comparison_operator(&b, &a), Ordering::Greater);
    b.rank = 1;
    assert_eq!(crowding_comparison_operator(&a, &b), Ordering::Greater);
    a.crowding_dist = 5;
    assert_eq!(crowding_comparison_operator(&a, &b), Ordering::Less);
    assert_eq!(crowding_comparison_operator(&b, &a), Ordering::Greater);
    let copy = a.clone();
    assert_eq!(copy.rank, 1);
    assert_eq!(copy.crowding_dist, 5);
    assert_eq!(copy.objectives(), a.objectives());
}
