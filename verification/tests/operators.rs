use rand::thread_rng;
use vnf_placement::crossover::{Crossover, LocalExchange, NPointCrossover, UniformCrossover};
use vnf_placement::datacentre::FatTree;
use vnf_placement::distance_matrix::build_cache;
use vnf_placement::error::OperatorError;
use vnf_placement::mutation::{
    AddRemoveMutation, AddRemoveSwapMutation, IncrDecrMutation, Mutation, SingleExchange, SwapMutation,
};
use vnf_placement::neighbour_gen::{add_at, first_occupied, remove_at, swap_at, AddSwapNeighbour, NeighbourGenerator};
use vnf_placement::nsgaii::NSGAII_Solution;
use vnf_placement::pnsgaii::scatter_pop;
use vnf_placement::probability::Probability;
use vnf_placement::selection::TournamentSelection;
use vnf_placement::solution::Solution;

fn always() -> Probability {
    Probability::new(1, 1).unwrap()
}

fn never() -> Probability {
    Probability::new(0, 1).unwrap()
}

#[test]
pub fn test_scatter_pop() {
    let sols: Vec<Solution<usize>> = (0..8).into_iter().map(|x| Solution::new(vec![x])).collect();

    let mut global_pop: Vec<NSGAII_Solution<usize>> = sols.into_iter().map(|sol| NSGAII_Solution::new(sol)).collect();

    let mut rng = thread_rng();

    let pops_two = scatter_pop(&mut global_pop, 2, 4, &mut rng);
    let pops_four = scatter_pop(&mut global_pop, 4, 2, &mut rng);
    let pops_double = scatter_pop(&mut global_pop, 2, 8, &mut rng);

    // Two pops
    assert_eq!(pops_two.len(), 2);
    assert_eq!(pops_two[0].len(), 4);
    assert_eq!(pops_two[1].len(), 4);

    let mut sum = 0;
    for i in 0..4 {
        sum = sum + pops_two[0][i].solution.point[0] + pops_two[1][i].solution.point[0];
    }
    assert_eq!(sum, 28);

    // Four pops
    assert_eq!(pops_four.len(), 4);
    assert_eq!(pops_four[0].len(), 2);
    assert_eq!(pops_four[1].len(), 2);
    assert_eq!(pops_four[2].len(), 2);
    assert_eq!(pops_four[3].len(), 2);

    let mut sum = 0;
    for i in 0..2 {
        sum = sum
            + pops_four[0][i].solution.point[0]
            + pops_four[1][i].solution.point[0]
            + pops_four[2][i].solution.point[0]
            + pops_four[3][i].solution.point[0];
    }
    assert_eq!(sum, 28);

    // Duplicated pops
    assert_eq!(pops_double.len(), 2);
    assert_eq!(pops_double[0].len(), 8);
    assert_eq!(pops_double[1].len(), 8);

    let mut sum = 0;
    for i in 0..8 {
        sum = sum + pops_double[0][i].solution.point[0] + pops_double[1][i].solution.point[0];
    }
    assert_eq!(sum, 56);
}

// The shuffle changes the order of a population, sooner or later.
#[test]
fn scatter_pop_shuffles() {
    let mut moved = false;
    for _ in 0..20 {
        let mut global_pop: Vec<NSGAII_Solution<usize>> =
            (0..16).map(|x| NSGAII_Solution::new(Solution::new(vec![x]))).collect();
        let mut rng = thread_rng();
        let islands = scatter_pop(&mut global_pop, 1, 16, &mut rng);
        let dealt: Vec<usize> = islands[0].iter().map(|m| m.solution.point[0]).collect();
        let mut sorted = dealt.clone();
        sorted.sort();
        assert_eq!(sorted, (0..16).collect::<Vec<usize>>());
        if dealt != sorted {
            moved = true;
        }
    }
    assert!(moved);
}

#[test]
fn test_uniform_crossover() {
    let crossover_func = UniformCrossover::new(always());
    basic_tests(crossover_func, 50);
}

#[test]
fn test_n_point_crossover() {
    let crossover_func_1 = NPointCrossover::new(always(), 1);
    let crossover_func_2 = NPointCrossover::new(always(), 2);
    let crossover_func_3 = NPointCrossover::new(always(), 3);
    let crossover_func_4 = NPointCrossover::new(always(), 4);
    let crossover_func_5 = NPointCrossover::new(always(), 5);

    basic_tests(crossover_func_1, 10);
    basic_tests(crossover_func_2, 10);
    basic_tests(crossover_func_3, 10);
    basic_tests(crossover_func_4, 10);
    basic_tests(crossover_func_5, 10);
}

#[test]
#[should_panic(expected = "The number of crossover points cannot exceed the number of variables")]
fn test_n_point_crossover_many_points() {
    let crossover_func = NPointCrossover::new(always(), 100);
    let parent_one = Solution::new(vec![0u8; 50]);

    crossover_func
        .apply(&parent_one, &parent_one.clone())
        .expect("The number of crossover points cannot exceed the number of variables");
}

#[test]
fn n_point_crossover_refuses_too_many_cuts() {
    let parent = Solution::new(vec![0u8; 50]);
    assert_eq!(NPointCrossover::new(always(), 51).apply(&parent, &parent).err(), Some(OperatorError::InvalidArgument));
    assert!(NPointCrossover::new(always(), 50).apply(&parent, &parent).is_ok());
}

// With the cuts given, the pieces go to the children in turn.
#[test]
fn n_point_crossover_at_given_cuts() {
    let one = Solution::new(vec![1, 1, 1, 1, 1, 1]);
    let two = Solution::new(vec![2, 2, 2, 2, 2, 2]);
    let children = NPointCrossover::cross(&one, &two, &vec![2, 5]);
    assert_eq!(children[0].point, vec![1, 1, 2, 2, 2, 1]);
    assert_eq!(children[1].point, vec![2, 2, 1, 1, 1, 2]);
    let children = NPointCrossover::cross(&one, &two, &vec![0]);
    assert_eq!(children[0].point, vec![2, 2, 2, 2, 2, 2]);
    let children = UniformCrossover::cross(&one, &two, &vec![true, false, true, true, false, false]);
    assert_eq!(children[0].point, vec![1, 2, 1, 1, 2, 2]);
    assert_eq!(children[1].point, vec![2, 1, 2, 2, 1, 1]);
    assert!(children[0].objectives.is_undefined());
}

// A crossover that never happens hands back copies of the parents.
#[test]
fn crossover_that_never_happens() {
    let one = Solution::new(vec![1, 1, 1, 1]);
    let two = Solution::new(vec![2, 2, 2, 2]);
    for _ in 0..20 {
        let children = UniformCrossover::new(never()).apply(&one, &two).unwrap();
        assert_eq!(children[0].point, one.point);
        assert_eq!(children[1].point, two.point);
        let children = NPointCrossover::new(never(), 2).apply(&one, &two).unwrap();
        assert_eq!(children[0].point, one.point);
        assert_eq!(children[1].point, two.point);
    }
}

#[test]
fn test_local_exchange() {
    let graph = FatTree::new(4);
    let dm = build_cache(&graph, 5);

    let crossover_func_2 = LocalExchange::new(always(), Probability::new(1, 5).unwrap(), &dm).unwrap();
    let crossover_func_3 = LocalExchange::new(always(), Probability::new(2, 5).unwrap(), &dm).unwrap();
    let crossover_func_4 = LocalExchange::new(always(), Probability::new(3, 5).unwrap(), &dm).unwrap();
    let crossover_func_5 = LocalExchange::new(always(), Probability::new(4, 5).unwrap(), &dm).unwrap();
    let crossover_func_6 = LocalExchange::new(always(), Probability::new(1, 1).unwrap(), &dm).unwrap();

    basic_tests(crossover_func_2, graph.num_servers);
    basic_tests(crossover_func_3, graph.num_servers);
    basic_tests(crossover_func_4, graph.num_servers);
    basic_tests(crossover_func_5, graph.num_servers);
    basic_tests(crossover_func_6, graph.num_servers);
}

#[test]
#[should_panic(expected = "The distance matrix is empty.")]
fn test_local_exchange_empty() {
    let prop_exchange = Probability::new(1, 2).unwrap();

    // Empty DM
    if LocalExchange::new(always(), prop_exchange, &vec![]).err() == Some(OperatorError::InvalidInput) {
        panic!("The distance matrix is empty.");
    }
}

#[test]
fn local_exchange_refuses_bad_input() {
    let graph = FatTree::new(4);
    let dm = build_cache(&graph, 5);
    assert_eq!(LocalExchange::new(always(), always(), &vec![]).err(), Some(OperatorError::InvalidInput));
    assert_eq!(LocalExchange::new(always(), never(), &dm).err(), Some(OperatorError::InvalidArgument));
    assert_eq!(Probability::new(3, 2).err(), Some(OperatorError::InvalidArgument));
    assert_eq!(Probability::new(1, 0).err(), Some(OperatorError::InvalidArgument));
    assert_eq!(Probability::new(2, 5).unwrap().of(10), 4);
    assert_eq!(Probability::new(1, 3).unwrap().of(10), 3);
}

// Half of the loci are exchanged.
#[test]
fn local_exchange_exchanges_half() {
    let graph = FatTree::new(4);
    let dm = build_cache(&graph, 5);
    let exchange = LocalExchange::new(always(), Probability::new(2, 5).unwrap(), &dm).unwrap();
    let one = Solution::new(vec![1usize; 16]);
    let two = Solution::new(vec![2usize; 16]);
    for _ in 0..20 {
        let children = exchange.apply(&one, &two).unwrap();
        assert_eq!(children[0].point.iter().filter(|&&x| x == 2).count(), 8);
        assert_eq!(children[1].point.iter().filter(|&&x| x == 1).count(), 8);
        for i in 0..16 {
            assert_ne!(children[0].point[i], children[1].point[i]);
        }
    }
}

fn basic_tests(crossover_func: impl Crossover<Option<usize>>, num_servers: usize) {
    let empty_parent = Solution::new(vec![None; num_servers]);
    let mut parent_one = empty_parent.clone();

    for i in 0..parent_one.len() {
        parent_one.point[i] = Some(i);
    }

    // Check that the right number of instances of each number exists
    // and that they were distributed between the two children
    let mut used_child_one = false;
    let mut used_child_two = false;

    for _ in 0..10 {
        let children = crossover_func.apply(&parent_one, &empty_parent).unwrap();

        let child_one = &children[0];
        let child_two = &children[1];

        assert_eq!(child_one.len(), num_servers);
        assert_eq!(child_two.len(), num_servers);

        let mut numbers = vec![0; num_servers];
        for i in 0..num_servers {
            if let Some(x) = child_one.point[i] {
                numbers[x] = numbers[x] + 1;
                used_child_one = true;
            }

            if let Some(x) = child_two.point[i] {
                numbers[x] = numbers[x] + 1;
                used_child_two = true;
            }
        }

        for i in 0..num_servers {
            assert_eq!(numbers[i], 1);
        }
    }

    assert!(used_child_one);
    assert!(used_child_two);
}

#[test]
fn test_swap_mutation() {
    let ind_len = 100;
    let point: Vec<usize> = (0..ind_len).into_iter().collect();
    let ind = Solution::new(point);

    let mutation = SwapMutation::new(always(), always());
    let mut new_ind = mutation.apply(&ind);

    assert_eq!(new_ind.len(), ind_len);
    assert_ne!(new_ind.point, ind.point);

    new_ind.point.sort();
    assert_eq!(new_ind.point, ind.point);
}

#[test]
fn test_add_remove_mutation() {
    let num_items = 5;
    let items: Vec<usize> = (0..num_items).into_iter().collect();

    let mutation = AddRemoveMutation::new(items, always(), always());

    let ind_len = 1000;

    // Empty case
    let point = vec![vec![]; ind_len];
    let empty_ind = Solution::new(point);
    let empty_ind = mutation.apply(&empty_ind);

    // Full case
    let point = vec![vec![1]; ind_len];
    let full_ind = Solution::new(point);
    let full_ind = mutation.apply(&full_ind);

    // Check length
    assert_eq!(empty_ind.len(), ind_len);
    assert_eq!(full_ind.len(), ind_len);

    // Check distribution
    // -- In the empty case we'd expect ~50% of cells to have an item after mutation
    let num_items = empty_ind.point.into_iter().fold(0, |acc, cell| acc + if cell.is_empty() { 0 } else { 1 });

    assert!(num_items < 550 && num_items > 450);

    // -- In the full case we'd expect ~50% of cells to be empty after mutation
    let num_cells = full_ind.point.into_iter().fold(0, |acc, cell| acc + if cell.is_empty() { 1 } else { 0 });

    assert!(num_cells < 550 && num_cells > 450);
}

#[test]
fn test_neighbour_gen_mutation() {
    let base_solution = Solution::new(vec![
        vec![0, 1],
        vec![],
        vec![3],
        vec![2, 4, 5],
        vec![],
        vec![],
        vec![],
        vec![6],
        vec![],
        vec![],
        vec![1],
    ]);
    let base_servers = &base_solution.point;

    let ngen = AddSwapNeighbour::new(vec![0, 1, 2, 3, 4, 5, 6]);
    for _ in 0..1000 {
        let new_solution = ngen.apply(&base_solution);

        let mut total_vms = 0;
        let mut servers_changed = 0;

        let servers = &new_solution.point;
        for i in 0..servers.len() {
            total_vms += servers[i].len();

            if servers[i].len() != base_servers[i].len() {
                servers_changed += 1;
            }
        }

        assert!(total_vms == 7 || total_vms == 8 || total_vms == 9);
        assert!(servers_changed <= 2);
    }
}

// Each of the three moves comes up.
#[test]
fn neighbour_moves_all_come_up() {
    let base = Solution::new(vec![vec![0, 1], vec![2], vec![3, 4, 5]]);
    let ngen = AddSwapNeighbour::new(vec![9]);
    let (mut added, mut removed, mut swapped) = (false, false, false);
    for _ in 0..300 {
        let n = ngen.apply(&base);
        let total: usize = n.point.iter().map(|cell| cell.len()).sum();
        if total == 7 {
            added = true;
            assert!(n.point.iter().any(|cell| cell.last() == Some(&9)));
        } else if total == 5 {
            removed = true;
        } else {
            assert_eq!(total, 6);
            if n.point != base.point {
                swapped = true;
            }
        }
    }
    assert!(added && removed && swapped);
}

#[test]
fn mutations_that_never_happen() {
    let cells = Solution::new(vec![vec![1usize, 2], vec![], vec![3]]);
    let counts = Solution::new(vec![3usize, 4, 5]);
    for _ in 0..20 {
        assert_eq!(AddRemoveSwapMutation::new(vec![7usize], never()).apply(&cells).point, cells.point);
        assert_eq!(AddRemoveMutation::new(vec![7usize], never(), always()).apply(&cells).point, cells.point);
        assert_eq!(AddRemoveMutation::new(vec![7usize], always(), never()).apply(&cells).point, cells.point);
        assert_eq!(SwapMutation::new(never(), always()).apply(&counts).point, counts.point);
        assert_eq!(IncrDecrMutation::new(always(), never()).apply(&counts).point, counts.point);
    }
}

#[test]
fn mutations_that_always_happen() {
    let cells = Solution::new(vec![vec![1usize, 2], vec![], vec![3]]);
    let counts = Solution::new(vec![3usize, 4, 5]);
    let mut exchanged = false;
    for _ in 0..50 {
        let m = AddRemoveSwapMutation::new(vec![7usize], always()).apply(&cells);
        let total: usize = m.point.iter().map(|cell| cell.len()).sum();
        assert!(total == 2 || total == 3 || total == 4);

        let stepped = IncrDecrMutation::new(always(), always()).apply(&counts);
        for i in 0..3 {
            assert!(stepped.point[i] + 1 == counts.point[i] || stepped.point[i] == counts.point[i] + 1);
        }

        let swapped = SingleExchange::new().apply(&cells);
        let mut sizes: Vec<usize> = swapped.point.iter().map(|cell| cell.len()).collect();
        if swapped.point != cells.point {
            exchanged = true;
        }
        sizes.sort();
        assert_eq!(sizes, vec![0, 1, 2]);
    }
    assert!(exchanged);
}

#[test]
pub fn test_tournament() {
    let objectives = vec![1.0, 2.0, 3.0, 4.0, 5.0];
    let arena = TournamentSelection::new(objectives.len(), |x, y| objectives[x] > objectives[y]);

    let ffa = arena.tournament(5).unwrap();
    assert_eq!(ffa, 4);

    let not_worst = arena.tournament(2).unwrap();
    assert_ne!(not_worst, 0);
}

#[test]
#[should_panic(expected = "Tournament size must be 1 or greater")]
pub fn test_tournament_error() {
    let arena = TournamentSelection::new(5, |_, _| false);
    arena.tournament(0).expect("Tournament size must be 1 or greater");
}

#[test]
fn tournament_of_given_contenders() {
    let worth = vec![3, 9, 4, 9, 1];
    let arena = TournamentSelection::new(worth.len(), |x, y| worth[x] > worth[y]);
    assert_eq!(arena.best_of(&vec![0, 1, 2, 3]), 1);
    assert_eq!(arena.best_of(&vec![4, 0]), 0);
    assert_eq!(arena.best_of(&vec![3, 1]), 3);
    assert_eq!(arena.tournament(0), Err(OperatorError::InvalidArgument));
    for _ in 0..50 {
        let best = arena.tournament(3).unwrap();
        assert!(best != 4);
    }
}

#[test]
fn moves_at_given_places() {
    let mut solution = Solution::new(vec![vec![1, 2, 3], vec![], vec![4]]);
    let items = vec![7, 8, 9];

    add_at(&mut solution, &items, 1, 2);
    assert_eq!(solution.point, vec![vec![1, 2, 3], vec![9], vec![4]]);

    // The last item takes the place of the one that leaves.
    remove_at(&mut solution, 0, 0);
    assert_eq!(solution.point, vec![vec![3, 2], vec![9], vec![4]]);

    swap_at(&mut solution, 0, 2);
    assert_eq!(solution.point, vec![vec![4], vec![9], vec![3, 2]]);
    swap_at(&mut solution, 1, 1);
    assert_eq!(solution.point, vec![vec![4], vec![9], vec![3, 2]]);

    let holes: Solution<Vec<i32>> = Solution::new(vec![vec![], vec![5], vec![], vec![6]]);
    assert_eq!(first_occupied(&holes, &vec![2, 0, 3, 1]), Some(3));
    assert_eq!(first_occupied(&holes, &vec![0, 2]), None);
}
