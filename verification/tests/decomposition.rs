use vnf_placement::decomposition::{
    accept_neighbours, dominates_angle, dominates_for_weight, get_best, get_ref_points, is_in_region,
    lattice_granularity, simplex_lattice, Rated,
};
use vnf_placement::nds::NonDominatedSet;
use vnf_placement::solution::{Constraint, Score, Solution};

// An integer that orders as the reals do.
fn encode(x: f64) -> Score {
    let x = if x == 0.0 { 0.0 } else { x };
    let bits = x.to_bits() as i64;
    bits ^ ((((bits >> 63) as u64) >> 1) as i64)
}

fn decode(score: Score) -> f64 {
    let bits = score ^ ((((score >> 63) as u64) >> 1) as i64);
    f64::from_bits(bits as u64)
}

fn feasible(values: &[f64]) -> Constraint<Vec<Score>, usize> {
    Constraint::Feasible(values.iter().map(|&x| encode(x)).collect())
}

fn tchebycheff(objectives: &[Score], weights: &[f64], ref_point: &[f64], nadir_point: &[f64]) -> f64 {
    let mut max = std::f64::MIN;
    for i in 0..objectives.len() {
        let dist = weights[i] * ((decode(objectives[i]) - ref_point[i]) / (nadir_point[i] - ref_point[i])).abs();
        if dist > max {
            max = dist;
        }
    }
    max
}

fn angle(a: &[f64], b: &[f64]) -> f64 {
    let dot: f64 = a.iter().zip(b).map(|(x, y)| x * y).sum();
    let mag_a = a.iter().map(|c| c.powf(2.0)).sum::<f64>().sqrt();
    let mag_b = b.iter().map(|c| c.powf(2.0)).sum::<f64>().sqrt();
    (dot / (mag_a * mag_b)).acos()
}

fn best_for(pop: &Vec<Solution<i32>>, wv: &[f64], ref_point: &[f64], nadir_point: &[f64]) -> (usize, f64, usize) {
    let rated: Vec<Rated> = pop
        .iter()
        .map(|ind| match &ind.objectives {
            Constraint::Feasible(objectives) => {
                let dist = tchebycheff(objectives, wv, ref_point, nadir_point);
                Constraint::Feasible(if dist < std::f64::INFINITY { encode(dist) } else { Score::MAX })
            }
            Constraint::Infeasible(violation) => Constraint::Infeasible(*violation),
            Constraint::Undefined => panic!("One or more objectives undefined"),
        })
        .collect();
    let (best, dist, violation) = get_best(&rated);
    (best, if dist == Score::MAX { std::f64::INFINITY } else { decode(dist) }, violation)
}

fn in_region(solution: &[f64], weight: &[f64], other_weights: &Vec<Vec<f64>>) -> bool {
    let own = angle(solution, weight);
    let own = if own.is_nan() { Score::MIN } else { encode(own) };
    let others = other_weights
        .iter()
        .map(|other| {
            let a = angle(solution, other);
            if a.is_nan() {
                Score::MAX
            } else {
                encode(a)
            }
        })
        .collect();
    is_in_region(own, &others)
}

fn angle_dominates(x: &[f64], y: &[f64], weight: &[f64], other_weights: &Vec<Vec<f64>>) -> bool {
    dominates_angle(
        in_region(x, weight, other_weights),
        in_region(y, weight, other_weights),
        encode(angle(x, weight)),
        encode(angle(y, weight)),
    )
}

fn check_get_best() {
    let mut solutions = vec![Solution::new(vec![0]); 4];

    let wv = vec![1.0, 1.0];
    let ref_point = vec![0.0, 0.0];
    let nadir_point = vec![1.0, 1.0];

    // All feasible
    solutions[0].objectives = feasible(&[0.0, 1.0]);
    solutions[1].objectives = feasible(&[0.25, 0.75]);
    solutions[2].objectives = feasible(&[0.5, 0.5]);
    solutions[3].objectives = feasible(&[0.75, 0.25]);

    let (af_id, af_dist, af_cv) = best_for(&solutions, &wv, &ref_point, &nadir_point);

    // Mixed
    solutions[0].objectives = Constraint::Infeasible(3);
    solutions[1].objectives = feasible(&[0.45, 0.55]);
    solutions[2].objectives = Constraint::Infeasible(1);
    solutions[3].objectives = feasible(&[0.75, 0.25]);

    let (m_id, m_dist, m_cv) = best_for(&solutions, &wv, &ref_point, &nadir_point);

    // All infeasible
    solutions[0].objectives = Constraint::Infeasible(3);
    solutions[1].objectives = Constraint::Infeasible(4);
    solutions[2].objectives = Constraint::Infeasible(5);
    solutions[3].objectives = Constraint::Infeasible(4);

    let (if_id, if_dist, if_cv) = best_for(&solutions, &wv, &ref_point, &nadir_point);

    assert_eq!(af_id, 2);
    assert_eq!(af_dist, 0.5);
    assert_eq!(af_cv, 0);

    assert_eq!(m_id, 1);
    assert_eq!(m_dist, 0.55);
    assert_eq!(m_cv, 0);

    assert_eq!(if_id, 0);
    assert_eq!(if_dist, std::f64::INFINITY);
    assert_eq!(if_cv, 3);
}

fn check_in_region() {
    let ref_weight = vec![1.0, 1.0];
    let oth_weights = vec![vec![0.0, 1.0], vec![1.0, 0.0]];

    // Yes
    let a = vec![1.0, 1.0];
    let b = vec![0.5, 0.5];

    // No
    let c = vec![0.0, 1.0];
    let d = vec![0.2, 1.0];
    let e = vec![3.0, 1.0];

    let t_a = in_region(&a, &ref_weight, &oth_weights);
    let t_b = in_region(&b, &ref_weight, &oth_weights);
    let t_c = in_region(&c, &ref_weight, &oth_weights);
    let t_d = in_region(&d, &ref_weight, &oth_weights);
    let t_e = in_region(&e, &ref_weight, &oth_weights);

    assert!(t_a);
    assert!(t_b);
    assert!(!t_c);
    assert!(!t_d);
    assert!(!t_e);
}

fn check_get_ref_point() {
    let mut pop: Vec<Solution<i32>> = (0..5).into_iter().map(|i| Solution::new(vec![i])).collect();

    pop[0].objectives = feasible(&[2.0, 2.0]);
    pop[1].objectives = feasible(&[1.8, 2.2]);
    pop[2].objectives = feasible(&[1.6, 3.1]);
    pop[3].objectives = feasible(&[3.0, 3.0]);
    pop[4].objectives = feasible(&[2.1, 1.9]);

    let (utopia, nadir) = get_ref_points(&pop, 2);
    let utopia: Vec<f64> = utopia.into_iter().map(decode).collect();
    let nadir: Vec<f64> = nadir.into_iter().map(decode).collect();

    assert_eq!(utopia, vec![1.6, 1.9]);
    assert_eq!(nadir, vec![3.0, 3.1]);
}

#[test]
pub fn pplsd_test_get_best() {
    check_get_best();
}

#[test]
pub fn pplsd_test_in_region() {
    check_in_region();
}

#[test]
pub fn pplsd_test_get_ref_point() {
    check_get_ref_point();
}

#[test]
pub fn sppls_test_get_best() {
    check_get_best();
}

#[test]
pub fn sppls_test_in_region() {
    check_in_region();
}

#[test]
pub fn sppls_test_get_ref_point() {
    check_get_ref_point();
}

#[test]
pub fn test_dominates_angle() {
    let ref_weight = vec![1.0, 1.0];
    let oth_weights = vec![vec![0.0, 1.0], vec![1.0, 0.0]];

    // Yes
    let a = vec![1.0, 1.0];
    let b = vec![0.5, 0.5];

    // No
    let c = vec![1.0, 0.0];
    let d = vec![1.0, 0.2];
    let e = vec![1.0, 0.3];

    // Both in range
    let bir_a = angle_dominates(&a, &b, &ref_weight, &oth_weights);
    let bir_b = angle_dominates(&b, &a, &ref_weight, &oth_weights);

    // One in range
    let oir_a = angle_dominates(&a, &c, &ref_weight, &oth_weights);
    let oir_b = angle_dominates(&c, &a, &ref_weight, &oth_weights);

    // Both out of range
    let bor_a = angle_dominates(&d, &e, &ref_weight, &oth_weights);
    let bor_b = angle_dominates(&e, &d, &ref_weight, &oth_weights);

    assert!(!bir_a);
    assert!(!bir_b);

    assert!(oir_a);
    assert!(!oir_b);

    assert!(!bor_a);
    assert!(bor_b);
}

#[test]
fn granularity_of_a_population() {
    // Below the smallest lattice of the table.
    assert_eq!(lattice_granularity(0), 5);
    assert_eq!(lattice_granularity(27), 5);
    // On a lattice.
    assert_eq!(lattice_granularity(28), 6);
    assert_eq!(lattice_granularity(55), 9);
    assert_eq!(lattice_granularity(561), 32);
    // Between two lattices: the nearer, and the larger of two that are as near.
    assert_eq!(lattice_granularity(31), 6);
    assert_eq!(lattice_granularity(32), 7);
    assert_eq!(lattice_granularity(33), 7);
    assert_eq!(lattice_granularity(100), 13);
    assert_eq!(lattice_granularity(577), 32);
}

#[test]
fn lattice_of_a_population_of_55() {
    let h = lattice_granularity(55);
    let points = simplex_lattice(h);

    assert_eq!(points.len(), 55);
    for &(i, j, k) in &points {
        assert_eq!(i + j + k, h);
    }
    for pair in points.windows(2) {
        assert!(pair[0] < pair[1]);
    }
    assert_eq!(points[0], (0, 0, 9));
    assert_eq!(points[9], (0, 9, 0));
    assert_eq!(points[10], (1, 0, 8));
    assert_eq!(points[54], (9, 0, 0));
}

#[test]
fn small_lattices() {
    assert_eq!(simplex_lattice(0), vec![(0, 0, 0)]);
    assert_eq!(simplex_lattice(1), vec![(0, 0, 1), (0, 1, 0), (1, 0, 0)]);
    assert_eq!(simplex_lattice(2), vec![(0, 0, 2), (0, 1, 1), (0, 2, 0), (1, 0, 1), (1, 1, 0), (2, 0, 0)]);
}

#[test]
fn best_of_none_and_of_the_unrated() {
    assert_eq!(get_best(&Vec::new()), (0, Score::MAX, usize::MAX));

    // A feasible member at the greatest distance is never taken, and holds the first place
    // against the infeasible.
    let rated: Vec<Rated> = vec![Constraint::Feasible(Score::MAX), Constraint::Infeasible(2)];
    assert_eq!(get_best(&rated), (0, Score::MAX, usize::MAX));

    // An infeasible first member gives way to a lighter one, and both to a feasible one.
    let rated: Vec<Rated> = vec![Constraint::Infeasible(7), Constraint::Infeasible(2), Constraint::Infeasible(2)];
    assert_eq!(get_best(&rated), (1, Score::MAX, 2));
    let rated: Vec<Rated> =
        vec![Constraint::Infeasible(7), Constraint::Feasible(5), Constraint::Infeasible(1), Constraint::Feasible(5)];
    assert_eq!(get_best(&rated), (1, 5, 0));
}

#[test]
fn reference_points_without_feasible_members() {
    let mut pop: Vec<Solution<i32>> = vec![Solution::new(vec![0]); 2];
    pop[0].objectives = Constraint::Infeasible(1);

    let (lowest, highest) = get_ref_points(&pop, 3);
    assert_eq!(lowest, vec![Score::MAX; 3]);
    assert_eq!(highest, vec![Score::MIN; 3]);

    pop[1].objectives = Constraint::Feasible(vec![4, -2, 0]);
    let (lowest, highest) = get_ref_points(&pop, 2);
    assert_eq!(lowest, vec![4, -2]);
    assert_eq!(highest, vec![4, -2]);
}

#[test]
fn region_by_angles() {
    assert!(is_in_region(3, &vec![3, 4, 5]));
    assert!(is_in_region(3, &Vec::new()));
    assert!(!is_in_region(3, &vec![3, 2, 5]));

    assert!(!dominates_angle(true, true, 1, 2));
    assert!(!dominates_angle(false, true, 1, 2));
    assert!(dominates_angle(true, false, 2, 1));
    assert!(dominates_angle(false, false, 1, 2));
    assert!(!dominates_angle(false, false, 2, 2));
}

fn rated_candidate(objectives: Constraint<Vec<Score>, usize>) -> Solution<i32> {
    let mut solution = Solution::new(vec![0]);
    solution.objectives = objectives;
    solution
}

#[test]
fn the_first_improvement_is_taken() {
    let mut archive = NonDominatedSet::new(false);
    assert!(archive.try_push(rated_candidate(Constraint::Feasible(vec![5, 5]))));
    let mut unexplored = Vec::new();

    let neighbours = vec![
        rated_candidate(Constraint::Infeasible(1)),
        rated_candidate(Constraint::Feasible(vec![6, 6])),
        rated_candidate(Constraint::Feasible(vec![4, 6])),
        rated_candidate(Constraint::Feasible(vec![3, 3])),
    ];
    // The second is dominated, the third is nearer and not dominated: it is taken, and the
    // fourth is not looked at.
    let rated: Vec<Rated> =
        vec![Constraint::Infeasible(1), Constraint::Feasible(2), Constraint::Feasible(3), Constraint::Feasible(1)];
    let in_region = vec![false, true, true, true];

    let success = accept_neighbours(&mut archive, &mut unexplored, &neighbours, &rated, &in_region, true, 10, 0);

    assert!(success);
    assert_eq!(archive.get_raw().len(), 2);
    assert_eq!(archive.get_raw()[1].objectives, Constraint::Feasible(vec![4, 6]));
    assert_eq!(unexplored.len(), 1);
    assert_eq!(unexplored[0].objectives, Constraint::Feasible(vec![4, 6]));
}

#[test]
fn without_an_improvement_all_are_looked_over() {
    let mut archive = NonDominatedSet::new(false);
    assert!(archive.try_push(rated_candidate(Constraint::Feasible(vec![5, 5]))));
    let mut unexplored = Vec::new();

    let neighbours = vec![
        rated_candidate(Constraint::Feasible(vec![4, 6])),
        rated_candidate(Constraint::Feasible(vec![6, 4])),
        rated_candidate(Constraint::Infeasible(1)),
        rated_candidate(Constraint::Feasible(vec![7, 3])),
    ];
    // None is nearer than the best distance of 1. No member lies in the region, so the first
    // is offered and taken though it lies outside; the second lies in the region and is
    // taken; from then on a member lies there, and the last, outside, is not offered. The
    // infeasible one is offered but dominated by the feasible members.
    let rated: Vec<Rated> =
        vec![Constraint::Feasible(5), Constraint::Feasible(6), Constraint::Infeasible(1), Constraint::Feasible(7)];
    let in_region = vec![false, true, false, false];

    let success = accept_neighbours(&mut archive, &mut unexplored, &neighbours, &rated, &in_region, false, 1, 3);

    assert!(!success);
    assert_eq!(archive.get_raw().len(), 3);
    assert_eq!(unexplored.len(), 2);
    assert_eq!(unexplored[0].objectives, Constraint::Feasible(vec![4, 6]));
    assert_eq!(unexplored[1].objectives, Constraint::Feasible(vec![6, 4]));
}

#[test]
fn dominance_for_a_weight_vector() {
    let a = rated_candidate(Constraint::Feasible(vec![1, 2]));
    let b = rated_candidate(Constraint::Feasible(vec![2, 3]));
    let light = rated_candidate(Constraint::Infeasible(1));
    let heavy = rated_candidate(Constraint::Infeasible(2));

    // By the constraints alone.
    assert!(dominates_for_weight(&a, &heavy, false, false, 0, 0));
    assert!(dominates_for_weight(&light, &heavy, false, false, 0, 0));
    // By the region, and by the angle outside it.
    assert!(dominates_for_weight(&b, &a, true, false, 5, 1));
    assert!(dominates_for_weight(&b, &a, false, false, 1, 5));
    // By the objectives.
    assert!(dominates_for_weight(&a, &b, true, true, 5, 1));
    assert!(!dominates_for_weight(&b, &a, true, true, 1, 5));
}
