use vnf_placement::nds::NonDominatedSet;
use vnf_placement::solution::{dominates_cnstr, Constraint, Score, Solution};

// An order-preserving encoding of the reals used in these tests.
fn score(x: f64) -> Score {
    (x * 1000.0).round() as Score
}

fn feasible(a: f64, b: f64) -> Constraint<Vec<Score>, usize> {
    Constraint::Feasible(vec![score(a), score(b)])
}

fn candidate(objectives: Constraint<Vec<Score>, usize>) -> Solution<Score> {
    let mut solution = Solution::new(vec![0]);
    solution.objectives = objectives;
    solution
}

#[test]
pub fn test_try_push() {
    // All feasible, accept duplicates
    let mut f_set = NonDominatedSet::new(true);

    let f_a = f_set.try_push(candidate(feasible(5.0, 5.0)));
    let f_b = f_set.try_push(candidate(feasible(3.0, 4.0)));
    let f_c = f_set.try_push(candidate(feasible(4.0, 6.0)));
    let f_d = f_set.try_push(candidate(feasible(3.0, 4.0)));
    let f_e = f_set.try_push(candidate(feasible(4.0, 2.0)));

    // All infeasible
    let mut i_set = NonDominatedSet::new(true);

    let i_a = i_set.try_push(candidate(Constraint::Infeasible(3)));
    let i_b = i_set.try_push(candidate(Constraint::Infeasible(4)));
    let i_c = i_set.try_push(candidate(Constraint::Infeasible(2)));
    let i_d = i_set.try_push(candidate(Constraint::Infeasible(1)));
    let i_e = i_set.try_push(candidate(Constraint::Infeasible(5)));

    // Mixed
    let mut m_set = NonDominatedSet::new(true);

    let m_a = m_set.try_push(candidate(Constraint::Infeasible(3)));
    let m_b = m_set.try_push(candidate(Constraint::Infeasible(2)));
    let m_c = m_set.try_push(candidate(feasible(3.0, 4.0)));
    let m_d = m_set.try_push(candidate(Constraint::Infeasible(1)));
    let m_e = m_set.try_push(candidate(feasible(4.0, 3.0)));

    // Refuse duplicates
    let mut d_set = NonDominatedSet::new(false);

    let d_a = d_set.try_push(candidate(feasible(3.0, 4.0)));
    let d_b = d_set.try_push(candidate(feasible(4.0, 5.0)));
    let d_c = d_set.try_push(candidate(feasible(3.0, 4.0)));
    let d_d = d_set.try_push(candidate(feasible(3.1, 3.9)));
    let d_e = d_set.try_push(candidate(feasible(4.0, 3.0)));

    assert!(f_a);
    assert!(f_b);
    assert!(!f_c);
    assert!(f_d);
    assert!(f_e);

    assert_eq!(f_set.get_raw().len(), 3);

    assert!(i_a);
    assert!(!i_b);
    assert!(i_c);
    assert!(i_d);
    assert!(!i_e);

    assert_eq!(i_set.get_raw().len(), 1);

    assert!(m_a);
    assert!(m_b);
    assert!(m_c);
    assert!(!m_d);
    assert!(m_e);

    assert_eq!(m_set.get_raw().len(), 2);

    assert!(d_a);
    assert!(!d_b);
    assert!(!d_c);
    assert!(d_d);
    assert!(d_e);

    assert_eq!(d_set.get_raw().len(), 3);
}

// The archive of (5,5), (3,4), (4,6), (3,4), (4,2): with duplicates it keeps both (3,4) and
// (4,2); without, it takes three of the five, and is left with one (3,4) and (4,2).
#[test]
fn archive_of_five_candidates() {
    let inputs = [(5.0, 5.0), (3.0, 4.0), (4.0, 6.0), (3.0, 4.0), (4.0, 2.0)];

    let mut keep = NonDominatedSet::new(true);
    let kept: Vec<bool> = inputs.iter().map(|&(a, b)| keep.try_push(candidate(feasible(a, b)))).collect();
    assert_eq!(kept, vec![true, true, false, true, true]);
    let members: Vec<_> = keep.get_raw().iter().map(|m| m.objectives.unwrap()).collect();
    assert_eq!(members, vec![vec![3000, 4000], vec![3000, 4000], vec![4000, 2000]]);

    let mut refuse = NonDominatedSet::new(false);
    let kept: Vec<bool> = inputs.iter().map(|&(a, b)| refuse.try_push(candidate(feasible(a, b)))).collect();
    assert_eq!(kept, vec![true, true, false, false, true]);
    let members: Vec<_> = refuse.get_raw().iter().map(|m| m.objectives.unwrap()).collect();
    assert_eq!(members, vec![vec![3000, 4000], vec![4000, 2000]]);
}

// After every push no member of the archive dominates another.
#[test]
fn archive_stays_non_dominated() {
    let mut archive = NonDominatedSet::new(true);
    let mut x: i64 = 7;
    for _ in 0..200 {
        x = (x * 1103515245 + 12345) % 2147483648;
        let a = (x / 65536) % 50;
        x = (x * 1103515245 + 12345) % 2147483648;
        let b = (x / 65536) % 50;
        let mut solution = Solution::new(vec![0u8]);
        solution.objectives = if a % 7 == 0 {
            Constraint::Infeasible((b % 5) as usize)
        } else {
            Constraint::Feasible(vec![a, b])
        };
        archive.try_push(solution);
        let members = archive.get_raw();
        for p in members {
            for q in members {
                assert!(!p.dominates(q));
            }
        }
    }
}

// The archive under a relation of the caller's own.
#[test]
fn archive_with_custom_relation() {
    let by_first = |a: &Solution<Score>, b: &Solution<Score>| a.objectives.unwrap()[0] < b.objectives.unwrap()[0];
    let mut archive = NonDominatedSet::new(false);
    assert!(archive.try_push_with(candidate(feasible(5.0, 1.0)), by_first));
    assert!(!archive.try_push_with(candidate(feasible(6.0, 0.0)), by_first));
    assert!(archive.try_push_with(candidate(feasible(4.0, 9.0)), by_first));
    assert_eq!(archive.get_raw().len(), 1);
    assert_eq!(archive.get_raw()[0].objectives.unwrap(), vec![4000, 9000]);
}

// Dominance: asymmetric; infeasible never dominates feasible; equal violations do not
// dominate each other.
#[test]
fn dominance_laws_on_examples() {
    let a = candidate(feasible(1.0, 2.0));
    let b = candidate(feasible(2.0, 2.0));
    let c = candidate(feasible(2.0, 1.0));
    let i = candidate(Constraint::Infeasible(2));
    let j = candidate(Constraint::Infeasible(2));
    let k = candidate(Constraint::Infeasible(1));

    assert!(a.dominates(&b) && !b.dominates(&a));
    assert!(!a.dominates(&c) && !c.dominates(&a));
    assert!(!a.dominates(&a));
    assert!(a.dominates(&i) && !i.dominates(&a));
    assert!(!i.dominates(&j) && !j.dominates(&i));
    assert!(k.dominates(&i) && !i.dominates(&k));
    assert!(a.same_objectives(&candidate(feasible(1.0, 2.0))));
    assert!(!a.same_objectives(&b));
    assert!(!a.same_objectives(&i));
}

#[test]
fn constraint_accessors() {
    let f: Constraint<Vec<Score>, usize> = Constraint::Feasible(vec![1, 2]);
    let i: Constraint<Vec<Score>, usize> = Constraint::Infeasible(4);
    let u: Constraint<Vec<Score>, usize> = Constraint::Undefined;
    assert!(f.is_feasible() && !f.is_infeasible() && !f.is_undefined());
    assert!(!i.is_feasible() && i.is_infeasible() && !i.is_undefined());
    assert!(!u.is_feasible() && !u.is_infeasible() && u.is_undefined());
    assert_eq!(f.unwrap(), vec![1, 2]);
    assert_eq!(i.unwrap_infeasible(), 4);
    assert_eq!(f.clone(), f);
    let s = Solution::new(vec![1u8, 2, 3]);
    assert_eq!(s.len(), 3);
    assert!(s.objectives.is_undefined());
}

#[test]
fn dominance_by_constraints_alone() {
    let a = candidate(feasible(1.0, 2.0));
    let b = candidate(feasible(2.0, 3.0));
    let light = candidate(Constraint::Infeasible(1));
    let heavy = candidate(Constraint::Infeasible(3));

    // Objectives play no part.
    assert!(!dominates_cnstr(&a, &b));
    assert!(!dominates_cnstr(&b, &a));

    assert!(dominates_cnstr(&a, &heavy));
    assert!(!dominates_cnstr(&heavy, &a));

    assert!(dominates_cnstr(&light, &heavy));
    assert!(!dominates_cnstr(&heavy, &light));
    assert!(!dominates_cnstr(&light, &light));
}
