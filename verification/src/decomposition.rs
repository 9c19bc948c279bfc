use crate::nds::{lemma_pushed_from, pareto, pushed, NonDominatedSet};
use crate::solution::{cnstr_dominates, comparable, dominates_cnstr, Constraint, Score, Solution};
use vstd::prelude::*;

verus! {

/// The number of points of the lattice of granularity `h` on the simplex of three
/// objectives.
pub open spec fn lattice_points(h: int) -> int {
    (h + 1) * (h + 2) / 2
}

/// How far the lattice of granularity `h` is from having `pop` points.
pub open spec fn gap(pop: int, h: int) -> int {
    if pop >= lattice_points(h) {
        pop - lattice_points(h)
    } else {
        lattice_points(h) - pop
    }
}

/// `h` is the granularity for a population of `pop`: of the lattices of 28 to 595 points
/// the one whose size is nearest to `pop`, the larger of two that are equally near; and 5
/// for a population of less than 28.
pub open spec fn nearest_granularity(pop: int, h: int) -> bool {
    if pop < 28 {
        h == 5
    } else {
        &&& 6 <= h <= 32
        &&& forall|g: int| 6 <= g <= 33 ==> #[trigger] gap(pop, g) >= gap(pop, h)
        &&& forall|g: int| h < g <= 33 ==> #[trigger] gap(pop, g) > gap(pop, h)
    }
}

proof fn lemma_points_step(h: int)
    requires
        0 <= h,
    ensures
        lattice_points(h + 1) == lattice_points(h) + h + 2,
        lattice_points(h) >= h + 1,
{
    let a = (h + 1) * (h + 2);
    assert((h + 2) * (h + 3) == a + 2 * (h + 2) && a >= 2 * (h + 1)) by (nonlinear_arith)
        requires
            a == (h + 1) * (h + 2),
            0 <= h,
    ;
}

proof fn lemma_points_grow(low: int, high: int)
    requires
        0 <= low <= high,
    ensures
        lattice_points(low) <= lattice_points(high),
        low < high ==> lattice_points(low) < lattice_points(high),
    decreases high - low,
{
    if low < high {
        lemma_points_grow(low, high - 1);
        lemma_points_step(high - 1);
    }
}

fn points(h: usize) -> (r: usize)
    requires
        h <= 40,
    ensures
        r == lattice_points(h as int),
{
    proof {
        assert((h + 1) * (h + 2) <= 41 * 42) by (nonlinear_arith)
            requires
                h <= 40,
        ;
    }
    (h + 1) * (h + 2) / 2
}

fn gap_to(pop_size: usize, h: usize) -> (r: usize)
    requires
        h <= 40,
    ensures
        r == gap(pop_size as int, h as int),
{
    let size = points(h);
    if pop_size >= size {
        pop_size - size
    } else {
        size - pop_size
    }
}

/// The granularity of the lattice of weight vectors for a population of `pop_size`.
pub fn lattice_granularity(pop_size: usize) -> (h: usize)
    requires
        pop_size < 578,
    ensures
        nearest_granularity(pop_size as int, h as int),
{
    if pop_size < 28 {
        return 5;
    }
    let mut h: usize = 6;
    let mut dist = gap_to(pop_size, 6);
    proof {
        assert(lattice_points(32) == 561 && lattice_points(33) == 595);
    }
    while gap_to(pop_size, h + 1) <= dist
        invariant
            28 <= pop_size < 578,
            6 <= h <= 32,
            dist == gap(pop_size as int, h as int),
            forall|g: int| 6 <= g <= h ==> #[trigger] gap(pop_size as int, g) >= dist,
            lattice_points(32) == 561 && lattice_points(33) == 595,
        decreases 33 - h,
    {
        dist = gap_to(pop_size, h + 1);
        h = h + 1;
    }
    proof {
        let pop = pop_size as int;
        lemma_points_grow(h as int, h + 1);
        assert forall|g: int| h < g <= 33 implies #[trigger] gap(pop, g) > gap(pop, h as int) by {
            lemma_points_grow(h + 1, g);
        }
    }
    h
}

/// The lattice points whose first coordinate is `i`, by their second coordinate.
pub open spec fn lattice_row(h: int, i: int) -> Seq<(usize, usize, usize)> {
    Seq::new((h + 1 - i) as nat, |j: int| (i as usize, j as usize, (h - i - j) as usize))
}

/// The lattice points whose first coordinate is less than `rows`, row by row.
pub open spec fn lattice_upto(h: int, rows: int) -> Seq<(usize, usize, usize)>
    decreases rows,
{
    if rows <= 0 {
        Seq::empty()
    } else {
        lattice_upto(h, rows - 1) + lattice_row(h, rows - 1)
    }
}

/// The lattice of granularity `h`: the triples of numbers that add up to `h`, in
/// lexicographic order.
pub open spec fn lattice(h: int) -> Seq<(usize, usize, usize)> {
    lattice_upto(h, h + 1)
}

/// The first `rows` rows of the lattice hold all but the points of the last `h + 1 - rows`
/// rows.
pub proof fn lemma_lattice_rows(h: int, rows: int)
    requires
        0 <= rows <= h + 1,
    ensures
        lattice_upto(h, rows).len() + lattice_points(h - rows) == lattice_points(h),
    decreases rows,
{
    if rows > 0 {
        lemma_lattice_rows(h, rows - 1);
        if rows <= h {
            lemma_points_step(h - rows);
        } else {
            assert(lattice_points(0) == 1 && lattice_points(-1) == 0);
        }
    } else {
        assert(lattice_upto(h, 0).len() == 0);
    }
}

/// The lattice of granularity `h` has `lattice_points(h)` points.
pub proof fn lemma_lattice_size(h: int)
    requires
        0 <= h,
    ensures
        lattice(h).len() == lattice_points(h),
{
    lemma_lattice_rows(h, h + 1);
}

/// The points of the lattice of granularity `h`.
pub fn simplex_lattice(h: usize) -> (points: Vec<(usize, usize, usize)>)
    requires
        lattice_points(h as int) <= usize::MAX,
    ensures
        points@ == lattice(h as int),
{
    let mut weights: Vec<(usize, usize, usize)> = Vec::new();
    let mut i: usize = 0;
    proof {
        lemma_points_step(h as int);
    }
    while i <= h
        invariant
            i <= h + 1,
            h < usize::MAX,
            weights@ == lattice_upto(h as int, i as int),
        decreases h + 1 - i,
    {
        let ghost before = weights@;
        let mut j: usize = 0;
        while j <= h - i
            invariant
                i <= h,
                j <= h - i + 1,
                h < usize::MAX,
                weights@ == before + lattice_row(h as int, i as int).take(j as int),
            decreases h - i + 1 - j,
        {
            let k = h - i - j;
            weights.push((i, j, k));
            proof {
                let row = lattice_row(h as int, i as int);
                assert(row.take(j + 1) =~= row.take(j as int).push(row[j as int]));
                assert(weights@ =~= before + row.take(j + 1));
            }
            j = j + 1;
        }
        proof {
            let row = lattice_row(h as int, i as int);
            assert(row.take(row.len() as int) =~= row);
        }
        i = i + 1;
    }
    weights
}

/// Objective `m` of member `j`, which is feasible.
pub open spec fn value_at<X>(pop: Seq<Solution<X>>, j: int, m: int) -> Score {
    pop[j].objectives->Feasible_0@[m]
}

/// `v` is the least value of objective `m` among the feasible ones of the first `upto`
/// members, or the greatest score where none of them is feasible.
pub open spec fn lowest<X>(pop: Seq<Solution<X>>, m: int, v: Score, upto: int) -> bool {
    &&& forall|j: int| 0 <= j < upto && pop[j].objectives is Feasible ==> v <= #[trigger] value_at(pop, j, m)
    &&& v == Score::MAX || exists|j: int|
        0 <= j < upto && pop[j].objectives is Feasible && #[trigger] value_at(pop, j, m) == v
}

/// `v` is the greatest value of objective `m` among the feasible ones of the first `upto`
/// members, or the least score where none of them is feasible.
pub open spec fn highest<X>(pop: Seq<Solution<X>>, m: int, v: Score, upto: int) -> bool {
    &&& forall|j: int| 0 <= j < upto && pop[j].objectives is Feasible ==> v >= #[trigger] value_at(pop, j, m)
    &&& v == Score::MIN || exists|j: int|
        0 <= j < upto && pop[j].objectives is Feasible && #[trigger] value_at(pop, j, m) == v
}

proof fn lemma_bounds_step<X>(pop: Seq<Solution<X>>, m: int, low: Score, high: Score, p: int)
    requires
        0 <= p < pop.len(),
        lowest(pop, m, low, p),
        highest(pop, m, high, p),
    ensures
        !(pop[p].objectives is Feasible) ==> lowest(pop, m, low, p + 1) && highest(pop, m, high, p + 1),
        pop[p].objectives is Feasible ==> lowest(
            pop,
            m,
            if value_at(pop, p, m) < low {
                value_at(pop, p, m)
            } else {
                low
            },
            p + 1,
        ) && highest(
            pop,
            m,
            if value_at(pop, p, m) > high {
                value_at(pop, p, m)
            } else {
                high
            },
            p + 1,
        ),
{
    if pop[p].objectives is Feasible {
        let v = value_at(pop, p, m);
        if low != Score::MAX {
            let j = choose|j: int| 0 <= j < p && pop[j].objectives is Feasible && #[trigger] value_at(pop, j, m) == low;
            assert(value_at(pop, j, m) == low);
        }
        if high != Score::MIN {
            let j = choose|j: int| 0 <= j < p && pop[j].objectives is Feasible && #[trigger] value_at(pop, j, m) == high;
            assert(value_at(pop, j, m) == high);
        }
        assert(value_at(pop, p, m) == v);
    } else {
        if low != Score::MAX {
            let j = choose|j: int| 0 <= j < p && pop[j].objectives is Feasible && #[trigger] value_at(pop, j, m) == low;
            assert(value_at(pop, j, m) == low);
        }
        if high != Score::MIN {
            let j = choose|j: int| 0 <= j < p && pop[j].objectives is Feasible && #[trigger] value_at(pop, j, m) == high;
            assert(value_at(pop, j, m) == high);
        }
    }
}

fn filled(value: Score, n: usize) -> (v: Vec<Score>)
    ensures
        v.len() == n,
        forall|m: int| 0 <= m < n ==> v[m] == value,
{
    let mut v: Vec<Score> = Vec::new();
    let mut i: usize = 0;
    while i < n
        invariant
            i <= n,
            v.len() == i,
            forall|m: int| 0 <= m < i ==> v[m] == value,
        decreases n - i,
    {
        v.push(value);
        i = i + 1;
    }
    v
}

/// The reference point and the nadir point of a population: for each of the first `num_obj`
/// objectives the least and the greatest value among the feasible members.
pub fn get_ref_points<X>(population: &Vec<Solution<X>>, num_obj: usize) -> (points: (Vec<Score>, Vec<Score>))
    requires
        forall|j: int|
            0 <= j < population.len() && (#[trigger] population[j]).objectives is Feasible
                ==> population[j].objectives->Feasible_0.len() >= num_obj,
    ensures
        points.0.len() == num_obj,
        points.1.len() == num_obj,
        forall|m: int|
            0 <= m < num_obj ==> lowest(population@, m, #[trigger] points.0[m], population.len() as int),
        forall|m: int|
            0 <= m < num_obj ==> highest(population@, m, #[trigger] points.1[m], population.len() as int),
{
    let mut ref_point = filled(Score::MAX, num_obj);
    let mut nadir_point = filled(Score::MIN, num_obj);

    let mut p: usize = 0;
    while p < population.len()
        invariant
            p <= population.len(),
            ref_point.len() == num_obj,
            nadir_point.len() == num_obj,
            forall|j: int|
                0 <= j < population.len() && (#[trigger] population[j]).objectives is Feasible
                    ==> population[j].objectives->Feasible_0.len() >= num_obj,
            forall|m: int| 0 <= m < num_obj ==> lowest(population@, m, #[trigger] ref_point[m], p as int),
            forall|m: int| 0 <= m < num_obj ==> highest(population@, m, #[trigger] nadir_point[m], p as int),
        decreases population.len() - p,
    {
        match &population[p].objectives {
            Constraint::Feasible(obj) => {
                let mut i: usize = 0;
                while i < num_obj
                    invariant
                        i <= num_obj,
                        p < population.len(),
                        population[p as int].objectives == Constraint::<Vec<Score>, usize>::Feasible(*obj),
                        obj.len() >= num_obj,
                        ref_point.len() == num_obj,
                        nadir_point.len() == num_obj,
                        forall|m: int| 0 <= m < i ==> lowest(population@, m, #[trigger] ref_point[m], p + 1),
                        forall|m: int| 0 <= m < i ==> highest(population@, m, #[trigger] nadir_point[m], p + 1),
                        forall|m: int|
                            i <= m < num_obj ==> lowest(population@, m, #[trigger] ref_point[m], p as int),
                        forall|m: int|
                            i <= m < num_obj ==> highest(population@, m, #[trigger] nadir_point[m], p as int),
                    decreases num_obj - i,
                {
                    proof {
                        lemma_bounds_step(population@, i as int, ref_point[i as int], nadir_point[i as int], p as int);
                        assert(value_at(population@, p as int, i as int) == obj[i as int]);
                    }
                    if obj[i] < ref_point[i] {
                        ref_point.set(i, obj[i]);
                    }
                    if obj[i] > nadir_point[i] {
                        nadir_point.set(i, obj[i]);
                    }
                    i = i + 1;
                }
            },
            _ => {
                proof {
                    assert forall|m: int| 0 <= m < num_obj implies lowest(population@, m, #[trigger] ref_point[m], p + 1) by {
                        lemma_bounds_step(population@, m, ref_point[m], nadir_point[m], p as int);
                    }
                    assert forall|m: int| 0 <= m < num_obj implies highest(
                        population@,
                        m,
                        #[trigger] nadir_point[m],
                        p + 1,
                    ) by {
                        lemma_bounds_step(population@, m, ref_point[m], nadir_point[m], p as int);
                    }
                }
            },
        }
        p = p + 1;
    }

    (ref_point, nadir_point)
}

/// How a member is rated for a weight vector: a feasible one by its distance, any other by
/// how far it violates the constraints.
pub type Rated = Constraint<Score, usize>;

/// Member `j` is feasible, at a distance below the greatest score.
pub open spec fn near(rated: Seq<Rated>, j: int) -> bool {
    rated[j] is Feasible && rated[j]->Feasible_0 < Score::MAX
}

/// Member `j` is infeasible, with a violation below the greatest.
pub open spec fn light(rated: Seq<Rated>, j: int) -> bool {
    rated[j] is Infeasible && rated[j]->Infeasible_0 < usize::MAX
}

/// Of the first `upto` members, `b` is the first of the nearest.
pub open spec fn nearest(rated: Seq<Rated>, b: int, upto: int) -> bool {
    &&& 0 <= b < upto
    &&& near(rated, b)
    &&& forall|j: int| 0 <= j < upto && #[trigger] near(rated, j) ==> rated[b]->Feasible_0 <= rated[j]->Feasible_0
    &&& forall|j: int| 0 <= j < b && #[trigger] near(rated, j) ==> rated[b]->Feasible_0 < rated[j]->Feasible_0
}

/// Of the first `upto` members, `b` is the first of those that violate the constraints
/// least.
pub open spec fn lightest(rated: Seq<Rated>, b: int, upto: int) -> bool {
    &&& 0 <= b < upto
    &&& light(rated, b)
    &&& forall|j: int|
        0 <= j < upto && #[trigger] light(rated, j) ==> rated[b]->Infeasible_0 <= rated[j]->Infeasible_0
    &&& forall|j: int| 0 <= j < b && #[trigger] light(rated, j) ==> rated[b]->Infeasible_0 < rated[j]->Infeasible_0
}

/// None of the first `upto` members is `near`.
pub open spec fn none_near(rated: Seq<Rated>, upto: int) -> bool {
    forall|j: int| 0 <= j < upto ==> !#[trigger] near(rated, j)
}

/// None of the first `upto` members is `light`.
pub open spec fn none_light(rated: Seq<Rated>, upto: int) -> bool {
    forall|j: int| 0 <= j < upto ==> !#[trigger] light(rated, j)
}

/// `best` names the best of the first `upto` members, with its distance and its violation.
/// Where a member is near, it is the first of the nearest. Where none is and the first
/// member is infeasible, it is the first of the lightest, if there is one. Else it is the
/// first member, at the greatest distance and violation.
pub open spec fn best_of(rated: Seq<Rated>, best: (usize, Score, usize), upto: int) -> bool {
    if !none_near(rated, upto) {
        &&& nearest(rated, best.0 as int, upto)
        &&& best.1 == rated[best.0 as int]->Feasible_0
        &&& best.2 == 0
    } else if upto > 0 && rated[0] is Infeasible && !none_light(rated, upto) {
        &&& lightest(rated, best.0 as int, upto)
        &&& best.1 == Score::MAX
        &&& best.2 == rated[best.0 as int]->Infeasible_0
    } else {
        best == (0usize, Score::MAX, usize::MAX)
    }
}

/// The best member for a weight vector, with its distance and its violation: the feasible
/// member at the least distance, or else the member that violates the constraints least.
pub fn get_best(rated: &Vec<Rated>) -> (best: (usize, Score, usize))
    requires
        forall|j: int| 0 <= j < rated.len() ==> !(#[trigger] rated[j] is Undefined),
    ensures
        best_of(rated@, best, rated.len() as int),
        rated.len() > 0 ==> best.0 < rated.len(),
{
    let mut best_ind: usize = 0;
    let mut min_dist: Score = Score::MAX;
    let mut min_infeasible: usize = usize::MAX;

    let mut i: usize = 0;
    while i < rated.len()
        invariant
            i <= rated.len(),
            forall|j: int| 0 <= j < rated.len() ==> !(#[trigger] rated[j] is Undefined),
            best_of(rated@, (best_ind, min_dist, min_infeasible), i as int),
            i > 0 ==> best_ind < i,
            i == 0 ==> best_ind == 0,
            min_dist < Score::MAX <==> !none_near(rated@, i as int),
            min_dist == Score::MAX && i > 0 ==> (rated[best_ind as int] is Infeasible <==> rated[0] is Infeasible),
            min_dist == Score::MAX && i > 0 && rated[0] is Infeasible ==> (min_infeasible < usize::MAX
                <==> !none_light(rated@, i as int)),
        decreases rated.len() - i,
    {
        let ghost before = (best_ind, min_dist, min_infeasible);
        proof {
            assert(!(rated[i as int] is Undefined));
            assert(i > 0 ==> !(rated[best_ind as int] is Undefined));
        }
        let best_is_feasible = rated[best_ind].is_feasible();
        match rated[i] {
            Constraint::Feasible(dist) => {
                if dist < min_dist {
                    min_dist = dist;
                    best_ind = i;
                    min_infeasible = 0;
                }
            },
            Constraint::Infeasible(violation) => {
                if !best_is_feasible {
                    if violation < min_infeasible {
                        min_infeasible = violation;
                        best_ind = i;
                    }
                }
            },
            Constraint::Undefined => {},
        }
        proof {
            lemma_best_step(rated@, before, (best_ind, min_dist, min_infeasible), i as int);
        }
        i = i + 1;
    }

    (best_ind, min_dist, min_infeasible)
}

/// One more member, looked at as `get_best` does, keeps the best the best.
proof fn lemma_best_step(rated: Seq<Rated>, before: (usize, Score, usize), after: (usize, Score, usize), i: int)
    requires
        0 <= i < rated.len(),
        i < usize::MAX,
        forall|j: int| 0 <= j < rated.len() ==> !(#[trigger] rated[j] is Undefined),
        best_of(rated, before, i),
        i > 0 ==> before.0 < i,
        i == 0 ==> before.0 == 0,
        before.1 < Score::MAX <==> !none_near(rated, i),
        before.1 == Score::MAX && i > 0 ==> (rated[before.0 as int] is Infeasible <==> rated[0] is Infeasible),
        before.1 == Score::MAX && i > 0 && rated[0] is Infeasible ==> (before.2 < usize::MAX <==> !none_light(rated, i)),
        after == match rated[i] {
            Constraint::Feasible(dist) => if dist < before.1 {
                (i as usize, dist, 0usize)
            } else {
                before
            },
            Constraint::Infeasible(violation) => if !(rated[before.0 as int] is Feasible) && violation < before.2 {
                (i as usize, before.1, violation)
            } else {
                before
            },
            Constraint::Undefined => before,
        },
    ensures
        best_of(rated, after, i + 1),
        after.0 < i + 1,
        after.1 < Score::MAX <==> !none_near(rated, i + 1),
        after.1 == Score::MAX ==> (rated[after.0 as int] is Infeasible <==> rated[0] is Infeasible),
        after.1 == Score::MAX && rated[0] is Infeasible ==> (after.2 < usize::MAX <==> !none_light(rated, i + 1)),
{
    assert(!(rated[i] is Undefined));
    assert(!(rated[0] is Undefined));
    assert(!(rated[before.0 as int] is Undefined));
    if !none_near(rated, i) {
        let w = choose|j: int| 0 <= j < i && near(rated, j);
        assert(near(rated, w));
        assert(!none_near(rated, i + 1));
        assert(nearest(rated, before.0 as int, i));
    } else if near(rated, i) {
        assert(!none_near(rated, i + 1));
    } else {
        assert(none_near(rated, i + 1));
        if i > 0 && rated[0] is Infeasible {
            if !none_light(rated, i) {
                let w = choose|j: int| 0 <= j < i && light(rated, j);
                assert(light(rated, w));
                assert(!none_light(rated, i + 1));
                assert(lightest(rated, before.0 as int, i));
            } else if light(rated, i) {
                assert(!none_light(rated, i + 1));
            } else {
                assert(none_light(rated, i + 1));
            }
        } else if i == 0 {
            if light(rated, 0) {
                assert(!none_light(rated, 1));
            } else {
                assert(none_light(rated, 1));
            }
        } else {
            assert(rated[before.0 as int] is Feasible);
        }
    }
}

/// A solution lies in the region of a weight vector when no other weight vector is at a
/// smaller angle to it: `own` is its angle to the weight vector, `others` its angles to
/// all of them.
pub fn is_in_region(own: Score, others: &Vec<Score>) -> (r: bool)
    ensures
        r == forall|j: int| 0 <= j < others.len() ==> #[trigger] others[j] >= own,
{
    let mut i: usize = 0;
    while i < others.len()
        invariant
            i <= others.len(),
            forall|j: int| 0 <= j < i ==> #[trigger] others[j] >= own,
        decreases others.len() - i,
    {
        if others[i] < own {
            return false;
        }
        i = i + 1;
    }
    true
}

/// Whether one solution is to be kept before another for a weight vector: it lies in the
/// region of the weight vector and the other does not, or neither does and it is at the
/// smaller angle.
pub fn dominates_angle(in_region_x: bool, in_region_y: bool, angle_x: Score, angle_y: Score) -> (r: bool)
    ensures
        r == if in_region_y {
            false
        } else if in_region_x {
            true
        } else {
            angle_x < angle_y
        },
{
    match (in_region_x, in_region_y) {
        (true, true) => false,
        (false, true) => false,
        (true, false) => true,
        (false, false) => angle_x < angle_y,
    }
}

/// An archive that refuses duplicates takes `s`: no member dominates it or has its
/// objectives.
pub open spec fn welcome<X>(members: Seq<Solution<X>>, s: Solution<X>) -> bool {
    &&& !exists|j: int| 0 <= j < members.len() && (#[trigger] members[j]).dominates_spec(&s)
    &&& !exists|j: int| 0 <= j < members.len() && (#[trigger] members[j]).fitness() == s.fitness()
}

/// The ratings are those of the neighbours: a feasible neighbour is rated feasible, and any
/// other by its violation.
pub open spec fn rates<X>(neighbours: Seq<Solution<X>>, rated: Seq<Rated>) -> bool {
    &&& rated.len() == neighbours.len()
    &&& forall|i: int|
        0 <= i < neighbours.len() ==> match #[trigger] rated[i] {
            Constraint::Feasible(_) => neighbours[i].objectives is Feasible,
            Constraint::Infeasible(v) => neighbours[i].fitness() == Constraint::<Seq<Score>, usize>::Infeasible(v),
            Constraint::Undefined => false,
        }
}

/// The neighbours can be compared with each other and with the members.
pub open spec fn kin<X>(members: Seq<Solution<X>>, neighbours: Seq<Solution<X>>) -> bool {
    &&& forall|i: int, j: int|
        0 <= i < neighbours.len() && 0 <= j < neighbours.len() ==> comparable(
            (#[trigger] neighbours[i]).fitness(),
            (#[trigger] neighbours[j]).fitness(),
        )
    &&& forall|m: int, i: int|
        0 <= m < members.len() && 0 <= i < neighbours.len() ==> comparable(
            (#[trigger] members[m]).fitness(),
            (#[trigger] neighbours[i]).fitness(),
        )
}

/// Neighbour `i` is an improvement that the archive takes: it is feasible and nearer than
/// `best_dist`, it lies in the region or no member does, and the archive takes it.
pub open spec fn improves<X>(
    members: Seq<Solution<X>>,
    neighbours: Seq<Solution<X>>,
    rated: Seq<Rated>,
    in_region: Seq<bool>,
    any_in_region: bool,
    best_dist: Score,
    i: int,
) -> bool {
    &&& rated[i] is Feasible
    &&& rated[i]->Feasible_0 < best_dist
    &&& in_region[i] || !any_in_region
    &&& welcome(members, neighbours[i])
}

/// The first improvement is neighbour `i`; a copy of it was pushed into the archive, and a
/// copy of it was added to the unexplored.
pub open spec fn improved_by<X: Clone>(
    members: Seq<Solution<X>>,
    unexplored: Seq<Solution<X>>,
    neighbours: Seq<Solution<X>>,
    rated: Seq<Rated>,
    in_region: Seq<bool>,
    any_in_region: bool,
    best_dist: Score,
    after: Seq<Solution<X>>,
    left: Seq<Solution<X>>,
    i: int,
) -> bool {
    &&& 0 <= i < neighbours.len()
    &&& improves(members, neighbours, rated, in_region, any_in_region, best_dist, i)
    &&& forall|j: int| 0 <= j < i ==> !#[trigger] improves(members, neighbours, rated, in_region, any_in_region, best_dist, j)
    &&& after.len() > 0 && after.last().is_copy_of(&neighbours[i]) && pushed(pareto(), members, false, after.last(), after)
    &&& left.len() == unexplored.len() + 1 && left.drop_last() == unexplored && left.last().is_copy_of(&neighbours[i])
}

/// Whether the second look offers neighbour `i` to the archive: an infeasible one where it
/// violates the constraints less than `cnstr_violation`, a feasible one where it lies in the
/// region or no member does.
pub open spec fn offered(rated: Seq<Rated>, in_region: Seq<bool>, flag: bool, cnstr_violation: usize, i: int) -> bool {
    match rated[i] {
        Constraint::Infeasible(v) => v < cnstr_violation,
        Constraint::Feasible(_) => in_region[i] || !flag,
        Constraint::Undefined => false,
    }
}

/// Step `i` of the second look, from the archive `ms[i]`, the unexplored `us[i]` and the
/// flag `flags[i]`, which says whether a member lies in the region, to those at `i + 1`. A
/// neighbour that is not offered changes nothing. A copy of one that is offered is pushed;
/// if the archive takes it, a copy joins the unexplored, and the flag is set where the
/// neighbour is feasible and lies in the region.
pub open spec fn step_at<X: Clone>(
    ms: Seq<Seq<Solution<X>>>,
    us: Seq<Seq<Solution<X>>>,
    flags: Seq<bool>,
    neighbours: Seq<Solution<X>>,
    rated: Seq<Rated>,
    in_region: Seq<bool>,
    cnstr_violation: usize,
    i: int,
) -> bool {
    if !offered(rated, in_region, flags[i], cnstr_violation, i) {
        ms[i + 1] == ms[i] && us[i + 1] == us[i] && flags[i + 1] == flags[i]
    } else if welcome(ms[i], neighbours[i]) {
        &&& ms[i + 1].len() > 0 && ms[i + 1].last().is_copy_of(&neighbours[i])
        &&& pushed(pareto(), ms[i], false, ms[i + 1].last(), ms[i + 1])
        &&& us[i + 1].len() == us[i].len() + 1 && us[i + 1].drop_last() == us[i] && us[i + 1].last().is_copy_of(
            &neighbours[i],
        )
        &&& flags[i + 1] == (flags[i] || (rated[i] is Feasible && in_region[i]))
    } else {
        ms[i + 1] == ms[i] && us[i + 1] == us[i] && flags[i + 1] == flags[i]
    }
}

/// The first `upto` steps of the second look lead from step to step.
pub open spec fn looked<X: Clone>(
    ms: Seq<Seq<Solution<X>>>,
    us: Seq<Seq<Solution<X>>>,
    flags: Seq<bool>,
    neighbours: Seq<Solution<X>>,
    rated: Seq<Rated>,
    in_region: Seq<bool>,
    cnstr_violation: usize,
    upto: int,
) -> bool {
    &&& ms.len() == upto + 1
    &&& us.len() == upto + 1
    &&& flags.len() == upto + 1
    &&& forall|i: int|
        0 <= i < upto ==> #[trigger] step_at(ms, us, flags, neighbours, rated, in_region, cnstr_violation, i)
}

/// The second look at all the neighbours leads from the archive `members` and the
/// unexplored `unexplored` to `after` and `left`.
pub open spec fn looked_over<X: Clone>(
    members: Seq<Solution<X>>,
    unexplored: Seq<Solution<X>>,
    neighbours: Seq<Solution<X>>,
    rated: Seq<Rated>,
    in_region: Seq<bool>,
    any_in_region: bool,
    cnstr_violation: usize,
    after: Seq<Solution<X>>,
    left: Seq<Solution<X>>,
) -> bool {
    exists|ms: Seq<Seq<Solution<X>>>, us: Seq<Seq<Solution<X>>>, flags: Seq<bool>|
        {
            &&& #[trigger] looked(ms, us, flags, neighbours, rated, in_region, cnstr_violation, neighbours.len() as int)
            &&& ms[0] == members
            &&& us[0] == unexplored
            &&& flags[0] == any_in_region
            &&& ms.last() == after
            &&& us.last() == left
        }
}

/// Offers a copy of `neighbour` to the archive, and adds a copy to the unexplored if the
/// archive takes it. The result says whether it did.
fn offer<X: Clone>(
    archive: &mut NonDominatedSet<X>,
    unexplored: &mut Vec<Solution<X>>,
    neighbour: &Solution<X>,
    Ghost(others): Ghost<Seq<Solution<X>>>,
) -> (is_added: bool)
    requires
        old(archive).wf(),
        !old(archive).accepts_duplicates(),
        !(neighbour.fitness() is Undefined),
        kin(old(archive).members(), others),
        forall|m: int|
            0 <= m < old(archive).members().len() ==> comparable(
                (#[trigger] old(archive).members()[m]).fitness(),
                neighbour.fitness(),
            ),
        forall|i: int| 0 <= i < others.len() ==> comparable(neighbour.fitness(), (#[trigger] others[i]).fitness()),
    ensures
        final(archive).wf(),
        !final(archive).accepts_duplicates(),
        kin(final(archive).members(), others),
        is_added == welcome(old(archive).members(), *neighbour),
        !is_added ==> final(archive).members() == old(archive).members() && final(unexplored)@ == old(unexplored)@,
        is_added ==> {
            &&& final(archive).members().len() > 0
            &&& final(archive).members().last().is_copy_of(neighbour)
            &&& pushed(
                pareto(),
                old(archive).members(),
                false,
                final(archive).members().last(),
                final(archive).members(),
            )
            &&& final(unexplored).len() == old(unexplored).len() + 1
            &&& final(unexplored)@.drop_last() == old(unexplored)@
            &&& final(unexplored)@.last().is_copy_of(neighbour)
        },
{
    let ghost before = archive.members();
    let copy = neighbour.clone();
    let is_added = archive.try_push(copy);
    proof {
        let after = archive.members();
        assert forall|m: int, i: int| 0 <= m < after.len() && 0 <= i < others.len() implies comparable(
            (#[trigger] after[m]).fitness(),
            (#[trigger] others[i]).fitness(),
        ) by {
            lemma_pushed_from(pareto(), before, false, copy, after, m);
            if after[m] != copy {
                let j = choose|j: int| 0 <= j < before.len() && before[j] == after[m];
                assert(comparable(before[j].fitness(), others[i].fitness()));
            }
        }
    }
    if is_added {
        let ghost list = unexplored@;
        unexplored.push(neighbour.clone());
        proof {
            assert(unexplored@.drop_last() =~= list);
        }
    }
    is_added
}

/// One step of the local search: what becomes of the neighbours of a candidate.
///
/// A first look takes the first improvement: the first feasible neighbour that is nearer
/// than `best_dist`, lies in the region unless no member of the archive does, and is taken
/// by the archive. It joins the unexplored, and the step is a success. Where there is none,
/// a second look offers the archive every infeasible neighbour that violates the
/// constraints less than `cnstr_violation`, and every feasible one that lies in the region
/// or finds no member there; what the archive takes joins the unexplored.
pub fn accept_neighbours<X: Clone>(
    archive: &mut NonDominatedSet<X>,
    unexplored: &mut Vec<Solution<X>>,
    neighbours: &Vec<Solution<X>>,
    rated: &Vec<Rated>,
    in_region: &Vec<bool>,
    any_in_region: bool,
    best_dist: Score,
    cnstr_violation: usize,
) -> (success: bool)
    requires
        old(archive).wf(),
        !old(archive).accepts_duplicates(),
        rates(neighbours@, rated@),
        in_region.len() == neighbours.len(),
        kin(old(archive).members(), neighbours@),
    ensures
        final(archive).wf(),
        !final(archive).accepts_duplicates(),
        success <==> exists|i: int|
            0 <= i < neighbours.len() && #[trigger] improves(
                old(archive).members(),
                neighbours@,
                rated@,
                in_region@,
                any_in_region,
                best_dist,
                i,
            ),
        success ==> exists|i: int| #[trigger]
            improved_by(
                old(archive).members(),
                old(unexplored)@,
                neighbours@,
                rated@,
                in_region@,
                any_in_region,
                best_dist,
                final(archive).members(),
                final(unexplored)@,
                i,
            ),
        !success ==> looked_over(
            old(archive).members(),
            old(unexplored)@,
            neighbours@,
            rated@,
            in_region@,
            any_in_region,
            cnstr_violation,
            final(archive).members(),
            final(unexplored)@,
        ),
{
    let ghost members = archive.members();
    let ghost list = unexplored@;
    let n = neighbours.len();
    let mut i: usize = 0;
    while i < n
        invariant
            i <= n,
            n == neighbours.len(),
            archive.wf(),
            !archive.accepts_duplicates(),
            archive.members() == members,
            unexplored@ == list,
            members == old(archive).members(),
            list == old(unexplored)@,
            rates(neighbours@, rated@),
            in_region.len() == n,
            kin(members, neighbours@),
            forall|j: int|
                0 <= j < i ==> !#[trigger] improves(members, neighbours@, rated@, in_region@, any_in_region, best_dist, j),
        decreases n - i,
    {
        let near = match rated[i] {
            Constraint::Feasible(dist) => dist < best_dist,
            _ => false,
        };
        if near && (in_region[i] || !any_in_region) {
            proof {
                assert(neighbours@[i as int].objectives is Feasible);
            }
            let is_added = offer(archive, unexplored, &neighbours[i], Ghost(neighbours@));
            if is_added {
                proof {
                    assert(improves(members, neighbours@, rated@, in_region@, any_in_region, best_dist, i as int));
                    assert(improved_by(
                        members,
                        list,
                        neighbours@,
                        rated@,
                        in_region@,
                        any_in_region,
                        best_dist,
                        archive.members(),
                        unexplored@,
                        i as int,
                    ));
                }
                return true;
            }
        }
        i = i + 1;
    }

    let ghost mut ms: Seq<Seq<Solution<X>>> = seq![members];
    let ghost mut us: Seq<Seq<Solution<X>>> = seq![list];
    let ghost mut flags: Seq<bool> = seq![any_in_region];
    let mut flag = any_in_region;
    let mut i: usize = 0;
    while i < n
        invariant
            i <= n,
            n == neighbours.len(),
            archive.wf(),
            !archive.accepts_duplicates(),
            rates(neighbours@, rated@),
            in_region.len() == n,
            kin(archive.members(), neighbours@),
            looked(ms, us, flags, neighbours@, rated@, in_region@, cnstr_violation, i as int),
            ms[0] == members,
            us[0] == list,
            members == old(archive).members(),
            list == old(unexplored)@,
            forall|j: int|
                0 <= j < n ==> !#[trigger] improves(members, neighbours@, rated@, in_region@, any_in_region, best_dist, j),
            flags[0] == any_in_region,
            ms.last() == archive.members(),
            us.last() == unexplored@,
            flags.last() == flag,
        decreases n - i,
    {
        let ghost ms_in = ms;
        let ghost us_in = us;
        let ghost flags_in = flags;
        let (offer_it, lies_in) = match rated[i] {
            Constraint::Infeasible(violation) => (violation < cnstr_violation, false),
            Constraint::Feasible(_) => (in_region[i] || !flag, in_region[i]),
            Constraint::Undefined => (false, false),
        };
        if offer_it {
            proof {
                assert(!(neighbours@[i as int].fitness() is Undefined));
            }
            let is_added = offer(archive, unexplored, &neighbours[i], Ghost(neighbours@));
            if is_added && lies_in {
                flag = true;
            }
        }
        proof {
            ms = ms.push(archive.members());
            us = us.push(unexplored@);
            flags = flags.push(flag);
            assert forall|j: int| 0 <= j < i + 1 implies #[trigger] step_at(
                ms,
                us,
                flags,
                neighbours@,
                rated@,
                in_region@,
                cnstr_violation,
                j,
            ) by {
                if j < i {
                    assert(step_at(ms_in, us_in, flags_in, neighbours@, rated@, in_region@, cnstr_violation, j));
                    assert(ms[j] == ms_in[j] && ms[j + 1] == ms_in[j + 1]);
                    assert(us[j] == us_in[j] && us[j + 1] == us_in[j + 1]);
                    assert(flags[j] == flags_in[j] && flags[j + 1] == flags_in[j + 1]);
                } else {
                    assert(ms[j] == ms_in.last() && us[j] == us_in.last() && flags[j] == flags_in.last());
                }
            }
        }
        i = i + 1;
    }
    proof {
        assert(looked_over(
            members,
            list,
            neighbours@,
            rated@,
            in_region@,
            any_in_region,
            cnstr_violation,
            archive.members(),
            unexplored@,
        ));
    }
    false
}

/// Whether one candidate is to be kept before another in the archive of a weight vector:
/// by the constraints alone, or by the region and the angle, or by its objectives. Regions
/// and angles are those of feasible candidates.
pub fn dominates_for_weight<X>(
    x: &Solution<X>,
    y: &Solution<X>,
    in_region_x: bool,
    in_region_y: bool,
    angle_x: Score,
    angle_y: Score,
) -> (r: bool)
    requires
        comparable(x.fitness(), y.fitness()),
        cnstr_dominates(x.fitness(), y.fitness()) || (x.fitness() is Feasible && y.fitness() is Feasible),
    ensures
        r == (cnstr_dominates(x.fitness(), y.fitness()) || (if in_region_y {
            false
        } else if in_region_x {
            true
        } else {
            angle_x < angle_y
        }) || x.dominates_spec(y)),
{
    dominates_cnstr(x, y) || dominates_angle(in_region_x, in_region_y, angle_x, angle_y) || x.dominates(y)
}

} // verus!
