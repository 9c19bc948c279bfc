use vstd::prelude::*;
use crate::neighbour_gen::{cells, cells_swapped, duplicate, one_move, random_move, swap_removed, swap_servers};
use crate::probability::Probability;
use crate::random::{gen_flag, gen_range, gen_ratio, thread_rng};
use crate::solution::{Constraint, Solution};

verus! {

/// Changes a candidate a little.
pub trait Mutation<X> {
    /// The candidates that the operator can work on.
    spec fn accepts(&self, solution: &Solution<X>) -> bool;

    /// `mutant` is a possible result for `solution`.
    spec fn mutates(&self, solution: &Solution<X>, mutant: &Solution<X>) -> bool;

    fn apply(&self, solution: &Solution<X>) -> (r: Solution<X>)
        requires
            self.accepts(solution),
        ensures
            self.mutates(solution, &r),
    ;
}

/// What a change that happens with probability `p` gives: `changed` says what the result is
/// where it happens, and else `same` holds.
pub open spec fn maybe(p: Probability, changed: bool, same: bool) -> bool {
    &&& changed || same
    &&& p.numerator == p.denominator ==> changed
    &&& p.numerator == 0 ==> same
}

/// A copy of a genotype.
fn copy_point<X: Copy>(point: &Vec<X>) -> (r: Vec<X>)
    ensures
        r@ == point@,
{
    let mut copy: Vec<X> = Vec::new();
    let mut j: usize = 0;
    while j < point.len()
        invariant
            j <= point.len(),
            copy@ == point@.take(j as int),
        decreases point.len() - j,
    {
        copy.push(point[j]);
        proof {
            assert(point@.take(j as int + 1) =~= point@.take(j as int).push(point@[j as int]));
        }
        j = j + 1;
    }
    proof {
        assert(point@.take(point.len() as int) =~= point@);
    }
    copy
}

/// A copy of the objectives of a candidate.
fn copy_objectives<X>(solution: &Solution<X>) -> (r: Constraint<Vec<crate::solution::Score>, usize>)
    ensures
        (Solution::<X> { point: solution.point, objectives: r }).fitness() == solution.fitness(),
{
    match &solution.objectives {
        Constraint::Feasible(v) => Constraint::Feasible(v.clone()),
        Constraint::Infeasible(u) => Constraint::Infeasible(*u),
        Constraint::Undefined => Constraint::Undefined,
    }
}

/// Swapping two items of a sequence leaves the same items.
proof fn lemma_swap_keeps_items<X>(s: Seq<X>, i: int, j: int)
    requires
        0 <= i < s.len(),
        0 <= j < s.len(),
    ensures
        s.update(i, s[j]).update(j, s[i]).to_multiset() == s.to_multiset(),
{
    broadcast use vstd::multiset::group_multiset_axioms;

    let t = s.update(i, s[j]);
    vstd::seq_lib::to_multiset_update(s, i, s[j]);
    vstd::seq_lib::to_multiset_update(t, j, s[i]);
    vstd::seq_lib::to_multiset_contains(s, s[i]);
    vstd::seq_lib::to_multiset_contains(s, s[j]);
    assert(s.contains(s[i]));
    assert(s.contains(s[j]));
    assert(t.update(j, s[i]).to_multiset() =~= s.to_multiset());
}

/// Swap mutation: with probability `pm`, every locus is, with probability `mr`, swapped with
/// a locus drawn at random.
#[derive(Clone, Copy, Debug)]
pub struct SwapMutation {
    pub pm: Probability,
    /// The mutation rate.
    pub mr: Probability,
}

impl SwapMutation {
    pub fn new(pm: Probability, mr: Probability) -> (r: SwapMutation)
        ensures
            r.pm == pm,
            r.mr == mr,
    {
        SwapMutation { pm, mr }
    }
}

impl<X: Copy> Mutation<X> for SwapMutation {
    open spec fn accepts(&self, solution: &Solution<X>) -> bool {
        self.pm.wf() && self.mr.wf()
    }

    open spec fn mutates(&self, solution: &Solution<X>, mutant: &Solution<X>) -> bool {
        &&& mutant.fitness() == solution.fitness()
        &&& mutant.point@.to_multiset() == solution.point@.to_multiset()
        &&& mutant.point.len() == solution.point.len()
        &&& self.pm.numerator == 0 || self.mr.numerator == 0 ==> mutant.point@ == solution.point@
    }

    fn apply(&self, solution: &Solution<X>) -> (r: Solution<X>) {
        let mut point = copy_point(&solution.point);
        let objectives = copy_objectives(solution);
        let mut rng = thread_rng();
        if !self.pm.happens(&mut rng) {
            return Solution { point, objectives };
        }
        let n = point.len();
        let mut i: usize = 0;
        while i < n
            invariant
                i <= n,
                n == point.len(),
                n == solution.point.len(),
                self.mr.wf(),
                point@.to_multiset() == solution.point@.to_multiset(),
                self.mr.numerator == 0 ==> point@ == solution.point@,
            decreases n - i,
        {
            if self.mr.happens(&mut rng) {
                let swap = gen_range(&mut rng, 0, n);
                let ghost before = point@;
                let temp = point[i];
                point[i] = point[swap];
                point[swap] = temp;
                proof {
                    assert(point@ =~= before.update(i as int, before[swap as int]).update(swap as int, before[i as int]));
                    lemma_swap_keeps_items(before, i as int, swap as int);
                }
            }
            i = i + 1;
        }
        Solution { point, objectives }
    }
}

/// A cell after one change: the same, one item of `items` more at its end, or one item less.
pub open spec fn cell_changed<X>(before: Seq<X>, after: Seq<X>, items: Seq<X>) -> bool {
    ||| after == before
    ||| exists|k: int| 0 <= k < items.len() && after == before.push(#[trigger] items[k])
    ||| exists|at: int| 0 <= at < before.len() && after == #[trigger] swap_removed(before, at)
}

/// Add-remove mutation: with probability `pm`, every cell is, with probability `mr`, given
/// an item drawn at random or relieved of one, on the toss of a coin.
pub struct AddRemoveMutation<X> {
    pub pm: Probability,
    /// The mutation rate.
    pub mr: Probability,
    pub items: Vec<X>,
}

impl<X> AddRemoveMutation<X> {
    pub fn new(items: Vec<X>, pm: Probability, mr: Probability) -> (r: AddRemoveMutation<X>)
        ensures
            r.items == items,
            r.pm == pm,
            r.mr == mr,
    {
        AddRemoveMutation { items, pm, mr }
    }
}

impl<X: Copy> Mutation<Vec<X>> for AddRemoveMutation<X> {
    open spec fn accepts(&self, solution: &Solution<Vec<X>>) -> bool {
        self.pm.wf() && self.mr.wf() && self.items.len() > 0
    }

    open spec fn mutates(&self, solution: &Solution<Vec<X>>, mutant: &Solution<Vec<X>>) -> bool {
        &&& mutant.fitness() == solution.fitness()
        &&& mutant.point.len() == solution.point.len()
        &&& forall|i: int|
            0 <= i < solution.point.len() ==> cell_changed(solution.point[i]@, (#[trigger] mutant.point[i])@, self.items@)
        &&& self.pm.numerator == 0 || self.mr.numerator == 0 ==> cells(mutant.point@) == cells(solution.point@)
    }

    fn apply(&self, solution: &Solution<Vec<X>>) -> (r: Solution<Vec<X>>) {
        let mut copy = duplicate(solution);
        let mut rng = thread_rng();
        proof {
            assert forall|i: int| 0 <= i < solution.point.len() implies (#[trigger] copy.point[i])@
                == solution.point[i]@ by {
                assert(cells(copy.point@)[i] == cells(solution.point@)[i]);
            }
        }
        if !self.pm.happens(&mut rng) {
            return copy;
        }
        let n = copy.point.len();
        let mut i: usize = 0;
        while i < n
            invariant
                i <= n,
                n == copy.point.len(),
                n == solution.point.len(),
                self.mr.wf(),
                self.items.len() > 0,
                copy.fitness() == solution.fitness(),
                forall|k: int| 0 <= k < i ==> cell_changed(solution.point[k]@, (#[trigger] copy.point[k])@, self.items@),
                forall|k: int| i <= k < n ==> (#[trigger] copy.point[k])@ == solution.point[k]@,
                self.mr.numerator == 0 ==> forall|k: int| 0 <= k < n ==> (#[trigger] copy.point[k])@ == solution.point[k]@,
            decreases n - i,
        {
            if self.mr.happens(&mut rng) {
                let ghost cell = copy.point[i as int]@;
                if gen_ratio(&mut rng, 1, 2) {
                    // Add an item.
                    let c_idx = gen_range(&mut rng, 0, self.items.len());
                    let item = self.items[c_idx];
                    copy.point[i].push(item);
                    proof {
                        assert(copy.point[i as int]@ == cell.push(self.items@[c_idx as int]));
                    }
                } else if copy.point[i].len() > 0 {
                    // Remove an item.
                    let item_idx = gen_range(&mut rng, 0, copy.point[i].len());
                    copy.point[i].swap_remove(item_idx);
                    proof {
                        assert(copy.point[i as int]@ == swap_removed(cell, item_idx as int));
                    }
                }
            }
            i = i + 1;
        }
        proof {
            if self.pm.numerator == 0 || self.mr.numerator == 0 {
                assert(cells(copy.point@) =~= cells(solution.point@));
            }
        }
        copy
    }
}

/// Single exchange: two cells drawn at random change places.
#[derive(Clone, Copy, Debug)]
pub struct SingleExchange {}

impl SingleExchange {
    pub fn new() -> (r: SingleExchange) {
        SingleExchange {  }
    }
}

impl<X: Copy> Mutation<Vec<X>> for SingleExchange {
    open spec fn accepts(&self, solution: &Solution<Vec<X>>) -> bool {
        solution.point.len() > 0
    }

    open spec fn mutates(&self, solution: &Solution<Vec<X>>, mutant: &Solution<Vec<X>>) -> bool {
        &&& mutant.fitness() == solution.fitness()
        &&& cells_swapped(cells(solution.point@), cells(mutant.point@))
    }

    fn apply(&self, solution: &Solution<Vec<X>>) -> (r: Solution<Vec<X>>) {
        let mut copy = duplicate(solution);
        let mut rng = thread_rng();
        swap_servers(&mut copy, &mut rng);
        copy
    }
}

/// Step mutation: with probability `pm`, every locus is, with probability `mr`, raised or
/// lowered by one, on the toss of a coin.
#[derive(Clone, Copy, Debug)]
pub struct IncrDecrMutation {
    pub pm: Probability,
    pub mr: Probability,
}

impl IncrDecrMutation {
    pub fn new(pm: Probability, mr: Probability) -> (r: IncrDecrMutation)
        ensures
            r.pm == pm,
            r.mr == mr,
    {
        IncrDecrMutation { pm, mr }
    }
}

impl Mutation<usize> for IncrDecrMutation {
    open spec fn accepts(&self, solution: &Solution<usize>) -> bool {
        &&& self.pm.wf()
        &&& self.mr.wf()
        &&& forall|i: int| 0 <= i < solution.point.len() ==> 0 < #[trigger] solution.point[i] < usize::MAX
    }

    open spec fn mutates(&self, solution: &Solution<usize>, mutant: &Solution<usize>) -> bool {
        &&& mutant.fitness() == solution.fitness()
        &&& mutant.point.len() == solution.point.len()
        &&& forall|i: int|
            0 <= i < solution.point.len() ==> {
                let was = solution.point[i];
                let is = #[trigger] mutant.point[i];
                is == was || is == was + 1 || is == was - 1
            }
        &&& self.pm.numerator == 0 || self.mr.numerator == 0 ==> mutant.point@ == solution.point@
    }

    fn apply(&self, solution: &Solution<usize>) -> (r: Solution<usize>) {
        let mut point = copy_point(&solution.point);
        let objectives = copy_objectives(solution);
        let mut rng = thread_rng();
        if !self.pm.happens(&mut rng) {
            return Solution { point, objectives };
        }
        let n = point.len();
        let mut i: usize = 0;
        while i < n
            invariant
                i <= n,
                n == point.len(),
                n == solution.point.len(),
                self.mr.wf(),
                forall|k: int| 0 <= k < n ==> 0 < #[trigger] solution.point[k] < usize::MAX,
                forall|k: int|
                    0 <= k < i ==> {
                        let was = solution.point[k];
                        let is = #[trigger] point[k];
                        is == was || is == was + 1 || is == was - 1
                    },
                forall|k: int| i <= k < n ==> #[trigger] point[k] == solution.point[k],
                self.mr.numerator == 0 ==> point@ == solution.point@,
            decreases n - i,
        {
            if self.mr.happens(&mut rng) {
                if gen_flag(&mut rng) {
                    point[i] = point[i] + 1;
                } else {
                    point[i] = point[i] - 1;
                }
            }
            i = i + 1;
        }
        Solution { point, objectives }
    }
}

/// Add-remove-swap mutation: with probability `pm`, one step away: an item added, an item
/// removed, or two cells swapped.
pub struct AddRemoveSwapMutation<X> {
    pub pm: Probability,
    pub items: Vec<X>,
}

impl<X> AddRemoveSwapMutation<X> {
    pub fn new(items: Vec<X>, pm: Probability) -> (r: AddRemoveSwapMutation<X>)
        ensures
            r.items == items,
            r.pm == pm,
    {
        AddRemoveSwapMutation { items, pm }
    }
}

impl<X: Copy> Mutation<Vec<X>> for AddRemoveSwapMutation<X> {
    open spec fn accepts(&self, solution: &Solution<Vec<X>>) -> bool {
        self.pm.wf() && solution.point.len() > 0 && self.items.len() > 0
    }

    open spec fn mutates(&self, solution: &Solution<Vec<X>>, mutant: &Solution<Vec<X>>) -> bool {
        &&& mutant.fitness() == solution.fitness()
        &&& maybe(
            self.pm,
            one_move(cells(solution.point@), cells(mutant.point@), self.items@),
            cells(mutant.point@) == cells(solution.point@),
        )
    }

    fn apply(&self, solution: &Solution<Vec<X>>) -> (r: Solution<Vec<X>>) {
        let mut rng = thread_rng();
        if !self.pm.happens(&mut rng) {
            return duplicate(solution);
        }
        random_move(solution, &self.items, &mut rng)
    }
}

} // verus!
