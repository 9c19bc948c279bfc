use vstd::prelude::*;
use std::cmp::Ordering;
use crate::crossover::Crossover;
use crate::error::OperatorError;
use crate::mutation::Mutation;
use crate::selection::{judges, TournamentSelection};
use crate::solution::{comparable, fitness_dominates, Fitness, Score, Solution};
use crate::marks::{count_true, lemma_count_true_all, lemma_count_true_gap, lemma_count_true_mark};
use crate::solution::{lemma_dominance_asymmetric, lemma_dominance_irreflexive, lemma_dominance_transitive};

verus! {

/// A candidate with what NSGA-II keeps on it: the front it lies in and how crowded its
/// neighbourhood is.
#[allow(non_camel_case_types)]
#[derive(Debug)]
pub struct NSGAII_Solution<X: Clone> {
    pub solution: Solution<X>,
    /// The crowding distance; larger is less crowded.
    pub crowding_dist: Score,
    /// The front the candidate lies in: 0 for the candidates that nothing dominates.
    pub rank: usize,
}

impl<X: Clone> NSGAII_Solution<X> {
    /// `self` is a copy of `other`.
    pub open spec fn is_copy_of(&self, other: &NSGAII_Solution<X>) -> bool {
        &&& self.solution.is_copy_of(&other.solution)
        &&& self.crowding_dist == other.crowding_dist
        &&& self.rank == other.rank
    }

    pub fn new(solution: Solution<X>) -> (r: NSGAII_Solution<X>)
        ensures
            r.solution == solution,
            r.crowding_dist == 0,
            r.rank == 0,
    {
        NSGAII_Solution { solution, crowding_dist: 0, rank: 0 }
    }

    pub fn dominates(&self, other: &NSGAII_Solution<X>) -> (r: bool)
        requires
            comparable(self.solution.fitness(), other.solution.fitness()),
        ensures
            r == self.solution.dominates_spec(&other.solution),
    {
        self.solution.dominates(&other.solution)
    }

    pub fn objectives(&self) -> (r: &crate::solution::Constraint<Vec<Score>, usize>)
        ensures
            *r == self.solution.objectives,
    {
        &self.solution.objectives
    }
}

impl<X: Clone> Clone for NSGAII_Solution<X> {
    fn clone(&self) -> (r: Self)
        ensures
            r.is_copy_of(self),
    {
        NSGAII_Solution { solution: self.solution.clone(), crowding_dist: self.crowding_dist, rank: self.rank }
    }
}

/// The crowded-comparison order: `Less` if `ind_a` lies in an earlier front than `ind_b`, or
/// in the same front in a less crowded place; `Greater` otherwise.
pub fn crowding_comparison_operator<X: Clone>(ind_a: &NSGAII_Solution<X>, ind_b: &NSGAII_Solution<X>) -> (r:
    Ordering)
    ensures
        r == if ind_a.rank < ind_b.rank || (ind_a.rank == ind_b.rank && ind_a.crowding_dist
            > ind_b.crowding_dist) {
            Ordering::Less
        } else {
            Ordering::Greater
        },
{
    if ind_a.rank < ind_b.rank || (ind_a.rank == ind_b.rank && ind_a.crowding_dist > ind_b.crowding_dist) {
        Ordering::Less
    } else {
        Ordering::Greater
    }
}

/// `a` comes before `b` in the crowded-comparison order: it lies in an earlier front, or in
/// the same front in a less crowded place.
pub open spec fn precedes<X: Clone>(a: NSGAII_Solution<X>, b: NSGAII_Solution<X>) -> bool {
    a.rank < b.rank || (a.rank == b.rank && a.crowding_dist > b.crowding_dist)
}

/// Whether `a` comes before `b` in the crowded-comparison order.
fn comes_first<X: Clone>(a: &NSGAII_Solution<X>, b: &NSGAII_Solution<X>) -> (r: bool)
    ensures
        r == precedes(*a, *b),
{
    match crowding_comparison_operator(a, b) {
        Ordering::Less => true,
        _ => false,
    }
}

/// The number of members of the first `upto` fronts together.
pub open spec fn members_upto<X: Clone>(fronts: Seq<Vec<NSGAII_Solution<X>>>, upto: int) -> nat
    decreases upto,
{
    if upto <= 0 {
        0
    } else {
        members_upto(fronts, upto - 1) + fronts[upto - 1]@.len()
    }
}

/// The members of the first `upto` fronts, front by front.
pub open spec fn members_of<X: Clone>(fronts: Seq<Vec<NSGAII_Solution<X>>>, upto: int) -> Seq<NSGAII_Solution<X>>
    decreases upto,
{
    if upto <= 0 {
        Seq::empty()
    } else {
        members_of(fronts, upto - 1) + fronts[upto - 1]@
    }
}

proof fn lemma_members_grow<X: Clone>(fronts: Seq<Vec<NSGAII_Solution<X>>>, a: int, b: int)
    requires
        a <= b,
    ensures
        members_upto(fronts, a) <= members_upto(fronts, b),
    decreases b - a,
{
    if a < b {
        lemma_members_grow(fronts, a, b - 1);
    }
}

proof fn lemma_members_len<X: Clone>(fronts: Seq<Vec<NSGAII_Solution<X>>>, upto: int)
    ensures
        members_of(fronts, upto).len() == members_upto(fronts, upto),
    decreases upto,
{
    if upto > 0 {
        lemma_members_len(fronts, upto - 1);
    }
}

/// The number of leading fronts that go over to the next generation whole: as many as leave
/// room for at least one member more.
pub fn num_whole_fronts<X: Clone>(fronts: &Vec<Vec<NSGAII_Solution<X>>>, pop_size: usize) -> (i: usize)
    requires
        members_upto(fronts@, fronts.len() as int) >= pop_size,
    ensures
        i < fronts.len() || (i == 0 && fronts.len() == 0),
        members_upto(fronts@, i as int) <= pop_size,
        i < fronts.len() ==> members_upto(fronts@, i + 1) >= pop_size,
        i > 0 ==> members_upto(fronts@, i as int) < pop_size,
{
    let mut taken: usize = 0;
    let mut i: usize = 0;
    if fronts.len() == 0 {
        return 0;
    }
    while i + 1 < fronts.len() && fronts[i].len() < pop_size - taken
        invariant
            i < fronts.len(),
            taken == members_upto(fronts@, i as int),
            taken <= pop_size,
            i > 0 ==> taken < pop_size,
            members_upto(fronts@, fronts.len() as int) >= pop_size,
        decreases fronts.len() - i,
    {
        taken = taken + fronts[i].len();
        i = i + 1;
    }
    proof {
        if fronts[i as int].len() < pop_size - taken {
            assert(i + 1 == fronts.len());
        }
    }
    i
}

/// `sorted` holds the members of `front` in the crowded-comparison order; members of which
/// none comes before the other keep their order.
pub open spec fn in_crowded_order<X: Clone>(front: Seq<NSGAII_Solution<X>>, sorted: Seq<NSGAII_Solution<X>>) -> bool {
    &&& sorted.len() == front.len()
    &&& exists|from: Seq<int>|
        {
            &&& #[trigger] from.len() == front.len()
            &&& from.no_duplicates()
            &&& forall|k: int| 0 <= k < from.len() ==> 0 <= #[trigger] from[k] < front.len() && sorted[k] == front[from[k]]
            &&& forall|a: int, b: int|
                #![trigger sorted[a], sorted[b]]
                0 <= a < b < from.len() ==> !precedes(sorted[b], sorted[a]) && (precedes(sorted[a], sorted[b])
                    || from[a] < from[b])
        }
}

/// Sorts a front into the crowded-comparison order.
pub fn sort_by_crowding<X: Clone>(front: &mut Vec<NSGAII_Solution<X>>)
    ensures
        in_crowded_order(old(front)@, final(front)@),
{
    let ghost before = front@;
    let n = front.len();
    let ghost mut from: Seq<int> = Seq::new(n as nat, |k: int| k);
    let mut i: usize = 1;
    while i < n
        invariant
            1 <= i,
            n == front.len(),
            n == before.len(),
            from.len() == n,
            from.no_duplicates(),
            forall|k: int| 0 <= k < n ==> 0 <= #[trigger] from[k] < n && front[k] == before[from[k]],
            forall|k: int| i <= k < n ==> #[trigger] from[k] == k,
            forall|k: int| 0 <= k < i && k < n ==> #[trigger] from[k] < i,
            forall|a: int, b: int|
                #![trigger front[a], front[b]]
                0 <= a < b < i && b < n ==> !precedes(front[b], front[a]) && (precedes(front[a], front[b]) || from[a]
                    < from[b]),
        decreases n - i,
    {
        // Find the place of member `i` among the members before it.
        let mut j: usize = i;
        while j > 0 && comes_first(&front[i], &front[j - 1])
            invariant
                j <= i,
                i < n,
                n == front.len(),
                forall|b: int| j <= b < i ==> precedes(front[i as int], #[trigger] front[b]),
            decreases j,
        {
            j = j - 1;
        }
        if j < i {
            let ghost f0 = front@;
            let ghost from0 = from;
            let member = front.remove(i);
            front.insert(j, member);
            proof {
                from = from0.remove(i as int).insert(j as int, from0[i as int]);
                let f1 = front@;
                assert(f1 =~= f0.remove(i as int).insert(j as int, f0[i as int]));
                // Where the member at place `k` stood before the move.
                let was = |k: int|
                    if k < j {
                        k
                    } else if k == j {
                        i as int
                    } else if k <= i {
                        k - 1
                    } else {
                        k
                    };
                assert forall|k: int| 0 <= k < n implies f1[k] == f0[was(k)] && from[k] == from0[was(k)] by {}
                assert forall|a: int, b: int| 0 <= a < n && 0 <= b < n && a != b implies from[a] != from[b] by {
                    assert(from0[was(a)] != from0[was(b)]);
                }
                assert forall|a: int, b: int|
                    #![trigger f1[a], f1[b]]
                    0 <= a < b < i + 1 && b < n implies !precedes(f1[b], f1[a]) && (precedes(f1[a], f1[b]) || from[a]
                    < from[b]) by {
                    if a == j {
                        assert(precedes(f0[i as int], f0[was(b)]));
                    } else if b == j {
                        assert(!precedes(f0[i as int], f0[j - 1]));
                        if a < j - 1 {
                            assert(!precedes(f0[j - 1], f0[a]));
                        }
                        assert(from0[a] < i);
                    } else {
                        let x = f0[was(a)];
                        let y = f0[was(b)];
                        assert(!precedes(y, x) && (precedes(x, y) || from0[was(a)] < from0[was(b)]));
                    }
                }
                assert forall|k: int| 0 <= k < i + 1 && k < n implies #[trigger] from[k] < i + 1 by {
                    assert(from0[was(k)] <= i);
                }
            }
        } else {
            proof {
                assert forall|a: int, b: int|
                    #![trigger front[a], front[b]]
                    0 <= a < b < i + 1 && b < n implies !precedes(front[b], front[a]) && (precedes(front[a], front[b])
                    || from[a] < from[b]) by {
                    if b == i {
                        assert(!precedes(front[i as int], front[i - 1]));
                        if a < i - 1 {
                            assert(!precedes(front[i - 1], front[a]));
                        }
                        assert(from[a] < i);
                    }
                }
            }
        }
        i = i + 1;
    }
    proof {
        assert(from.len() == before.len());
    }
}

/// `parents` is the next generation chosen from `fronts`: the fronts that fit in whole, and
/// of the front after them the first members in the crowded-comparison order.
pub open spec fn chosen_from<X: Clone>(
    fronts: Seq<Vec<NSGAII_Solution<X>>>,
    pop_size: int,
    whole: int,
    parents: Seq<NSGAII_Solution<X>>,
) -> bool {
    let taken = members_upto(fronts, whole) as int;
    &&& parents.len() == pop_size
    &&& taken <= pop_size
    &&& parents.take(taken) == members_of(fronts, whole)
    &&& taken < pop_size ==> whole < fronts.len() && exists|sorted: Seq<NSGAII_Solution<X>>|
        {
            &&& #[trigger] in_crowded_order(fronts[whole]@, sorted)
            &&& pop_size - taken <= sorted.len()
            &&& forall|j: int| 0 <= j < pop_size - taken ==> (#[trigger] parents[taken + j]).is_copy_of(&sorted[j])
        }
}

/// The next generation: the `pop_size` best of the members of `fronts`.
///
/// The leading fronts go over whole, as long as they leave room; the room that is left goes
/// to the first members of the next front in the crowded-comparison order.
pub fn survivors<X: Clone>(fronts: &mut Vec<Vec<NSGAII_Solution<X>>>, pop_size: usize) -> (parents: Vec<
    NSGAII_Solution<X>,
>)
    requires
        members_upto(old(fronts)@, old(fronts).len() as int) >= pop_size,
    ensures
        exists|whole: int|
            0 <= whole <= old(fronts).len() && #[trigger] chosen_from(old(fronts)@, pop_size as int, whole, parents@),
{
    let ghost before = fronts@;
    let mut parent_pop: Vec<NSGAII_Solution<X>> = Vec::new();
    if fronts.len() == 0 {
        proof {
            assert(parent_pop@.take(0) =~= members_of(before, 0));
            assert(chosen_from(before, pop_size as int, 0, parent_pop@));
        }
        return parent_pop;
    }
    let whole = num_whole_fronts(fronts, pop_size);
    let mut k: usize = 0;
    while k < whole
        invariant
            k <= whole,
            whole < fronts.len(),
            fronts.len() == before.len(),
            parent_pop@ == members_of(before, k as int),
            forall|e: int| k <= e < fronts.len() ==> #[trigger] fronts[e] == before[e],
        decreases whole - k,
    {
        let ghost pop_in = parent_pop@;
        parent_pop.append(&mut fronts[k]);
        k = k + 1;
    }
    proof {
        lemma_members_len(before, whole as int);
        assert(fronts[whole as int] == before[whole as int]);
    }
    let taken = parent_pop.len();
    sort_by_crowding(&mut fronts[whole]);
    let ghost sorted = fronts[whole as int]@;
    let mut j: usize = 0;
    while j < pop_size - taken
        invariant
            taken <= pop_size,
            j <= pop_size - taken,
            whole < fronts.len(),
            sorted == fronts[whole as int]@,
            pop_size - taken <= sorted.len(),
            parent_pop.len() == taken + j,
            parent_pop@.take(taken as int) == members_of(before, whole as int),
            forall|e: int| 0 <= e < j ==> (#[trigger] parent_pop[taken + e]).is_copy_of(&sorted[e]),
        decreases pop_size - taken - j,
    {
        let ghost pop_in = parent_pop@;
        parent_pop.push(fronts[whole][j].clone());
        proof {
            assert(parent_pop@.take(taken as int) =~= pop_in.take(taken as int));
            assert forall|e: int| 0 <= e < j + 1 implies (#[trigger] parent_pop[taken + e]).is_copy_of(&sorted[e]) by {
                if e < j {
                    assert(parent_pop[taken + e] == pop_in[taken + e]);
                }
            }
        }
        j = j + 1;
    }
    proof {
        assert(chosen_from(before, pop_size as int, whole as int, parent_pop@));
    }
    parent_pop
}

/// `child` is a mutant of a child of two members of `parents`.
pub open spec fn bred<X: Clone, C: Crossover<X>, M: Mutation<X>>(
    parents: Seq<NSGAII_Solution<X>>,
    crossover: &C,
    mutation: &M,
    child: Solution<X>,
) -> bool {
    exists|a: int, b: int, crossed: Vec<Solution<X>>, k: int|
        #![trigger crossover.crosses(&parents[a].solution, &parents[b].solution, Ok(crossed)), crossed[k]]
        {
            &&& 0 <= a < parents.len()
            &&& 0 <= b < parents.len()
            &&& 0 <= k < crossed.len()
            &&& crossover.crosses(&parents[a].solution, &parents[b].solution, Ok(crossed))
            &&& mutation.mutates(&crossed[k], &child)
        }
}

/// The children from `cuts[p]` up to `cuts[p + 1]` are a litter: the mutants, in their
/// order, of what one crossing of two members of `parents` gave.
pub open spec fn litter_at<X: Clone, C: Crossover<X>, M: Mutation<X>>(
    parents: Seq<NSGAII_Solution<X>>,
    crossover: &C,
    mutation: &M,
    children: Seq<Solution<X>>,
    cuts: Seq<int>,
    p: int,
) -> bool {
    exists|a: int, b: int, crossed: Vec<Solution<X>>|
        #![trigger crossover.crosses(&parents[a].solution, &parents[b].solution, Ok(crossed))]
        {
            &&& 0 <= a < parents.len()
            &&& 0 <= b < parents.len()
            &&& crossover.crosses(&parents[a].solution, &parents[b].solution, Ok(crossed))
            &&& 0 <= cuts[p]
            &&& cuts[p] + crossed.len() == cuts[p + 1]
            &&& cuts[p + 1] <= children.len()
            &&& forall|k: int| 0 <= k < crossed.len() ==> mutation.mutates(&#[trigger] crossed[k], &children[cuts[p] + k])
        }
}

/// `children` begins with `cuts.len() - 1` litters, one after the other.
pub open spec fn litters<X: Clone, C: Crossover<X>, M: Mutation<X>>(
    parents: Seq<NSGAII_Solution<X>>,
    crossover: &C,
    mutation: &M,
    children: Seq<Solution<X>>,
    cuts: Seq<int>,
) -> bool {
    &&& cuts.len() >= 1
    &&& cuts[0] == 0
    &&& forall|p: int| 0 <= p < cuts.len() - 1 ==> #[trigger] litter_at(parents, crossover, mutation, children, cuts, p)
}

/// `children` are `pairs` litters, one after the other.
pub open spec fn all_litters<X: Clone, C: Crossover<X>, M: Mutation<X>>(
    parents: Seq<NSGAII_Solution<X>>,
    crossover: &C,
    mutation: &M,
    children: Seq<Solution<X>>,
    pairs: int,
) -> bool {
    exists|cuts: Seq<int>|
        #[trigger] litters(parents, crossover, mutation, children, cuts) && cuts.len() == pairs + 1 && cuts.last()
            == children.len()
}

/// Litters stay litters when more children follow them, and when their cuts are followed
/// by more.
proof fn lemma_litters_stay<X: Clone, C: Crossover<X>, M: Mutation<X>>(
    parents: Seq<NSGAII_Solution<X>>,
    crossover: &C,
    mutation: &M,
    before: Seq<Solution<X>>,
    after: Seq<Solution<X>>,
    cuts: Seq<int>,
    more: Seq<int>,
)
    requires
        litters(parents, crossover, mutation, before, cuts),
        before.len() <= after.len(),
        forall|i: int| 0 <= i < before.len() ==> #[trigger] after[i] == before[i],
        more.len() >= cuts.len(),
        forall|p: int| 0 <= p < cuts.len() ==> #[trigger] more[p] == cuts[p],
    ensures
        forall|p: int| 0 <= p < cuts.len() - 1 ==> #[trigger] litter_at(parents, crossover, mutation, after, more, p),
{
    assert forall|p: int| 0 <= p < cuts.len() - 1 implies #[trigger] litter_at(
        parents,
        crossover,
        mutation,
        after,
        more,
        p,
    ) by {
        assert(litter_at(parents, crossover, mutation, before, cuts, p));
        let (a, b, crossed) = choose|a: int, b: int, crossed: Vec<Solution<X>>|
            #![trigger crossover.crosses(&parents[a].solution, &parents[b].solution, Ok(crossed))]
            {
                &&& 0 <= a < parents.len()
                &&& 0 <= b < parents.len()
                &&& crossover.crosses(&parents[a].solution, &parents[b].solution, Ok(crossed))
                &&& 0 <= cuts[p]
                &&& cuts[p] + crossed.len() == cuts[p + 1]
                &&& cuts[p + 1] <= before.len()
                &&& forall|k: int|
                    0 <= k < crossed.len() ==> mutation.mutates(&#[trigger] crossed[k], &before[cuts[p] + k])
            };
        assert(more[p] == cuts[p] && more[p + 1] == cuts[p + 1]);
        assert forall|k: int| 0 <= k < crossed.len() implies mutation.mutates(
            &#[trigger] crossed[k],
            &after[more[p] + k],
        ) by {
            assert(after[cuts[p] + k] == before[cuts[p] + k]);
        }
        assert(crossover.crosses(&parents[a].solution, &parents[b].solution, Ok(crossed)));
    }
}

/// The crossover refuses two members of `parents` with `error`.
pub open spec fn refused<X: Clone, C: Crossover<X>>(
    parents: Seq<NSGAII_Solution<X>>,
    crossover: &C,
    error: OperatorError,
) -> bool {
    exists|a: int, b: int|
        0 <= a < parents.len() && 0 <= b < parents.len() && #[trigger] crossover.crosses(
            &parents[a].solution,
            &parents[b].solution,
            Err(error),
        )
}

/// The operators can work on the members of `parents` and on what they make of them.
pub open spec fn can_breed<X: Clone, C: Crossover<X>, M: Mutation<X>>(
    parents: Seq<NSGAII_Solution<X>>,
    crossover: &C,
    mutation: &M,
) -> bool {
    &&& forall|a: int, b: int|
        0 <= a < parents.len() && 0 <= b < parents.len() ==> #[trigger] crossover.accepts(
            &parents[a].solution,
            &parents[b].solution,
        )
    &&& forall|a: int, b: int, crossed: Vec<Solution<X>>, k: int|
        #![trigger crossover.crosses(&parents[a].solution, &parents[b].solution, Ok(crossed)), crossed[k]]
        0 <= a < parents.len() && 0 <= b < parents.len() && 0 <= k < crossed.len() && crossover.crosses(
            &parents[a].solution,
            &parents[b].solution,
            Ok(crossed),
        ) ==> mutation.accepts(&crossed[k])
}

/// The children of a generation, not yet evaluated.
///
/// For every two members of the generation to come, two parents are chosen by tournaments of
/// two under the crowded-comparison order, crossed, and their children mutated.
pub fn offspring<X: Clone, C: Crossover<X>, M: Mutation<X>>(
    parent_pop: &Vec<NSGAII_Solution<X>>,
    crossover: &C,
    mutation: &M,
    pop_size: usize,
) -> (r: Result<Vec<Solution<X>>, OperatorError>)
    requires
        parent_pop.len() >= 2,
        can_breed(parent_pop@, crossover, mutation),
    ensures
        match r {
            Ok(children) => {
                &&& forall|c: int|
                    0 <= c < children.len() ==> bred(parent_pop@, crossover, mutation, #[trigger] children[c])
                &&& all_litters(parent_pop@, crossover, mutation, children@, pop_size as int / 2)
            },
            Err(error) => refused(parent_pop@, crossover, error),
        },
{
    let beats = |x: usize, y: usize| -> (r: bool)
        requires
            x < parent_pop.len(),
            y < parent_pop.len(),
        ensures
            r == precedes(parent_pop[x as int], parent_pop[y as int]),
        { comes_first(&parent_pop[x], &parent_pop[y]) };
    let ts = TournamentSelection::new(parent_pop.len(), beats);
    proof {
        assert forall|a: usize, b: usize| a < ts.pop_size && b < ts.pop_size implies #[trigger] judges(
            ts.beats,
            a,
            b,
        ) by {}
    }
    let mut children: Vec<Solution<X>> = Vec::new();
    let mut pair: usize = 0;
    let ghost mut cuts: Seq<int> = seq![0int];
    while pair < pop_size / 2
        invariant
            pair <= pop_size / 2,
            cuts.len() == pair + 1,
            cuts.last() == children.len(),
            litters(parent_pop@, crossover, mutation, children@, cuts),
            parent_pop.len() >= 2,
            ts.wf(),
            ts.pop_size == parent_pop.len(),
            can_breed(parent_pop@, crossover, mutation),
            forall|c: int| 0 <= c < children.len() ==> bred(parent_pop@, crossover, mutation, #[trigger] children[c]),
        decreases pop_size / 2 - pair,
    {
        let parent_one = match ts.tournament(2) {
            Ok(winner) => winner,
            Err(error) => {
                proof {
                    assert(false);
                }
                return Err(error);
            },
        };
        let parent_two = match ts.tournament(2) {
            Ok(winner) => winner,
            Err(error) => {
                proof {
                    assert(false);
                }
                return Err(error);
            },
        };
        proof {
            let one = choose|contenders: Seq<usize>|
                {
                    &&& #[trigger] contenders.len() == 2
                    &&& contenders.no_duplicates()
                    &&& forall|i: int| 0 <= i < contenders.len() ==> #[trigger] contenders[i] < ts.pop_size
                    &&& parent_one == crate::selection::winner(ts.beats, contenders)
                };
            lemma_winner_is_contender(ts.beats, one);
            let two = choose|contenders: Seq<usize>|
                {
                    &&& #[trigger] contenders.len() == 2
                    &&& contenders.no_duplicates()
                    &&& forall|i: int| 0 <= i < contenders.len() ==> #[trigger] contenders[i] < ts.pop_size
                    &&& parent_two == crate::selection::winner(ts.beats, contenders)
                };
            lemma_winner_is_contender(ts.beats, two);
        }
        let new_children = match crossover.apply(&parent_pop[parent_one].solution, &parent_pop[parent_two].solution) {
            Ok(crossed) => crossed,
            Err(error) => {
                return Err(error);
            },
        };
        let ghost base = children@;
        let mut k: usize = 0;
        while k < new_children.len()
            invariant
                k <= new_children.len(),
                children.len() == base.len() + k,
                forall|i: int| 0 <= i < base.len() ==> #[trigger] children[i] == base[i],
                forall|i: int|
                    0 <= i < k ==> mutation.mutates(&#[trigger] new_children[i], &children[base.len() + i]),
                parent_one < parent_pop.len(),
                parent_two < parent_pop.len(),
                can_breed(parent_pop@, crossover, mutation),
                crossover.crosses(
                    &parent_pop[parent_one as int].solution,
                    &parent_pop[parent_two as int].solution,
                    Ok(new_children),
                ),
                forall|c: int|
                    0 <= c < children.len() ==> bred(parent_pop@, crossover, mutation, #[trigger] children[c]),
            decreases new_children.len() - k,
        {
            let ghost done = children@;
            let mutant = mutation.apply(&new_children[k]);
            children.push(mutant);
            proof {
                assert forall|c: int| 0 <= c < children.len() implies bred(
                    parent_pop@,
                    crossover,
                    mutation,
                    #[trigger] children[c],
                ) by {
                    if c < done.len() {
                        assert(children[c] == done[c]);
                    }
                }
                assert forall|i: int| 0 <= i < k + 1 implies mutation.mutates(
                    &#[trigger] new_children[i],
                    &children[base.len() + i],
                ) by {
                    if i < k {
                        assert(children[base.len() + i] == done[base.len() + i]);
                    }
                }
            }
            k = k + 1;
        }
        proof {
            let more = cuts.push(children.len() as int);
            lemma_litters_stay(parent_pop@, crossover, mutation, base, children@, cuts, more);
            assert(litter_at(parent_pop@, crossover, mutation, children@, more, pair as int)) by {
                assert(more[pair as int] == base.len());
                assert(more[pair + 1] == children.len());
                assert(crossover.crosses(
                    &parent_pop@[parent_one as int].solution,
                    &parent_pop@[parent_two as int].solution,
                    Ok(new_children),
                ));
            }
            cuts = more;
        }
        pair = pair + 1;
    }
    Ok(children)
}

/// The winner of a tournament is one of its contenders.
proof fn lemma_winner_is_contender<T: Fn(usize, usize) -> bool>(beats: T, contenders: Seq<usize>)
    requires
        contenders.len() > 0,
    ensures
        contenders.contains(crate::selection::winner(beats, contenders)),
    decreases contenders.len(),
{
    if contenders.len() > 1 {
        lemma_winner_is_contender(beats, contenders.drop_last());
        let best = crate::selection::winner(beats, contenders.drop_last());
        let k = choose|k: int| 0 <= k < contenders.drop_last().len() && contenders.drop_last()[k] == best;
        assert(contenders[k] == best);
        assert(contenders[contenders.len() - 1] == contenders.last());
    } else {
        assert(contenders[0] == contenders[0]);
    }
}

/// The fitness of each member of a population.
pub open spec fn fitnesses<X: Clone>(pop: Seq<NSGAII_Solution<X>>) -> Seq<Fitness> {
    Seq::new(pop.len(), |p: int| pop[p].solution.fitness())
}

/// The front that each member of a population is ranked in.
pub open spec fn ranks_of<X: Clone>(pop: Seq<NSGAII_Solution<X>>) -> Seq<usize> {
    Seq::new(pop.len(), |p: int| pop[p].rank)
}

/// All members have been evaluated, to objective vectors of one length.
pub open spec fn all_comparable(fit: Seq<Fitness>) -> bool {
    forall|p: int, q: int| 0 <= p < fit.len() && 0 <= q < fit.len() ==> comparable(#[trigger] fit[p], #[trigger] fit[q])
}

/// Member `p` dominates member `q`.
pub open spec fn dom(fit: Seq<Fitness>, p: int, q: int) -> bool {
    fitness_dominates(fit[p], fit[q])
}

/// The number of members before `upto` that dominate member `q`.
pub open spec fn count_dominators(fit: Seq<Fitness>, q: int, upto: int) -> nat
    decreases upto,
{
    if upto <= 0 {
        0
    } else {
        count_dominators(fit, q, upto - 1) + if dom(fit, upto - 1, q) { 1nat } else { 0nat }
    }
}

/// `list` names the members that member `p` dominates, each once.
pub open spec fn lists_dominated(fit: Seq<Fitness>, p: int, list: Seq<usize>) -> bool {
    &&& list.no_duplicates()
    &&& forall|t: int| 0 <= t < list.len() ==> (#[trigger] list[t]) < fit.len() && dom(fit, p, list[t] as int)
    &&& forall|q: int| 0 <= q < fit.len() && dom(fit, p, q) ==> #[trigger] list.contains(q as usize)
}

/// For every member the members that it dominates, and the number of members that dominate
/// it.
fn domination_table<X: Clone>(pop: &Vec<NSGAII_Solution<X>>) -> (r: (Vec<Vec<usize>>, Vec<usize>))
    requires
        all_comparable(fitnesses(pop@)),
    ensures
        r.0.len() == pop.len(),
        r.1.len() == pop.len(),
        forall|p: int| 0 <= p < pop.len() ==> lists_dominated(fitnesses(pop@), p, (#[trigger] r.0[p])@),
        forall|p: int|
            0 <= p < pop.len() ==> (#[trigger] r.1[p]) == count_dominators(fitnesses(pop@), p, pop.len() as int),
{
    let ghost fit = fitnesses(pop@);
    let n = pop.len();
    let mut dominates: Vec<Vec<usize>> = Vec::new();
    let mut dom_counted: Vec<usize> = Vec::new();
    let mut p: usize = 0;
    while p < n
        invariant
            p <= n,
            n == pop.len(),
            fit == fitnesses(pop@),
            all_comparable(fit),
            dominates.len() == p,
            dom_counted.len() == p,
            forall|k: int| 0 <= k < p ==> lists_dominated(fit, k, (#[trigger] dominates[k])@),
            forall|k: int| 0 <= k < p ==> (#[trigger] dom_counted[k]) == count_dominators(fit, k, n as int),
        decreases n - p,
    {
        let mut p_dominates: Vec<usize> = Vec::new();
        let mut dom_count: usize = 0;
        let mut q: usize = 0;
        while q < n
            invariant
                q <= n,
                p < n,
                n == pop.len(),
                fit == fitnesses(pop@),
                all_comparable(fit),
                dom_count == count_dominators(fit, p as int, q as int),
                dom_count <= q,
                p_dominates@.no_duplicates(),
                forall|t: int|
                    0 <= t < p_dominates.len() ==> (#[trigger] p_dominates[t]) < q && dom(
                        fit,
                        p as int,
                        p_dominates[t] as int,
                    ),
                forall|k: int| 0 <= k < q && dom(fit, p as int, k) ==> #[trigger] p_dominates@.contains(k as usize),
            decreases n - q,
        {
            proof {
                assert(comparable(fit[p as int], fit[q as int]));
                lemma_dominance_asymmetric(fit[p as int], fit[q as int]);
            }
            let ghost before = p_dominates@;
            if pop[p].dominates(&pop[q]) {
                p_dominates.push(q);
                proof {
                    assert forall|k: int| 0 <= k < q + 1 && dom(fit, p as int, k) implies #[trigger] p_dominates@.contains(
                        k as usize,
                    ) by {
                        if k < q {
                            assert(before.contains(k as usize));
                            let t = choose|t: int| 0 <= t < before.len() && before[t] == k as usize;
                            assert(p_dominates@[t] == k as usize);
                        } else {
                            assert(p_dominates@[before.len() as int] == q);
                        }
                    }
                }
            } else {
                if pop[q].dominates(&pop[p]) {
                    dom_count = dom_count + 1;
                }
                proof {
                    assert forall|k: int| 0 <= k < q + 1 && dom(fit, p as int, k) implies #[trigger] p_dominates@.contains(
                        k as usize,
                    ) by {}
                }
            }
            q = q + 1;
        }
        dominates.push(p_dominates);
        dom_counted.push(dom_count);
        p = p + 1;
    }
    (dominates, dom_counted)
}

/// The number of members before `upto` that dominate member `q` and are not `processed`.
spec fn open_count(fit: Seq<Fitness>, processed: Seq<bool>, q: int, upto: int) -> nat
    decreases upto,
{
    if upto <= 0 {
        0
    } else {
        open_count(fit, processed, q, upto - 1) + if dom(fit, upto - 1, q) && !processed[upto - 1] {
            1nat
        } else {
            0nat
        }
    }
}

proof fn lemma_open_initial(fit: Seq<Fitness>, processed: Seq<bool>, q: int, upto: int)
    requires
        forall|p: int| 0 <= p < upto ==> !#[trigger] processed[p],
    ensures
        open_count(fit, processed, q, upto) == count_dominators(fit, q, upto),
    decreases upto,
{
    if upto > 0 {
        lemma_open_initial(fit, processed, q, upto - 1);
    }
}

proof fn lemma_open_mark(fit: Seq<Fitness>, processed: Seq<bool>, p: int, q: int, upto: int)
    requires
        0 <= p < processed.len(),
        upto <= processed.len(),
        !processed[p],
    ensures
        open_count(fit, processed.update(p, true), q, upto) + (if p < upto && dom(fit, p, q) {
            1nat
        } else {
            0nat
        }) == open_count(fit, processed, q, upto),
    decreases upto,
{
    if upto > 0 {
        lemma_open_mark(fit, processed, p, q, upto - 1);
    }
}

proof fn lemma_open_zero(fit: Seq<Fitness>, processed: Seq<bool>, q: int, upto: int, p: int)
    requires
        open_count(fit, processed, q, upto) == 0,
        0 <= p < upto,
        dom(fit, p, q),
    ensures
        processed[p],
    decreases upto,
{
    if p < upto - 1 {
        lemma_open_zero(fit, processed, q, upto - 1, p);
    }
}

proof fn lemma_open_positive(fit: Seq<Fitness>, processed: Seq<bool>, q: int, upto: int) -> (p: int)
    requires
        open_count(fit, processed, q, upto) > 0,
    ensures
        0 <= p < upto,
        dom(fit, p, q),
        !processed[p],
    decreases upto,
{
    if dom(fit, upto - 1, q) && !processed[upto - 1] {
        upto - 1
    } else {
        lemma_open_positive(fit, processed, q, upto - 1)
    }
}

/// A member has fewer dominators than a member that it dominates.
proof fn lemma_dominators_grow(fit: Seq<Fitness>, p: int, q: int, upto: int)
    requires
        all_comparable(fit),
        0 <= p < fit.len(),
        0 <= q < fit.len(),
        0 <= upto <= fit.len(),
        dom(fit, p, q),
    ensures
        count_dominators(fit, p, upto) <= count_dominators(fit, q, upto),
        p < upto ==> count_dominators(fit, p, upto) < count_dominators(fit, q, upto),
    decreases upto,
{
    if upto > 0 {
        lemma_dominators_grow(fit, p, q, upto - 1);
        let x = upto - 1;
        assert(comparable(fit[x], fit[p]) && comparable(fit[p], fit[q]));
        if dom(fit, x, p) {
            lemma_dominance_transitive(fit[x], fit[p], fit[q]);
        }
        if x == p {
            lemma_dominance_irreflexive(fit[p]);
        }
    }
}

/// Some member with the rank before that of `q` dominates `q`.
pub open spec fn has_parent_front(fit: Seq<Fitness>, rk: Seq<usize>, q: int) -> bool {
    exists|p: int| 0 <= p < fit.len() && dom(fit, p, q) && (#[trigger] rk[p]) + 1 == rk[q]
}

/// What holds of the ranks given so far, while the front `level` is worked through.
spec fn state_ok(
    fit: Seq<Fitness>,
    rk: Seq<usize>,
    counts: Seq<usize>,
    assigned: Seq<bool>,
    processed: Seq<bool>,
    level: int,
) -> bool {
    let n = fit.len();
    &&& rk.len() == n
    &&& counts.len() == n
    &&& assigned.len() == n
    &&& processed.len() == n
    &&& forall|q: int| 0 <= q < n ==> (#[trigger] assigned[q] <==> counts[q] == 0)
    &&& forall|q: int| 0 <= q < n && #[trigger] processed[q] ==> assigned[q] && rk[q] <= level
    &&& forall|q: int| 0 <= q < n && #[trigger] assigned[q] ==> rk[q] <= level + 1
    &&& forall|p: int, q: int|
        0 <= p < n && 0 <= q < n && #[trigger] dom(fit, p, q) && assigned[q] ==> assigned[p] && rk[p] < rk[q]
    &&& forall|q: int| 0 <= q < n && #[trigger] assigned[q] && rk[q] > 0 ==> has_parent_front(fit, rk, q)
}

/// `list` names members of front `k`, none twice.
spec fn front_ok(list: Seq<usize>, rk: Seq<usize>, assigned: Seq<bool>, k: int) -> bool {
    &&& list.no_duplicates()
    &&& forall|t: int|
        0 <= t < list.len() ==> (#[trigger] list[t]) < rk.len() && assigned[list[t] as int] && rk[list[t] as int] == k
}

/// `list` names every member that has been put into front `k`.
spec fn front_full(list: Seq<usize>, rk: Seq<usize>, assigned: Seq<bool>, k: int) -> bool {
    forall|q: int| 0 <= q < rk.len() && #[trigger] assigned[q] && rk[q] == k ==> list.contains(q as usize)
}

/// `front` holds a copy of each member that `list` names, in the order of `list`.
spec fn copies<X: Clone>(front: Seq<NSGAII_Solution<X>>, pop: Seq<NSGAII_Solution<X>>, list: Seq<usize>) -> bool {
    &&& front.len() == list.len()
    &&& forall|t: int| 0 <= t < list.len() ==> (#[trigger] front[t]).is_copy_of(&pop[list[t] as int])
}

/// `after` is `before` with other ranks for the members that are not marked in `assigned`.
spec fn reranked<X: Clone>(
    before: Seq<NSGAII_Solution<X>>,
    after: Seq<NSGAII_Solution<X>>,
    assigned: Seq<bool>,
) -> bool {
    &&& after.len() == before.len()
    &&& forall|q: int|
        0 <= q < before.len() ==> (#[trigger] after[q]).solution == before[q].solution && after[q].crowding_dist
            == before[q].crowding_dist && (assigned[q] ==> after[q].rank == before[q].rank)
}

proof fn lemma_reranked_keeps<X: Clone>(
    before: Seq<NSGAII_Solution<X>>,
    after: Seq<NSGAII_Solution<X>>,
    assigned: Seq<bool>,
    front: Seq<NSGAII_Solution<X>>,
    list: Seq<usize>,
    k: int,
)
    requires
        reranked(before, after, assigned),
        assigned.len() == before.len(),
        front_ok(list, ranks_of(before), assigned, k),
        copies(front, before, list),
    ensures
        copies(front, after, list),
        fitnesses(after) == fitnesses(before),
{
    assert(fitnesses(after) =~= fitnesses(before));
    assert forall|t: int| 0 <= t < list.len() implies (#[trigger] front[t]).is_copy_of(&after[list[t] as int]) by {
        let q = list[t] as int;
        assert(assigned[q]);
        assert(after[q].rank == before[q].rank);
        assert(front[t].is_copy_of(&before[q]));
    }
}

/// One more dominator of `q`, the member `p` of front `level`, has been worked through.
proof fn lemma_release_step(
    fit: Seq<Fitness>,
    rk: Seq<usize>,
    rk2: Seq<usize>,
    counts: Seq<usize>,
    counts2: Seq<usize>,
    assigned: Seq<bool>,
    assigned2: Seq<bool>,
    processed: Seq<bool>,
    level: int,
    p: int,
    q: int,
)
    requires
        state_ok(fit, rk, counts, assigned, processed, level),
        0 <= p < fit.len(),
        0 <= q < fit.len(),
        dom(fit, p, q),
        assigned[p],
        !processed[p],
        rk[p] == level,
        counts[q] >= 1,
        counts[q] == open_count(fit, processed, q, fit.len() as int),
        counts2 == counts.update(q, (counts[q] - 1) as usize),
        level + 1 <= usize::MAX,
        if counts2[q] == 0 {
            rk2 == rk.update(q, (level + 1) as usize) && assigned2 == assigned.update(q, true)
        } else {
            rk2 == rk && assigned2 == assigned
        },
    ensures
        state_ok(fit, rk2, counts2, assigned2, processed, level),
        !assigned[q],
{
    let n = fit.len() as int;
    assert(!assigned[q]);
    if counts2[q] == 0 {
        let marked = processed.update(p, true);
        lemma_open_mark(fit, processed, p, q, n);
        assert forall|x: int, y: int|
            0 <= x < n && 0 <= y < n && #[trigger] dom(fit, x, y) && assigned2[y] implies assigned2[x] && rk2[x]
            < rk2[y] by {
            if y == q {
                lemma_open_zero(fit, marked, q, n, x);
                if x != p {
                    assert(processed[x]);
                }
            } else {
                assert(assigned[y]);
                assert(assigned[x]);
            }
        }
        assert forall|y: int| 0 <= y < n && #[trigger] assigned2[y] && rk2[y] > 0 implies has_parent_front(
            fit,
            rk2,
            y,
        ) by {
            if y == q {
                assert(rk2[p] + 1 == rk2[q]);
            } else {
                assert(assigned[y]);
                assert(has_parent_front(fit, rk, y));
                let x = choose|x: int| 0 <= x < fit.len() && dom(fit, x, y) && (#[trigger] rk[x]) + 1 == rk[y];
                assert(assigned[x]);
                assert(rk2[x] + 1 == rk2[y]);
            }
        }
        assert forall|y: int| 0 <= y < n && #[trigger] processed[y] implies assigned2[y] && rk2[y] <= level by {
            assert(assigned[y]);
        }
    } else {
        assert forall|y: int| 0 <= y < n implies (#[trigger] assigned2[y] <==> counts2[y] == 0) by {}
    }
}

/// Works through member `p` of front `level`: every member that `p` dominates has one
/// dominator less to wait for, and joins the next front if it waits for none.
#[verifier::rlimit(60)]
#[verifier::spinoff_prover]
fn release<X: Clone>(
    pop: &mut Vec<NSGAII_Solution<X>>,
    dominated: &Vec<usize>,
    dom_counted: &mut Vec<usize>,
    level: usize,
    next_rank: &mut Vec<usize>,
    next_output: &mut Vec<NSGAII_Solution<X>>,
    Ghost(p): Ghost<int>,
    Ghost(assigned): Ghost<Seq<bool>>,
    Ghost(processed): Ghost<Seq<bool>>,
) -> (r: Ghost<Seq<bool>>)
    requires
        all_comparable(fitnesses(old(pop)@)),
        lists_dominated(fitnesses(old(pop)@), p, dominated@),
        0 <= p < old(pop).len(),
        assigned[p],
        !processed[p],
        old(pop)[p].rank == level,
        level < old(pop).len(),
        state_ok(fitnesses(old(pop)@), ranks_of(old(pop)@), old(dom_counted)@, assigned, processed, level as int),
        forall|q: int|
            0 <= q < old(pop).len() ==> (#[trigger] old(dom_counted)[q]) == open_count(
                fitnesses(old(pop)@),
                processed,
                q,
                old(pop).len() as int,
            ),
        front_ok(old(next_rank)@, ranks_of(old(pop)@), assigned, level + 1),
        front_full(old(next_rank)@, ranks_of(old(pop)@), assigned, level + 1),
        copies(old(next_output)@, old(pop)@, old(next_rank)@),
    ensures
        reranked(old(pop)@, final(pop)@, assigned),
        r@.len() == assigned.len(),
        forall|q: int| 0 <= q < assigned.len() && assigned[q] ==> #[trigger] r@[q],
        forall|q: int| 0 <= q < assigned.len() && #[trigger] r@[q] && !assigned[q] ==> final(pop)[q].rank == level + 1,
        state_ok(
            fitnesses(old(pop)@),
            ranks_of(final(pop)@),
            final(dom_counted)@,
            r@,
            processed.update(p, true),
            level as int,
        ),
        forall|q: int|
            0 <= q < old(pop).len() ==> (#[trigger] final(dom_counted)[q]) == open_count(
                fitnesses(old(pop)@),
                processed.update(p, true),
                q,
                old(pop).len() as int,
            ),
        front_ok(final(next_rank)@, ranks_of(final(pop)@), r@, level + 1),
        front_full(final(next_rank)@, ranks_of(final(pop)@), r@, level + 1),
        copies(final(next_output)@, final(pop)@, final(next_rank)@),
{
    let ghost fit = fitnesses(pop@);
    let ghost n = pop.len() as int;
    let ghost pop0 = pop@;
    let ghost mut marks = assigned;
    let mut t: usize = 0;
    while t < dominated.len()
        invariant
            t <= dominated.len(),
            n == pop.len(),
            n == fit.len(),
            pop0.len() == n,
            0 <= p < n,
            level < n,
            all_comparable(fit),
            lists_dominated(fit, p, dominated@),
            assigned.len() == n,
            assigned[p],
            !processed[p],
            pop[p].rank == level,
            reranked(pop0, pop@, assigned),
            marks.len() == n,
            forall|q: int| 0 <= q < n && assigned[q] ==> #[trigger] marks[q],
            forall|q: int| 0 <= q < n && #[trigger] marks[q] && !assigned[q] ==> pop[q].rank == level + 1,
            state_ok(fit, ranks_of(pop@), dom_counted@, marks, processed, level as int),
            forall|q: int|
                0 <= q < n ==> (#[trigger] dom_counted[q]) + (if dominated@.take(t as int).contains(q as usize) {
                    1int
                } else {
                    0int
                }) == open_count(fit, processed, q, n),
            front_ok(next_rank@, ranks_of(pop@), marks, level + 1),
            front_full(next_rank@, ranks_of(pop@), marks, level + 1),
            copies(next_output@, pop@, next_rank@),
        decreases dominated.len() - t,
    {
        let q = dominated[t];
        let ghost counts0 = dom_counted@;
        let ghost rk0 = ranks_of(pop@);
        let ghost marks0 = marks;
        let ghost pop1 = pop@;
        let ghost list0 = next_rank@;
        proof {
            assert(dom(fit, p, q as int));
            if dominated@.take(t as int).contains(q) {
                let e = choose|e: int| 0 <= e < t && dominated@.take(t as int)[e] == q;
                assert(dominated@[e] == dominated@[t as int]);
            }
            if open_count(fit, processed, q as int, n) == 0 {
                lemma_open_zero(fit, processed, q as int, n, p);
            }
            assert(dom_counted[q as int] >= 1);
        }
        dom_counted[q] = dom_counted[q] - 1;
        if dom_counted[q] == 0 {
            pop[q].rank = level + 1;
            next_rank.push(q);
            let copy = pop[q].clone();
            next_output.push(copy);
            proof {
                marks = marks0.update(q as int, true);
                assert(ranks_of(pop@) =~= rk0.update(q as int, (level + 1) as usize));
            }
        } else {
            proof {
                assert(ranks_of(pop@) =~= rk0);
            }
        }
        proof {
            lemma_release_step(
                fit,
                rk0,
                ranks_of(pop@),
                counts0,
                dom_counted@,
                marks0,
                marks,
                processed,
                level as int,
                p,
                q as int,
            );
            let rk = ranks_of(pop@);
            assert forall|x: int| 0 <= x < n implies (#[trigger] dom_counted[x]) + (if dominated@.take(
                t as int + 1,
            ).contains(x as usize) {
                1int
            } else {
                0int
            }) == open_count(fit, processed, x, n) by {
                let a = dominated@.take(t as int);
                let b = dominated@.take(t as int + 1);
                assert(b =~= a.push(q));
                if x == q {
                    assert(b[t as int] == q);
                } else {
                    if b.contains(x as usize) {
                        let e = choose|e: int| 0 <= e < b.len() && b[e] == x as usize;
                        assert(a[e] == x as usize);
                    }
                    if a.contains(x as usize) {
                        let e = choose|e: int| 0 <= e < a.len() && a[e] == x as usize;
                        assert(b[e] == x as usize);
                    }
                }
            }
            assert(reranked(pop0, pop@, assigned));
            // The next front, with `q` if it joined.
            assert forall|e: int| 0 <= e < next_rank@.len() implies (#[trigger] next_rank@[e]) < rk.len()
                && marks[next_rank@[e] as int] && rk[next_rank@[e] as int] == level + 1 by {
                if e < list0.len() {
                    assert(next_rank@[e] == list0[e]);
                    assert(marks0[list0[e] as int]);
                }
            }
            assert(next_rank@.no_duplicates()) by {
                assert forall|e: int, f: int|
                    0 <= e < next_rank@.len() && 0 <= f < next_rank@.len() && e != f implies next_rank@[e]
                    != next_rank@[f] by {
                    if e < list0.len() && f < list0.len() {
                        assert(list0[e] != list0[f]);
                    } else if e < list0.len() {
                        assert(marks0[list0[e] as int]);
                    } else {
                        assert(marks0[list0[f] as int]);
                    }
                }
            }
            assert forall|x: int| 0 <= x < rk.len() && #[trigger] marks[x] && rk[x] == level + 1 implies next_rank@.contains(
                x as usize,
            ) by {
                if marks0[x] {
                    assert(rk0[x] == level + 1);
                    assert(list0.contains(x as usize));
                    let e = choose|e: int| 0 <= e < list0.len() && list0[e] == x as usize;
                    assert(next_rank@[e] == x as usize);
                } else {
                    assert(x == q);
                    assert(next_rank@[list0.len() as int] == q);
                }
            }
            assert forall|e: int| 0 <= e < next_rank@.len() implies (#[trigger] next_output@[e]).is_copy_of(
                &pop@[next_rank@[e] as int],
            ) by {
                if e < list0.len() {
                    assert(marks0[list0[e] as int]);
                    assert(list0[e] != q);
                    assert(pop@[list0[e] as int] == pop1[list0[e] as int]);
                }
            }
        }
        t = t + 1;
    }
    proof {
        let done = processed.update(p, true);
        assert(dominated@.take(dominated.len() as int) =~= dominated@);
        assert forall|q: int| 0 <= q < n implies (#[trigger] dom_counted[q]) == open_count(fit, done, q, n) by {
            lemma_open_mark(fit, processed, p, q, n);
            if dom(fit, p, q) {
                assert(dominated@.contains(q as usize));
            }
            if dominated@.contains(q as usize) {
                let e = choose|e: int| 0 <= e < dominated@.len() && dominated@[e] == q as usize;
                assert(dom(fit, p, dominated@[e] as int));
            }
        }
        let rk = ranks_of(pop@);
        assert forall|y: int| 0 <= y < n && #[trigger] done[y] implies marks[y] && rk[y] <= level by {
            if y != p {
                assert(processed[y]);
            }
        }
    }
    Ghost(marks)
}

/// `front` holds a copy of each member of `pop` with rank `k`, once; `members` names them in
/// the order of `front`.
pub open spec fn is_front<X: Clone>(
    front: Seq<NSGAII_Solution<X>>,
    pop: Seq<NSGAII_Solution<X>>,
    k: int,
    members: Seq<usize>,
) -> bool {
    &&& front.len() == members.len()
    &&& members.no_duplicates()
    &&& forall|t: int|
        0 <= t < members.len() ==> (#[trigger] members[t]) < pop.len() && pop[members[t] as int].rank == k
            && front[t].is_copy_of(&pop[members[t] as int])
    &&& forall|q: int| 0 <= q < pop.len() && (#[trigger] pop[q]).rank == k ==> members.contains(q as usize)
}

/// `front` is the front of rank `k` of `pop`.
pub open spec fn lists_front<X: Clone>(front: Seq<NSGAII_Solution<X>>, pop: Seq<NSGAII_Solution<X>>, k: int) -> bool {
    exists|members: Seq<usize>| is_front(front, pop, k, members)
}

/// The fronts built so far are what they should be.
spec fn fronts_ok<X: Clone>(
    ranks: Seq<Vec<usize>>,
    output: Seq<Vec<NSGAII_Solution<X>>>,
    pop: Seq<NSGAII_Solution<X>>,
    assigned: Seq<bool>,
) -> bool {
    &&& ranks.len() == output.len()
    &&& forall|k: int|
        0 <= k < ranks.len() ==> front_ok((#[trigger] ranks[k])@, ranks_of(pop), assigned, k) && front_full(
            ranks[k]@,
            ranks_of(pop),
            assigned,
            k,
        ) && copies(output[k]@, pop, ranks[k]@)
}

/// Fronts stay what they are when members that had no rank are given the rank `next`,
/// which is none of theirs.
proof fn lemma_fronts_stay<X: Clone>(
    ranks: Seq<Vec<usize>>,
    output: Seq<Vec<NSGAII_Solution<X>>>,
    before: Seq<NSGAII_Solution<X>>,
    after: Seq<NSGAII_Solution<X>>,
    assigned: Seq<bool>,
    assigned2: Seq<bool>,
    next: int,
)
    requires
        fronts_ok(ranks, output, before, assigned),
        reranked(before, after, assigned),
        assigned.len() == before.len(),
        assigned2.len() == before.len(),
        forall|q: int| 0 <= q < assigned.len() && assigned[q] ==> #[trigger] assigned2[q],
        forall|q: int| 0 <= q < assigned.len() && #[trigger] assigned2[q] && !assigned[q] ==> after[q].rank == next,
        next >= ranks.len(),
    ensures
        fronts_ok(ranks, output, after, assigned2),
{
    let rk = ranks_of(before);
    let rk2 = ranks_of(after);
    assert forall|k: int| 0 <= k < ranks.len() implies front_ok((#[trigger] ranks[k])@, rk2, assigned2, k)
        && front_full(ranks[k]@, rk2, assigned2, k) && copies(output[k]@, after, ranks[k]@) by {
        let list = ranks[k]@;
        lemma_reranked_keeps(before, after, assigned, output[k]@, list, k);
        assert forall|t: int| 0 <= t < list.len() implies (#[trigger] list[t]) < rk2.len() && assigned2[list[t] as int]
            && rk2[list[t] as int] == k by {
            assert(assigned[list[t] as int]);
        }
        assert forall|q: int| 0 <= q < rk2.len() && #[trigger] assigned2[q] && rk2[q] == k implies list.contains(
            q as usize,
        ) by {
            if assigned[q] {
                assert(rk[q] == k);
            }
        }
    }
}

/// If every member without a rank is dominated by a member without a rank, every member has
/// a rank.
proof fn lemma_all_assigned(fit: Seq<Fitness>, assigned: Seq<bool>, bound: nat)
    requires
        all_comparable(fit),
        assigned.len() == fit.len(),
        forall|q: int| 0 <= q < fit.len() && !assigned[q] ==> #[trigger] waits(fit, assigned, q),
    ensures
        forall|q: int|
            0 <= q < fit.len() && count_dominators(fit, q, fit.len() as int) < bound ==> #[trigger] assigned[q],
    decreases bound,
{
    if bound > 0 {
        lemma_all_assigned(fit, assigned, (bound - 1) as nat);
        assert forall|q: int|
            0 <= q < fit.len() && count_dominators(fit, q, fit.len() as int) < bound implies #[trigger] assigned[q] by {
            if !assigned[q] {
                assert(waits(fit, assigned, q));
                let p = choose|p: int| 0 <= p < fit.len() && !assigned[p] && dom(fit, p, q);
                lemma_dominators_grow(fit, p, q, fit.len() as int);
                assert(assigned[p]);
            }
        }
    }
}

/// A member without a rank dominates `q`.
spec fn waits(fit: Seq<Fitness>, assigned: Seq<bool>, q: int) -> bool {
    exists|p: int| 0 <= p < fit.len() && !assigned[p] && dom(fit, p, q)
}

/// `n` marks, none of them set.
spec fn no_marks(n: nat) -> Seq<bool> {
    Seq::new(n, |q: int| false)
}

/// The members of `pop` with a rank below `upto`.
spec fn ranked_below<X: Clone>(pop: Seq<NSGAII_Solution<X>>, upto: int) -> Set<int> {
    Set::new(|q: int| 0 <= q < pop.len() && pop[q].rank < upto)
}

/// The members of `pop` with the rank `k`.
spec fn ranked_at<X: Clone>(pop: Seq<NSGAII_Solution<X>>, k: int) -> Set<int> {
    Set::new(|q: int| 0 <= q < pop.len() && pop[q].rank == k)
}

/// A front has as many members as the population has members of its rank.
proof fn lemma_front_len<X: Clone>(front: Seq<NSGAII_Solution<X>>, pop: Seq<NSGAII_Solution<X>>, k: int)
    requires
        lists_front(front, pop, k),
        pop.len() <= usize::MAX,
    ensures
        ranked_at(pop, k).finite(),
        front.len() == ranked_at(pop, k).len(),
{
    let members = choose|members: Seq<usize>| is_front(front, pop, k, members);
    let places = Seq::new(members.len(), |t: int| members[t] as int);
    assert(places.no_duplicates()) by {
        assert forall|a: int, b: int| 0 <= a < places.len() && 0 <= b < places.len() && a != b implies places[a]
            != places[b] by {
            assert(members[a] != members[b]);
        }
    }
    places.unique_seq_to_set();
    assert(places.to_set() =~= ranked_at(pop, k)) by {
        assert forall|q: int| ranked_at(pop, k).contains(q) implies places.to_set().contains(q) by {
            assert(members.contains(q as usize));
            let t = choose|t: int| 0 <= t < members.len() && members[t] == q as usize;
            assert(places[t] == q);
        }
        assert forall|q: int| places.to_set().contains(q) implies ranked_at(pop, k).contains(q) by {
            let t = choose|t: int| 0 <= t < places.len() && places[t] == q;
            assert(members[t] < pop.len());
        }
    }
    vstd::set_lib::lemma_int_range(0, pop.len() as int);
    vstd::set_lib::lemma_len_subset(ranked_at(pop, k), vstd::set_lib::set_int_range(0, pop.len() as int));
}

/// The first fronts hold together as many members as the population has of their ranks.
proof fn lemma_fronts_len<X: Clone>(fronts: Seq<Vec<NSGAII_Solution<X>>>, pop: Seq<NSGAII_Solution<X>>, upto: int)
    requires
        0 <= upto <= fronts.len(),
        pop.len() <= usize::MAX,
        forall|k: int| 0 <= k < fronts.len() ==> lists_front((#[trigger] fronts[k])@, pop, k),
    ensures
        ranked_below(pop, upto).finite(),
        members_upto(fronts, upto) == ranked_below(pop, upto).len(),
    decreases upto,
{
    vstd::set_lib::lemma_int_range(0, pop.len() as int);
    vstd::set_lib::lemma_len_subset(ranked_below(pop, upto), vstd::set_lib::set_int_range(0, pop.len() as int));
    if upto <= 0 {
        assert(ranked_below(pop, upto) =~= Set::<int>::empty());
    } else {
        lemma_fronts_len(fronts, pop, upto - 1);
        assert(lists_front(fronts[upto - 1]@, pop, upto - 1));
        lemma_front_len(fronts[upto - 1]@, pop, upto - 1);
        let a = ranked_below(pop, upto - 1);
        let b = ranked_at(pop, upto - 1);
        assert(a.disjoint(b));
        assert(a + b =~= ranked_below(pop, upto));
        vstd::set_lib::lemma_set_disjoint_lens(a, b);
    }
}

/// Fronts that list every rank of a population hold all its members.
pub proof fn lemma_fronts_hold_all<X: Clone>(fronts: Seq<Vec<NSGAII_Solution<X>>>, pop: Seq<NSGAII_Solution<X>>)
    requires
        pop.len() <= usize::MAX,
        forall|k: int| 0 <= k < fronts.len() ==> lists_front((#[trigger] fronts[k])@, pop, k),
        forall|q: int| 0 <= q < pop.len() ==> (#[trigger] pop[q]).rank < fronts.len(),
    ensures
        members_upto(fronts, fronts.len() as int) == pop.len(),
{
    lemma_fronts_len(fronts, pop, fronts.len() as int);
    vstd::set_lib::lemma_int_range(0, pop.len() as int);
    assert(ranked_below(pop, fronts.len() as int) =~= vstd::set_lib::set_int_range(0, pop.len() as int));
}

/// Sorts a population into fronts.
///
/// Front 0 holds the members that nothing dominates, front `k + 1` the members that only
/// members of the fronts up to `k` dominate, one of front `k` among them. Every member is
/// given the number of its front as its rank, and the result holds, front by front, a copy
/// of each member. The last front of the result is empty.
pub fn fast_nondominated_sort<X: Clone>(pop: &mut Vec<NSGAII_Solution<X>>) -> (output: Vec<
    Vec<NSGAII_Solution<X>>,
>)
    requires
        all_comparable(fitnesses(old(pop)@)),
    ensures
        final(pop).len() == old(pop).len(),
        forall|q: int|
            0 <= q < old(pop).len() ==> (#[trigger] final(pop)[q]).solution == old(pop)[q].solution
                && final(pop)[q].crowding_dist == old(pop)[q].crowding_dist,
        output.len() >= 1,
        output[output.len() - 1].len() == 0,
        forall|k: int| 0 <= k < output.len() - 1 ==> (#[trigger] output[k]).len() > 0,
        forall|k: int| 0 <= k < output.len() ==> lists_front((#[trigger] output[k])@, final(pop)@, k),
        forall|q: int| 0 <= q < final(pop).len() ==> (#[trigger] final(pop)[q]).rank < output.len() - 1,
        forall|p: int, q: int|
            0 <= p < old(pop).len() && 0 <= q < old(pop).len() && #[trigger] dom(fitnesses(old(pop)@), p, q)
                ==> final(pop)[p].rank < final(pop)[q].rank,
        forall|q: int|
            0 <= q < final(pop).len() && (#[trigger] final(pop)[q]).rank > 0 ==> has_parent_front(
                fitnesses(old(pop)@),
                ranks_of(final(pop)@),
                q,
            ),
        forall|p: int, q: int|
            0 <= p < old(pop).len() && 0 <= q < old(pop).len() && final(pop)[p].rank == final(pop)[q].rank
                ==> !#[trigger] dom(fitnesses(old(pop)@), p, q),
        members_upto(output@, output.len() as int) == old(pop).len(),
{
    let (dominates, mut dom_counted) = domination_table(pop);
    let n = pop.len();
    let ghost fit = fitnesses(pop@);
    let ghost pop0 = pop@;
    let ghost mut assigned: Seq<bool> = no_marks(n as nat);

    // The first front: the members that nothing dominates.
    let mut first_rank: Vec<usize> = Vec::new();
    let mut first_output: Vec<NSGAII_Solution<X>> = Vec::new();
    let mut p: usize = 0;
    while p < n
        invariant
            p <= n,
            n == pop.len(),
            n == fit.len(),
            pop0.len() == n,
            dom_counted.len() == n,
            reranked(pop0, pop@, no_marks(n as nat)),
            assigned.len() == n,
            forall|q: int| 0 <= q < p ==> (#[trigger] assigned[q] <==> dom_counted[q] == 0),
            forall|q: int| p <= q < n ==> !#[trigger] assigned[q],
            forall|q: int| 0 <= q < n && #[trigger] assigned[q] ==> pop[q].rank == 0,
            front_ok(first_rank@, ranks_of(pop@), assigned, 0),
            front_full(first_rank@, ranks_of(pop@), assigned, 0),
            copies(first_output@, pop@, first_rank@),
        decreases n - p,
    {
        if dom_counted[p] == 0 {
            let ghost list0 = first_rank@;
            let ghost pop1 = pop@;
            let ghost a0 = assigned;
            pop[p].rank = 0;
            first_rank.push(p);
            let copy = pop[p].clone();
            first_output.push(copy);
            proof {
                assigned = a0.update(p as int, true);
                let rk = ranks_of(pop@);
                assert forall|e: int| 0 <= e < first_rank@.len() implies (#[trigger] first_rank@[e]) < rk.len()
                    && assigned[first_rank@[e] as int] && rk[first_rank@[e] as int] == 0 by {
                    if e < list0.len() {
                        assert(first_rank@[e] == list0[e]);
                        assert(a0[list0[e] as int]);
                    }
                }
                assert(first_rank@.no_duplicates()) by {
                    assert forall|e: int, f: int|
                        0 <= e < first_rank@.len() && 0 <= f < first_rank@.len() && e != f implies first_rank@[e]
                        != first_rank@[f] by {
                        if e < list0.len() && f < list0.len() {
                            assert(list0[e] != list0[f]);
                        } else if e < list0.len() {
                            assert(a0[list0[e] as int]);
                        } else {
                            assert(a0[list0[f] as int]);
                        }
                    }
                }
                assert forall|x: int| 0 <= x < rk.len() && #[trigger] assigned[x] && rk[x] == 0 implies first_rank@.contains(
                    x as usize,
                ) by {
                    if a0[x] {
                        assert(ranks_of(pop1)[x] == 0);
                        assert(list0.contains(x as usize));
                        let e = choose|e: int| 0 <= e < list0.len() && list0[e] == x as usize;
                        assert(first_rank@[e] == x as usize);
                    } else {
                        assert(first_rank@[list0.len() as int] == p);
                    }
                }
                assert forall|e: int| 0 <= e < first_rank@.len() implies (#[trigger] first_output@[e]).is_copy_of(
                    &pop@[first_rank@[e] as int],
                ) by {
                    if e < list0.len() {
                        assert(a0[list0[e] as int]);
                        assert(pop@[list0[e] as int] == pop1[list0[e] as int]);
                    }
                }
            }
        }
        p = p + 1;
    }

    let mut ranks: Vec<Vec<usize>> = Vec::new();
    ranks.push(first_rank);
    let mut output: Vec<Vec<NSGAII_Solution<X>>> = Vec::new();
    output.push(first_output);
    let ghost mut processed: Seq<bool> = no_marks(n as nat);
    let mut i: usize = 0;

    proof {
        assert(fitnesses(pop@) =~= fit);
        let rk = ranks_of(pop@);
        assert forall|q: int| 0 <= q < n implies (#[trigger] dom_counted[q]) == open_count(fit, processed, q, n as int) by {
            lemma_open_initial(fit, processed, q, n as int);
        }
        assert forall|x: int, y: int|
            0 <= x < n && 0 <= y < n && #[trigger] dom(fit, x, y) && assigned[y] implies assigned[x] && rk[x] < rk[y] by {
            lemma_open_zero(fit, processed, y, n as int, x);
        }
        lemma_count_true_all(processed);
    }

    while ranks[i].len() > 0
        invariant
            n == pop.len(),
            n == fit.len(),
            pop0.len() == n,
            fit == fitnesses(pop@),
            all_comparable(fit),
            dominates.len() == n,
            forall|k: int| 0 <= k < n ==> lists_dominated(fit, k, (#[trigger] dominates[k])@),
            reranked(pop0, pop@, no_marks(n as nat)),
            ranks.len() == i + 1,
            output.len() == i + 1,
            fronts_ok(ranks@, output@, pop@, assigned),
            forall|k: int| 0 <= k < i ==> (#[trigger] ranks[k]).len() > 0,
            state_ok(fit, ranks_of(pop@), dom_counted@, assigned, processed, i as int),
            forall|q: int| 0 <= q < n ==> (#[trigger] dom_counted[q]) == open_count(fit, processed, q, n as int),
            forall|q: int| 0 <= q < n && #[trigger] assigned[q] ==> pop[q].rank <= i,
            forall|q: int| 0 <= q < n ==> (#[trigger] processed[q] <==> assigned[q] && pop[q].rank < i),
            i <= count_true(processed),
            count_true(processed) <= n,
        decreases n - count_true(processed),
    {
        let mut next_rank: Vec<usize> = Vec::new();
        let mut next_output: Vec<NSGAII_Solution<X>> = Vec::new();
        let ghost processed_in = processed;
        let ghost assigned_in = assigned;
        let mut s: usize = 0;
        while s < ranks[i].len()
            invariant
                s <= ranks[i as int].len(),
                n == pop.len(),
                n == fit.len(),
                pop0.len() == n,
                fit == fitnesses(pop@),
                all_comparable(fit),
                dominates.len() == n,
                forall|k: int| 0 <= k < n ==> lists_dominated(fit, k, (#[trigger] dominates[k])@),
                reranked(pop0, pop@, no_marks(n as nat)),
                ranks.len() == i + 1,
                output.len() == i + 1,
                fronts_ok(ranks@, output@, pop@, assigned),
                state_ok(fit, ranks_of(pop@), dom_counted@, assigned, processed, i as int),
                forall|q: int| 0 <= q < n ==> (#[trigger] dom_counted[q]) == open_count(fit, processed, q, n as int),
                assigned_in.len() == n,
                forall|q: int| 0 <= q < n && assigned_in[q] ==> #[trigger] assigned[q] && pop[q].rank <= i,
                forall|q: int| 0 <= q < n && #[trigger] assigned[q] && !assigned_in[q] ==> pop[q].rank == i + 1,
                forall|q: int|
                    0 <= q < n ==> (#[trigger] processed[q] <==> (assigned[q] && pop[q].rank < i) || ranks[i as int]@.take(
                        s as int,
                    ).contains(q as usize)),
                count_true(processed) == count_true(processed_in) + s,
                i <= count_true(processed_in),
                count_true(processed) <= n,
                front_ok(next_rank@, ranks_of(pop@), assigned, i + 1),
                front_full(next_rank@, ranks_of(pop@), assigned, i + 1),
                copies(next_output@, pop@, next_rank@),
            decreases ranks[i as int].len() - s,
        {
            let p = ranks[i][s];
            let ghost list = ranks[i as int]@;
            let ghost pop1 = pop@;
            let ghost a0 = assigned;
            let ghost done0 = processed;
            proof {
                assert(front_ok(ranks@[i as int]@, ranks_of(pop@), assigned, i as int));
                assert(list[s as int] == p);
                assert(assigned[p as int] && pop[p as int].rank == i);
                if list.take(s as int).contains(p) {
                    let e = choose|e: int| 0 <= e < s && list.take(s as int)[e] == p;
                    assert(list[e] == list[s as int]);
                }
                assert(!processed[p as int]);
                lemma_count_true_gap(processed, p as int);
                lemma_count_true_mark(processed, p as int);
            }
            let marks = release(
                pop,
                &dominates[p],
                &mut dom_counted,
                i,
                &mut next_rank,
                &mut next_output,
                Ghost(p as int),
                Ghost(assigned),
                Ghost(processed),
            );
            proof {
                assigned = marks@;
                processed = done0.update(p as int, true);
                lemma_fronts_stay(ranks@, output@, pop1, pop@, a0, assigned, i + 1);
                assert(fitnesses(pop@) =~= fit);
                assert forall|q: int| 0 <= q < n implies (#[trigger] processed[q] <==> (assigned[q] && pop[q].rank < i)
                    || list.take(s as int + 1).contains(q as usize)) by {
                    let a = list.take(s as int);
                    let b = list.take(s as int + 1);
                    assert(b =~= a.push(p));
                    if q == p {
                        assert(b[s as int] == p);
                    } else {
                        assert(processed[q] == done0[q]);
                        if a0[q] {
                            assert(pop@[q].rank == pop1[q].rank);
                        }
                        if b.contains(q as usize) {
                            let e = choose|e: int| 0 <= e < b.len() && b[e] == q as usize;
                            assert(a[e] == q as usize);
                        }
                        if a.contains(q as usize) {
                            let e = choose|e: int| 0 <= e < a.len() && a[e] == q as usize;
                            assert(b[e] == q as usize);
                        }
                    }
                }
                assert forall|q: int| 0 <= q < n && assigned_in[q] implies #[trigger] assigned[q] && pop[q].rank <= i by {
                    assert(a0[q]);
                    assert(pop@[q].rank == pop1[q].rank);
                }
                assert forall|q: int| 0 <= q < n && #[trigger] assigned[q] && !assigned_in[q] implies pop[q].rank == i
                    + 1 by {
                    if a0[q] {
                        assert(pop@[q].rank == pop1[q].rank);
                    }
                }
                assert(reranked(pop0, pop@, no_marks(n as nat)));
            }
            s = s + 1;
        }
        proof {
            let list = ranks[i as int]@;
            assert(list.take(list.len() as int) =~= list);
            assert(front_full(ranks@[i as int]@, ranks_of(pop@), assigned, i as int));
            assert forall|q: int| 0 <= q < n implies (#[trigger] processed[q] <==> assigned[q] && pop[q].rank < i + 1) by {
                if assigned[q] && pop[q].rank == i {
                    assert(list.contains(q as usize));
                }
                if list.contains(q as usize) {
                    let e = choose|e: int| 0 <= e < list.len() && list[e] == q as usize;
                    assert(assigned[list[e] as int]);
                }
            }
            assert forall|q: int| 0 <= q < n && #[trigger] assigned[q] implies pop[q].rank <= i + 1 by {
                if assigned_in[q] {
                }
            }
        }
        let ghost ranks0 = ranks@;
        let ghost output0 = output@;
        i = i + 1;
        ranks.push(next_rank);
        output.push(next_output);
        proof {
            assert forall|k: int| 0 <= k < ranks@.len() implies front_ok(
                (#[trigger] ranks@[k])@,
                ranks_of(pop@),
                assigned,
                k,
            ) && front_full(ranks@[k]@, ranks_of(pop@), assigned, k) && copies(output@[k]@, pop@, ranks@[k]@) by {
                if k < ranks0.len() {
                    assert(ranks@[k] == ranks0[k]);
                    assert(output@[k] == output0[k]);
                }
            }
            assert forall|k: int| 0 <= k < i implies (#[trigger] ranks[k]).len() > 0 by {
                assert(ranks@[k] == ranks0[k]);
            }
        }
    }

    proof {
        let rk = ranks_of(pop@);
        assert(front_full(ranks@[i as int]@, rk, assigned, i as int));
        assert forall|k: int| 0 <= k < output.len() - 1 implies (#[trigger] output[k]).len() > 0 by {
            assert(ranks[k].len() > 0);
            assert(copies(output@[k]@, pop@, ranks@[k]@));
        }
        // Every member has a rank.
        assert forall|q: int| 0 <= q < n && !assigned[q] implies #[trigger] waits(fit, assigned, q) by {
            assert(dom_counted[q] != 0);
            let x = lemma_open_positive(fit, processed, q, n as int);
            if assigned[x] {
                if pop[x].rank == i {
                    assert(ranks@[i as int]@.contains(x as usize));
                }
                assert(processed[x]);
            }
        }
        assert forall|q: int| 0 <= q < n implies #[trigger] assigned[q] by {
            lemma_all_assigned(fit, assigned, count_dominators(fit, q, n as int) + 1);
        }
        assert forall|q: int| 0 <= q < n implies (#[trigger] pop[q]).rank < i by {
            assert(assigned[q]);
            if pop[q].rank == i {
                assert(ranks@[i as int]@.contains(q as usize));
            }
        }
        assert forall|k: int| 0 <= k < output.len() implies lists_front((#[trigger] output[k])@, pop@, k) by {
            let members = ranks@[k]@;
            assert(front_ok(members, rk, assigned, k));
            assert(front_full(members, rk, assigned, k));
            assert(copies(output@[k]@, pop@, members));
            assert forall|x: int| 0 <= x < pop.len() && (#[trigger] pop@[x]).rank == k implies members.contains(
                x as usize,
            ) by {
                assert(assigned[x]);
                assert(rk[x] == k);
            }
            assert forall|t: int| 0 <= t < members.len() implies (#[trigger] members[t]) < pop@.len()
                && pop@[members[t] as int].rank == k && output@[k]@[t].is_copy_of(&pop@[members[t] as int]) by {
                assert(rk[members[t] as int] == k);
            }
            assert(is_front(output[k]@, pop@, k, members));
        }
        assert forall|x: int, y: int|
            0 <= x < n && 0 <= y < n && #[trigger] dom(fit, x, y) implies pop[x].rank < pop[y].rank by {
            assert(assigned[y]);
            assert(rk[x] < rk[y]);
        }
        assert forall|q: int| 0 <= q < n && (#[trigger] pop[q]).rank > 0 implies has_parent_front(fit, rk, q) by {
            assert(assigned[q]);
            assert(rk[q] > 0);
        }
        lemma_fronts_hold_all(output@, pop@);
    }
    output
}

} // verus!
