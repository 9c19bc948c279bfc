use vstd::prelude::*;
use crate::error::OperatorError;
use crate::marks::{count_true, lemma_count_true_all, lemma_count_true_mark};
use crate::random::{gen_range, thread_rng};

verus! {

/// `beats` can be asked about `a` and `b`, and gives one answer.
pub open spec fn judges<T: Fn(usize, usize) -> bool>(beats: T, a: usize, b: usize) -> bool {
    &&& call_requires(beats, (a, b))
    &&& !(call_ensures(beats, (a, b), true) && call_ensures(beats, (a, b), false))
}

/// The winner among `contenders`: the first, unless one further down beats the winner among
/// those before it.
pub open spec fn winner<T: Fn(usize, usize) -> bool>(beats: T, contenders: Seq<usize>) -> usize
    decreases contenders.len(),
{
    if contenders.len() <= 1 {
        contenders[0]
    } else {
        let best = winner(beats, contenders.drop_last());
        if call_ensures(beats, (contenders.last(), best), true) {
            contenders.last()
        } else {
            best
        }
    }
}

/// The number of marks below `x` that are not set.
pub open spec fn clear_below(marks: Seq<bool>, x: int) -> int {
    x - count_true(marks.take(x))
}

pub(crate) proof fn lemma_clear_step(marks: Seq<bool>, x: int)
    requires
        0 <= x < marks.len(),
    ensures
        clear_below(marks, x + 1) == clear_below(marks, x) + if marks[x] { 0int } else { 1int },
{
    assert(marks.take(x + 1).drop_last() =~= marks.take(x));
}

/// The place of the `r`-th mark that is not set.
pub(crate) fn nth_clear(marks: &Vec<bool>, r: usize) -> (x: usize)
    requires
        r < marks.len() - count_true(marks@),
    ensures
        x < marks.len(),
        !marks[x as int],
        clear_below(marks@, x as int) == r,
{
    let mut seen: usize = 0;
    let mut i: usize = 0;
    proof {
        assert(marks@.take(0) =~= Seq::<bool>::empty());
    }
    while i < marks.len()
        invariant
            i <= marks.len(),
            seen == clear_below(marks@, i as int),
            seen <= r,
            r < marks.len() - count_true(marks@),
        decreases marks.len() - i,
    {
        proof {
            lemma_clear_step(marks@, i as int);
        }
        if !marks[i] {
            if seen == r {
                return i;
            }
            seen = seen + 1;
        }
        i = i + 1;
    }
    proof {
        assert(marks@.take(marks.len() as int) =~= marks@);
    }
    unreached()
}

/// Tournament selection among the members of a population, who are known by their places.
pub struct TournamentSelection<T> where T: Fn(usize, usize) -> bool {
    pub beats: T,
    pub pop_size: usize,
}

impl<T> TournamentSelection<T> where T: Fn(usize, usize) -> bool {
    pub fn new(pop_size: usize, beats: T) -> (r: Self)
        ensures
            r.pop_size == pop_size,
            r.beats == beats,
    {
        TournamentSelection { beats, pop_size }
    }

    /// `beats` can be asked about any two members, and gives one answer.
    pub open spec fn wf(&self) -> bool {
        forall|a: usize, b: usize| a < self.pop_size && b < self.pop_size ==> #[trigger] judges(self.beats, a, b)
    }

    /// The winner among `contenders`.
    pub fn best_of(&self, contenders: &Vec<usize>) -> (r: usize)
        requires
            self.wf(),
            contenders.len() > 0,
            forall|i: int| 0 <= i < contenders.len() ==> #[trigger] contenders[i] < self.pop_size,
        ensures
            r == winner(self.beats, contenders@),
            contenders@.contains(r),
    {
        let mut curr_best = contenders[0];
        let mut i: usize = 1;
        proof {
            assert(contenders@.take(1).len() == 1);
            assert(contenders@.take(1)[0] == contenders[0]);
        }
        while i < contenders.len()
            invariant
                1 <= i <= contenders.len(),
                self.wf(),
                forall|k: int| 0 <= k < contenders.len() ==> #[trigger] contenders[k] < self.pop_size,
                curr_best == winner(self.beats, contenders@.take(i as int)),
                contenders@.contains(curr_best),
            decreases contenders.len() - i,
        {
            let contender = contenders[i];
            proof {
                assert(judges(self.beats, contender, curr_best));
                assert(contenders@.take(i as int + 1).drop_last() =~= contenders@.take(i as int));
                assert(contenders@.take(i as int + 1).last() == contender);
            }
            if (self.beats)(contender, curr_best) {
                curr_best = contender;
            }
            i = i + 1;
        }
        proof {
            assert(contenders@.take(contenders.len() as int) =~= contenders@);
        }
        curr_best
    }

    /// The winner of a tournament among `tournament_size` members drawn at random, no member
    /// twice. A tournament of no member is refused.
    pub fn tournament(&self, tournament_size: usize) -> (r: Result<usize, OperatorError>)
        requires
            self.wf(),
            tournament_size <= self.pop_size,
        ensures
            tournament_size == 0 <==> r is Err,
            r is Err ==> r == Err::<usize, OperatorError>(OperatorError::InvalidArgument),
            r matches Ok(best) ==> exists|contenders: Seq<usize>|
                {
                    &&& #[trigger] contenders.len() == tournament_size
                    &&& contenders.no_duplicates()
                    &&& forall|i: int| 0 <= i < contenders.len() ==> #[trigger] contenders[i] < self.pop_size
                    &&& best == winner(self.beats, contenders)
                },
    {
        if tournament_size == 0 {
            return Err(OperatorError::InvalidArgument);
        }
        let mut rng = thread_rng();
        let mut taken: Vec<bool> = Vec::new();
        let mut i: usize = 0;
        while i < self.pop_size
            invariant
                i <= self.pop_size,
                taken.len() == i,
                forall|k: int| 0 <= k < i ==> !#[trigger] taken[k],
            decreases self.pop_size - i,
        {
            taken.push(false);
            i = i + 1;
        }
        let mut contenders: Vec<usize> = Vec::new();
        proof {
            lemma_count_true_all(taken@);
        }
        while contenders.len() < tournament_size
            invariant
                contenders.len() <= tournament_size,
                tournament_size <= self.pop_size,
                taken.len() == self.pop_size,
                count_true(taken@) == contenders.len(),
                contenders@.no_duplicates(),
                forall|k: int| 0 <= k < contenders.len() ==> #[trigger] contenders[k] < self.pop_size && taken[contenders[k] as int],
            decreases tournament_size - contenders.len(),
        {
            // One of the members not drawn yet, each with the same chance.
            let r = gen_range(&mut rng, 0, self.pop_size - contenders.len());
            let contender = nth_clear(&taken, r);
            proof {
                lemma_count_true_mark(taken@, contender as int);
            }
            taken[contender] = true;
            contenders.push(contender);
        }
        let best = self.best_of(&contenders);
        proof {
            assert(contenders@.len() == tournament_size);
        }
        Ok(best)
    }
}

} // verus!
