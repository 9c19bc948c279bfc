use vstd::prelude::*;
use crate::distance_matrix::{names_servers, DistanceCell};
use crate::error::OperatorError;
use crate::marks::{count_true, lemma_count_true_all, lemma_count_true_mark};
use crate::probability::Probability;
use crate::random::{gen_range, random_flag, thread_rng};
use crate::selection::nth_clear;
use crate::solution::Solution;

verus! {

/// Every locus of `child` is a copy of the same locus of `first` where `from_first` says so,
/// and of `second` elsewhere.
pub open spec fn taken_from<X: Clone>(
    child: Seq<X>,
    first: Seq<X>,
    second: Seq<X>,
    from_first: spec_fn(int) -> bool,
) -> bool {
    &&& child.len() == first.len()
    &&& forall|i: int|
        0 <= i < child.len() ==> cloned(
            if from_first(i) {
                first[i]
            } else {
                second[i]
            },
            #[trigger] child[i],
        )
}

/// The two children of a crossover: at every locus one has the value of the first parent
/// and the other that of the second; `straight` says which way round.
pub open spec fn exchanged<X: Clone>(
    children: Seq<Solution<X>>,
    parent_one: Solution<X>,
    parent_two: Solution<X>,
    straight: spec_fn(int) -> bool,
) -> bool {
    &&& children.len() == 2
    &&& children[0].objectives is Undefined
    &&& children[1].objectives is Undefined
    &&& taken_from(children[0].point@, parent_one.point@, parent_two.point@, straight)
    &&& taken_from(children[1].point@, parent_one.point@, parent_two.point@, |i: int| !straight(i))
}

/// The two children of a crossover: at every locus one has the value of the first parent
/// and the other that of the second.
pub open spec fn randomly_exchanged<X: Clone>(
    children: Seq<Solution<X>>,
    parent_one: Solution<X>,
    parent_two: Solution<X>,
) -> bool {
    exists|straight: spec_fn(int) -> bool| exchanged(children, parent_one, parent_two, straight)
}

/// The children are copies of the parents.
pub open spec fn copied<X: Clone>(children: Seq<Solution<X>>, parent_one: Solution<X>, parent_two: Solution<X>) -> bool {
    &&& children.len() == 2
    &&& children[0].is_copy_of(&parent_one)
    &&& children[1].is_copy_of(&parent_two)
}

/// Copies of the parents.
fn copies<X: Clone>(parent_one: &Solution<X>, parent_two: &Solution<X>) -> (r: Vec<Solution<X>>)
    ensures
        copied(r@, *parent_one, *parent_two),
{
    let mut children: Vec<Solution<X>> = Vec::new();
    children.push(parent_one.clone());
    children.push(parent_two.clone());
    children
}

/// What a crossover that happens with probability `pc` gives: `crossed` says what the
/// children are where it happens, and else they are copies of the parents.
pub open spec fn gated<X: Clone>(
    pc: Probability,
    children: Seq<Solution<X>>,
    parent_one: Solution<X>,
    parent_two: Solution<X>,
    crossed: bool,
) -> bool {
    &&& crossed || copied(children, parent_one, parent_two)
    &&& pc.numerator == pc.denominator ==> crossed
    &&& pc.numerator == 0 ==> copied(children, parent_one, parent_two)
}

/// The two children that take each locus as `straight` says: the first child from the first
/// parent where it holds, from the second elsewhere, and the second child the other way
/// round.
fn recombine<X: Clone>(parent_one: &Solution<X>, parent_two: &Solution<X>, straight: &Vec<bool>) -> (r: Vec<
    Solution<X>,
>)
    requires
        straight.len() == parent_one.point.len(),
        parent_one.point.len() <= parent_two.point.len(),
    ensures
        exchanged(r@, *parent_one, *parent_two, |i: int| straight[i]),
{
    let length = parent_one.len();
    let mut child_a: Vec<X> = Vec::new();
    let mut child_b: Vec<X> = Vec::new();
    let mut i: usize = 0;
    while i < length
        invariant
            i <= length,
            length == parent_one.point.len(),
            length <= parent_two.point.len(),
            straight.len() == length,
            child_a.len() == i,
            child_b.len() == i,
            forall|k: int|
                0 <= k < i ==> cloned(
                    if straight[k] {
                        parent_one.point[k]
                    } else {
                        parent_two.point[k]
                    },
                    #[trigger] child_a[k],
                ),
            forall|k: int|
                0 <= k < i ==> cloned(
                    if !straight[k] {
                        parent_one.point[k]
                    } else {
                        parent_two.point[k]
                    },
                    #[trigger] child_b[k],
                ),
        decreases length - i,
    {
        if straight[i] {
            child_a.push(parent_one.point[i].clone());
            child_b.push(parent_two.point[i].clone());
        } else {
            child_a.push(parent_two.point[i].clone());
            child_b.push(parent_one.point[i].clone());
        }
        i = i + 1;
    }
    let child_a = Solution::new(child_a);
    let child_b = Solution::new(child_b);
    let mut children: Vec<Solution<X>> = Vec::new();
    children.push(child_a);
    children.push(child_b);
    children
}

/// Makes two children of two parents.
pub trait Crossover<X: Clone> {
    /// The parents that the operator can work on.
    spec fn accepts(&self, parent_one: &Solution<X>, parent_two: &Solution<X>) -> bool;

    /// `outcome` is a possible result for these parents.
    spec fn crosses(
        &self,
        parent_one: &Solution<X>,
        parent_two: &Solution<X>,
        outcome: Result<Vec<Solution<X>>, OperatorError>,
    ) -> bool;

    fn apply(&self, parent_one: &Solution<X>, parent_two: &Solution<X>) -> (r: Result<
        Vec<Solution<X>>,
        OperatorError,
    >)
        requires
            self.accepts(parent_one, parent_two),
        ensures
            self.crosses(parent_one, parent_two, r),
    ;
}

/// Uniform crossover: with probability `pc`, every locus goes to one child or the other on
/// the toss of a coin.
#[derive(Clone, Copy, Debug)]
pub struct UniformCrossover {
    pub pc: Probability,
}

impl UniformCrossover {
    pub fn new(pc: Probability) -> (r: UniformCrossover)
        ensures
            r.pc == pc,
    {
        UniformCrossover { pc }
    }

    /// The children for the tosses `tosses`, one for every locus: where the toss is true the
    /// first child takes the locus from the first parent.
    pub fn cross<X: Clone>(parent_one: &Solution<X>, parent_two: &Solution<X>, tosses: &Vec<bool>) -> (r: Vec<
        Solution<X>,
    >)
        requires
            tosses.len() == parent_one.point.len(),
            parent_one.point.len() <= parent_two.point.len(),
        ensures
            exchanged(r@, *parent_one, *parent_two, |i: int| tosses[i]),
    {
        recombine(parent_one, parent_two, tosses)
    }
}

impl<X: Clone> Crossover<X> for UniformCrossover {
    open spec fn accepts(&self, parent_one: &Solution<X>, parent_two: &Solution<X>) -> bool {
        self.pc.wf() && parent_one.point.len() <= parent_two.point.len()
    }

    open spec fn crosses(
        &self,
        parent_one: &Solution<X>,
        parent_two: &Solution<X>,
        outcome: Result<Vec<Solution<X>>, OperatorError>,
    ) -> bool {
        outcome is Ok && gated(
            self.pc,
            outcome->Ok_0@,
            *parent_one,
            *parent_two,
            randomly_exchanged(outcome->Ok_0@, *parent_one, *parent_two),
        )
    }

    fn apply(&self, parent_one: &Solution<X>, parent_two: &Solution<X>) -> (r: Result<
        Vec<Solution<X>>,
        OperatorError,
    >) {
        let mut rng = thread_rng();
        if !self.pc.happens(&mut rng) {
            return Ok(copies(parent_one, parent_two));
        }
        let length = parent_one.len();
        let mut tosses: Vec<bool> = Vec::new();
        let mut i: usize = 0;
        while i < length
            invariant
                i <= length,
                tosses.len() == i,
            decreases length - i,
        {
            tosses.push(random_flag());
            i = i + 1;
        }
        let children = UniformCrossover::cross(parent_one, parent_two, &tosses);
        proof {
            assert(exchanged(children@, *parent_one, *parent_two, |i: int| tosses[i]));
        }
        Ok(children)
    }
}

/// The number of cuts at or before locus `i`.
pub open spec fn cuts_upto(cuts: Seq<usize>, i: int) -> nat
    decreases cuts.len(),
{
    if cuts.len() == 0 {
        0
    } else {
        cuts_upto(cuts.drop_last(), i) + if cuts.last() <= i { 1nat } else { 0nat }
    }
}

/// The cuts stand in ascending order, none twice.
pub open spec fn ascending(cuts: Seq<usize>) -> bool {
    forall|a: int, b: int| 0 <= a < b < cuts.len() ==> cuts[a] < cuts[b]
}

proof fn lemma_cuts_upto(cuts: Seq<usize>, i: int, k: int)
    requires
        0 <= k <= cuts.len(),
        forall|j: int| 0 <= j < k ==> cuts[j] <= i,
        forall|j: int| k <= j < cuts.len() ==> cuts[j] > i,
    ensures
        cuts_upto(cuts, i) == k,
    decreases cuts.len(),
{
    if cuts.len() > 0 {
        let rest = cuts.drop_last();
        if k == cuts.len() {
            lemma_cuts_upto(rest, i, k - 1);
        } else {
            lemma_cuts_upto(rest, i, k);
        }
    }
}

/// The children of a crossover at `num_cuts` loci of the first parent.
pub open spec fn cut_and_exchanged<X: Clone>(
    children: Seq<Solution<X>>,
    parent_one: Solution<X>,
    parent_two: Solution<X>,
    num_cuts: int,
) -> bool {
    exists|cuts: Seq<usize>|
        {
            &&& #[trigger] cuts.len() == num_cuts
            &&& ascending(cuts)
            &&& forall|k: int| 0 <= k < cuts.len() ==> #[trigger] cuts[k] < parent_one.point.len()
            &&& exchanged(children, parent_one, parent_two, |i: int| cuts_upto(cuts, i) % 2 == 0)
        }
}

/// N-point crossover: with probability `pc`, the parents are cut at `num_cuts` loci, and
/// the children take the pieces in turn.
#[derive(Clone, Copy, Debug)]
pub struct NPointCrossover {
    pub pc: Probability,
    pub num_cuts: usize,
}

impl NPointCrossover {
    pub fn new(pc: Probability, num_cuts: usize) -> (r: NPointCrossover)
        ensures
            r.pc == pc,
            r.num_cuts == num_cuts,
    {
        NPointCrossover { pc, num_cuts }
    }

    /// The children for the cuts `split_locations`: the first child takes a locus from the
    /// first parent where an even number of cuts lies at or before it.
    pub fn cross<X: Clone>(parent_one: &Solution<X>, parent_two: &Solution<X>, split_locations: &Vec<usize>) -> (r:
        Vec<Solution<X>>)
        requires
            parent_one.point.len() <= parent_two.point.len(),
            ascending(split_locations@),
        ensures
            exchanged(r@, *parent_one, *parent_two, |i: int| cuts_upto(split_locations@, i) % 2 == 0),
    {
        let len = parent_one.len();
        let mut straight: Vec<bool> = Vec::new();
        let mut curr_split: usize = 0;
        let mut match_parent = true;
        let mut i: usize = 0;
        while i < len
            invariant
                i <= len,
                curr_split <= split_locations.len(),
                ascending(split_locations@),
                straight.len() == i,
                forall|j: int| 0 <= j < curr_split ==> split_locations[j] < i,
                forall|j: int| curr_split <= j < split_locations.len() ==> split_locations[j] >= i,
                match_parent == (curr_split % 2 == 0),
                forall|k: int| 0 <= k < i ==> #[trigger] straight[k] == (cuts_upto(split_locations@, k) % 2 == 0),
            decreases len - i,
        {
            if curr_split < split_locations.len() && split_locations[curr_split] == i {
                match_parent = !match_parent;
                curr_split = curr_split + 1;
            }
            proof {
                assert forall|j: int| curr_split <= j < split_locations.len() implies split_locations[j] > i by {
                    if curr_split > 0 {
                        assert(split_locations[curr_split - 1] < split_locations[j]);
                    }
                }
                lemma_cuts_upto(split_locations@, i as int, curr_split as int);
            }
            straight.push(match_parent);
            i = i + 1;
        }
        let children = recombine(parent_one, parent_two, &straight);
        proof {
            let by_cuts = |i: int| cuts_upto(split_locations@, i) % 2 == 0;
            let by_list = |i: int| straight[i];
            assert(taken_from(children[0].point@, parent_one.point@, parent_two.point@, by_cuts));
            assert(taken_from(children[1].point@, parent_one.point@, parent_two.point@, |i: int| !by_cuts(i)));
        }
        children
    }
}

impl<X: Clone> Crossover<X> for NPointCrossover {
    open spec fn accepts(&self, parent_one: &Solution<X>, parent_two: &Solution<X>) -> bool {
        self.pc.wf() && parent_one.point.len() <= parent_two.point.len()
    }

    open spec fn crosses(
        &self,
        parent_one: &Solution<X>,
        parent_two: &Solution<X>,
        outcome: Result<Vec<Solution<X>>, OperatorError>,
    ) -> bool {
        if self.num_cuts > parent_one.point.len() {
            outcome == Err::<Vec<Solution<X>>, OperatorError>(OperatorError::InvalidArgument)
        } else {
                outcome is Ok && gated(
                self.pc,
                outcome->Ok_0@,
                *parent_one,
                *parent_two,
                cut_and_exchanged(outcome->Ok_0@, *parent_one, *parent_two, self.num_cuts as int),
            )
        }
    }

    fn apply(&self, parent_one: &Solution<X>, parent_two: &Solution<X>) -> (r: Result<
        Vec<Solution<X>>,
        OperatorError,
    >) {
        let solution_len = parent_one.len();
        if self.num_cuts > solution_len {
            return Err(OperatorError::InvalidArgument);
        }
        let mut rng = thread_rng();
        if !self.pc.happens(&mut rng) {
            return Ok(copies(parent_one, parent_two));
        }

        // Choose the loci to cut at, none twice.
        let mut cut_at: Vec<bool> = Vec::new();
        let mut i: usize = 0;
        while i < solution_len
            invariant
                i <= solution_len,
                cut_at.len() == i,
                forall|k: int| 0 <= k < i ==> !#[trigger] cut_at[k],
            decreases solution_len - i,
        {
            cut_at.push(false);
            i = i + 1;
        }
        proof {
            lemma_count_true_all(cut_at@);
        }
        let mut chosen: usize = 0;
        while chosen < self.num_cuts
            invariant
                chosen <= self.num_cuts,
                self.num_cuts <= solution_len,
                cut_at.len() == solution_len,
                count_true(cut_at@) == chosen,
            decreases self.num_cuts - chosen,
        {
            let r = gen_range(&mut rng, 0, solution_len - chosen);
            let split_loc = nth_clear(&cut_at, r);
            proof {
                lemma_count_true_mark(cut_at@, split_loc as int);
            }
            cut_at[split_loc] = true;
            chosen = chosen + 1;
        }

        // The cuts in ascending order.
        let mut split_locations: Vec<usize> = Vec::new();
        let mut i: usize = 0;
        proof {
            assert(cut_at@.take(0) =~= Seq::<bool>::empty());
        }
        while i < solution_len
            invariant
                i <= solution_len,
                cut_at.len() == solution_len,
                split_locations.len() == count_true(cut_at@.take(i as int)),
                ascending(split_locations@),
                forall|k: int| 0 <= k < split_locations.len() ==> #[trigger] split_locations[k] < i,
            decreases solution_len - i,
        {
            proof {
                assert(cut_at@.take(i as int + 1).drop_last() =~= cut_at@.take(i as int));
            }
            if cut_at[i] {
                split_locations.push(i);
            }
            i = i + 1;
        }
        proof {
            assert(cut_at@.take(solution_len as int) =~= cut_at@);
        }
        let children = NPointCrossover::cross(parent_one, parent_two, &split_locations);
        proof {
            assert(split_locations@.len() == self.num_cuts);
        }
        Ok(children)
    }
}

/// Local exchange: the children swap the loci of servers that lie near each other, so that
/// services placed close together stay together.
pub struct LocalExchange<'a> {
    pub pc: Probability,
    /// The share of the servers of a row of the distance matrix that are exchanged at a
    /// time.
    pub perc_exchange: Probability,
    pub dm: &'a Vec<Vec<DistanceCell>>,
}

/// The number of servers of a row of `len` servers that are exchanged at a time: the share
/// `perc_exchange` of them, and at least one.
pub open spec fn exchange_count(perc_exchange: Probability, len: int) -> int {
    let share = len * perc_exchange.numerator / (perc_exchange.denominator as int);
    if share < 1 {
        1
    } else {
        share
    }
}

/// Locus `i` is marked.
pub open spec fn marked_at(marked: Seq<bool>, i: int) -> bool {
    0 <= i < marked.len() && marked[i]
}

/// Position `pos` can still bring an exchange: one of the servers that it exchanges is not
/// marked.
pub open spec fn productive(perc_exchange: Probability, dm: Seq<Vec<DistanceCell>>, marked: Seq<bool>, pos: int) -> bool {
    exists|i: int|
        0 <= i < exchange_count(perc_exchange, dm[pos].len() as int) && !marked[(#[trigger] dm[pos][i]).node_id as int]
}

/// No position can bring an exchange any more.
pub open spec fn exhausted(perc_exchange: Probability, dm: Seq<Vec<DistanceCell>>, marked: Seq<bool>) -> bool {
    forall|p: int| 0 <= p < marked.len() ==> !#[trigger] productive(perc_exchange, dm, marked, p)
}

impl<'a> LocalExchange<'a> {
    /// An exchange over `dm` that happens with probability `pc` and exchanges the share
    /// `prop_exchange` of a row at a time. An empty distance matrix is refused, and so is a
    /// share of nothing.
    pub fn new(pc: Probability, prop_exchange: Probability, dm: &'a Vec<Vec<DistanceCell>>) -> (r: Result<
        LocalExchange<'a>,
        OperatorError,
    >)
        ensures
            r is Ok <==> dm.len() > 0 && prop_exchange.numerator > 0,
            r is Ok ==> r->Ok_0.pc == pc && r->Ok_0.perc_exchange == prop_exchange && r->Ok_0.dm == dm,
            r is Err ==> r->Err_0 == if dm.len() == 0 {
                OperatorError::InvalidInput
            } else {
                OperatorError::InvalidArgument
            },
    {
        if dm.len() == 0 {
            return Err(OperatorError::InvalidInput);
        }
        if prop_exchange.numerator == 0 {
            return Err(OperatorError::InvalidArgument);
        }
        Ok(LocalExchange { pc, perc_exchange: prop_exchange, dm })
    }

    /// The probabilities are probabilities, and no row of the distance matrix is empty.
    pub open spec fn wf(&self) -> bool {
        &&& self.pc.wf()
        &&& self.perc_exchange.wf()
        &&& forall|r: int| 0 <= r < self.dm.len() ==> 1 <= (#[trigger] self.dm[r]).len()
    }

    /// The number of servers of row `pos` that are exchanged at a time.
    fn count_at(&self, pos: usize) -> (r: usize)
        requires
            self.wf(),
            pos < self.dm.len(),
        ensures
            r == exchange_count(self.perc_exchange, self.dm[pos as int].len() as int),
            1 <= r <= self.dm[pos as int].len(),
    {
        let num_dm = self.perc_exchange.of(self.dm[pos].len());
        if num_dm < 1 {
            1
        } else {
            num_dm
        }
    }

    /// The positions below `len` that can still bring an exchange.
    fn open_positions(&self, marked: &Vec<bool>, len: usize) -> (r: Vec<usize>)
        requires
            self.wf(),
            len <= self.dm.len(),
            marked.len() == len,
            forall|p: int| 0 <= p < len ==> names_servers((#[trigger] self.dm[p])@, len as int),
        ensures
            forall|k: int| 0 <= k < r.len() ==> (#[trigger] r[k]) < len && productive(self.perc_exchange, self.dm@, marked@, r[k] as int),
            forall|p: int| 0 <= p < len && productive(self.perc_exchange, self.dm@, marked@, p) ==> #[trigger] r@.contains(p as usize),
    {
        let mut open: Vec<usize> = Vec::new();
        let mut pos: usize = 0;
        while pos < len
            invariant
                pos <= len,
                self.wf(),
                len <= self.dm.len(),
                marked.len() == len,
                forall|p: int| 0 <= p < len ==> names_servers((#[trigger] self.dm[p])@, len as int),
                forall|k: int|
                    0 <= k < open.len() ==> (#[trigger] open[k]) < pos && productive(
                        self.perc_exchange,
                        self.dm@,
                        marked@,
                        open[k] as int,
                    ),
                forall|p: int|
                    0 <= p < pos && productive(self.perc_exchange, self.dm@, marked@, p) ==> #[trigger] open@.contains(p as usize),
            decreases len - pos,
        {
            let row = &self.dm[pos];
            let num_dm = self.count_at(pos);
            let mut found = false;
            let mut i: usize = 0;
            while i < num_dm && !found
                invariant
                    i <= num_dm,
                    pos < len,
                    num_dm == exchange_count(self.perc_exchange, self.dm[pos as int].len() as int),
                    num_dm <= row.len(),
                    row == &self.dm[pos as int],
                    marked.len() == len,
                    names_servers(row@, len as int),
                    found ==> productive(self.perc_exchange, self.dm@, marked@, pos as int),
                    !found ==> forall|e: int| 0 <= e < i ==> marked[(#[trigger] row[e]).node_id as int],
                decreases num_dm - i + if found { 0int } else { 1int },
            {
                if !marked[row[i].node_id] {
                    found = true;
                } else {
                    i = i + 1;
                }
            }
            let ghost before = open@;
            if found {
                open.push(pos);
            }
            proof {
                assert forall|p: int|
                    0 <= p < pos + 1 && productive(self.perc_exchange, self.dm@, marked@, p) implies #[trigger] open@.contains(
                    p as usize,
                ) by {
                    if p < pos {
                        assert(before.contains(p as usize));
                        let k = choose|k: int| 0 <= k < before.len() && before[k] == p as usize;
                        assert(open@[k] == p as usize);
                    } else {
                        assert(found);
                        assert(open@[before.len() as int] == pos);
                    }
                }
            }
            pos = pos + 1;
        }
        open
    }
}

/// The children of a local exchange: the loci that `marked` marks are exchanged, at most
/// half of the loci, and the others are as in the parents.
pub open spec fn locally_exchanged<X: Clone>(
    children: Seq<Solution<X>>,
    parent_one: Solution<X>,
    parent_two: Solution<X>,
    marked: Seq<bool>,
) -> bool {
    &&& children.len() == 2
    &&& marked.len() == parent_one.point.len()
    &&& count_true(marked) <= parent_one.point.len() / 2
    &&& children[0].fitness() == parent_one.fitness()
    &&& children[1].fitness() == parent_two.fitness()
    &&& taken_from(children[0].point@, parent_one.point@, parent_two.point@, |i: int| !marked_at(marked, i))
    &&& taken_from(children[1].point@, parent_two.point@, parent_one.point@, |i: int| !marked_at(marked, i))
}

/// The children of a local exchange that went on until half of the loci were exchanged, or
/// no position could bring an exchange any more.
pub open spec fn exchanged_nearby<X: Clone>(
    children: Seq<Solution<X>>,
    parent_one: Solution<X>,
    parent_two: Solution<X>,
    perc_exchange: Probability,
    dm: Seq<Vec<DistanceCell>>,
) -> bool {
    exists|marked: Seq<bool>|
        {
            &&& #[trigger] locally_exchanged(children, parent_one, parent_two, marked)
            &&& count_true(marked) == parent_one.point.len() / 2 || exhausted(perc_exchange, dm, marked)
        }
}

impl<'a, X: Clone> Crossover<X> for LocalExchange<'a> {
    open spec fn accepts(&self, parent_one: &Solution<X>, parent_two: &Solution<X>) -> bool {
        &&& self.wf()
        &&& parent_one.point.len() <= parent_two.point.len()
        &&& parent_one.point.len() <= self.dm.len()
        &&& forall|p: int|
            0 <= p < parent_one.point.len() ==> names_servers((#[trigger] self.dm[p])@, parent_one.point.len() as int)
    }

    open spec fn crosses(
        &self,
        parent_one: &Solution<X>,
        parent_two: &Solution<X>,
        outcome: Result<Vec<Solution<X>>, OperatorError>,
    ) -> bool {
        outcome is Ok && gated(
            self.pc,
            outcome->Ok_0@,
            *parent_one,
            *parent_two,
            exchanged_nearby(outcome->Ok_0@, *parent_one, *parent_two, self.perc_exchange, self.dm@),
        )
    }

    fn apply(&self, parent_one: &Solution<X>, parent_two: &Solution<X>) -> (r: Result<
        Vec<Solution<X>>,
        OperatorError,
    >) {
        let mut rng = thread_rng();
        if !self.pc.happens(&mut rng) {
            return Ok(copies(parent_one, parent_two));
        }
        let mut rng = thread_rng();
        if !self.pc.happens(&mut rng) {
            return Ok(copies(parent_one, parent_two));
        }
        let solution_len = parent_one.len();
        let target = solution_len / 2;

        // Exchange the loci of neighbouring servers until half have been exchanged.
        let mut child_a = parent_one.clone();
        let mut child_b = parent_two.clone();

        let mut marked: Vec<bool> = Vec::new();
        let mut i: usize = 0;
        while i < solution_len
            invariant
                i <= solution_len,
                marked.len() == i,
                forall|k: int| 0 <= k < i ==> !#[trigger] marked[k],
            decreases solution_len - i,
        {
            marked.push(false);
            i = i + 1;
        }
        let mut num_marked: usize = 0;
        let mut stuck = false;
        proof {
            lemma_count_true_all(marked@);
        }

        while num_marked < target && !stuck
            invariant
                solution_len == parent_one.point.len(),
                target == solution_len / 2,
                self.accepts(parent_one, parent_two),
                marked.len() == solution_len,
                num_marked == count_true(marked@),
                num_marked <= target,
                child_a.fitness() == parent_one.fitness(),
                child_b.fitness() == parent_two.fitness(),
                taken_from(child_a.point@, parent_one.point@, parent_two.point@, |i: int| !marked_at(marked@, i)),
                taken_from(child_b.point@, parent_two.point@, parent_one.point@, |i: int| !marked_at(marked@, i)),
                stuck ==> forall|p: int|
                    0 <= p < solution_len ==> !#[trigger] productive(self.perc_exchange, self.dm@, marked@, p),
            decreases target - num_marked + if stuck { 0int } else { 1int },
        {
            let open = self.open_positions(&marked, solution_len);
            if open.len() == 0 {
                proof {
                    assert forall|p: int| 0 <= p < solution_len implies !#[trigger] productive(
                        self.perc_exchange,
                        self.dm@,
                        marked@,
                        p,
                    ) by {
                        if productive(self.perc_exchange, self.dm@, marked@, p) {
                            assert(open@.contains(p as usize));
                        }
                    }
                }
                stuck = true;
            } else {
                // One of the positions that can still bring an exchange, each with the same
                // chance.
                let pos = open[gen_range(&mut rng, 0, open.len())];
                let row = &self.dm[pos];
                let num_dm = self.count_at(pos);
                let ghost num_in = num_marked;
                let ghost marked_in = marked@;
                let mut i: usize = 0;
                while i < num_dm && num_marked < target
                    invariant
                        i <= num_dm,
                        pos < solution_len,
                        solution_len == parent_one.point.len(),
                        solution_len <= parent_two.point.len(),
                        target == solution_len / 2,
                        num_dm == exchange_count(self.perc_exchange, self.dm[pos as int].len() as int),
                        num_dm <= row.len(),
                        row == &self.dm[pos as int],
                        names_servers(row@, solution_len as int),
                        marked.len() == solution_len,
                        num_marked == count_true(marked@),
                        num_marked <= target,
                        num_in <= num_marked,
                        num_marked == num_in ==> marked@ == marked_in,
                        forall|e: int| 0 <= e < i ==> marked[(#[trigger] row[e]).node_id as int],
                        child_a.fitness() == parent_one.fitness(),
                        child_b.fitness() == parent_two.fitness(),
                        taken_from(child_a.point@, parent_one.point@, parent_two.point@, |i: int| !marked_at(marked@, i)),
                        taken_from(child_b.point@, parent_two.point@, parent_one.point@, |i: int| !marked_at(marked@, i)),
                    decreases num_dm - i,
                {
                    let neighbour = row[i].node_id;
                    if !marked[neighbour] {
                        let ghost a0 = child_a.point@;
                        let ghost b0 = child_b.point@;
                        let ghost m0 = marked@;
                        child_a.point[neighbour] = parent_two.point[neighbour].clone();
                        child_b.point[neighbour] = parent_one.point[neighbour].clone();
                        proof {
                            lemma_count_true_mark(marked@, neighbour as int);
                        }
                        marked[neighbour] = true;
                        num_marked = num_marked + 1;
                        proof {
                            assert forall|k: int| 0 <= k < child_a.point@.len() implies cloned(
                                if !marked_at(marked@, k) {
                                    parent_one.point@[k]
                                } else {
                                    parent_two.point@[k]
                                },
                                #[trigger] child_a.point@[k],
                            ) by {
                                if k != neighbour {
                                    assert(child_a.point@[k] == a0[k]);
                                    assert(marked_at(marked@, k) == marked_at(m0, k));
                                }
                            }
                            assert forall|k: int| 0 <= k < child_b.point@.len() implies cloned(
                                if !marked_at(marked@, k) {
                                    parent_two.point@[k]
                                } else {
                                    parent_one.point@[k]
                                },
                                #[trigger] child_b.point@[k],
                            ) by {
                                if k != neighbour {
                                    assert(child_b.point@[k] == b0[k]);
                                    assert(marked_at(marked@, k) == marked_at(m0, k));
                                }
                            }
                            assert forall|e: int| 0 <= e < i + 1 implies marked[(#[trigger] row[e]).node_id as int] by {
                                if e < i {
                                    assert(m0[row[e].node_id as int]);
                                }
                            }
                        }
                    }
                    i = i + 1;
                }
                proof {
                    // The position could bring an exchange, so it did.
                    if num_marked == num_in {
                        let e = choose|e: int|
                            0 <= e < exchange_count(self.perc_exchange, self.dm@[pos as int].len() as int)
                                && !marked_in[(#[trigger] self.dm@[pos as int][e]).node_id as int];
                        assert(marked[row[e].node_id as int]);
                    }
                }
            }
        }
        let mut children: Vec<Solution<X>> = Vec::new();
        children.push(child_a);
        children.push(child_b);
        proof {
            assert(locally_exchanged(children@, *parent_one, *parent_two, marked@));
            assert(num_marked == target || exhausted(self.perc_exchange, self.dm@, marked@));
        }
        Ok(children)
    }
}

} // verus!
