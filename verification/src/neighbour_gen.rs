use vstd::prelude::*;
use rand::rngs::ThreadRng;
use crate::random::{gen_range, shuffle, thread_rng};
use crate::solution::{Constraint, Solution};

verus! {

/// The cells of a genotype of lists, as sequences.
pub open spec fn cells<X>(point: Seq<Vec<X>>) -> Seq<Seq<X>> {
    Seq::new(point.len(), |i: int| point[i]@)
}

/// `s` without the item at `at`, whose place the last item takes.
pub open spec fn swap_removed<X>(s: Seq<X>, at: int) -> Seq<X> {
    s.update(at, s.last()).drop_last()
}

/// One item of `items` was added to the end of one cell.
pub open spec fn item_added<X>(before: Seq<Seq<X>>, after: Seq<Seq<X>>, items: Seq<X>) -> bool {
    exists|idx: int, k: int|
        0 <= idx < before.len() && 0 <= k < items.len() && after == #[trigger] before.update(
            idx,
            before[idx].push(#[trigger] items[k]),
        )
}

/// One item was taken out of one cell, or all cells are empty and stay so.
pub open spec fn item_removed<X>(before: Seq<Seq<X>>, after: Seq<Seq<X>>) -> bool {
    ||| (forall|i: int| 0 <= i < before.len() ==> (#[trigger] before[i]).len() == 0) && after == before
    ||| exists|idx: int, at: int|
        0 <= idx < before.len() && 0 <= at < before[idx].len() && after == #[trigger] before.update(
            idx,
            swap_removed(before[idx], at),
        )
}

/// Two cells, which may be the same, changed places.
pub open spec fn cells_swapped<X>(before: Seq<Seq<X>>, after: Seq<Seq<X>>) -> bool {
    exists|a: int, b: int|
        0 <= a < before.len() && 0 <= b < before.len() && after == #[trigger] before.update(a, before[b]).update(
            b,
            before[a],
        )
}

/// One step away: an item added, an item removed, or two cells swapped.
pub open spec fn one_move<X>(before: Seq<Seq<X>>, after: Seq<Seq<X>>, items: Seq<X>) -> bool {
    item_added(before, after, items) || item_removed(before, after) || cells_swapped(before, after)
}

/// A copy of a list.
pub fn copy_cell<X: Copy>(cell: &Vec<X>) -> (r: Vec<X>)
    ensures
        r@ == cell@,
{
    let mut copy: Vec<X> = Vec::new();
    let mut j: usize = 0;
    while j < cell.len()
        invariant
            j <= cell.len(),
            copy@ == cell@.take(j as int),
        decreases cell.len() - j,
    {
        copy.push(cell[j]);
        proof {
            assert(cell@.take(j as int + 1) =~= cell@.take(j as int).push(cell@[j as int]));
        }
        j = j + 1;
    }
    proof {
        assert(cell@.take(cell.len() as int) =~= cell@);
    }
    copy
}

/// A copy of a candidate, with its objectives.
pub fn duplicate<X: Copy>(solution: &Solution<Vec<X>>) -> (r: Solution<Vec<X>>)
    ensures
        cells(r.point@) == cells(solution.point@),
        r.point.len() == solution.point.len(),
        r.fitness() == solution.fitness(),
{
    let mut point: Vec<Vec<X>> = Vec::new();
    let mut i: usize = 0;
    while i < solution.point.len()
        invariant
            i <= solution.point.len(),
            point.len() == i,
            forall|k: int| 0 <= k < i ==> (#[trigger] point[k])@ == solution.point[k]@,
        decreases solution.point.len() - i,
    {
        point.push(copy_cell(&solution.point[i]));
        i = i + 1;
    }
    let objectives = match &solution.objectives {
        Constraint::Feasible(v) => Constraint::Feasible(v.clone()),
        Constraint::Infeasible(u) => Constraint::Infeasible(*u),
        Constraint::Undefined => Constraint::Undefined,
    };
    proof {
        assert(cells(point@) =~= cells(solution.point@));
    }
    Solution { point, objectives }
}

/// Adds item `k` of `items` to the end of cell `idx`.
pub fn add_at<X: Copy>(solution: &mut Solution<Vec<X>>, items: &Vec<X>, idx: usize, k: usize)
    requires
        idx < old(solution).point.len(),
        k < items.len(),
    ensures
        cells(final(solution).point@) == cells(old(solution).point@).update(
            idx as int,
            cells(old(solution).point@)[idx as int].push(items[k as int]),
        ),
        final(solution).objectives == old(solution).objectives,
{
    let ghost before = cells(solution.point@);
    solution.point[idx].push(items[k]);
    proof {
        assert(cells(solution.point@) =~= before.update(idx as int, before[idx as int].push(items@[k as int])));
    }
}

/// Takes the item at `at` out of cell `idx`; the last item of the cell takes its place.
pub fn remove_at<X: Copy>(solution: &mut Solution<Vec<X>>, idx: usize, at: usize)
    requires
        idx < old(solution).point.len(),
        at < old(solution).point[idx as int].len(),
    ensures
        cells(final(solution).point@) == cells(old(solution).point@).update(
            idx as int,
            swap_removed(cells(old(solution).point@)[idx as int], at as int),
        ),
        final(solution).objectives == old(solution).objectives,
{
    let ghost before = cells(solution.point@);
    solution.point[idx].swap_remove(at);
    proof {
        assert(cells(solution.point@) =~= before.update(idx as int, swap_removed(before[idx as int], at as int)));
    }
}

/// Lets the cells `a` and `b` change places.
pub fn swap_at<X: Copy>(solution: &mut Solution<Vec<X>>, a: usize, b: usize)
    requires
        a < old(solution).point.len(),
        b < old(solution).point.len(),
    ensures
        cells(final(solution).point@) == cells(old(solution).point@).update(
            a as int,
            cells(old(solution).point@)[b as int],
        ).update(b as int, cells(old(solution).point@)[a as int]),
        final(solution).objectives == old(solution).objectives,
{
    let ghost before = cells(solution.point@);
    let temp = copy_cell(&solution.point[a]);
    let other = copy_cell(&solution.point[b]);
    solution.point[a] = other;
    solution.point[b] = temp;
    proof {
        assert(cells(solution.point@) =~= before.update(a as int, before[b as int]).update(b as int, before[a as int]));
    }
}

/// The first cell in the order `order` that holds an item, if any does.
pub fn first_occupied<X>(solution: &Solution<Vec<X>>, order: &Vec<usize>) -> (r: Option<usize>)
    requires
        forall|e: int| 0 <= e < order.len() ==> #[trigger] order[e] < solution.point.len(),
    ensures
        match r {
            Some(id) => exists|k: int|
                {
                    &&& 0 <= k < order.len()
                    &&& #[trigger] order[k] == id
                    &&& solution.point[id as int].len() > 0
                    &&& forall|e: int| 0 <= e < k ==> solution.point[(#[trigger] order[e]) as int].len() == 0
                },
            None => forall|e: int| 0 <= e < order.len() ==> solution.point[(#[trigger] order[e]) as int].len() == 0,
        },
{
    let mut k: usize = 0;
    while k < order.len()
        invariant
            k <= order.len(),
            forall|e: int| 0 <= e < order.len() ==> #[trigger] order[e] < solution.point.len(),
            forall|e: int| 0 <= e < k ==> solution.point[(#[trigger] order[e]) as int].len() == 0,
        decreases order.len() - k,
    {
        let id = order[k];
        if solution.point[id].len() > 0 {
            return Some(id);
        }
        k = k + 1;
    }
    None
}

/// Adds an item, drawn at random from `items`, to a cell drawn at random.
pub fn add_item<X: Copy>(solution: &mut Solution<Vec<X>>, items: &Vec<X>, rng: &mut ThreadRng)
    requires
        old(solution).point.len() > 0,
        items.len() > 0,
    ensures
        item_added(cells(old(solution).point@), cells(final(solution).point@), items@),
        final(solution).objectives == old(solution).objectives,
{
    let idx = gen_range(rng, 0, solution.point.len());
    let rnd_item = gen_range(rng, 0, items.len());
    add_at(solution, items, idx, rnd_item);
}

/// Takes an item out of a cell that has one: both drawn at random.
pub fn remove_item<X: Copy>(solution: &mut Solution<Vec<X>>, rng: &mut ThreadRng)
    ensures
        item_removed(cells(old(solution).point@), cells(final(solution).point@)),
        final(solution).objectives == old(solution).objectives,
{
    let n = solution.point.len();
    let mut ids: Vec<usize> = Vec::new();
    let mut i: usize = 0;
    while i < n
        invariant
            i <= n,
            ids.len() == i,
            forall|k: int| 0 <= k < i ==> #[trigger] ids[k] == k,
        decreases n - i,
    {
        ids.push(i);
        i = i + 1;
    }
    let ghost in_order = ids@;
    shuffle(&mut ids, rng);
    proof {
        broadcast use vstd::seq_lib::to_multiset_contains, vstd::seq_lib::to_multiset_len;

        vstd::seq_lib::to_multiset_len(ids@);
        vstd::seq_lib::to_multiset_len(in_order);
        assert(ids@.len() == in_order.len());
        assert forall|k: int| 0 <= k < ids.len() implies #[trigger] ids[k] < n by {
            assert(ids@.contains(ids[k]));
            assert(ids@.to_multiset().count(ids[k]) > 0);
            assert(in_order.contains(ids[k]));
        }
        assert forall|x: usize| x < n implies #[trigger] ids@.contains(x) by {
            assert(in_order[x as int] == x);
            assert(in_order.contains(x));
            assert(in_order.to_multiset().count(x) > 0);
        }
    }
    let ghost before = cells(solution.point@);
    match first_occupied(solution, &ids) {
        Some(id) => {
            let rn = gen_range(rng, 0, solution.point[id].len());
            remove_at(solution, id, rn);
        },
        None => {
            proof {
                assert forall|x: int| 0 <= x < before.len() implies (#[trigger] before[x]).len() == 0 by {
                    assert(ids@.contains(x as usize));
                    let e = choose|e: int| 0 <= e < ids@.len() && ids@[e] == x as usize;
                    assert(solution.point[ids[e] as int].len() == 0);
                }
            }
        },
    }
}

/// Swaps two cells drawn at random.
pub fn swap_servers<X: Copy>(solution: &mut Solution<Vec<X>>, rng: &mut ThreadRng)
    requires
        old(solution).point.len() > 0,
    ensures
        cells_swapped(cells(old(solution).point@), cells(final(solution).point@)),
        final(solution).objectives == old(solution).objectives,
{
    let a = gen_range(rng, 0, solution.point.len());
    let b = gen_range(rng, 0, solution.point.len());
    swap_at(solution, a, b);
}

/// One of the three moves, each with the same chance, on a copy of `solution`.
pub fn random_move<X: Copy>(solution: &Solution<Vec<X>>, items: &Vec<X>, rng: &mut ThreadRng) -> (r: Solution<
    Vec<X>,
>)
    requires
        solution.point.len() > 0,
        items.len() > 0,
    ensures
        one_move(cells(solution.point@), cells(r.point@), items@),
        r.fitness() == solution.fitness(),
{
    let mut copy = duplicate(solution);
    let rn = gen_range(rng, 0, 3);
    if rn < 1 {
        add_item(&mut copy, items, rng);
    } else if rn < 2 {
        remove_item(&mut copy, rng);
    } else {
        swap_servers(&mut copy, rng);
    }
    copy
}

/// Makes a neighbour of a candidate.
pub trait NeighbourGenerator<X> {
    /// The candidates that the generator can work on.
    spec fn accepts(&self, solution: &Solution<X>) -> bool;

    /// `neighbour` is a possible neighbour of `solution`.
    spec fn neighbours(&self, solution: &Solution<X>, neighbour: &Solution<X>) -> bool;

    fn apply(&self, solution: &Solution<X>) -> (r: Solution<X>)
        requires
            self.accepts(solution),
        ensures
            self.neighbours(solution, &r),
    ;
}

/// The neighbours of a candidate that are one step away: an item added, an item removed, or
/// two cells swapped.
pub struct AddSwapNeighbour<X> {
    pub items: Vec<X>,
}

impl<X> AddSwapNeighbour<X> {
    pub fn new(items: Vec<X>) -> (r: AddSwapNeighbour<X>)
        ensures
            r.items == items,
    {
        AddSwapNeighbour { items }
    }
}

impl<X: Copy> NeighbourGenerator<Vec<X>> for AddSwapNeighbour<X> {
    open spec fn accepts(&self, solution: &Solution<Vec<X>>) -> bool {
        solution.point.len() > 0 && self.items.len() > 0
    }

    open spec fn neighbours(&self, solution: &Solution<Vec<X>>, neighbour: &Solution<Vec<X>>) -> bool {
        &&& one_move(cells(solution.point@), cells(neighbour.point@), self.items@)
        &&& neighbour.fitness() == solution.fitness()
    }

    fn apply(&self, solution: &Solution<Vec<X>>) -> (r: Solution<Vec<X>>) {
        let mut rng = thread_rng();
        random_move(solution, &self.items, &mut rng)
    }
}

} // verus!
