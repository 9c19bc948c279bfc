use vstd::prelude::*;
use crate::solution::{comparable, lemma_dominance_transitive, Solution};

verus! {

/// No member of `members` dominates another.
pub open spec fn non_dominated<X>(members: Seq<Solution<X>>) -> bool {
    forall|i: int, j: int|
        #![trigger members[i], members[j]]
        0 <= i < members.len() && 0 <= j < members.len() && i != j ==> !members[i].dominates_spec(&members[j])
}

/// No two members of `members` have the same objectives.
pub open spec fn distinct_objectives<X>(members: Seq<Solution<X>>) -> bool {
    forall|i: int, j: int|
        0 <= i < members.len() && 0 <= j < members.len() && i != j ==> (#[trigger] members[i]).fitness() != (
        #[trigger] members[j]).fitness()
}

/// All members have been evaluated, to objective vectors of one length.
pub open spec fn all_comparable<X>(members: Seq<Solution<X>>) -> bool {
    forall|i: int, j: int|
        0 <= i < members.len() && 0 <= j < members.len() ==> comparable(
            (#[trigger] members[i]).fitness(),
            (#[trigger] members[j]).fitness(),
        )
}

/// A dominance relation between candidates.
pub type Relation<X> = spec_fn(Solution<X>, Solution<X>) -> bool;

/// What the relation `dominates` says of `a` and `b`.
pub open spec fn holds<X, F: Fn(&Solution<X>, &Solution<X>) -> bool>(dominates: F, a: Solution<X>, b: Solution<X>) -> bool {
    call_ensures(dominates, (&a, &b), true)
}

/// `dominates` can be asked about `a` and `b`, and answers as `rel` says.
pub open spec fn computes<X, F: Fn(&Solution<X>, &Solution<X>) -> bool>(
    dominates: F,
    rel: Relation<X>,
    a: Solution<X>,
    b: Solution<X>,
) -> bool {
    &&& call_requires(dominates, (&a, &b))
    &&& forall|d: bool| call_ensures(dominates, (&a, &b), d) ==> d == rel(a, b)
}

/// `dominates` can be asked about `a` and `b`, and gives one answer.
pub open spec fn decides<X, F: Fn(&Solution<X>, &Solution<X>) -> bool>(dominates: F, a: Solution<X>, b: Solution<X>) -> bool {
    &&& call_requires(dominates, (&a, &b))
    &&& !(call_ensures(dominates, (&a, &b), true) && call_ensures(dominates, (&a, &b), false))
}

/// The relation that `dominates` computes.
pub open spec fn said_by<X, F: Fn(&Solution<X>, &Solution<X>) -> bool>(dominates: F) -> Relation<X> {
    |a: Solution<X>, b: Solution<X>| holds(dominates, a, b)
}

/// Constrained Pareto dominance, as a relation.
pub open spec fn pareto<X>() -> Relation<X> {
    |a: Solution<X>, b: Solution<X>| a.dominates_spec(&b)
}

/// The number of leading members that a push of `s` leaves untouched: those up to the last
/// member that dominates `s`.
pub open spec fn untouched<X>(rel: Relation<X>, members: Seq<Solution<X>>, s: Solution<X>) -> int
    decreases members.len(),
{
    if members.len() == 0 {
        0
    } else if rel(members.last(), s) {
        members.len() as int
    } else {
        untouched(rel, members.drop_last(), s)
    }
}

/// `after` holds the members of `before` that a push of `s` leaves in the archive: the first
/// `lo` as they were, and of the others those that `s` does not dominate. `origin` names,
/// for each member of `after`, its place in `before`.
pub open spec fn survivors<X>(
    rel: Relation<X>,
    before: Seq<Solution<X>>,
    after: Seq<Solution<X>>,
    origin: Seq<int>,
    lo: int,
    s: Solution<X>,
) -> bool {
    &&& origin.len() == after.len()
    &&& origin.no_duplicates()
    &&& forall|k: int|
        0 <= k < after.len() ==> 0 <= (#[trigger] origin[k]) < before.len() && after[k] == before[origin[k]]
    &&& lo <= origin.len()
    &&& forall|k: int| 0 <= k < lo ==> (#[trigger] origin[k]) == k
    &&& forall|j: int|
        0 <= j < before.len() ==> (#[trigger] origin.contains(j) <==> j < lo || !rel(s, before[j]))
}

/// `kept` is what a push of `s` leaves of `before`.
pub open spec fn remains<X>(rel: Relation<X>, before: Seq<Solution<X>>, kept: Seq<Solution<X>>, s: Solution<X>) -> bool {
    &&& exists|origin: Seq<int>| survivors(rel, before, kept, origin, untouched(rel, before, s), s)
    &&& (forall|j: int| 0 <= j < before.len() ==> !rel(s, #[trigger] before[j])) ==> kept == before
}

/// A member that stays in the archive has the objectives of `s`.
pub open spec fn duplicates<X>(rel: Relation<X>, before: Seq<Solution<X>>, s: Solution<X>) -> bool {
    exists|j: int| 0 <= j < before.len() && !rel(s, #[trigger] before[j]) && before[j].fitness() == s.fitness()
}

/// A push of `s` adds it to the archive: no member dominates it and, where duplicates are
/// refused, no member that stays has its objectives.
pub open spec fn added<X>(rel: Relation<X>, before: Seq<Solution<X>>, accept_duplicates: bool, s: Solution<X>) -> bool {
    untouched(rel, before, s) == 0 && (accept_duplicates || !duplicates(rel, before, s))
}

/// `after` is the archive `before` after a push of `s`.
pub open spec fn pushed<X>(
    rel: Relation<X>,
    before: Seq<Solution<X>>,
    accept_duplicates: bool,
    s: Solution<X>,
    after: Seq<Solution<X>>,
) -> bool {
    if added(rel, before, accept_duplicates, s) {
        &&& after.len() > 0
        &&& after.last() == s
        &&& remains(rel, before, after.drop_last(), s)
    } else {
        remains(rel, before, after, s)
    }
}

/// Every member of an archive after a push is the candidate or was a member before.
pub proof fn lemma_pushed_from<X>(
    rel: Relation<X>,
    before: Seq<Solution<X>>,
    accept_duplicates: bool,
    s: Solution<X>,
    after: Seq<Solution<X>>,
    k: int,
)
    requires
        pushed(rel, before, accept_duplicates, s, after),
        0 <= k < after.len(),
    ensures
        after[k] == s || before.contains(after[k]),
{
    if added(rel, before, accept_duplicates, s) {
        let kept = after.drop_last();
        if k < kept.len() {
            let origin = choose|origin: Seq<int>| survivors(rel, before, kept, origin, untouched(rel, before, s), s);
            assert(kept[k] == before[origin[k]]);
        }
    } else {
        let origin = choose|origin: Seq<int>| survivors(rel, before, after, origin, untouched(rel, before, s), s);
        assert(after[k] == before[origin[k]]);
    }
}

/// An archive of candidates.
///
/// Filled through `try_push` alone, no member dominates another.
pub struct NonDominatedSet<X> {
    accept_duplicates: bool,
    archive: Vec<Solution<X>>,
}

impl<X> NonDominatedSet<X> {
    /// The members, in the order in which the archive holds them.
    pub closed spec fn members(&self) -> Seq<Solution<X>> {
        self.archive@
    }

    /// Whether the archive takes a candidate whose objectives a member already has.
    pub closed spec fn accepts_duplicates(&self) -> bool {
        self.accept_duplicates
    }

    /// No member dominates another and all can be compared; where duplicates are refused,
    /// no two members have the same objectives.
    pub open spec fn wf(&self) -> bool {
        &&& all_comparable(self.members())
        &&& non_dominated(self.members())
        &&& !self.accepts_duplicates() ==> distinct_objectives(self.members())
    }

    pub fn new(accept_duplicates: bool) -> (r: NonDominatedSet<X>)
        ensures
            r.members() == Seq::<Solution<X>>::empty(),
            r.accepts_duplicates() == accept_duplicates,
            r.wf(),
    {
        NonDominatedSet { accept_duplicates, archive: Vec::new() }
    }

    pub fn get_raw(&self) -> (r: &Vec<Solution<X>>)
        ensures
            r@ == self.members(),
    {
        &self.archive
    }

    /// Offers `solution` to the archive under the relation `dominates`.
    ///
    /// The archive is read from its end. At the first member that dominates `solution` the
    /// reading stops and `solution` is refused. Members that `solution` dominates are taken
    /// out as they are met. `solution` is added unless it is refused or, where duplicates are
    /// refused, a member that stays has the same objectives. The result says whether
    /// `solution` was added.
    pub fn try_push_with<F: Fn(&Solution<X>, &Solution<X>) -> bool>(
        &mut self,
        solution: Solution<X>,
        dominates: F,
    ) -> (r: bool)
        requires
            forall|j: int|
                0 <= j < old(self).members().len() ==> decides(
                    dominates,
                    #[trigger] old(self).members()[j],
                    solution,
                ) && decides(dominates, solution, old(self).members()[j]),
        ensures
            final(self).accepts_duplicates() == old(self).accepts_duplicates(),
            r == added(said_by(dominates), old(self).members(), old(self).accepts_duplicates(), solution),
            pushed(
                said_by(dominates),
                old(self).members(),
                old(self).accepts_duplicates(),
                solution,
                final(self).members(),
            ),
    {
        self.push_by(solution, dominates, Ghost(said_by(dominates)))
    }

    /// A push under `dominates`, which computes the relation `rel`.
    fn push_by<F: Fn(&Solution<X>, &Solution<X>) -> bool>(
        &mut self,
        solution: Solution<X>,
        dominates: F,
        Ghost(rel): Ghost<Relation<X>>,
    ) -> (r: bool)
        requires
            forall|j: int|
                0 <= j < old(self).members().len() ==> computes(
                    dominates,
                    rel,
                    #[trigger] old(self).members()[j],
                    solution,
                ) && computes(dominates, rel, solution, old(self).members()[j]),
        ensures
            final(self).accepts_duplicates() == old(self).accepts_duplicates(),
            r == added(rel, old(self).members(), old(self).accepts_duplicates(), solution),
            pushed(rel, old(self).members(), old(self).accepts_duplicates(), solution, final(self).members()),
    {
        let mut is_dominated = false;
        let mut is_duplicate = false;
        let ghost before = self.archive@;
        let ghost mut origin: Seq<int> = Seq::new(before.len(), |k: int| k);
        let mut i = self.archive.len();
        proof {
            assert(before == old(self).members());
            assert(before.skip(i as int) =~= Seq::<Solution<X>>::empty());
        }

        while i > 0 && !is_dominated
            invariant
                self.accept_duplicates == old(self).accept_duplicates,
                before == old(self).archive@,
                forall|j: int|
                    0 <= j < before.len() ==> computes(dominates, rel, #[trigger] before[j], solution) && computes(
                        dominates,
                        rel,
                        solution,
                        before[j],
                    ),
                0 <= i <= self.archive.len() <= before.len(),
                is_dominated ==> i < before.len() && rel(before[i as int], solution),
                forall|j: int|
                    (if is_dominated {
                        i + 1
                    } else {
                        i as int
                    }) <= j < before.len() ==> !rel(#[trigger] before[j], solution),
                origin.len() == self.archive.len(),
                origin.no_duplicates(),
                forall|k: int|
                    0 <= k < self.archive.len() ==> 0 <= (#[trigger] origin[k]) < before.len() && self.archive[k]
                        == before[origin[k]],
                is_dominated ==> i < origin.len(),
                forall|k: int|
                    0 <= k < (if is_dominated {
                        i + 1
                    } else {
                        i as int
                    }) ==> (#[trigger] origin[k]) == k,
                forall|k: int| i <= k < origin.len() ==> (#[trigger] origin[k]) >= i,
                forall|j: int|
                    (if is_dominated {
                        i + 1
                    } else {
                        i as int
                    }) <= j < before.len() ==> (#[trigger] origin.contains(j) <==> !rel(solution,
                        before[j],
                    )),
                !is_dominated ==> (is_duplicate <==> !self.accept_duplicates && duplicates(
                    rel,
                    before.skip(i as int),
                    solution,
                )),
                (forall|j: int| i <= j < before.len() ==> !rel(solution, #[trigger] before[j]))
                    ==> self.archive@ == before,
            decreases i + if is_dominated { 0int } else { 1int },
        {
            proof {
                lemma_duplicates_step(rel, before, solution, i as int - 1);
            }
            i = i - 1;
            let ghost o0 = origin;
            let ghost a0 = self.archive@;
            assert(origin[i as int] == i);
            assert(self.archive[i as int] == before[i as int]);
            if dominates(&self.archive[i], &solution) {
                is_dominated = true;
            } else if dominates(&solution, &self.archive[i]) {
                self.archive.swap_remove(i);
                proof {
                    origin = o0.update(i as int, o0.last()).drop_last();
                    assert forall|j: int| i <= j < before.len() implies (#[trigger] origin.contains(j) <==> !rel(solution,
                        before[j],
                    )) by {
                        assert(o0.contains(j) <==> !rel(solution, before[j]) || j == i);
                        if j == i {
                            if origin.contains(j) {
                                let k = choose|k: int| 0 <= k < origin.len() && origin[k] == j;
                                if k == i {
                                    assert(o0[o0.len() - 1] == j);
                                } else {
                                    assert(o0[k] == j);
                                }
                            }
                        } else {
                            if o0.contains(j) {
                                let k = choose|k: int| 0 <= k < o0.len() && o0[k] == j;
                                if k == o0.len() - 1 {
                                    assert(origin[i as int] == j);
                                } else {
                                    assert(origin[k] == j);
                                }
                            }
                            if origin.contains(j) {
                                let k = choose|k: int| 0 <= k < origin.len() && origin[k] == j;
                                if k == i {
                                    assert(o0[o0.len() - 1] == j);
                                } else {
                                    assert(o0[k] == j);
                                }
                                assert(o0.contains(j));
                            }
                        }
                    }
                    assert forall|k: int| i <= k < origin.len() implies (#[trigger] origin[k]) >= i by {
                        if k == i {
                            assert(o0[o0.len() - 1] != o0[i as int]);
                        } else {
                            assert(o0[k] != o0[i as int]);
                        }
                    }
                }
            } else {
                proof {
                    assert(o0.contains(i as int));
                }
                if !self.accept_duplicates && self.archive[i].same_objectives(&solution) {
                    is_duplicate = true;
                }
            }
        }

        proof {
            lemma_untouched(rel, before, solution, if is_dominated { i as int + 1 } else { 0 });
            if !is_dominated {
                assert(i == 0);
            }
        }
        let ghost kept = self.archive@;
        if !is_dominated && !is_duplicate {
            self.archive.push(solution);
            proof {
                assert(self.archive@.drop_last() =~= kept);
            }
        }
        proof {
            let lo = untouched(rel, before, solution);
            assert(lo == if is_dominated { i + 1 } else { 0 });
            assert forall|j: int| 0 <= j < before.len() implies (#[trigger] origin.contains(j) <==> j < lo || !rel(solution,
                before[j],
            )) by {
                if is_dominated {
                    if j < lo {
                        assert(0 <= j < i + 1);
                        assert(origin[j] == j);
                        assert(j < origin.len());
                        assert(origin.contains(j));
                    } else {
                        assert(i + 1 <= j);
                        assert(origin.contains(j) <==> !rel(solution, before[j]));
                    }
                } else {
                    assert(i <= j);
                    assert(origin.contains(j) <==> !rel(solution, before[j]));
                }
            }
            assert(origin.len() == kept.len());
            assert(origin.no_duplicates());
            assert(forall|k: int|
                0 <= k < kept.len() ==> 0 <= (#[trigger] origin[k]) < before.len() && kept[k] == before[origin[k]]);
            assert(forall|k: int| 0 <= k < lo ==> (#[trigger] origin[k]) == k);
            assert(survivors(rel, before, kept, origin, lo, solution));
            assert(before.skip(0) =~= before);
        }
        !is_dominated && !is_duplicate
    }
}

impl<X> NonDominatedSet<X> {
    /// Offers `solution` to the archive under constrained Pareto dominance.
    ///
    /// A candidate that a member dominates is refused and leaves the archive as it was. Any
    /// other takes out the members that it dominates, and is added unless duplicates are
    /// refused and a member has the same objectives. The result says whether `solution` was
    /// added. No member dominates another afterwards.
    pub fn try_push(&mut self, solution: Solution<X>) -> (r: bool)
        requires
            old(self).wf(),
            !(solution.fitness() is Undefined),
            forall|j: int|
                0 <= j < old(self).members().len() ==> comparable(
                    (#[trigger] old(self).members()[j]).fitness(),
                    solution.fitness(),
                ),
        ensures
            final(self).wf(),
            final(self).accepts_duplicates() == old(self).accepts_duplicates(),
            r == (!(exists|j: int|
                0 <= j < old(self).members().len() && (#[trigger] old(self).members()[j]).dominates_spec(&solution))
                && (old(self).accepts_duplicates() || !exists|j: int|
                0 <= j < old(self).members().len() && (#[trigger] old(self).members()[j]).fitness()
                    == solution.fitness())),
            pushed(
                pareto(),
                old(self).members(),
                old(self).accepts_duplicates(),
                solution,
                final(self).members(),
            ),
            !r ==> final(self).members() == old(self).members(),
            r ==> final(self).members().len() > 0 && final(self).members().last() == solution,
            forall|j: int|
                0 <= j < final(self).members().len() ==> comparable(
                    (#[trigger] final(self).members()[j]).fitness(),
                    solution.fitness(),
                ),
    {
        let dominates = |a: &Solution<X>, b: &Solution<X>| -> (d: bool)
            requires
                comparable(a.fitness(), b.fitness()),
            ensures
                d == a.dominates_spec(b),
            { a.dominates(b) };
        let ghost before = self.members();
        let ghost accept = self.accepts_duplicates();
        let r = self.push_by(solution, dominates, Ghost(pareto()));
        proof {
            lemma_push_keeps_front(before, accept, solution, self.members());
            lemma_untouched_sound(pareto(), before, solution);
            let lo = untouched(pareto(), before, solution);
            if lo > 0 {
                assert(before[lo - 1].dominates_spec(&solution));
            }
            // A member with the objectives of the candidate is not dominated by it.
            if exists|j: int| 0 <= j < before.len() && (#[trigger] before[j]).fitness() == solution.fitness() {
                let j = choose|j: int| 0 <= j < before.len() && (#[trigger] before[j]).fitness() == solution.fitness();
                crate::solution::lemma_dominance_irreflexive(solution.fitness());
                assert(!pareto::<X>()(solution, before[j]));
                assert(duplicates(pareto(), before, solution));
            }
        }
        r
    }
}

/// A push under constrained Pareto dominance into an archive in which no member dominates
/// another leaves such an archive.
pub proof fn lemma_push_keeps_front<X>(
    before: Seq<Solution<X>>,
    accept_duplicates: bool,
    s: Solution<X>,
    after: Seq<Solution<X>>,
)
    requires
        !(s.fitness() is Undefined),
        all_comparable(before),
        non_dominated(before),
        !accept_duplicates ==> distinct_objectives(before),
        forall|j: int| 0 <= j < before.len() ==> comparable((#[trigger] before[j]).fitness(), s.fitness()),
        pushed(pareto(), before, accept_duplicates, s, after),
    ensures
        all_comparable(after),
        non_dominated(after),
        !accept_duplicates ==> distinct_objectives(after),
        !added(pareto(), before, accept_duplicates, s) ==> after == before,
        forall|j: int| 0 <= j < after.len() ==> comparable((#[trigger] after[j]).fitness(), s.fitness()),
{
    let rel = pareto::<X>();
    let lo = untouched(rel, before, s);
    lemma_untouched_sound(rel, before, s);
    if lo != 0 {
        let m = before[lo - 1];
        assert forall|j: int| 0 <= j < before.len() implies !rel(s, #[trigger] before[j]) by {
            if rel(s, before[j]) {
                assert(comparable(before[lo - 1].fitness(), s.fitness()));
                crate::solution::lemma_dominance_asymmetric(m.fitness(), s.fitness());
                lemma_dominance_transitive(m.fitness(), s.fitness(), before[j].fitness());
            }
        }
        assert(after == before);
    } else {
        let added = accept_duplicates || !duplicates(rel, before, s);
        let kept = if added {
            after.drop_last()
        } else {
            after
        };
        if !added {
            // The candidate dominates nothing that a member with its objectives does not.
            let m = choose|j: int|
                0 <= j < before.len() && !rel(s, #[trigger] before[j]) && before[j].fitness() == s.fitness();
            assert forall|j: int| 0 <= j < before.len() implies !rel(s, #[trigger] before[j]) by {
                if rel(s, before[j]) {
                    assert(before[m].dominates_spec(&before[j]));
                }
            }
            assert(after == before);
        }
        let origin = choose|origin: Seq<int>| survivors(rel, before, kept, origin, lo, s);
        assert forall|k: int| 0 <= k < kept.len() implies !rel(s, kept[k]) && !rel(kept[k], s) && comparable(
            kept[k].fitness(),
            s.fitness(),
        ) && (added && !accept_duplicates ==> kept[k].fitness() != s.fitness()) by {
            let o = origin[k];
            assert(origin.contains(o));
            assert(!rel(before[o], s));
        }
        assert forall|a: int, b: int| 0 <= a < after.len() && 0 <= b < after.len() implies comparable(
            (#[trigger] after[a]).fitness(),
            (#[trigger] after[b]).fitness(),
        ) by {
            if a < kept.len() && b < kept.len() {
                assert(kept[a] == before[origin[a]] && kept[b] == before[origin[b]]);
            } else if a < kept.len() {
                assert(kept[a] == after[a]);
            } else if b < kept.len() {
                assert(kept[b] == after[b]);
            }
        }
        assert forall|a: int, b: int|
            #![trigger after[a], after[b]]
            0 <= a < after.len() && 0 <= b < after.len() && a != b implies !after[a].dominates_spec(&after[b]) && (
            !accept_duplicates ==> after[a].fitness() != after[b].fitness()) by {
            if a < kept.len() && b < kept.len() {
                assert(kept[a] == before[origin[a]] && kept[b] == before[origin[b]]);
                assert(origin[a] != origin[b]);
            } else if a < kept.len() {
                assert(kept[a] == after[a]);
            } else if b < kept.len() {
                assert(kept[b] == after[b]);
            }
        }
        assert forall|j: int| 0 <= j < after.len() implies comparable((#[trigger] after[j]).fitness(), s.fitness()) by {
            if j < kept.len() {
                assert(kept[j] == after[j]);
            }
        }
    }
}

/// Of the members behind the untouched ones none dominates the candidate; the last
/// untouched one does.
pub proof fn lemma_untouched_sound<X>(rel: Relation<X>, members: Seq<Solution<X>>, s: Solution<X>)
    ensures
        0 <= untouched(rel, members, s) <= members.len(),
        untouched(rel, members, s) > 0 ==> rel(members[untouched(rel, members, s) - 1], s),
        forall|j: int| untouched(rel, members, s) <= j < members.len() ==> !rel(#[trigger] members[j], s),
    decreases members.len(),
{
    if members.len() > 0 && !rel(members.last(), s) {
        lemma_untouched_sound(rel, members.drop_last(), s);
        assert forall|j: int| untouched(rel, members, s) <= j < members.len() implies !rel(#[trigger] members[j], s) by {
            if j < members.len() - 1 {
                assert(members.drop_last()[j] == members[j]);
            }
        }
    }
}

/// A duplicate among the members from `i` on is member `i` or one among those behind it.
pub proof fn lemma_duplicates_step<X>(rel: Relation<X>, members: Seq<Solution<X>>, s: Solution<X>, i: int)
    requires
        0 <= i < members.len(),
    ensures
        duplicates(rel, members.skip(i), s) <==> duplicates(rel, members.skip(i + 1), s) || (!rel(s, members[i])
            && members[i].fitness() == s.fitness()),
{
    let a = members.skip(i);
    let b = members.skip(i + 1);
    if duplicates(rel, a, s) {
        let j = choose|j: int| 0 <= j < a.len() && !rel(s, #[trigger] a[j]) && a[j].fitness() == s.fitness();
        if j > 0 {
            assert(b[j - 1] == a[j]);
        }
    }
    if duplicates(rel, b, s) {
        let j = choose|j: int| 0 <= j < b.len() && !rel(s, #[trigger] b[j]) && b[j].fitness() == s.fitness();
        assert(a[j + 1] == b[j]);
    }
    if !rel(s, members[i]) && members[i].fitness() == s.fitness() {
        assert(a[0] == members[i]);
    }
}

/// The untouched members end at the last member that dominates the candidate.
pub proof fn lemma_untouched<X>(rel: Relation<X>, members: Seq<Solution<X>>, s: Solution<X>, lo: int)
    requires
        0 <= lo <= members.len(),
        lo > 0 ==> rel(members[lo - 1], s),
        forall|j: int| lo <= j < members.len() ==> !rel(#[trigger] members[j], s),
    ensures
        untouched(rel, members, s) == lo,
    decreases members.len(),
{
    if members.len() > lo {
        lemma_untouched(rel, members.drop_last(), s, lo);
    }
}

} // verus!
