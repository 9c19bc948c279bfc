use vstd::prelude::*;

verus! {

/// The number of marks that are set.
pub open spec fn count_true(marks: Seq<bool>) -> nat
    decreases marks.len(),
{
    if marks.len() == 0 {
        0
    } else {
        count_true(marks.drop_last()) + if marks.last() { 1nat } else { 0nat }
    }
}

/// Setting a mark that was not set gives one more.
pub proof fn lemma_count_true_mark(marks: Seq<bool>, i: int)
    requires
        0 <= i < marks.len(),
        !marks[i],
    ensures
        count_true(marks.update(i, true)) == count_true(marks) + 1,
    decreases marks.len(),
{
    if i == marks.len() - 1 {
        assert(marks.update(i, true).drop_last() =~= marks.drop_last());
    } else {
        lemma_count_true_mark(marks.drop_last(), i);
        assert(marks.update(i, true).drop_last() =~= marks.drop_last().update(i, true));
    }
}

/// There are at most as many set marks as marks: as many if all are set, none if none is.
pub proof fn lemma_count_true_all(marks: Seq<bool>)
    ensures
        count_true(marks) <= marks.len(),
        (forall|i: int| 0 <= i < marks.len() ==> marks[i]) ==> count_true(marks) == marks.len(),
        (forall|i: int| 0 <= i < marks.len() ==> !marks[i]) ==> count_true(marks) == 0,
    decreases marks.len(),
{
    if marks.len() > 0 {
        lemma_count_true_all(marks.drop_last());
    }
}

/// While a mark is not set, fewer marks are set than there are marks.
pub proof fn lemma_count_true_gap(marks: Seq<bool>, i: int)
    requires
        0 <= i < marks.len(),
        !marks[i],
    ensures
        count_true(marks) < marks.len(),
    decreases marks.len(),
{
    lemma_count_true_all(marks.drop_last());
    if i < marks.len() - 1 {
        lemma_count_true_gap(marks.drop_last(), i);
    }
}

} // verus!
