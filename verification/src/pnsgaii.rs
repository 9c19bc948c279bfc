use vstd::prelude::*;
use rand::rngs::ThreadRng;
use crate::nsgaii::NSGAII_Solution;
use crate::random::shuffle;

verus! {

/// `member` is a copy of the member that turn `turn` falls on, where the members are dealt
/// from one arrangement of `len` members after the other.
pub open spec fn fed<X: Clone>(
    member: NSGAII_Solution<X>,
    arrangements: Seq<Seq<NSGAII_Solution<X>>>,
    len: int,
    turn: int,
) -> bool {
    &&& 0 <= turn / len < arrangements.len()
    &&& member.is_copy_of(&arrangements[turn / len][turn % len])
}

/// How the members of a population were dealt out to islands of `sub_pop_size`.
///
/// The members are dealt from one arrangement of the population after the other: every
/// arrangement holds the members of the population, and member `j` of island `i` is a copy of
/// the member at the place that its turn falls on.
pub open spec fn dealt<X: Clone>(
    islands: Seq<Vec<NSGAII_Solution<X>>>,
    arrangements: Seq<Seq<NSGAII_Solution<X>>>,
    population: Seq<NSGAII_Solution<X>>,
    sub_pop_size: int,
) -> bool {
    &&& forall|b: int|
        0 <= b < arrangements.len() ==> (#[trigger] arrangements[b]).to_multiset() == population.to_multiset()
    &&& forall|i: int, j: int|
        0 <= i < islands.len() && 0 <= j < sub_pop_size ==> fed(
            #[trigger] islands[i][j],
            arrangements,
            population.len() as int,
            i * sub_pop_size + j,
        )
}

/// The members of a population were dealt out to islands of `sub_pop_size`, in some order.
pub open spec fn scattered<X: Clone>(
    islands: Seq<Vec<NSGAII_Solution<X>>>,
    population: Seq<NSGAII_Solution<X>>,
    sub_pop_size: int,
) -> bool {
    exists|arrangements: Seq<Seq<NSGAII_Solution<X>>>| dealt(islands, arrangements, population, sub_pop_size)
}

/// What was dealt stays dealt when the population is arranged anew.
proof fn lemma_fed_stays<X: Clone>(
    member: NSGAII_Solution<X>,
    before: Seq<Seq<NSGAII_Solution<X>>>,
    after: Seq<Seq<NSGAII_Solution<X>>>,
    len: int,
    turn: int,
)
    requires
        fed(member, before, len, turn),
        before.len() <= after.len(),
        forall|b: int| 0 <= b < before.len() ==> #[trigger] after[b] == before[b],
    ensures
        fed(member, after, len, turn),
{
}

/// Deals the members of a population out to `num_cores` islands of `sub_pop_size` members.
///
/// The population is shuffled and dealt out member by member; whenever all members have been
/// dealt, it is shuffled again and dealt from anew.
pub fn scatter_pop<X: Clone>(
    global_pop: &mut Vec<NSGAII_Solution<X>>,
    num_cores: usize,
    sub_pop_size: usize,
    rng: &mut ThreadRng,
) -> (new_pops: Vec<Vec<NSGAII_Solution<X>>>)
    requires
        old(global_pop).len() > 0,
    ensures
        final(global_pop)@.to_multiset() == old(global_pop)@.to_multiset(),
        new_pops.len() == num_cores,
        forall|i: int| 0 <= i < num_cores ==> (#[trigger] new_pops[i]).len() == sub_pop_size,
        scattered(new_pops@, old(global_pop)@, sub_pop_size as int),
{
    let ghost population = global_pop@;
    // Split the population into islands.
    shuffle(global_pop, rng);
    proof {
        vstd::seq_lib::to_multiset_len(population);
        vstd::seq_lib::to_multiset_len(global_pop@);
    }
    let len = global_pop.len();
    let ghost mut arrangements: Seq<Seq<NSGAII_Solution<X>>> = seq![global_pop@];

    let mut new_pops: Vec<Vec<NSGAII_Solution<X>>> = Vec::new();
    let mut pos: usize = 0;
    let mut i: usize = 0;
    while i < num_cores
        invariant
            i <= num_cores,
            len == population.len(),
            len == global_pop.len(),
            len > 0,
            pos < len,
            new_pops.len() == i,
            arrangements.len() >= 1,
            arrangements.last() == global_pop@,
            i * sub_pop_size == (arrangements.len() - 1) * len + pos,
            forall|b: int|
                0 <= b < arrangements.len() ==> (#[trigger] arrangements[b]).to_multiset() == population.to_multiset(),
            forall|k: int| 0 <= k < i ==> (#[trigger] new_pops[k]).len() == sub_pop_size,
            forall|a: int, j: int|
                0 <= a < i && 0 <= j < sub_pop_size ==> fed(
                    #[trigger] new_pops[a][j],
                    arrangements,
                    len as int,
                    a * sub_pop_size + j,
                ),
        decreases num_cores - i,
    {
        let mut island: Vec<NSGAII_Solution<X>> = Vec::new();
        let mut j: usize = 0;
        while j < sub_pop_size
            invariant
                j <= sub_pop_size,
                len == population.len(),
                len == global_pop.len(),
                len > 0,
                pos < len,
                island.len() == j,
                arrangements.len() >= 1,
                arrangements.last() == global_pop@,
                i * sub_pop_size + j == (arrangements.len() - 1) * len + pos,
                forall|b: int|
                    0 <= b < arrangements.len() ==> (#[trigger] arrangements[b]).to_multiset()
                        == population.to_multiset(),
                forall|e: int| 0 <= e < j ==> fed(#[trigger] island[e], arrangements, len as int, i * sub_pop_size + e),
                forall|a: int, e: int|
                    0 <= a < i && 0 <= e < sub_pop_size ==> fed(
                        #[trigger] new_pops[a][e],
                        arrangements,
                        len as int,
                        a * sub_pop_size + e,
                    ),
            decreases sub_pop_size - j,
        {
            let ghost turn = i * sub_pop_size + j;
            let ghost round = arrangements.len() - 1;
            proof {
                vstd::arithmetic::div_mod::lemma_fundamental_div_mod_converse(turn, len as int, round, pos as int);
            }
            let ghost island_in = island@;
            island.push(global_pop[pos].clone());
            pos = pos + 1;

            let ghost before = arrangements;
            proof {
                assert(fed(island[j as int], before, len as int, turn));
            }
            if pos == len {
                let ghost dealt_out = global_pop@;
                shuffle(global_pop, rng);
                pos = 0;
                proof {
                    vstd::seq_lib::to_multiset_len(dealt_out);
                    vstd::seq_lib::to_multiset_len(global_pop@);
                    arrangements = before.push(global_pop@);
                    assert((before.len() - 1) * len + len == before.len() * len) by (nonlinear_arith);
                }
            }
            proof {
                assert forall|e: int| 0 <= e < j + 1 implies fed(
                    #[trigger] island[e],
                    arrangements,
                    len as int,
                    i * sub_pop_size + e,
                ) by {
                    if e < j {
                        assert(island[e] == island_in[e]);
                    }
                    lemma_fed_stays(island[e], before, arrangements, len as int, i * sub_pop_size + e);
                }
                assert forall|a: int, e: int| 0 <= a < i && 0 <= e < sub_pop_size implies fed(
                    #[trigger] new_pops[a][e],
                    arrangements,
                    len as int,
                    a * sub_pop_size + e,
                ) by {
                    lemma_fed_stays(new_pops[a][e], before, arrangements, len as int, a * sub_pop_size + e);
                }
                assert forall|b: int| 0 <= b < arrangements.len() implies (#[trigger] arrangements[b]).to_multiset()
                    == population.to_multiset() by {
                    if b < before.len() {
                        assert(arrangements[b] == before[b]);
                    }
                }
            }
            j = j + 1;
        }
        let ghost pops_in = new_pops@;
        new_pops.push(island);
        proof {
            assert((i + 1) * sub_pop_size == i * sub_pop_size + sub_pop_size) by (nonlinear_arith);
            assert forall|a: int, j: int| 0 <= a < i + 1 && 0 <= j < sub_pop_size implies fed(
                #[trigger] new_pops[a][j],
                arrangements,
                len as int,
                a * sub_pop_size + j,
            ) by {
                if a < i {
                    assert(new_pops[a] == pops_in[a]);
                    assert(fed(pops_in[a][j], arrangements, len as int, a * sub_pop_size + j));
                }
            }
        }
        i = i + 1;
    }
    proof {
        assert(dealt(new_pops@, arrangements, population, sub_pop_size as int));
    }
    new_pops
}

} // verus!
