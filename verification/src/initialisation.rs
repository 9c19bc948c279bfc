use vstd::prelude::*;
use rand::rngs::ThreadRng;
use crate::random::{gen_range, thread_rng};
use crate::service::Service;
use crate::solution::Solution;

verus! {

/// For every instance to place, the service that it is an instance of: `counts[0]` times
/// service 0, then `counts[1]` times service 1, and so on.
pub open spec fn owners(counts: Seq<usize>) -> Seq<usize>
    decreases counts.len(),
{
    if counts.len() == 0 {
        Seq::empty()
    } else {
        owners(counts.drop_last()) + Seq::new(counts.last() as nat, |t: int| (counts.len() - 1) as usize)
    }
}

/// The genotype of `len` cells in which instance `d` of `owner` stands, for every `d`, at
/// the end of cell `positions[d]` as it is after the instances before it.
pub open spec fn placed<'a>(
    services: Seq<Service>,
    len: nat,
    owner: Seq<usize>,
    positions: Seq<usize>,
) -> Seq<Seq<&'a Service>>
    decreases owner.len(),
{
    if owner.len() == 0 {
        Seq::new(len, |i: int| Seq::<&Service>::empty())
    } else {
        let before = placed(services, len, owner.drop_last(), positions.drop_last());
        let pos = positions.last() as int;
        before.update(pos, before[pos].push(&services[owner.last() as int]))
    }
}

/// The cells of a genotype of service lists, as sequences.
pub open spec fn service_cells<'a>(point: Seq<Vec<&'a Service>>) -> Seq<Seq<&'a Service>> {
    Seq::new(point.len(), |i: int| point[i]@)
}

/// `counts[i]` instances of service `i`, each in a cell of `len` drawn at random.
pub open spec fn spread_randomly<'a>(
    services: Seq<Service>,
    counts: Seq<usize>,
    len: nat,
    cells: Seq<Seq<&'a Service>>,
) -> bool {
    exists|positions: Seq<usize>|
        {
            &&& positions.len() == owners(counts).len()
            &&& forall|d: int| 0 <= d < positions.len() ==> #[trigger] positions[d] < len
            &&& cells == #[trigger] placed(services, len, owners(counts), positions)
        }
}

/// A genotype of `len` cells that holds `counts[i]` instances of `services[i]`, each in a
/// cell drawn at random.
pub fn spread<'a>(services: &'a Vec<Service>, counts: &Vec<usize>, len: usize, rng: &mut ThreadRng) -> (r: Vec<
    Vec<&'a Service>,
>)
    requires
        counts.len() <= services.len(),
        len > 0 || forall|i: int| 0 <= i < counts.len() ==> counts[i] == 0,
    ensures
        r.len() == len,
        spread_randomly(services@, counts@, len as nat, service_cells(r@)),
{
    let mut cells: Vec<Vec<&'a Service>> = Vec::new();
    let mut i: usize = 0;
    while i < len
        invariant
            i <= len,
            cells.len() == i,
            forall|k: int| 0 <= k < i ==> (#[trigger] cells[k])@ == Seq::<&Service>::empty(),
        decreases len - i,
    {
        cells.push(Vec::new());
        i = i + 1;
    }
    let ghost mut positions: Seq<usize> = Seq::empty();
    proof {
        assert(counts@.take(0) =~= Seq::<usize>::empty());
        assert(service_cells(cells@) =~= placed(services@, len as nat, owners(counts@.take(0)), positions));
    }
    let mut i: usize = 0;
    while i < counts.len()
        invariant
            i <= counts.len(),
            counts.len() <= services.len(),
            len > 0 || forall|k: int| 0 <= k < counts.len() ==> counts[k] == 0,
            cells.len() == len,
            positions.len() == owners(counts@.take(i as int)).len(),
            forall|d: int| 0 <= d < positions.len() ==> #[trigger] positions[d] < len,
            service_cells(cells@) == placed(services@, len as nat, owners(counts@.take(i as int)), positions),
        decreases counts.len() - i,
    {
        let service = &services[i];
        let ghost own_in = owners(counts@.take(i as int));
        let mut t: usize = 0;
        proof {
            assert(own_in + Seq::new(0, |e: int| i) =~= own_in);
        }
        while t < counts[i]
            invariant
                t <= counts[i as int],
                i < counts.len(),
                service == &services[i as int],
                len > 0 || forall|k: int| 0 <= k < counts.len() ==> counts[k] == 0,
                cells.len() == len,
                positions.len() == own_in.len() + t,
                forall|d: int| 0 <= d < positions.len() ==> #[trigger] positions[d] < len,
                service_cells(cells@) == placed(
                    services@,
                    len as nat,
                    own_in + Seq::new(t as nat, |e: int| i),
                    positions,
                ),
            decreases counts[i as int] - t,
        {
            let pos = gen_range(rng, 0, len);
            let ghost before = service_cells(cells@);
            let ghost own = own_in + Seq::new(t as nat, |e: int| i);
            let ghost own2 = own_in + Seq::new((t + 1) as nat, |e: int| i);
            let ghost positions_in = positions;
            cells[pos].push(service);
            proof {
                positions = positions_in.push(pos);
                assert(own2.drop_last() =~= own);
                assert(positions.drop_last() =~= positions_in);
                assert(own2.last() == i);
                assert(service_cells(cells@) =~= before.update(pos as int, before[pos as int].push(service)));
            }
            t = t + 1;
        }
        proof {
            assert(counts@.take(i as int + 1).drop_last() =~= counts@.take(i as int));
            assert(counts@.take(i as int + 1).last() == counts[i as int]);
            assert(counts@.take(i as int + 1).len() - 1 == i);
            assert(owners(counts@.take(i as int + 1)) =~= own_in + Seq::new(counts[i as int] as nat, |e: int| i));
        }
        i = i + 1;
    }
    proof {
        assert(counts@.take(counts.len() as int) =~= counts@);
    }
    cells
}

/// Makes the first population.
pub trait InitPop<X> {
    /// The population sizes that the operator can serve.
    spec fn accepts(&self, pop_size: usize) -> bool;

    /// `individual` is a possible member `i` of a first population of `pop_size`.
    spec fn makes(&self, pop_size: usize, i: int, individual: &Solution<X>) -> bool;

    fn apply(&self, pop_size: usize) -> (r: Vec<Solution<X>>)
        requires
            self.accepts(pop_size),
        ensures
            r.len() == pop_size,
            forall|i: int| 0 <= i < pop_size ==> self.makes(pop_size, i, #[trigger] &r[i]),
    ;
}

/// The capacity that one instance of every service takes: the sum of the sizes of all VNFs.
pub open spec fn demand(services: Seq<Service>) -> nat
    decreases services.len(),
{
    if services.len() == 0 {
        0
    } else {
        demand(services.drop_last()) + total_size(services.last().sizes())
    }
}

/// The sum of the sizes.
pub open spec fn total_size(sizes: Seq<usize>) -> nat
    decreases sizes.len(),
{
    if sizes.len() == 0 {
        0
    } else {
        total_size(sizes.drop_last()) + sizes.last() as nat
    }
}

/// The number of instances of every service in member `i` of a first population of
/// `pop_size`: the members fill a growing share of the capacity `max_size`, and hold at
/// least one instance.
pub open spec fn instances(i: int, pop_size: int, max_size: int, min_size: int) -> int {
    let full = i * max_size / (pop_size * min_size);
    if full < 1 {
        1
    } else {
        full
    }
}

/// The capacity that one instance of every service of `services` takes.
pub fn min_size(services: &Vec<Service>) -> (r: usize)
    requires
        demand(services@) <= usize::MAX,
    ensures
        r == demand(services@),
{
    let mut sum: usize = 0;
    let mut i: usize = 0;
    proof {
        assert(services@.take(0) =~= Seq::<Service>::empty());
    }
    while i < services.len()
        invariant
            i <= services.len(),
            sum == demand(services@.take(i as int)),
            demand(services@) <= usize::MAX,
        decreases services.len() - i,
    {
        let service = &services[i];
        let ghost sizes = service.sizes();
        let ghost sum_in = sum;
        let mut j: usize = 0;
        proof {
            assert(sizes.take(0) =~= Seq::<usize>::empty());
            assert(services@.take(i as int + 1).drop_last() =~= services@.take(i as int));
            lemma_demand_grows(services@, i as int + 1);
        }
        while j < service.vnfs.len()
            invariant
                j <= service.vnfs.len(),
                sizes == service.sizes(),
                sum == sum_in + total_size(sizes.take(j as int)),
                sum_in + total_size(sizes) <= usize::MAX,
            decreases service.vnfs.len() - j,
        {
            proof {
                assert(sizes.take(j as int + 1).drop_last() =~= sizes.take(j as int));
                lemma_total_grows(sizes, j as int + 1);
            }
            sum = sum + service.vnfs[j].size;
            j = j + 1;
        }
        proof {
            assert(sizes.take(sizes.len() as int) =~= sizes);
        }
        i = i + 1;
    }
    proof {
        assert(services@.take(services.len() as int) =~= services@);
    }
    sum
}

proof fn lemma_total_grows(sizes: Seq<usize>, k: int)
    requires
        0 <= k <= sizes.len(),
    ensures
        total_size(sizes.take(k)) <= total_size(sizes),
    decreases sizes.len() - k,
{
    if k < sizes.len() {
        lemma_total_grows(sizes, k + 1);
        assert(sizes.take(k + 1).drop_last() =~= sizes.take(k));
    } else {
        assert(sizes.take(k) =~= sizes);
    }
}

proof fn lemma_demand_grows(services: Seq<Service>, k: int)
    requires
        0 <= k <= services.len(),
    ensures
        demand(services.take(k)) <= demand(services),
    decreases services.len() - k,
{
    if k < services.len() {
        lemma_demand_grows(services, k + 1);
        assert(services.take(k + 1).drop_last() =~= services.take(k));
    } else {
        assert(services.take(k) =~= services);
    }
}

/// The number of instances of every service in member `i` of a first population.
pub fn num_instances(i: usize, pop_size: usize, max_size: usize, min_size: usize) -> (r: usize)
    requires
        i < pop_size,
        0 < min_size,
    ensures
        r == instances(i as int, pop_size as int, max_size as int, min_size as int),
{
    proof {
        assert(0 <= i * max_size <= u64::MAX * u64::MAX) by (nonlinear_arith)
            requires
                0 <= i <= u64::MAX,
                0 <= max_size <= u64::MAX,
        ;
        assert(0 < pop_size * min_size <= u64::MAX * u64::MAX) by (nonlinear_arith)
            requires
                0 < pop_size <= u64::MAX,
                0 < min_size <= u64::MAX,
        ;
        assert(i * max_size / (pop_size * min_size) <= max_size) by (nonlinear_arith)
            requires
                0 <= i < pop_size,
                0 < min_size,
                0 <= max_size,
        ;
    }
    let full: u128 = (i as u128) * (max_size as u128) / ((pop_size as u128) * (min_size as u128));
    if full < 1 {
        1
    } else {
        full as usize
    }
}

/// A first population of service lists, from nearly empty to full: member `i` holds, for
/// every service, the number of instances that its share of the capacity allows, in cells
/// drawn at random.
pub struct ServiceAwareInitialisation<'a> {
    pub services: &'a Vec<Service>,
    pub solution_length: usize,
}

impl<'a> ServiceAwareInitialisation<'a> {
    pub fn new(services: &'a Vec<Service>, solution_length: usize) -> (r: ServiceAwareInitialisation<'a>)
        ensures
            r.services == services,
            r.solution_length == solution_length,
    {
        ServiceAwareInitialisation { services, solution_length }
    }
}

/// The same number of instances of each of `n` services.
pub open spec fn evenly(n: nat, count: usize) -> Seq<usize> {
    Seq::new(n, |k: int| count)
}

impl<'a> InitPop<Vec<&'a Service>> for ServiceAwareInitialisation<'a> {
    open spec fn accepts(&self, pop_size: usize) -> bool {
        &&& self.solution_length > 0
        &&& self.solution_length * 100 <= usize::MAX
        &&& 0 < demand(self.services@) <= self.solution_length * 100
    }

    open spec fn makes(&self, pop_size: usize, i: int, individual: &Solution<Vec<&'a Service>>) -> bool {
        &&& individual.objectives is Undefined
        &&& individual.point.len() == self.solution_length
        &&& spread_randomly(
            self.services@,
            evenly(
                self.services.len() as nat,
                instances(i, pop_size as int, self.solution_length * 100, demand(self.services@) as int) as usize,
            ),
            self.solution_length as nat,
            service_cells(individual.point@),
        )
    }

    fn apply(&self, pop_size: usize) -> (r: Vec<Solution<Vec<&'a Service>>>) {
        let mut population: Vec<Solution<Vec<&'a Service>>> = Vec::new();
        let mut rng = thread_rng();
        let min_size = min_size(self.services);
        let max_size = self.solution_length * 100;

        let mut i: usize = 0;
        while i < pop_size
            invariant
                i <= pop_size,
                self.accepts(pop_size),
                min_size == demand(self.services@),
                max_size == self.solution_length * 100,
                population.len() == i,
                forall|k: int| 0 <= k < i ==> self.makes(pop_size, k, #[trigger] &population[k]),
            decreases pop_size - i,
        {
            let num_instances = num_instances(i, pop_size, max_size, min_size);
            let mut counts: Vec<usize> = Vec::new();
            let mut k: usize = 0;
            while k < self.services.len()
                invariant
                    k <= self.services.len(),
                    counts.len() == k,
                    forall|e: int| 0 <= e < k ==> #[trigger] counts[e] == num_instances,
                decreases self.services.len() - k,
            {
                counts.push(num_instances);
                k = k + 1;
            }
            let new_solution = spread(self.services, &counts, self.solution_length, &mut rng);
            proof {
                assert(counts@ =~= evenly(self.services.len() as nat, num_instances));
            }
            population.push(Solution::new(new_solution));
            i = i + 1;
        }
        population
    }
}

/// A first population of instance counts, from nearly empty to full: member `i` holds, for
/// every service, the number of instances that its share of the capacity allows.
pub struct SAIntStringInitialisation<'a> {
    pub services: &'a Vec<Service>,
    pub solution_length: usize,
}

impl<'a> SAIntStringInitialisation<'a> {
    pub fn new(services: &'a Vec<Service>, solution_length: usize) -> (r: SAIntStringInitialisation<'a>)
        ensures
            r.services == services,
            r.solution_length == solution_length,
    {
        SAIntStringInitialisation { services, solution_length }
    }
}

impl<'a> InitPop<usize> for SAIntStringInitialisation<'a> {
    open spec fn accepts(&self, pop_size: usize) -> bool {
        &&& self.solution_length * 100 <= usize::MAX
        &&& 0 < demand(self.services@) <= usize::MAX
    }

    open spec fn makes(&self, pop_size: usize, i: int, individual: &Solution<usize>) -> bool {
        &&& individual.objectives is Undefined
        &&& individual.point@ == evenly(
            self.services.len() as nat,
            instances(i, pop_size as int, self.solution_length * 100, demand(self.services@) as int) as usize,
        )
    }

    fn apply(&self, pop_size: usize) -> (r: Vec<Solution<usize>>) {
        let mut population: Vec<Solution<usize>> = Vec::new();
        let min_size = min_size(self.services);
        let max_size = self.solution_length * 100;

        let mut i: usize = 0;
        while i < pop_size
            invariant
                i <= pop_size,
                self.accepts(pop_size),
                min_size == demand(self.services@),
                max_size == self.solution_length * 100,
                population.len() == i,
                forall|k: int| 0 <= k < i ==> self.makes(pop_size, k, #[trigger] &population[k]),
            decreases pop_size - i,
        {
            let num_instances = num_instances(i, pop_size, max_size, min_size);
            let mut counts: Vec<usize> = Vec::new();
            let mut k: usize = 0;
            while k < self.services.len()
                invariant
                    k <= self.services.len(),
                    counts.len() == k,
                    forall|e: int| 0 <= e < k ==> #[trigger] counts[e] == num_instances,
                decreases self.services.len() - k,
            {
                counts.push(num_instances);
                k = k + 1;
            }
            proof {
                assert(counts@ =~= evenly(self.services.len() as nat, num_instances));
            }
            population.push(Solution::new(counts));
            i = i + 1;
        }
        population
    }
}

} // verus!
