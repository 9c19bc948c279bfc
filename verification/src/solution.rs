use vstd::prelude::*;

verus! {

/// An objective value on an integer scale; smaller is better.
///
/// Real-valued objectives are carried as an order-preserving integer encoding, so that
/// comparing two scores compares the values they stand for.
pub type Score = i64;

/// The outcome of evaluating a candidate.
#[derive(Debug, PartialEq)]
pub enum Constraint<X, Y> {
    /// All constraints hold; the payload is the objective vector.
    Feasible(X),
    /// Some constraint is violated; the payload scores the violation.
    Infeasible(Y),
    /// Not evaluated yet.
    Undefined,
}

/// The objectives of a candidate, by value: the objective vector as a sequence.
pub type Fitness = Constraint<Seq<Score>, usize>;

/// `x` is at least as good as `y` in every objective and strictly better in one.
pub open spec fn pareto_dominates(x: Seq<Score>, y: Seq<Score>) -> bool {
    &&& forall|i: int| 0 <= i < x.len() ==> x[i] <= y[i]
    &&& exists|i: int| 0 <= i < x.len() && x[i] < y[i]
}

/// Constrained Pareto dominance on fitness values.
///
/// A feasible candidate dominates every infeasible one, of two infeasible ones the one with
/// the smaller violation dominates, and two feasible ones are compared objective by
/// objective. Nothing dominates, or is dominated by, an unevaluated candidate.
pub open spec fn fitness_dominates(a: Fitness, b: Fitness) -> bool {
    match (a, b) {
        (Constraint::Feasible(x), Constraint::Feasible(y)) => pareto_dominates(x, y),
        (Constraint::Feasible(_), Constraint::Infeasible(_)) => true,
        (Constraint::Infeasible(x), Constraint::Infeasible(y)) => x < y,
        _ => false,
    }
}

/// Two fitness values can be compared: both are defined, and two objective vectors have the
/// same number of objectives.
pub open spec fn comparable(a: Fitness, b: Fitness) -> bool {
    &&& !(a is Undefined)
    &&& !(b is Undefined)
    &&& (a is Feasible && b is Feasible) ==> a->Feasible_0.len() == b->Feasible_0.len()
}

/// Whether two objective vectors hold the same scores.
pub fn same_scores(a: &Vec<Score>, b: &Vec<Score>) -> (r: bool)
    ensures
        r == (a@ == b@),
{
    if a.len() != b.len() {
        return false;
    }
    let mut i: usize = 0;
    while i < a.len()
        invariant
            i <= a.len(),
            a.len() == b.len(),
            forall|j: int| 0 <= j < i ==> a@[j] == b@[j],
        decreases a.len() - i,
    {
        if a[i] != b[i] {
            assert(a@[i as int] != b@[i as int]);
            return false;
        }
        i = i + 1;
    }
    assert(a@ =~= b@);
    true
}

impl<X: Clone, Y: Clone> Constraint<X, Y> {
    pub fn is_feasible(&self) -> (r: bool)
        ensures
            r == (self is Feasible),
    {
        match self {
            Constraint::Feasible(_) => true,
            _ => false,
        }
    }

    pub fn is_infeasible(&self) -> (r: bool)
        ensures
            r == (self is Infeasible),
    {
        match self {
            Constraint::Infeasible(_) => true,
            _ => false,
        }
    }

    pub fn is_undefined(&self) -> (r: bool)
        ensures
            r == (self is Undefined),
    {
        match self {
            Constraint::Undefined => true,
            _ => false,
        }
    }

    /// A copy of the feasible payload.
    pub fn unwrap(&self) -> (r: X)
        requires
            self is Feasible,
        ensures
            cloned(self->Feasible_0, r),
    {
        match self {
            Constraint::Feasible(value) => value.clone(),
            _ => unreached(),
        }
    }

    /// A copy of the infeasible payload.
    pub fn unwrap_infeasible(&self) -> (r: Y)
        requires
            self is Infeasible,
        ensures
            cloned(self->Infeasible_0, r),
    {
        match self {
            Constraint::Infeasible(value) => value.clone(),
            _ => unreached(),
        }
    }
}

impl<X: Clone, Y: Clone> Clone for Constraint<X, Y> {
    fn clone(&self) -> (r: Self)
        ensures
            match (*self, r) {
                (Constraint::Feasible(a), Constraint::Feasible(b)) => cloned(a, b),
                (Constraint::Infeasible(a), Constraint::Infeasible(b)) => cloned(a, b),
                (Constraint::Undefined, Constraint::Undefined) => true,
                _ => false,
            },
    {
        match self {
            Constraint::Feasible(value) => Constraint::Feasible(value.clone()),
            Constraint::Infeasible(value) => Constraint::Infeasible(value.clone()),
            Constraint::Undefined => Constraint::Undefined,
        }
    }
}

/// A candidate: a genotype and the objectives it was evaluated to.
#[derive(Debug, PartialEq)]
pub struct Solution<X> {
    pub point: Vec<X>,
    pub objectives: Constraint<Vec<Score>, usize>,
}

impl<X> Solution<X> {
    /// The objectives by value.
    pub open spec fn fitness(&self) -> Fitness {
        match self.objectives {
            Constraint::Feasible(v) => Constraint::Feasible(v@),
            Constraint::Infeasible(u) => Constraint::Infeasible(u),
            Constraint::Undefined => Constraint::Undefined,
        }
    }

    /// `self` dominates `other`.
    pub open spec fn dominates_spec(&self, other: &Solution<X>) -> bool {
        fitness_dominates(self.fitness(), other.fitness())
    }

    pub fn new(point: Vec<X>) -> (r: Solution<X>)
        ensures
            r.point == point,
            r.objectives is Undefined,
    {
        Solution { point, objectives: Constraint::Undefined }
    }

    pub fn len(&self) -> (r: usize)
        ensures
            r == self.point.len(),
    {
        self.point.len()
    }

    /// Whether `self` dominates `other`. Both must have been evaluated.
    pub fn dominates(&self, other: &Solution<X>) -> (r: bool)
        requires
            comparable(self.fitness(), other.fitness()),
        ensures
            r == self.dominates_spec(other),
    {
        match (&self.objectives, &other.objectives) {
            (Constraint::Feasible(_), Constraint::Infeasible(_)) => true,
            (Constraint::Infeasible(_), Constraint::Feasible(_)) => false,
            (Constraint::Infeasible(x), Constraint::Infeasible(y)) => *x < *y,
            (Constraint::Feasible(self_obj), Constraint::Feasible(other_obj)) => {
                let num_obj = self_obj.len();
                let mut num_better: usize = 0;
                let mut num_worse: usize = 0;
                let mut i: usize = 0;
                while i < num_obj
                    invariant
                        i <= num_obj,
                        num_obj == self_obj.len(),
                        num_obj == other_obj.len(),
                        num_better <= i,
                        num_worse <= i,
                        num_worse == 0 <==> forall|j: int| 0 <= j < i ==> self_obj@[j] <= other_obj@[j],
                        num_better > 0 <==> exists|j: int| 0 <= j < i && self_obj@[j] < other_obj@[j],
                    decreases num_obj - i,
                {
                    if self_obj[i] < other_obj[i] {
                        num_better = num_better + 1;
                    } else if self_obj[i] > other_obj[i] {
                        num_worse = num_worse + 1;
                    }
                    i = i + 1;
                }
                num_better > 0 && num_worse == 0
            },
            _ => false,
        }
    }

    /// Whether the two candidates carry the same objectives.
    pub fn same_objectives(&self, other: &Solution<X>) -> (r: bool)
        ensures
            r == (self.fitness() == other.fitness()),
    {
        match (&self.objectives, &other.objectives) {
            (Constraint::Feasible(a), Constraint::Feasible(b)) => same_scores(a, b),
            (Constraint::Infeasible(a), Constraint::Infeasible(b)) => *a == *b,
            (Constraint::Undefined, Constraint::Undefined) => true,
            _ => false,
        }
    }
}

/// `a` is to be preferred to `b` for the constraints alone: it meets them and `b` does not,
/// or it violates them less.
pub open spec fn cnstr_dominates(a: Fitness, b: Fitness) -> bool {
    match (a, b) {
        (Constraint::Feasible(_), Constraint::Infeasible(_)) => true,
        (Constraint::Infeasible(x), Constraint::Infeasible(y)) => x < y,
        _ => false,
    }
}

/// Whether `x` is to be preferred to `y` for the constraints alone: it meets them and `y`
/// does not, or it violates them less.
pub fn dominates_cnstr<X>(x: &Solution<X>, y: &Solution<X>) -> (r: bool)
    requires
        !(x.objectives is Undefined),
        !(y.objectives is Undefined),
    ensures
        r == cnstr_dominates(x.fitness(), y.fitness()),
{
    match (&x.objectives, &y.objectives) {
        (Constraint::Feasible(_), Constraint::Feasible(_)) => false,
        // A candidate that meets the constraints is preferred to any that does not.
        (Constraint::Feasible(_), Constraint::Infeasible(_)) => true,
        (Constraint::Infeasible(_), Constraint::Feasible(_)) => false,
        // Of two that do not, the one that violates them less.
        (Constraint::Infeasible(a), Constraint::Infeasible(b)) => *a < *b,
        _ => false,
    }
}

impl<X: Clone> Solution<X> {
    /// `self` is a copy of `other`: equal objectives, and a genotype cloned locus by locus.
    pub open spec fn is_copy_of(&self, other: &Solution<X>) -> bool {
        &&& self.fitness() == other.fitness()
        &&& self.point.len() == other.point.len()
        &&& forall|i: int| 0 <= i < other.point.len() ==> cloned(other.point[i], #[trigger] self.point[i])
    }
}

impl<X: Clone> Clone for Solution<X> {
    fn clone(&self) -> (r: Self)
        ensures
            r.is_copy_of(self),
    {
        let objectives = match &self.objectives {
            Constraint::Feasible(v) => Constraint::Feasible(v.clone()),
            Constraint::Infeasible(u) => Constraint::Infeasible(*u),
            Constraint::Undefined => Constraint::Undefined,
        };
        Solution { point: self.point.clone(), objectives }
    }
}

/// Dominance is asymmetric: of two candidates at most one dominates the other.
pub proof fn lemma_dominance_asymmetric(a: Fitness, b: Fitness)
    requires
        comparable(a, b),
    ensures
        !(fitness_dominates(a, b) && fitness_dominates(b, a)),
{
}

/// No candidate dominates itself.
pub proof fn lemma_dominance_irreflexive(a: Fitness)
    ensures
        !fitness_dominates(a, a),
{
}

/// Dominance is transitive.
pub proof fn lemma_dominance_transitive(a: Fitness, b: Fitness, c: Fitness)
    requires
        comparable(a, b),
        comparable(b, c),
        fitness_dominates(a, b),
        fitness_dominates(b, c),
    ensures
        fitness_dominates(a, c),
{
    if a is Feasible && b is Feasible && c is Feasible {
        let x = a->Feasible_0;
        let y = b->Feasible_0;
        let z = c->Feasible_0;
        let i = choose|i: int| 0 <= i < x.len() && x[i] < y[i];
        assert(x[i] < z[i]);
    }
}

/// An infeasible candidate never dominates a feasible one.
pub proof fn lemma_infeasible_never_dominates_feasible(a: Fitness, b: Fitness)
    requires
        a is Infeasible,
        b is Feasible,
    ensures
        !fitness_dominates(a, b),
        fitness_dominates(b, a),
{
}

/// Two infeasible candidates with the same violation do not dominate each other.
pub proof fn lemma_equal_violation_non_dominating(a: Fitness, b: Fitness)
    requires
        a is Infeasible,
        b is Infeasible,
        a->Infeasible_0 == b->Infeasible_0,
    ensures
        !fitness_dominates(a, b),
        !fitness_dominates(b, a),
{
}

} // verus!
