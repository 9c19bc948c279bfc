use vstd::prelude::*;
use rand::rngs::ThreadRng;
use crate::error::OperatorError;
use crate::random::gen_ratio;

verus! {

/// A probability, held as a ratio of whole numbers.
#[derive(Clone, Copy, Debug, PartialEq, Eq)]
pub struct Probability {
    pub numerator: u32,
    pub denominator: u32,
}

impl Probability {
    /// The ratio lies between nought and one.
    pub open spec fn wf(&self) -> bool {
        0 < self.denominator && self.numerator <= self.denominator
    }

    /// The probability of `numerator` in `denominator`. A ratio that does not lie between
    /// nought and one is refused.
    pub fn new(numerator: u32, denominator: u32) -> (r: Result<Probability, OperatorError>)
        ensures
            r is Ok <==> 0 < denominator && numerator <= denominator,
            r is Ok ==> r->Ok_0 == (Probability { numerator, denominator }) && r->Ok_0.wf(),
            r is Err ==> r->Err_0 == OperatorError::InvalidArgument,
    {
        if denominator == 0 || numerator > denominator {
            Err(OperatorError::InvalidArgument)
        } else {
            Ok(Probability { numerator, denominator })
        }
    }

    /// What is certain to happen.
    pub fn certain() -> (r: Probability)
        ensures
            r.wf(),
            r.numerator == r.denominator,
    {
        Probability { numerator: 1, denominator: 1 }
    }

    /// Whether the event happens this time. What is certain happens, and what has no chance
    /// does not.
    pub fn happens(&self, rng: &mut ThreadRng) -> (r: bool)
        requires
            self.wf(),
        ensures
            self.numerator == self.denominator ==> r,
            self.numerator == 0 ==> !r,
    {
        gen_ratio(rng, self.numerator, self.denominator)
    }

    /// This share of `count`, rounded down.
    pub fn of(&self, count: usize) -> (r: usize)
        requires
            self.wf(),
        ensures
            r == count * self.numerator / (self.denominator as int),
            r <= count,
    {
        proof {
            assert(count * self.numerator <= count * self.denominator) by (nonlinear_arith)
                requires
                    self.numerator <= self.denominator,
                    0 <= count,
            ;
            assert(count * self.numerator <= u128::MAX) by (nonlinear_arith)
                requires
                    count <= u64::MAX,
                    self.numerator <= u32::MAX,
            ;
            assert(0 <= count * self.numerator) by (nonlinear_arith)
                requires
                    0 <= count,
                    0 <= self.numerator,
            ;
            assert(count * self.numerator / (self.denominator as int) <= count) by (nonlinear_arith)
                requires
                    0 <= count * self.numerator <= count * self.denominator,
                    self.denominator > 0,
                    0 <= count,
            ;
        }
        let share: u128 = (count as u128) * (self.numerator as u128) / (self.denominator as u128);
        share as usize
    }
}

} // verus!
