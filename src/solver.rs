use vstd::prelude::*;
use crate::instance::Instance;
use crate::solution::Solution;

verus! {

/// A method that answers one instance.
pub trait Solver<'a> {
    /// The instance that the solver answers.
    spec fn problem(&self) -> &'a Instance;

    /// What an answer of this solver is.
    spec fn solves(&self, r: Solution<'a>) -> bool;

    /// An answer to the instance: well formed, with one route per vehicle,
    /// and what `solves` says of this solver.
    fn solve(&self) -> (r: Solution<'a>)
        requires
            self.problem().wf(),
        ensures
            r.wf(),
            r.instance == self.problem(),
            r.rs().len() == self.problem().n_vehicles,
            self.solves(r),
    ;
}

} // verus!
