use vstd::prelude::*;
use crate::instance::Instance;
use crate::local_search::{improving_step, local_optimum, Neighborhood, StepFunction};
use crate::random::{random_construction, RandomConstruction};
use crate::evaluation::{objective_micro, scorable};
use crate::local_search::improved_from;
use crate::solution::Solution;
use crate::solver::Solver;

verus! {

/// Variable neighbourhood descent from `initial`: scans `neighborhoods` in
/// order and takes the best improving neighbour of the first one that has
/// any, then scans again from the first; stops when a full scan finds no
/// improvement, and then says so, or after `max_iterations` improvements.
/// Where `initial` cannot be scored it is returned as it is.
pub fn descend<'a>(initial: Solution<'a>, neighborhoods: &Vec<Neighborhood>, max_iterations: usize) -> (r: (
    Solution<'a>,
    bool,
    usize,
))
    requires
        initial.wf(),
    ensures
        r.0.wf(),
        r.0.instance == initial.instance,
        r.0.rs().len() == initial.rs().len(),
        initial.scorable() ==> r.0.scorable() && r.0.objective() <= initial.objective(),
        r.0.rs() != initial.rs() ==> r.0.valid(),
        !initial.scorable() ==> r.0.rs() == initial.rs(),
        r.2 <= max_iterations,
        initial.scorable() ==> r.1 || r.2 == max_iterations,
        r.2 > 0 ==> r.0.objective() < initial.objective() && r.0.valid(),
        initial.scorable() ==> r.0.objective() + r.2 <= initial.objective(),
        r.1 ==> r.0.scorable() && forall|k: int|
            0 <= k < neighborhoods@.len() ==> local_optimum(
                r.0.instance,
                #[trigger] neighborhoods@[k],
                r.0.rs(),
                r.0.objective(),
            ),
{
    if !initial.within_limits() {
        return (initial, false, 0);
    }
    let ghost init_rs = initial.rs();
    let ghost init_obj = initial.objective();
    let ghost init_instance = initial.instance;
    let mut current = initial;
    let mut converged = false;
    let mut iterations: usize = 0;
    while iterations < max_iterations && !converged
        invariant
            current.wf(),
            current.scorable(),
            current.instance == init_instance,
            current.rs().len() == init_rs.len(),
            current.objective() <= init_obj,
            current.rs() != init_rs ==> current.valid(),
            iterations <= max_iterations,
            iterations > 0 ==> current.objective() < init_obj && current.valid(),
            current.objective() + iterations <= init_obj,
            converged ==> forall|k: int|
                0 <= k < neighborhoods@.len() ==> local_optimum(
                    current.instance,
                    #[trigger] neighborhoods@[k],
                    current.rs(),
                    current.objective(),
                ),
        decreases max_iterations - iterations + (if converged { 0int } else { 1int }),
    {
        let mut next: Option<Solution<'a>> = None;
        let mut k: usize = 0;
        while k < neighborhoods.len() && next.is_none()
            invariant
                current.wf(),
                current.scorable(),
                k <= neighborhoods@.len(),
                next is None ==> forall|j: int|
                    0 <= j < k ==> local_optimum(current.instance, #[trigger] neighborhoods@[j], current.rs(), current.objective()),
                next is Some ==> {
                    &&& next->0.wf()
                    &&& next->0.valid()
                    &&& next->0.scorable()
                    &&& next->0.instance == current.instance
                    &&& next->0.rs().len() == current.rs().len()
                    &&& next->0.objective() < current.objective()
                },
            decreases neighborhoods@.len() - k + (if next is None { 1int } else { 0int }),
        {
            next = improving_step(&current, neighborhoods[k], StepFunction::BestImprovement);
            if next.is_none() {
                k += 1;
            }
        }
        match next {
            Some(better) => {
                current = better;
                iterations += 1;
            },
            None => {
                converged = true;
            },
        }
    }
    (current, converged, iterations)
}

/// Variable neighbourhood descent from a random construction.
pub struct VND<'a> {
    pub instance: &'a Instance,
    pub neighborhoods: Vec<Neighborhood>,
    pub max_iterations: usize,
    pub biased_construction: bool,
}

impl<'a> VND<'a> {
    /// At most 1000 improvements, from the biased construction.
    pub fn new(instance: &'a Instance, neighborhoods: Vec<Neighborhood>) -> (r: Self)
        ensures
            r.instance == instance,
            r.neighborhoods == neighborhoods,
            r.max_iterations == 1000,
            r.biased_construction,
    {
        VND { instance, neighborhoods, max_iterations: 1000, biased_construction: true }
    }

    pub fn with_max_iterations(self, max_iterations: usize) -> (r: Self)
        ensures
            r.instance == self.instance,
            r.neighborhoods == self.neighborhoods,
            r.max_iterations == max_iterations,
            r.biased_construction == self.biased_construction,
    {
        VND { max_iterations, ..self }
    }

    pub fn with_biased_construction(self, biased: bool) -> (r: Self)
        ensures
            r.instance == self.instance,
            r.neighborhoods == self.neighborhoods,
            r.max_iterations == self.max_iterations,
            r.biased_construction == biased,
    {
        VND { biased_construction: biased, ..self }
    }

    pub fn construct_initial_solution(&self) -> (r: Solution<'a>)
        requires
            self.instance.wf(),
        ensures
            r.wf(),
            r.instance == self.instance,
            r.rs().len() == self.instance.n_vehicles,
            random_construction(self.instance, r.rs(), self.biased_construction),
    {
        RandomConstruction::new(self.instance, self.biased_construction).construct_solution()
    }

    /// The best improving neighbour of `current` in one neighbourhood.
    pub fn explore_neighborhood(&self, current: &Solution<'a>, neighborhood: Neighborhood) -> (r: Option<Solution<'a>>)
        requires
            current.wf(),
            current.scorable(),
        ensures
            r is Some ==> r->0.wf() && r->0.valid() && r->0.objective() < current.objective() && local_optimum(
                current.instance,
                neighborhood,
                current.rs(),
                r->0.objective(),
            ),
            r is None ==> local_optimum(current.instance, neighborhood, current.rs(), current.objective()),
    {
        improving_step(current, neighborhood, StepFunction::BestImprovement)
    }

}

impl<'a> Solver<'a> for VND<'a> {
    open spec fn problem(&self) -> &'a Instance {
        self.instance
    }

    /// Descended from a random construction: no worse, feasible where
    /// changed, and a local optimum of every listed neighbourhood unless
    /// `max_iterations` improvements were made.
    open spec fn solves(&self, r: Solution<'a>) -> bool {
        exists|s0: Seq<Seq<usize>>|
            #[trigger] random_construction(self.instance, s0, self.biased_construction) && improved_from(
                self.instance,
                s0,
                r.rs(),
            ) && (scorable(self.instance, s0) ==> (forall|k: int|
                0 <= k < self.neighborhoods@.len() ==> local_optimum(
                    self.instance,
                    #[trigger] self.neighborhoods@[k],
                    r.rs(),
                    objective_micro(self.instance, r.rs()),
                )) || objective_micro(self.instance, r.rs()) + self.max_iterations <= objective_micro(self.instance, s0))
    }

    fn solve(&self) -> (r: Solution<'a>) {
        let initial = self.construct_initial_solution();
        let (r, _, _) = descend(initial, &self.neighborhoods, self.max_iterations);
        r
    }
}

} // verus!
