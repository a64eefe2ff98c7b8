use vstd::prelude::*;
use crate::clock::seconds_since;
use crate::instance::Instance;
use crate::local_search::{filter_usable, has_usable_neighbor, lemma_listed_empty, Neighborhood};
use crate::moves::{generate_neighbors, is_move, usable_neighbor};
use crate::random::{random_below, RandomConstruction};
use crate::solution::Solution;

verus! {

/// Whether a step moves from a solution of objective `current_obj` to a
/// neighbour of objective `neighbor_obj`: always where it improves, and
/// where it is worse only by less than `threshold` (all in millionths).
///
/// The Metropolis rule accepts a worsening `delta` at temperature `T` with
/// probability `exp(-delta / T)`; with `u` uniform in `(0, 1)` that is the
/// event `delta < -T * ln(u)`, so `threshold` is that right-hand side, drawn
/// once per step. At temperature zero the threshold is zero.
pub open spec fn accepts(current_obj: int, neighbor_obj: int, threshold: int) -> bool {
    neighbor_obj < current_obj || neighbor_obj - current_obj < threshold
}

/// A run in progress: the current solution, the best feasible solution seen
/// (none while no feasible one was visited), and the steps taken so far.
pub struct AnnealingState<'a> {
    pub current: Solution<'a>,
    pub best: Option<Solution<'a>>,
    pub iteration: usize,
}

impl<'a> AnnealingState<'a> {
    /// The current solution is scorable; a best is feasible; and once the
    /// current solution is feasible there is a best, no worse than it.
    pub open spec fn ok(&self, inst: &Instance) -> bool {
        &&& self.current.wf()
        &&& self.current.scorable()
        &&& self.current.instance == inst
        &&& self.current.rs().len() == inst.n_vehicles
        &&& self.best is Some ==> {
            &&& self.best->0.wf()
            &&& self.best->0.valid()
            &&& self.best->0.scorable()
            &&& self.best->0.instance == inst
            &&& self.best->0.rs().len() == inst.n_vehicles
        }
        &&& self.current.valid() ==> self.best is Some && self.best->0.objective() <= self.current.objective()
    }
}

/// Simulated annealing over one move family: the decisions of a run, from
/// a random construction. The temperature schedule lies with the caller,
/// which hands each level its acceptance thresholds.
pub struct SimulatedAnnealing<'a> {
    pub instance: &'a Instance,
    pub neighborhood: Neighborhood,
    pub max_iterations: usize,
    pub iterations_per_temperature: usize,
    pub time_limit_seconds: u64,
    pub biased_construction: bool,
}

impl<'a> SimulatedAnnealing<'a> {
    pub fn new(
        instance: &'a Instance,
        neighborhood: Neighborhood,
        max_iterations: usize,
        iterations_per_temperature: usize,
        time_limit_seconds: u64,
        biased_construction: bool,
    ) -> (r: Self)
        ensures
            r == (SimulatedAnnealing {
                instance,
                neighborhood,
                max_iterations,
                iterations_per_temperature,
                time_limit_seconds,
                biased_construction,
            }),
    {
        SimulatedAnnealing {
            instance,
            neighborhood,
            max_iterations,
            iterations_per_temperature,
            time_limit_seconds,
            biased_construction,
        }
    }

    pub fn construct_initial_solution(&self) -> (r: Solution<'a>)
        requires
            self.instance.wf(),
        ensures
            r.wf(),
            r.instance == self.instance,
            r.rs().len() == self.instance.n_vehicles,
    {
        RandomConstruction::new(self.instance, self.biased_construction).construct_solution()
    }

    /// One usable neighbour of `current` drawn at random, if there is any.
    pub fn generate_random_neighbor(&self, current: &Solution<'a>) -> (r: Option<Solution<'a>>)
        requires
            current.wf(),
        ensures
            r is Some ==> usable_neighbor(current, r->0) && is_move(
                current.instance,
                self.neighborhood,
                current.rs(),
                r->0.rs(),
            ),
            r is None <==> !has_usable_neighbor(current.instance, self.neighborhood, current.rs()),
    {
        let candidates = generate_neighbors(current, self.neighborhood);
        let neighbors = filter_usable(current, self.neighborhood, candidates);
        proof {
            lemma_listed_empty(current.instance, self.neighborhood, current.rs(), neighbors@);
        }
        if neighbors.len() == 0 {
            return None;
        }
        let idx = random_below(neighbors.len());
        let mut neighbors = neighbors;
        Some(neighbors.swap_remove(idx))
    }

    /// The acceptance rule of one step.
    pub fn accept_solution(&self, current_obj: u128, neighbor_obj: u128, threshold: u128) -> (r: bool)
        ensures
            r == accepts(current_obj as int, neighbor_obj as int, threshold as int),
            threshold == 0 ==> r == (neighbor_obj < current_obj),
    {
        neighbor_obj < current_obj || neighbor_obj - current_obj < threshold
    }

    /// The state at the start of a run: the construction as current, and as
    /// best where it is feasible. Where the construction cannot be scored,
    /// it is handed back as the run's answer.
    pub fn start(&self) -> (r: Result<AnnealingState<'a>, Solution<'a>>)
        requires
            self.instance.wf(),
        ensures
            r is Ok ==> {
                &&& r->Ok_0.ok(self.instance)
                &&& r->Ok_0.iteration == 0
                &&& r->Ok_0.current.valid() ==> r->Ok_0.best is Some && r->Ok_0.best->0.rs() == r->Ok_0.current.rs()
                &&& !r->Ok_0.current.valid() ==> r->Ok_0.best is None
            },
            r is Err ==> r->Err_0.wf() && r->Err_0.instance == self.instance,
    {
        let initial = self.construct_initial_solution();
        if !initial.within_limits() {
            return Err(initial);
        }
        if initial.is_valid() {
            let best = initial.duplicate();
            Ok(AnnealingState { current: initial, best: Some(best), iteration: 0 })
        } else {
            Ok(AnnealingState { current: initial, best: None, iteration: 0 })
        }
    }

    /// One step with the drawn `neighbor` (if any) and acceptance
    /// `threshold`: the run moves to the neighbour exactly where `accepts`
    /// holds; a move makes the neighbour (feasible, as every drawn one is)
    /// the best where there is none yet or it scores strictly lower; the
    /// step count grows by one.
    pub fn step(&self, state: AnnealingState<'a>, neighbor: Option<Solution<'a>>, threshold: u128) -> (r: AnnealingState<
        'a,
    >)
        requires
            self.instance.wf(),
            state.ok(self.instance),
            state.iteration < usize::MAX,
            neighbor is Some ==> usable_neighbor(&state.current, neighbor->0),
        ensures
            r.ok(self.instance),
            r.iteration == state.iteration + 1,
            neighbor is Some && accepts(
                state.current.objective() as int,
                neighbor->0.objective() as int,
                threshold as int,
            ) ==> r.current == neighbor->0 && (if state.best is None || neighbor->0.objective()
                < state.best->0.objective() {
                r.best is Some && r.best->0.rs() == neighbor->0.rs() && r.best->0.instance == neighbor->0.instance
            } else {
                r.best == state.best
            }),
            !(neighbor is Some && accepts(
                state.current.objective() as int,
                neighbor->0.objective() as int,
                threshold as int,
            )) ==> r.current == state.current && r.best == state.best,
    {
        let AnnealingState { current, best, iteration } = state;
        match neighbor {
            Some(nb) => {
                let current_obj = current.objective_function_value();
                let neighbor_obj = nb.objective_function_value();
                if self.accept_solution(current_obj, neighbor_obj, threshold) {
                    let better = match &best {
                        None => true,
                        Some(b) => neighbor_obj < b.objective_function_value(),
                    };
                    if better {
                        let new_best = nb.duplicate();
                        AnnealingState { current: nb, best: Some(new_best), iteration: iteration + 1 }
                    } else {
                        AnnealingState { current: nb, best, iteration: iteration + 1 }
                    }
                } else {
                    AnnealingState { current, best, iteration: iteration + 1 }
                }
            },
            None => AnnealingState { current, best, iteration: iteration + 1 },
        }
    }

    /// One temperature level: a step for each threshold, while steps remain
    /// and the time budget lasts, each drawing a random neighbour and taken
    /// by `step`.
    pub fn run_level(
        &self,
        state: AnnealingState<'a>,
        thresholds: &Vec<u128>,
        started: &std::time::Instant,
    ) -> (r: AnnealingState<'a>)
        requires
            self.instance.wf(),
            state.ok(self.instance),
        ensures
            r.ok(self.instance),
            r.iteration >= state.iteration,
            r.iteration - state.iteration <= thresholds@.len(),
            r.iteration <= self.max_iterations || r.iteration == state.iteration,
            state.best is Some ==> r.best is Some && r.best->0.objective() <= state.best->0.objective(),
            r.current.rs() != state.current.rs() ==> r.current.valid(),
            (forall|k: int| 0 <= k < thresholds@.len() ==> #[trigger] thresholds@[k] == 0) ==> r.current.objective()
                <= state.current.objective(),
    {
        let ghost inst = self.instance;
        let ghost start_obj = state.current.objective();
        let ghost start_rs = state.current.rs();
        let ghost start_best = state.best;
        let ghost start_iteration = state.iteration;
        let mut st = state;
        let mut k: usize = 0;
        while k < thresholds.len() && st.iteration < self.max_iterations
            && seconds_since(started) < self.time_limit_seconds
            invariant
                self.instance.wf(),
                inst == self.instance,
                st.ok(inst),
                st.iteration >= start_iteration,
                st.iteration - start_iteration == k,
                st.iteration <= self.max_iterations || k == 0,
                start_best is Some ==> st.best is Some && st.best->0.objective() <= start_best->0.objective(),
                st.current.rs() != start_rs ==> st.current.valid(),
                (forall|m: int| 0 <= m < thresholds@.len() ==> #[trigger] thresholds@[m] == 0) ==> st.current.objective()
                    <= start_obj,
                k <= thresholds@.len(),
            decreases thresholds@.len() - k,
        {
            let neighbor = self.generate_random_neighbor(&st.current);
            st = self.step(st, neighbor, thresholds[k]);
            k += 1;
        }
        st
    }

    /// The answer of a run: the best feasible solution visited, or the
    /// current one where none was feasible.
    pub fn finish(&self, state: AnnealingState<'a>) -> (r: Solution<'a>)
        requires
            state.ok(self.instance),
        ensures
            r.wf(),
            r.instance == self.instance,
            state.best is Some ==> r == state.best->0 && r.valid(),
            state.best is None ==> r == state.current && !r.valid(),
    {
        match state.best {
            Some(b) => b,
            None => state.current,
        }
    }
}

} // verus!
