use vstd::prelude::*;
use crate::clock::{clock_now, seconds_since};
use crate::instance::Instance;
use crate::local_search::{
    filter_usable, improving_step, lemma_listed_optimum, local_optimum, neighborhood_listed, objectives_of, select_neighbor, take_neighbor,
    Neighborhood, StepFunction,
};
use crate::moves::{generate_neighbors, is_move, listed, usable_neighbor};
use crate::random::{random_construction, RandomConstruction};
use crate::solution::Solution;
use crate::solver::Solver;
use crate::vnd::descend;

verus! {

/// How GRASP improves each construction.
#[derive(Debug, Clone, Copy, PartialEq, Eq, Structural)]
pub enum LocalSearchStrategy {
    /// Best improvement in one neighbourhood, until none improves.
    SingleNeighborhood(Neighborhood),
    /// Variable neighbourhood descent over all three neighbourhoods.
    VND,
    /// Best improvement over the union of all three neighbourhoods.
    CompositeNeighborhood,
}

#[derive(Debug, Clone, Copy)]
pub struct GRASPConfig {
    pub max_iterations: usize,
    pub time_limit_seconds: u64,
    pub local_search_strategy: LocalSearchStrategy,
    pub biased_construction: bool,
    pub local_search_max_iterations: usize,
    pub local_search_time_limit: u64,
}

impl Default for GRASPConfig {
    fn default() -> (r: Self)
        ensures
            r == (GRASPConfig {
                max_iterations: 100,
                time_limit_seconds: 300,
                local_search_strategy: LocalSearchStrategy::VND,
                biased_construction: true,
                local_search_max_iterations: 100,
                local_search_time_limit: 60,
            }),
    {
        GRASPConfig {
            max_iterations: 100,
            time_limit_seconds: 300,
            local_search_strategy: LocalSearchStrategy::VND,
            biased_construction: true,
            local_search_max_iterations: 100,
            local_search_time_limit: 60,
        }
    }
}

/// The three neighbourhoods, in the order that the descent scans them.
pub fn all_neighborhoods() -> (r: Vec<Neighborhood>)
    ensures
        r@ == seq![Neighborhood::Relocate, Neighborhood::Exchange, Neighborhood::TwoOpt],
{
    let r = vec![Neighborhood::Relocate, Neighborhood::Exchange, Neighborhood::TwoOpt];
    assert(r@ =~= seq![Neighborhood::Relocate, Neighborhood::Exchange, Neighborhood::TwoOpt]);
    r
}

/// One best-improvement step over the union of all three neighbourhoods.
pub fn composite_step<'a>(current: &Solution<'a>) -> (r: Option<Solution<'a>>)
    requires
        current.wf(),
        current.scorable(),
    ensures
        r is Some ==> usable_neighbor(current, r->0) && r->0.objective() < current.objective() && (is_move(
            current.instance,
            Neighborhood::Relocate,
            current.rs(),
            r->0.rs(),
        ) || is_move(current.instance, Neighborhood::Exchange, current.rs(), r->0.rs()) || is_move(
            current.instance,
            Neighborhood::TwoOpt,
            current.rs(),
            r->0.rs(),
        )),
        r is None ==> local_optimum(current.instance, Neighborhood::Relocate, current.rs(), current.objective())
            && local_optimum(current.instance, Neighborhood::Exchange, current.rs(), current.objective())
            && local_optimum(current.instance, Neighborhood::TwoOpt, current.rs(), current.objective()),
{
    let mut all = filter_usable(current, Neighborhood::Relocate, generate_neighbors(current, Neighborhood::Relocate));
    let mut more = filter_usable(current, Neighborhood::Exchange, generate_neighbors(current, Neighborhood::Exchange));
    let mut rest = filter_usable(current, Neighborhood::TwoOpt, generate_neighbors(current, Neighborhood::TwoOpt));
    let ghost l1 = all@;
    let ghost l2 = more@;
    let ghost l3 = rest@;
    all.append(&mut more);
    all.append(&mut rest);
    proof {
        assert(all@ == l1 + l2 + l3);
        lemma_listed_extend(current.instance, Neighborhood::Relocate, current.rs(), l1, l2, l3);
        lemma_listed_extend(current.instance, Neighborhood::Exchange, current.rs(), l1, l2, l3);
        lemma_listed_extend(current.instance, Neighborhood::TwoOpt, current.rs(), l1, l2, l3);
    }
    proof {
        assert forall|k: int| 0 <= k < all@.len() implies (#[trigger] all@[k]).wf() && all@[k].scorable() by {
            assert(usable_neighbor(current, all@[k]));
        }
    }
    let objs = objectives_of(&all);
    let cur = current.objective_function_value();
    match select_neighbor(&objs, cur, StepFunction::BestImprovement) {
        Some(k) => {
            let r = take_neighbor(all, k);
            Some(r)
        },
        None => {
            proof {
                assert forall|k: int| 0 <= k < all@.len() implies (#[trigger] all@[k]).instance == current.instance
                    && all@[k].objective() >= current.objective() by {
                    assert(objs@[k] >= cur);
                }
                lemma_listed_optimum(current.instance, Neighborhood::Relocate, current.rs(), all@, current.objective());
                lemma_listed_optimum(current.instance, Neighborhood::Exchange, current.rs(), all@, current.objective());
                lemma_listed_optimum(current.instance, Neighborhood::TwoOpt, current.rs(), all@, current.objective());
            }
            None
        },
    }
}

/// A list that holds every usable neighbour under `nh` still does when other
/// lists are joined around it.
proof fn lemma_listed_extend(
    inst: &Instance,
    nh: Neighborhood,
    a: Seq<Seq<usize>>,
    l1: Seq<Solution>,
    l2: Seq<Solution>,
    l3: Seq<Solution>,
)
    requires
        neighborhood_listed(inst, nh, a, l1) || neighborhood_listed(inst, nh, a, l2) || neighborhood_listed(inst, nh, a, l3),
    ensures
        neighborhood_listed(inst, nh, a, l1 + l2 + l3),
{
    let all = l1 + l2 + l3;
    assert forall|rs: Seq<Seq<usize>>| listed(l1, rs) || listed(l2, rs) || listed(l3, rs) implies #[trigger] listed(all, rs) by {
        if listed(l1, rs) {
            let k = choose|k: int| 0 <= k < l1.len() && #[trigger] l1[k].rs() == rs;
            assert(all[k] == l1[k]);
        } else if listed(l2, rs) {
            let k = choose|k: int| 0 <= k < l2.len() && #[trigger] l2[k].rs() == rs;
            assert(all[l1.len() + k] == l2[k]);
        } else {
            let k = choose|k: int| 0 <= k < l3.len() && #[trigger] l3[k].rs() == rs;
            assert(all[l1.len() + l2.len() + k] == l3[k]);
        }
    }
}

/// Keeps the better of the best so far and a candidate: the candidate where
/// it is feasible, scorable and strictly better, or where nothing is kept yet.
pub fn keep_better<'a>(best: Option<Solution<'a>>, cand: Solution<'a>) -> (r: Option<Solution<'a>>)
    requires
        cand.wf(),
        best is Some ==> best->0.wf() && best->0.valid() && best->0.scorable(),
    ensures
        r is Some ==> r->0.wf() && r->0.valid() && r->0.scorable(),
        (cand.valid() && cand.scorable() && (best is None || cand.objective() < best->0.objective())) ==> r == Some(cand),
        !(cand.valid() && cand.scorable() && (best is None || cand.objective() < best->0.objective())) ==> r == best,
{
    if cand.is_valid() && cand.within_limits() {
        let obj = cand.objective_function_value();
        let better = match &best {
            None => true,
            Some(b) => obj < b.objective_function_value(),
        };
        if better {
            return Some(cand);
        }
    }
    best
}

/// Greedy randomized adaptive search: repeated random constructions, each
/// improved by local search, keeping the best feasible result.
pub struct GRASP<'a> {
    pub instance: &'a Instance,
    pub config: GRASPConfig,
}

impl<'a> GRASP<'a> {
    pub fn new(instance: &'a Instance, config: GRASPConfig) -> (r: Self)
        ensures
            r.instance == instance,
            r.config == config,
    {
        GRASP { instance, config }
    }

    pub fn construct_solution(&self) -> (r: Solution<'a>)
        requires
            self.instance.wf(),
        ensures
            r.wf(),
            r.instance == self.instance,
            r.rs().len() == self.instance.n_vehicles,
    {
        RandomConstruction::new(self.instance, self.config.biased_construction).construct_solution()
    }

    /// Improves `solution` by the configured strategy. The result is never
    /// worse, is feasible wherever it differs from `solution`, and is a local
    /// optimum of the neighbourhoods it uses (for the descent, unless it
    /// made its full number of improvements).
    pub fn local_search(&self, solution: Solution<'a>) -> (r: Solution<'a>)
        requires
            solution.wf(),
        ensures
            r.wf(),
            r.instance == solution.instance,
            r.rs().len() == solution.rs().len(),
            solution.scorable() ==> r.scorable() && r.objective() <= solution.objective(),
            r.rs() != solution.rs() ==> r.valid(),
            !solution.scorable() ==> r.rs() == solution.rs(),
            solution.scorable() ==> match self.config.local_search_strategy {
                LocalSearchStrategy::SingleNeighborhood(nh) => local_optimum(r.instance, nh, r.rs(), r.objective()),
                LocalSearchStrategy::VND => (local_optimum(r.instance, Neighborhood::Relocate, r.rs(), r.objective())
                    && local_optimum(r.instance, Neighborhood::Exchange, r.rs(), r.objective()) && local_optimum(
                    r.instance,
                    Neighborhood::TwoOpt,
                    r.rs(),
                    r.objective(),
                )) || r.objective() + self.config.local_search_max_iterations <= solution.objective(),
                LocalSearchStrategy::CompositeNeighborhood => local_optimum(
                    r.instance,
                    Neighborhood::Relocate,
                    r.rs(),
                    r.objective(),
                ) && local_optimum(r.instance, Neighborhood::Exchange, r.rs(), r.objective()) && local_optimum(
                    r.instance,
                    Neighborhood::TwoOpt,
                    r.rs(),
                    r.objective(),
                ),
            },
    {
        match self.config.local_search_strategy {
            LocalSearchStrategy::SingleNeighborhood(nh) => self.single_neighborhood_search(solution, nh),
            LocalSearchStrategy::VND => self.vnd_search(solution),
            LocalSearchStrategy::CompositeNeighborhood => self.composite_neighborhood_search(solution),
        }
    }

    /// Best improvement in one neighbourhood until none improves: the result
    /// is then a local optimum of that neighbourhood.
    pub fn single_neighborhood_search(&self, solution: Solution<'a>, neighborhood: Neighborhood) -> (r: Solution<'a>)
        requires
            solution.wf(),
        ensures
            r.wf(),
            r.instance == solution.instance,
            r.rs().len() == solution.rs().len(),
            solution.scorable() ==> r.scorable() && r.objective() <= solution.objective(),
            r.rs() != solution.rs() ==> r.valid(),
            !solution.scorable() ==> r.rs() == solution.rs(),
            solution.scorable() ==> local_optimum(r.instance, neighborhood, r.rs(), r.objective()),
    {
        if !solution.within_limits() {
            return solution;
        }
        let ghost init_rs = solution.rs();
        let ghost init_obj = solution.objective();
        let ghost init_instance = solution.instance;
        let mut current = solution;
        let mut done = false;
        while !done
            invariant
                current.wf(),
                current.scorable(),
                current.instance == init_instance,
                current.rs().len() == init_rs.len(),
                current.objective() <= init_obj,
                current.rs() != init_rs ==> current.valid(),
                done ==> local_optimum(current.instance, neighborhood, current.rs(), current.objective()),
            decreases 2 * current.objective() + (if done { 0int } else { 1int }),
        {
            match improving_step(&current, neighborhood, StepFunction::BestImprovement) {
                Some(better) => {
                    current = better;
                },
                None => {
                    done = true;
                },
            }
        }
        current
    }

    /// Variable neighbourhood descent over all three neighbourhoods.
    pub fn vnd_search(&self, solution: Solution<'a>) -> (r: Solution<'a>)
        requires
            solution.wf(),
        ensures
            r.wf(),
            r.instance == solution.instance,
            r.rs().len() == solution.rs().len(),
            solution.scorable() ==> r.scorable() && r.objective() <= solution.objective(),
            r.rs() != solution.rs() ==> r.valid(),
            !solution.scorable() ==> r.rs() == solution.rs(),
            solution.scorable() ==> (local_optimum(r.instance, Neighborhood::Relocate, r.rs(), r.objective())
                && local_optimum(r.instance, Neighborhood::Exchange, r.rs(), r.objective()) && local_optimum(
                r.instance,
                Neighborhood::TwoOpt,
                r.rs(),
                r.objective(),
            )) || r.objective() + self.config.local_search_max_iterations <= solution.objective(),
    {
        let neighborhoods = all_neighborhoods();
        let (r, converged, _) = descend(solution, &neighborhoods, self.config.local_search_max_iterations);
        proof {
            if converged {
                assert(neighborhoods@[0] == Neighborhood::Relocate);
                assert(neighborhoods@[1] == Neighborhood::Exchange);
                assert(neighborhoods@[2] == Neighborhood::TwoOpt);
            }
        }
        r
    }

    /// Best improvement over the union of all three neighbourhoods until
    /// none improves: the result is then a local optimum of each.
    pub fn composite_neighborhood_search(&self, solution: Solution<'a>) -> (r: Solution<'a>)
        requires
            solution.wf(),
        ensures
            r.wf(),
            r.instance == solution.instance,
            r.rs().len() == solution.rs().len(),
            solution.scorable() ==> r.scorable() && r.objective() <= solution.objective(),
            r.rs() != solution.rs() ==> r.valid(),
            !solution.scorable() ==> r.rs() == solution.rs(),
            solution.scorable() ==> local_optimum(r.instance, Neighborhood::Relocate, r.rs(), r.objective())
                && local_optimum(r.instance, Neighborhood::Exchange, r.rs(), r.objective()) && local_optimum(
                r.instance,
                Neighborhood::TwoOpt,
                r.rs(),
                r.objective(),
            ),
    {
        if !solution.within_limits() {
            return solution;
        }
        let ghost init_rs = solution.rs();
        let ghost init_obj = solution.objective();
        let ghost init_instance = solution.instance;
        let mut current = solution;
        let mut done = false;
        while !done
            invariant
                current.wf(),
                current.scorable(),
                current.instance == init_instance,
                current.rs().len() == init_rs.len(),
                current.objective() <= init_obj,
                current.rs() != init_rs ==> current.valid(),
                done ==> local_optimum(current.instance, Neighborhood::Relocate, current.rs(), current.objective())
                    && local_optimum(current.instance, Neighborhood::Exchange, current.rs(), current.objective())
                    && local_optimum(current.instance, Neighborhood::TwoOpt, current.rs(), current.objective()),
            decreases 2 * current.objective() + (if done { 0int } else { 1int }),
        {
            match composite_step(&current) {
                Some(better) => {
                    current = better;
                },
                None => {
                    done = true;
                },
            }
        }
        current
    }

    /// One round with a fresh `construction`: an infeasible one leaves
    /// `best` as it is; a feasible one is improved by the configured local
    /// search and kept where it is better than `best`, or where nothing is
    /// kept yet.
    pub fn round(&self, best: Option<Solution<'a>>, construction: Solution<'a>) -> (r: Option<Solution<'a>>)
        requires
            self.instance.wf(),
            construction.wf(),
            construction.instance == self.instance,
            construction.rs().len() == self.instance.n_vehicles,
            best is Some ==> {
                &&& best->0.wf()
                &&& best->0.valid()
                &&& best->0.scorable()
                &&& best->0.instance == self.instance
                &&& best->0.rs().len() == self.instance.n_vehicles
            },
        ensures
            r is Some ==> {
                &&& r->0.wf()
                &&& r->0.valid()
                &&& r->0.scorable()
                &&& r->0.instance == self.instance
                &&& r->0.rs().len() == self.instance.n_vehicles
            },
            !construction.valid() ==> r == best,
            construction.valid() && construction.scorable() ==> {
                &&& r is Some
                &&& r->0.objective() <= construction.objective()
                &&& best is Some ==> r->0.objective() <= best->0.objective()
                &&& r != best ==> best is None || r->0.objective() < best->0.objective()
            },
            construction.valid() && !construction.scorable() ==> r == best,
    {
        if construction.is_valid() {
            let ghost c = construction;
            let improved = self.local_search(construction);
            proof {
                if improved.rs() == c.rs() {
                    assert(improved.valid() == c.valid());
                    assert(improved.scorable() == c.scorable());
                }
            }
            keep_better(best, improved)
        } else {
            best
        }
    }

    /// Runs up to `max_iterations` rounds within the time budget, each on a
    /// fresh construction. Returns the best kept solution and the number of
    /// rounds whose construction was feasible and scorable; nothing is kept
    /// exactly when there was no such round.
    pub fn search_rounds(&self) -> (r: (Option<Solution<'a>>, usize))
        requires
            self.instance.wf(),
        ensures
            r.0 is Some ==> {
                &&& r.0->0.wf()
                &&& r.0->0.valid()
                &&& r.0->0.scorable()
                &&& r.0->0.instance == self.instance
                &&& r.0->0.rs().len() == self.instance.n_vehicles
            },
            r.0 is None <==> r.1 == 0,
            r.1 <= self.config.max_iterations,
    {
        let start = clock_now();
        let mut best: Option<Solution<'a>> = None;
        let mut usable: usize = 0;
        let mut iteration: usize = 0;
        while iteration < self.config.max_iterations && seconds_since(&start) < self.config.time_limit_seconds
            invariant
                self.instance.wf(),
                best is Some ==> {
                    &&& best->0.wf()
                    &&& best->0.valid()
                    &&& best->0.scorable()
                    &&& best->0.instance == self.instance
                    &&& best->0.rs().len() == self.instance.n_vehicles
                },
                best is None <==> usable == 0,
                usable <= iteration <= self.config.max_iterations,
            decreases self.config.max_iterations - iteration,
        {
            let construction = self.construct_solution();
            if construction.is_valid() && construction.within_limits() {
                usable += 1;
            }
            best = self.round(best, construction);
            iteration += 1;
        }
        (best, usable)
    }
}

impl<'a> Solver<'a> for GRASP<'a> {
    open spec fn problem(&self) -> &'a Instance {
        self.instance
    }

    /// A feasible, scorable solution, or else a biased random construction.
    open spec fn solves(&self, r: Solution<'a>) -> bool {
        (r.valid() && r.scorable()) || random_construction(self.instance, r.rs(), true)
    }

    /// The best solution of the rounds, or a fresh biased construction where
    /// no round kept one.
    fn solve(&self) -> (r: Solution<'a>) {
        match self.search_rounds().0 {
            Some(s) => s,
            None => RandomConstruction::new(self.instance, true).construct_solution(),
        }
    }
}

} // verus!
