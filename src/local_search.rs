use vstd::prelude::*;
use crate::clock::{clock_now, seconds_since};
use crate::deterministic::{greedy_construction, DeterministicConstruction};
use crate::instance::Instance;
use crate::evaluation::objective_micro;
use crate::moves::{
    exchange_candidate, exchange_considered, generate_neighbors, is_move, keepable, listed, relocated, relocation_considered,
    candidate_neighbor, two_opt_candidate, two_opt_route, usable_neighbor,
};
use crate::evaluation::{nodes_in_range, scorable};
use crate::validity::routes_valid;
use crate::solution::Solution;
use crate::solver::Solver;

verus! {

/// A family of local modifications.
#[derive(Debug, Clone, Copy, PartialEq, Eq, Structural)]
pub enum Neighborhood {
    /// Move a request from one route to another.
    Relocate,
    /// Swap two requests between routes.
    Exchange,
    /// Reverse a segment within a route.
    TwoOpt,
}

/// Which improving neighbour a step takes.
#[derive(Debug, Clone, Copy, PartialEq, Eq, Structural)]
pub enum StepFunction {
    /// The first neighbour that improves on the current solution.
    FirstImprovement,
    /// The best neighbour, where it improves on the current solution.
    BestImprovement,
}

/// Which steps are accepted.
#[derive(Debug, Clone, Copy, PartialEq, Eq, Structural)]
pub enum AcceptanceCriterion {
    /// Only strictly improving steps.
    ImprovingOnly,
}

#[derive(Debug, Clone, Copy)]
pub struct LocalSearchConfig {
    pub neighborhood: Neighborhood,
    pub step_function: StepFunction,
    pub acceptance: AcceptanceCriterion,
    pub max_iterations: usize,
    pub max_no_improvement: usize,
    pub time_limit_seconds: u64,
}

impl Default for LocalSearchConfig {
    fn default() -> (r: Self)
        ensures
            r == (LocalSearchConfig {
                neighborhood: Neighborhood::Exchange,
                step_function: StepFunction::FirstImprovement,
                acceptance: AcceptanceCriterion::ImprovingOnly,
                max_iterations: 1000,
                max_no_improvement: 100,
                time_limit_seconds: 60,
            }),
    {
        LocalSearchConfig {
            neighborhood: Neighborhood::Exchange,
            step_function: StepFunction::FirstImprovement,
            acceptance: AcceptanceCriterion::ImprovingOnly,
            max_iterations: 1000,
            max_no_improvement: 100,
            time_limit_seconds: 60,
        }
    }
}

/// No usable neighbour of the routes `a` under move family `nh` has an
/// objective below `obj`.
pub open spec fn local_optimum(inst: &Instance, nh: Neighborhood, a: Seq<Seq<usize>>, obj: nat) -> bool {
    match nh {
        Neighborhood::Relocate => forall|v1: int, v2: int, q: int, pos: int, dpos: int|
            relocation_considered(inst, a, v1, v2, q, pos, dpos) && keepable(
                inst,
                #[trigger] relocated(inst, a, v1, v2, q, pos, dpos),
            ) ==> objective_micro(inst, relocated(inst, a, v1, v2, q, pos, dpos)) >= obj,
        Neighborhood::Exchange => forall|v1: int, v2: int, q1: int, q2: int, pos1: int, pos2: int|
            exchange_considered(inst, a, v1, v2, q1, q2, pos1, pos2) && keepable(
                inst,
                #[trigger] exchange_candidate(inst, a, v1, v2, q1, q2, pos1, pos2),
            ) ==> objective_micro(inst, exchange_candidate(inst, a, v1, v2, q1, q2, pos1, pos2)) >= obj,
        Neighborhood::TwoOpt => forall|v: int, i: int, j: int|
            0 <= v < a.len() && 1 <= i < j <= a[v].len() - 2 && keepable(inst, #[trigger] two_opt_candidate(a, v, i, j))
                ==> objective_micro(inst, two_opt_candidate(a, v, i, j)) >= obj,
    }
}

/// Some usable neighbour of `a` exists under `nh`.
pub open spec fn has_usable_neighbor(inst: &Instance, nh: Neighborhood, a: Seq<Seq<usize>>) -> bool {
    match nh {
        Neighborhood::Relocate => exists|v1: int, v2: int, q: int, pos: int, dpos: int|
            relocation_considered(inst, a, v1, v2, q, pos, dpos) && keepable(
                inst,
                #[trigger] relocated(inst, a, v1, v2, q, pos, dpos),
            ),
        Neighborhood::Exchange => exists|v1: int, v2: int, q1: int, q2: int, pos1: int, pos2: int|
            exchange_considered(inst, a, v1, v2, q1, q2, pos1, pos2) && keepable(
                inst,
                #[trigger] exchange_candidate(inst, a, v1, v2, q1, q2, pos1, pos2),
            ),
        Neighborhood::TwoOpt => exists|v: int, i: int, j: int|
            0 <= v < a.len() && 1 <= i < j <= a[v].len() - 2 && keepable(inst, #[trigger] two_opt_candidate(a, v, i, j)),
    }
}

/// A complete list of the usable neighbours is empty exactly when there is
/// none.
pub proof fn lemma_listed_empty(inst: &Instance, nh: Neighborhood, a: Seq<Seq<usize>>, out: Seq<Solution>)
    requires
        neighborhood_listed(inst, nh, a, out),
        forall|k: int|
            0 <= k < out.len() ==> (#[trigger] out[k]).instance == inst && out[k].wf() && out[k].valid()
                && out[k].scorable() && is_move(inst, nh, a, out[k].rs()),
    ensures
        out.len() == 0 <==> !has_usable_neighbor(inst, nh, a),
{
    if out.len() > 0 {
        let s = out[0];
        assert(keepable(inst, s.rs()));
        match nh {
            Neighborhood::Relocate => {
                let (v1, v2, q, pos, dpos) = choose|v1: int, v2: int, q: int, pos: int, dpos: int|
                    relocation_considered(inst, a, v1, v2, q, pos, dpos) && #[trigger] relocated(inst, a, v1, v2, q, pos, dpos) == s.rs();
                assert(keepable(inst, relocated(inst, a, v1, v2, q, pos, dpos)));
            },
            Neighborhood::Exchange => {
                let (v1, v2, q1, q2, p1, p2) = choose|v1: int, v2: int, q1: int, q2: int, p1: int, p2: int|
                    exchange_considered(inst, a, v1, v2, q1, q2, p1, p2) && #[trigger] exchange_candidate(inst, a, v1, v2, q1, q2, p1, p2) == s.rs();
                assert(keepable(inst, exchange_candidate(inst, a, v1, v2, q1, q2, p1, p2)));
            },
            Neighborhood::TwoOpt => {
                let (v, i, j) = choose|v: int, i: int, j: int|
                    0 <= v < a.len() && 1 <= i < j <= a[v].len() - 2 && #[trigger] a.update(v, two_opt_route(a[v], i, j)) == s.rs();
                assert(two_opt_candidate(a, v, i, j) == s.rs());
                assert(keepable(inst, two_opt_candidate(a, v, i, j)));
            },
        }
    } else {
        if has_usable_neighbor(inst, nh, a) {
            match nh {
                Neighborhood::Relocate => {
                    let (v1, v2, q, pos, dpos) = choose|v1: int, v2: int, q: int, pos: int, dpos: int|
                        relocation_considered(inst, a, v1, v2, q, pos, dpos) && keepable(inst, #[trigger] relocated(inst, a, v1, v2, q, pos, dpos));
                    assert(listed(out, relocated(inst, a, v1, v2, q, pos, dpos)));
                },
                Neighborhood::Exchange => {
                    let (v1, v2, q1, q2, p1, p2) = choose|v1: int, v2: int, q1: int, q2: int, p1: int, p2: int|
                        exchange_considered(inst, a, v1, v2, q1, q2, p1, p2) && keepable(inst, #[trigger] exchange_candidate(inst, a, v1, v2, q1, q2, p1, p2));
                    assert(listed(out, exchange_candidate(inst, a, v1, v2, q1, q2, p1, p2)));
                },
                Neighborhood::TwoOpt => {
                    let (v, i, j) = choose|v: int, i: int, j: int|
                        0 <= v < a.len() && 1 <= i < j <= a[v].len() - 2 && keepable(inst, #[trigger] two_opt_candidate(a, v, i, j));
                    assert(listed(out, two_opt_candidate(a, v, i, j)));
                },
            }
        }
    }
}

/// Every candidate neighbour of `a` under `nh` whose stops are all nodes
/// has routes in the list `out`.
pub open spec fn neighborhood_candidates(inst: &Instance, nh: Neighborhood, a: Seq<Seq<usize>>, out: Seq<Solution>) -> bool {
    match nh {
        Neighborhood::Relocate => forall|v1: int, v2: int, q: int, pos: int, dpos: int|
            relocation_considered(inst, a, v1, v2, q, pos, dpos) && nodes_in_range(
                inst,
                #[trigger] relocated(inst, a, v1, v2, q, pos, dpos),
            ) ==> listed(out, relocated(inst, a, v1, v2, q, pos, dpos)),
        Neighborhood::Exchange => forall|v1: int, v2: int, q1: int, q2: int, pos1: int, pos2: int|
            exchange_considered(inst, a, v1, v2, q1, q2, pos1, pos2) && nodes_in_range(
                inst,
                #[trigger] exchange_candidate(inst, a, v1, v2, q1, q2, pos1, pos2),
            ) ==> listed(out, exchange_candidate(inst, a, v1, v2, q1, q2, pos1, pos2)),
        Neighborhood::TwoOpt => forall|v: int, i: int, j: int|
            0 <= v < a.len() && 1 <= i < j <= a[v].len() - 2 && nodes_in_range(inst, #[trigger] two_opt_candidate(a, v, i, j))
                ==> listed(out, two_opt_candidate(a, v, i, j)),
    }
}

/// Where `out` lists every feasible, scorable solution that `cands` lists,
/// and `cands` lists every candidate, `out` lists every usable neighbour.
pub proof fn lemma_filtered_listed(inst: &Instance, nh: Neighborhood, a: Seq<Seq<usize>>, cands: Seq<Solution>, out: Seq<Solution>)
    requires
        neighborhood_candidates(inst, nh, a, cands),
        forall|rs: Seq<Seq<usize>>|
            #![trigger listed(cands, rs)]
            listed(cands, rs) && routes_valid(inst, rs) && scorable(inst, rs) ==> listed(out, rs),
    ensures
        neighborhood_listed(inst, nh, a, out),
{
    match nh {
        Neighborhood::Relocate => {
            assert forall|v1: int, v2: int, q: int, pos: int, dpos: int|
                relocation_considered(inst, a, v1, v2, q, pos, dpos) && keepable(
                    inst,
                    #[trigger] relocated(inst, a, v1, v2, q, pos, dpos),
                ) implies listed(out, relocated(inst, a, v1, v2, q, pos, dpos)) by {
                assert(listed(cands, relocated(inst, a, v1, v2, q, pos, dpos)));
            }
        },
        Neighborhood::Exchange => {
            assert forall|v1: int, v2: int, q1: int, q2: int, pos1: int, pos2: int|
                exchange_considered(inst, a, v1, v2, q1, q2, pos1, pos2) && keepable(
                    inst,
                    #[trigger] exchange_candidate(inst, a, v1, v2, q1, q2, pos1, pos2),
                ) implies listed(out, exchange_candidate(inst, a, v1, v2, q1, q2, pos1, pos2)) by {
                assert(listed(cands, exchange_candidate(inst, a, v1, v2, q1, q2, pos1, pos2)));
            }
        },
        Neighborhood::TwoOpt => {
            assert forall|v: int, i: int, j: int|
                0 <= v < a.len() && 1 <= i < j <= a[v].len() - 2 && keepable(inst, #[trigger] two_opt_candidate(a, v, i, j))
                    implies listed(out, two_opt_candidate(a, v, i, j)) by {
                assert(listed(cands, two_opt_candidate(a, v, i, j)));
            }
        },
    }
}

/// The candidates that are feasible and scorable, in order.
pub fn filter_usable<'a>(current: &Solution<'a>, nh: Neighborhood, cands: Vec<Solution<'a>>) -> (r: Vec<Solution<'a>>)
    requires
        current.wf(),
        forall|k: int|
            0 <= k < cands@.len() ==> candidate_neighbor(current, #[trigger] cands@[k]) && is_move(
                current.instance,
                nh,
                current.rs(),
                cands@[k].rs(),
            ),
    ensures
        forall|k: int|
            0 <= k < r@.len() ==> usable_neighbor(current, #[trigger] r@[k]) && is_move(
                current.instance,
                nh,
                current.rs(),
                r@[k].rs(),
            ),
        neighborhood_candidates(current.instance, nh, current.rs(), cands@) ==> neighborhood_listed(
            current.instance,
            nh,
            current.rs(),
            r@,
        ),
{
    let ghost inst = current.instance;
    let mut out: Vec<Solution<'a>> = Vec::new();
    let mut i: usize = 0;
    while i < cands.len()
        invariant
            current.wf(),
            inst == current.instance,
            i <= cands@.len(),
            forall|k: int|
                0 <= k < cands@.len() ==> candidate_neighbor(current, #[trigger] cands@[k]) && is_move(
                    current.instance,
                    nh,
                    current.rs(),
                    cands@[k].rs(),
                ),
            forall|k: int|
                0 <= k < out@.len() ==> usable_neighbor(current, #[trigger] out@[k]) && is_move(
                    current.instance,
                    nh,
                    current.rs(),
                    out@[k].rs(),
                ),
            forall|rs: Seq<Seq<usize>>|
                #![trigger listed(cands@.subrange(0, i as int), rs)]
                listed(cands@.subrange(0, i as int), rs) && routes_valid(inst, rs) && scorable(inst, rs) ==> listed(out@, rs),
        decreases cands@.len() - i,
    {
        let c = &cands[i];
        let ghost old_out = out@;
        if c.is_valid() && c.within_limits() {
            let copy = c.duplicate();
            out.push(copy);
            proof {
                assert(out@[out@.len() - 1].rs() == cands@[i as int].rs());
            }
        }
        proof {
            assert forall|rs: Seq<Seq<usize>>|
                #![trigger listed(cands@.subrange(0, i + 1), rs)]
                listed(cands@.subrange(0, i + 1), rs) && routes_valid(inst, rs) && scorable(inst, rs) implies listed(out@, rs) by {
                let k = choose|k: int| 0 <= k < i + 1 && #[trigger] cands@.subrange(0, i + 1)[k].rs() == rs;
                if k < i {
                    assert(cands@.subrange(0, i as int)[k] == cands@.subrange(0, i + 1)[k]);
                    assert(listed(cands@.subrange(0, i as int), rs));
                    assert(listed(old_out, rs));
                    let m = choose|m: int| 0 <= m < old_out.len() && #[trigger] old_out[m].rs() == rs;
                    assert(out@[m] == old_out[m]);
                } else {
                    assert(cands@[i as int].rs() == rs);
                    assert(out@[out@.len() - 1].rs() == rs);
                }
            }
        }
        i += 1;
    }
    proof {
        assert(cands@.subrange(0, cands@.len() as int) =~= cands@);
        if neighborhood_candidates(inst, nh, current.rs(), cands@) {
            lemma_filtered_listed(inst, nh, current.rs(), cands@, out@);
        }
    }
    out
}

/// Every usable neighbour of `a` under `nh` has routes in the list `out`.
pub open spec fn neighborhood_listed(inst: &Instance, nh: Neighborhood, a: Seq<Seq<usize>>, out: Seq<Solution>) -> bool {
    match nh {
        Neighborhood::Relocate => forall|v1: int, v2: int, q: int, pos: int, dpos: int|
            relocation_considered(inst, a, v1, v2, q, pos, dpos) && keepable(
                inst,
                #[trigger] relocated(inst, a, v1, v2, q, pos, dpos),
            ) ==> listed(out, relocated(inst, a, v1, v2, q, pos, dpos)),
        Neighborhood::Exchange => forall|v1: int, v2: int, q1: int, q2: int, pos1: int, pos2: int|
            exchange_considered(inst, a, v1, v2, q1, q2, pos1, pos2) && keepable(
                inst,
                #[trigger] exchange_candidate(inst, a, v1, v2, q1, q2, pos1, pos2),
            ) ==> listed(out, exchange_candidate(inst, a, v1, v2, q1, q2, pos1, pos2)),
        Neighborhood::TwoOpt => forall|v: int, i: int, j: int|
            0 <= v < a.len() && 1 <= i < j <= a[v].len() - 2 && keepable(inst, #[trigger] two_opt_candidate(a, v, i, j))
                ==> listed(out, two_opt_candidate(a, v, i, j)),
    }
}

/// Where every usable neighbour is listed and no listed one scores below
/// `obj`, the routes are a local optimum.
pub proof fn lemma_listed_optimum(inst: &Instance, nh: Neighborhood, a: Seq<Seq<usize>>, out: Seq<Solution>, obj: nat)
    requires
        neighborhood_listed(inst, nh, a, out),
        forall|k: int| 0 <= k < out.len() ==> (#[trigger] out[k]).instance == inst && out[k].objective() >= obj,
    ensures
        local_optimum(inst, nh, a, obj),
{
    match nh {
        Neighborhood::Relocate => {
            assert forall|v1: int, v2: int, q: int, pos: int, dpos: int|
                relocation_considered(inst, a, v1, v2, q, pos, dpos) && keepable(
                    inst,
                    #[trigger] relocated(inst, a, v1, v2, q, pos, dpos),
                ) implies objective_micro(inst, relocated(inst, a, v1, v2, q, pos, dpos)) >= obj by {
                let c = relocated(inst, a, v1, v2, q, pos, dpos);
                assert(listed(out, c));
                let k = choose|k: int| 0 <= k < out.len() && #[trigger] out[k].rs() == c;
                assert(out[k].objective() >= obj);
            }
        },
        Neighborhood::Exchange => {
            assert forall|v1: int, v2: int, q1: int, q2: int, pos1: int, pos2: int|
                exchange_considered(inst, a, v1, v2, q1, q2, pos1, pos2) && keepable(
                    inst,
                    #[trigger] exchange_candidate(inst, a, v1, v2, q1, q2, pos1, pos2),
                ) implies objective_micro(inst, exchange_candidate(inst, a, v1, v2, q1, q2, pos1, pos2)) >= obj by {
                let c = exchange_candidate(inst, a, v1, v2, q1, q2, pos1, pos2);
                assert(listed(out, c));
                let k = choose|k: int| 0 <= k < out.len() && #[trigger] out[k].rs() == c;
                assert(out[k].objective() >= obj);
            }
        },
        Neighborhood::TwoOpt => {
            assert forall|v: int, i: int, j: int|
                0 <= v < a.len() && 1 <= i < j <= a[v].len() - 2 && keepable(inst, #[trigger] two_opt_candidate(a, v, i, j))
                    implies objective_micro(inst, two_opt_candidate(a, v, i, j)) >= obj by {
                let c = two_opt_candidate(a, v, i, j);
                assert(listed(out, c));
                let k = choose|k: int| 0 <= k < out.len() && #[trigger] out[k].rs() == c;
                assert(out[k].objective() >= obj);
            }
        },
    }
}

/// The index that a step picks among neighbours with objectives `objs`,
/// given the current objective `cur`.
pub open spec fn picks(objs: Seq<u128>, cur: u128, step: StepFunction, k: int) -> bool {
    &&& 0 <= k < objs.len()
    &&& objs[k] < cur
    &&& match step {
        StepFunction::FirstImprovement => forall|m: int| 0 <= m < k ==> #[trigger] objs[m] >= cur,
        StepFunction::BestImprovement => (forall|m: int| 0 <= m < objs.len() ==> objs[k] <= #[trigger] objs[m]) && (
        forall|m: int| 0 <= m < k ==> objs[k] < #[trigger] objs[m]),
    }
}

/// Picks a neighbour by its objective: under first improvement the first
/// one below `cur`; under best improvement the first of the lowest, where it
/// is below `cur`. `None` exactly where no objective is below `cur`.
pub fn select_neighbor(objs: &Vec<u128>, cur: u128, step: StepFunction) -> (r: Option<usize>)
    ensures
        r is Some ==> picks(objs@, cur, step, r->0 as int),
        r is None <==> forall|m: int| 0 <= m < objs@.len() ==> #[trigger] objs@[m] >= cur,
{
    match step {
        StepFunction::FirstImprovement => {
            let mut k: usize = 0;
            while k < objs.len()
                invariant
                    step is FirstImprovement,
                    k <= objs@.len(),
                    forall|m: int| 0 <= m < k ==> #[trigger] objs@[m] >= cur,
                decreases objs@.len() - k,
            {
                if objs[k] < cur {
                    return Some(k);
                }
                k += 1;
            }
            None
        },
        StepFunction::BestImprovement => {
            let mut best: Option<usize> = None;
            let mut best_obj: u128 = cur;
            let mut k: usize = 0;
            while k < objs.len()
                invariant
                    step is BestImprovement,
                    k <= objs@.len(),
                    best is None ==> best_obj == cur && forall|m: int| 0 <= m < k ==> #[trigger] objs@[m] >= cur,
                    best is Some ==> best->0 < k && best_obj == objs@[best->0 as int] && best_obj < cur
                        && (forall|m: int| 0 <= m < k ==> best_obj <= #[trigger] objs@[m])
                        && (forall|m: int| 0 <= m < best->0 ==> best_obj < #[trigger] objs@[m]),
                decreases objs@.len() - k,
            {
                if objs[k] < best_obj {
                    best = Some(k);
                    best_obj = objs[k];
                }
                k += 1;
            }
            best
        },
    }
}

/// The objective of each neighbour.
pub fn objectives_of(neighbors: &Vec<Solution>) -> (r: Vec<u128>)
    requires
        forall|k: int| 0 <= k < neighbors@.len() ==> (#[trigger] neighbors@[k]).wf() && neighbors@[k].scorable(),
    ensures
        r@.len() == neighbors@.len(),
        forall|k: int| 0 <= k < r@.len() ==> #[trigger] r@[k] == neighbors@[k].objective(),
{
    let mut out: Vec<u128> = Vec::new();
    let mut k: usize = 0;
    while k < neighbors.len()
        invariant
            k <= neighbors@.len(),
            forall|m: int| 0 <= m < neighbors@.len() ==> (#[trigger] neighbors@[m]).wf() && neighbors@[m].scorable(),
            out@.len() == k,
            forall|m: int| 0 <= m < k ==> #[trigger] out@[m] == neighbors@[m].objective(),
        decreases neighbors@.len() - k,
    {
        let o = neighbors[k].objective_function_value();
        out.push(o);
        k += 1;
    }
    out
}

/// Takes the neighbour at index `k` out of the list.
pub fn take_neighbor<'a>(neighbors: Vec<Solution<'a>>, k: usize) -> (r: Solution<'a>)
    requires
        k < neighbors@.len(),
    ensures
        r == neighbors@[k as int],
{
    let mut neighbors = neighbors;
    neighbors.swap_remove(k)
}

/// The neighbour at index `k` is the one the step rule takes from `ns`,
/// given the current objective `cur`: under first improvement the first one
/// below `cur`; under best improvement the first of the lowest, where it is
/// below `cur`.
pub open spec fn picks_solution(ns: Seq<Solution>, cur: nat, step: StepFunction, k: int) -> bool {
    &&& 0 <= k < ns.len()
    &&& ns[k].objective() < cur
    &&& match step {
        StepFunction::FirstImprovement => forall|m: int| 0 <= m < k ==> (#[trigger] ns[m]).objective() >= cur,
        StepFunction::BestImprovement => (forall|m: int| 0 <= m < ns.len() ==> ns[k].objective() <= (#[trigger] ns[m]).objective())
            && (forall|m: int| 0 <= m < k ==> ns[k].objective() < (#[trigger] ns[m]).objective()),
    }
}

/// The neighbour of the list `neighbors`, in its order, that the step rule
/// takes from `current`; `None` exactly where none scores below it.
pub fn step_among<'a>(current: &Solution<'a>, neighbors: Vec<Solution<'a>>, step: StepFunction) -> (r: Option<Solution<'a>>)
    requires
        current.wf(),
        current.scorable(),
        forall|k: int| 0 <= k < neighbors@.len() ==> (#[trigger] neighbors@[k]).wf() && neighbors@[k].scorable(),
    ensures
        r is None <==> forall|m: int| 0 <= m < neighbors@.len() ==> (#[trigger] neighbors@[m]).objective() >= current.objective(),
        r is Some ==> exists|k: int| picks_solution(neighbors@, current.objective(), step, k) && r->0 == #[trigger] neighbors@[k],
{
    let objs = objectives_of(&neighbors);
    let cur = current.objective_function_value();
    match select_neighbor(&objs, cur, step) {
        Some(k) => {
            proof {
                assert(picks(objs@, cur, step, k as int));
                match step {
                    StepFunction::FirstImprovement => {
                        assert forall|m: int| 0 <= m < k implies (#[trigger] neighbors@[m]).objective() >= cur by {
                            assert(objs@[m] >= cur);
                        }
                    },
                    StepFunction::BestImprovement => {
                        assert forall|m: int| 0 <= m < neighbors@.len() implies neighbors@[k as int].objective() <= (
                        #[trigger] neighbors@[m]).objective() by {
                            assert(objs@[k as int] <= objs@[m]);
                        }
                        assert forall|m: int| 0 <= m < k implies neighbors@[k as int].objective() < (
                        #[trigger] neighbors@[m]).objective() by {
                            assert(objs@[k as int] < objs@[m]);
                        }
                    },
                }
                assert(picks_solution(neighbors@, current.objective(), step, k as int));
                assert(objs@[k as int] < cur);
            }
            let ghost ns = neighbors@;
            let r = take_neighbor(neighbors, k);
            assert(r == ns[k as int]);
            Some(r)
        },
        None => {
            proof {
                assert forall|m: int| 0 <= m < neighbors@.len() implies (#[trigger] neighbors@[m]).objective() >= current.objective() by {
                    assert(objs@[m] >= cur);
                }
            }
            None
        },
    }
}

/// One step of local search from `current` over one move family: the
/// neighbour that the step rule picks among the usable ones, if any improves.
pub fn improving_step<'a>(current: &Solution<'a>, nh: Neighborhood, step: StepFunction) -> (r: Option<Solution<'a>>)
    requires
        current.wf(),
        current.scorable(),
    ensures
        r is Some ==> usable_neighbor(current, r->0) && is_move(current.instance, nh, current.rs(), r->0.rs())
            && r->0.objective() < current.objective(),
        r is None ==> local_optimum(current.instance, nh, current.rs(), current.objective()),
        r is Some && step is BestImprovement ==> local_optimum(current.instance, nh, current.rs(), r->0.objective()),
{
    let candidates = generate_neighbors(current, nh);
    let neighbors = filter_usable(current, nh, candidates);
    let ghost ns = neighbors@;
    proof {
        assert forall|k: int| 0 <= k < ns.len() implies (#[trigger] ns[k]).wf() && ns[k].scorable() by {
            assert(usable_neighbor(current, ns[k]));
        }
    }
    let r = step_among(current, neighbors, step);
    proof {
        if r is Some {
            let n = r->0;
            {
                let k = choose|k: int| picks_solution(ns, current.objective(), step, k) && n == #[trigger] ns[k];
                assert(usable_neighbor(current, ns[k]));
                if step is BestImprovement {
                    assert forall|m: int| 0 <= m < ns.len() implies (#[trigger] ns[m]).instance == current.instance
                        && ns[m].objective() >= n.objective() by {
                        assert(usable_neighbor(current, ns[m]));
                    }
                    lemma_listed_optimum(current.instance, nh, current.rs(), ns, n.objective());
                }
            }
        } else {
            assert forall|m: int| 0 <= m < ns.len() implies (#[trigger] ns[m]).instance == current.instance
                && ns[m].objective() >= current.objective() by {
                assert(usable_neighbor(current, ns[m]));
            }
            lemma_listed_optimum(current.instance, nh, current.rs(), ns, current.objective());
        }
    }
    r
}

/// `rs` is `s0` or feasible, and no worse than `s0` where that is scorable.
pub open spec fn improved_from(inst: &Instance, s0: Seq<Seq<usize>>, rs: Seq<Seq<usize>>) -> bool {
    &&& scorable(inst, s0) ==> scorable(inst, rs) && objective_micro(inst, rs) <= objective_micro(inst, s0)
    &&& rs != s0 ==> routes_valid(inst, rs)
}

/// Where a local search run stands: the current and the best solution, the
/// steps taken, the steps since the best last improved, and whether a step
/// found no improving neighbour.
pub struct SearchProgress<'a> {
    pub current: Solution<'a>,
    pub best: Solution<'a>,
    pub iterations: usize,
    pub no_improvement: usize,
    pub converged: bool,
}

/// Iterated improvement from one instance, under one configuration.
pub struct LocalSearch<'a> {
    pub instance: &'a Instance,
    pub config: LocalSearchConfig,
}

impl<'a> LocalSearch<'a> {
    pub fn new(instance: &'a Instance, config: LocalSearchConfig) -> (r: Self)
        ensures
            r.instance == instance,
            r.config == config,
    {
        LocalSearch { instance, config }
    }

    pub fn construct_initial_solution(&self) -> (r: Solution<'a>)
        requires
            self.instance.wf(),
        ensures
            r.wf(),
            r.instance == self.instance,
            r.rs().len() == self.instance.n_vehicles,
            greedy_construction(self.instance, r.rs()),
    {
        let det = DeterministicConstruction::new(self.instance);
        det.construct_solution()
    }

    /// Under the configured step rule and move family, the picked improving
    /// neighbour of `current`, if any.
    pub fn search_step(&self, current: &Solution<'a>) -> (r: Option<Solution<'a>>)
        requires
            current.wf(),
            current.scorable(),
        ensures
            r is Some ==> usable_neighbor(current, r->0) && is_move(
                current.instance,
                self.config.neighborhood,
                current.rs(),
                r->0.rs(),
            ) && r->0.objective() < current.objective(),
            r is None ==> local_optimum(current.instance, self.config.neighborhood, current.rs(), current.objective()),
            r is Some && self.config.step_function is BestImprovement ==> local_optimum(
                current.instance,
                self.config.neighborhood,
                current.rs(),
                r->0.objective(),
            ),
    {
        improving_step(current, self.config.neighborhood, self.config.step_function)
    }

    /// Whether a run goes on: no step found nothing better yet, and neither
    /// the step budget nor the budget of steps without a new best is spent.
    pub open spec fn goes_on(&self, p: SearchProgress<'a>) -> bool {
        !p.converged && p.iterations < self.config.max_iterations && p.no_improvement < self.config.max_no_improvement
    }

    /// The progress a run is in.
    pub open spec fn progress_ok(&self, p: SearchProgress<'a>, initial: Solution<'a>) -> bool {
        &&& p.current.wf()
        &&& p.current.scorable()
        &&& p.best.wf()
        &&& p.best.scorable()
        &&& p.current.instance == initial.instance
        &&& p.best.instance == initial.instance
        &&& p.current.rs().len() == initial.rs().len()
        &&& p.best.rs().len() == initial.rs().len()
        &&& p.best.objective() <= initial.objective()
        &&& p.current.objective() <= initial.objective()
        &&& p.best.rs() != initial.rs() ==> p.best.valid()
        &&& p.current.rs() != initial.rs() ==> p.current.valid()
        &&& p.iterations <= self.config.max_iterations
        &&& p.converged ==> local_optimum(p.current.instance, self.config.neighborhood, p.current.rs(), p.current.objective())
    }

    pub fn keeps_going(&self, p: &SearchProgress<'a>) -> (r: bool)
        ensures
            r == self.goes_on(*p),
    {
        !p.converged && p.iterations < self.config.max_iterations && p.no_improvement < self.config.max_no_improvement
    }

    /// Takes the outcome of one step. With no improving neighbour the run
    /// has converged; otherwise the neighbour becomes the current solution,
    /// the step count grows by one, and the neighbour becomes the best
    /// where it scores strictly lower, which resets the count of steps
    /// without a new best, else that count grows by one.
    pub fn advance(&self, p: SearchProgress<'a>, next: Option<Solution<'a>>) -> (r: SearchProgress<'a>)
        requires
            self.goes_on(p),
            p.current.wf(),
            p.current.scorable(),
            p.best.wf(),
            p.best.scorable(),
            next is Some ==> usable_neighbor(&p.current, next->0),
        ensures
            next is None ==> r == (SearchProgress { converged: true, ..p }),
            next is Some ==> {
                &&& r.current == next->0
                &&& r.iterations == p.iterations + 1
                &&& !r.converged
                &&& if next->0.objective() < p.best.objective() {
                    r.best.rs() == next->0.rs() && r.best.instance == next->0.instance && r.no_improvement == 0
                } else {
                    r.best == p.best && r.no_improvement == p.no_improvement + 1
                }
            },
    {
        let SearchProgress { current, best, iterations, no_improvement, converged } = p;
        match next {
            None => SearchProgress { current, best, iterations, no_improvement, converged: true },
            Some(nb) => {
                let obj = nb.objective_function_value();
                if obj < best.objective_function_value() {
                    let new_best = nb.duplicate();
                    SearchProgress { current: nb, best: new_best, iterations: iterations + 1, no_improvement: 0, converged }
                } else {
                    SearchProgress { current: nb, best, iterations: iterations + 1, no_improvement: no_improvement + 1, converged }
                }
            },
        }
    }

    /// Runs local search from a scorable `initial`: a step while the run goes
    /// on and the time budget lasts, each taken by `advance`.
    pub fn improve_run(&self, initial: Solution<'a>) -> (r: SearchProgress<'a>)
        requires
            initial.wf(),
            initial.scorable(),
        ensures
            self.progress_ok(r, initial),
            r.iterations <= self.config.max_iterations,
    {
        let start = clock_now();
        let ghost init = initial;
        let current = initial.duplicate();
        let mut p = SearchProgress { current, best: initial, iterations: 0, no_improvement: 0, converged: false };
        while self.keeps_going(&p) && seconds_since(&start) < self.config.time_limit_seconds
            invariant
                self.progress_ok(p, init),
            decreases self.config.max_iterations - p.iterations + (if p.converged { 0int } else { 1int }),
        {
            let next = self.search_step(&p.current);
            p = self.advance(p, next);
        }
        p
    }

    /// Improves `initial` step by step until no neighbour improves or a
    /// budget runs out, and returns the best solution seen. Where `initial`
    /// cannot be scored it is returned as it is.
    pub fn improve(&self, initial: Solution<'a>) -> (r: Solution<'a>)
        requires
            initial.wf(),
        ensures
            r.wf(),
            r.instance == initial.instance,
            r.rs().len() == initial.rs().len(),
            initial.scorable() ==> r.scorable() && r.objective() <= initial.objective(),
            r.rs() != initial.rs() ==> r.valid(),
            !initial.scorable() ==> r.rs() == initial.rs(),
    {
        if !initial.within_limits() {
            return initial;
        }
        self.improve_run(initial).best
    }
}

impl<'a> Solver<'a> for LocalSearch<'a> {
    open spec fn problem(&self) -> &'a Instance {
        self.instance
    }

    /// Improved from the greedy construction.
    open spec fn solves(&self, r: Solution<'a>) -> bool {
        exists|s0: Seq<Seq<usize>>| #[trigger] greedy_construction(self.instance, s0) && improved_from(self.instance, s0, r.rs())
    }

    fn solve(&self) -> (r: Solution<'a>) {
        let initial = self.construct_initial_solution();
        self.improve(initial)
    }
}

} // verus!
