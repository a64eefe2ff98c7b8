use scf_pdp::beam_search::BeamSearch;
use scf_pdp::config::{InstanceReqSize, SolverConfig};
use scf_pdp::grasp::{all_neighborhoods, GRASPConfig, LocalSearchStrategy, GRASP};
use scf_pdp::local_search::{
    select_neighbor, AcceptanceCriterion, LocalSearch, LocalSearchConfig, Neighborhood, SearchProgress, StepFunction,
};
use scf_pdp::moves::{
    check_route_capacity, exchange_nh, extract_requests_from_route, generate_neighbors, insert_request_into_route,
    relocate_nh, remove_request_from_route, reverse_segment, two_opt_nh,
};
use scf_pdp::sim_annealing::{AnnealingState, SimulatedAnnealing};
use scf_pdp::vnd::VND;
use scf_pdp::{Instance, Solution, Solver};

fn dist_matrix(points: &[(f64, f64)]) -> Vec<Vec<u64>> {
    let mut m = vec![vec![0u64; points.len()]; points.len()];
    for u in 0..points.len() {
        for v in 0..points.len() {
            let dx = points[u].0 - points[v].0;
            let dy = points[u].1 - points[v].1;
            m[u][v] = dx.hypot(dy).ceil() as u64;
        }
    }
    m
}

/// Four requests spread around the depot, two vehicles.
fn square_instance(cap: usize, gamma: usize, rho_micro: u64) -> Instance {
    let points = [
        (0.0, 0.0),
        (5.0, 0.0), (0.0, 5.0), (-5.0, 0.0), (0.0, -5.0),
        (6.0, 1.0), (1.0, 6.0), (-6.0, -1.0), (-1.0, -6.0),
    ];
    Instance::new("sq".to_string(), 4, 2, cap, gamma, rho_micro, vec![2, 3, 2, 3], dist_matrix(&points)).unwrap()
}

fn loads_within(sol: &Solution, inst: &Instance) -> bool {
    let n = inst.n_reqs();
    for route in &sol.routes {
        let mut load: i64 = 0;
        for &x in route {
            if x >= 1 && x <= n {
                load += inst.demands()[x - 1] as i64;
            } else if x > n {
                load -= inst.demands()[x - n - 1] as i64;
            }
            if load < 0 || load > inst.cap() as i64 {
                return false;
            }
        }
    }
    true
}

#[test]
fn select_first_improvement() {
    let objs = vec![9, 7, 3, 7];
    assert_eq!(select_neighbor(&objs, 8, StepFunction::FirstImprovement), Some(1));
    assert_eq!(select_neighbor(&objs, 2, StepFunction::FirstImprovement), None);
}

#[test]
fn select_best_improvement() {
    let objs = vec![9, 7, 3, 7, 3];
    assert_eq!(select_neighbor(&objs, 8, StepFunction::BestImprovement), Some(2));
    assert_eq!(select_neighbor(&objs, 3, StepFunction::BestImprovement), None);
    assert_eq!(select_neighbor(&vec![], 3, StepFunction::BestImprovement), None);
}

#[test]
fn best_improvement_never_worse() {
    let objs = vec![12, 10, 11];
    // no neighbour is below the current objective: nothing is taken
    assert_eq!(select_neighbor(&objs, 10, StepFunction::BestImprovement), None);
    let k = select_neighbor(&objs, 13, StepFunction::BestImprovement).unwrap();
    assert!(objs[k] < 13);
    assert!(objs.iter().all(|&o| objs[k] <= o));
}

#[test]
fn route_editing() {
    let inst = square_instance(10, 2, 0);
    assert_eq!(extract_requests_from_route(&inst, &vec![3, 1, 7, 5, 0]), vec![0, 2]);
    assert_eq!(remove_request_from_route(&inst, &vec![1, 3, 5, 7], 0), vec![3, 7]);
    assert!(check_route_capacity(&inst, &vec![1, 2, 5, 6]));
    // a dropoff alone only lowers the load: no prefix exceeds the capacity
    assert!(check_route_capacity(&inst, &vec![5]));
    let small = square_instance(4, 2, 0);
    assert!(!check_route_capacity(&small, &vec![1, 2, 5, 6]));
    // pickup at 0, dropoff at the first position that keeps the load in range
    assert_eq!(insert_request_into_route(&inst, &vec![2, 6], 0, 0), Some(vec![1, 5, 2, 6]));
    // capacity 4: request 0 (demand 2) cannot ride with request 1 (demand 3)
    assert_eq!(insert_request_into_route(&small, &vec![2, 6], 0, 1), None);
    assert_eq!(insert_request_into_route(&small, &vec![2, 6], 0, 2), Some(vec![2, 6, 1, 5]));
    assert_eq!(reverse_segment(&vec![1, 2, 3, 4, 5], 1, 3), vec![1, 4, 3, 2, 5]);
}

#[test]
fn neighbours_are_valid_moves() {
    let inst = square_instance(10, 2, 0);
    let sol = Solution::new(&inst, vec![vec![1, 5, 2, 6], vec![]]);
    assert!(sol.is_valid());
    let rel = relocate_nh(&sol);
    assert!(!rel.is_empty());
    assert!(rel.iter().all(|s| s.routes.len() == 2));
    assert!(rel.iter().any(|s| s.routes == vec![vec![2, 6], vec![1, 5]]));
    let sol2 = Solution::new(&inst, vec![vec![1, 5], vec![2, 6]]);
    let ex = exchange_nh(&sol2);
    assert!(ex.iter().any(|s| s.routes == vec![vec![2, 6], vec![1, 5]]));
    assert!(ex.iter().all(|s| s.is_valid()));
    let two = two_opt_nh(&sol);
    assert!(two.iter().all(|s| s.is_valid()));
    // reversing [5, 2] gives 1 2 5 6, which is feasible
    assert!(two.iter().any(|s| s.routes[0] == vec![1, 2, 5, 6]));
    assert_eq!(generate_neighbors(&sol, Neighborhood::TwoOpt).len(), two.len());
}

#[test]
fn local_search_never_worse() {
    let inst = square_instance(10, 4, 1_000_000);
    for step in [StepFunction::FirstImprovement, StepFunction::BestImprovement] {
        for nh in [Neighborhood::Relocate, Neighborhood::Exchange, Neighborhood::TwoOpt] {
            let config = LocalSearchConfig {
                neighborhood: nh,
                step_function: step,
                acceptance: AcceptanceCriterion::ImprovingOnly,
                max_iterations: 50,
                max_no_improvement: 10,
                time_limit_seconds: 10,
            };
            let ls = LocalSearch::new(&inst, config);
            let initial = ls.construct_initial_solution();
            let before = initial.objective_function_value();
            let result = ls.improve(initial);
            assert!(result.objective_function_value() <= before);
            let step_result = ls.search_step(&result);
            if let Some(nb) = step_result {
                assert!(nb.objective_function_value() < result.objective_function_value());
            }
        }
    }
}

#[test]
fn local_search_default_config() {
    let c = LocalSearchConfig::default();
    assert_eq!(c.neighborhood, Neighborhood::Exchange);
    assert_eq!(c.step_function, StepFunction::FirstImprovement);
    assert_eq!(c.max_iterations, 1000);
    assert_eq!(c.max_no_improvement, 100);
    assert_eq!(c.time_limit_seconds, 60);
    let inst = square_instance(10, 4, 0);
    let sol = LocalSearch::new(&inst, c).solve();
    assert!(sol.is_valid());
}

#[test]
fn beam_search_finds_valid_solution() {
    let inst = square_instance(10, 4, 1_000_000);
    let sol = BeamSearch::new(&inst).search();
    assert!(sol.is_valid());
    assert!(loads_within(&sol, &inst));
}

#[test]
fn beam_width_one_terminates_within_capacity() {
    let inst = square_instance(5, 4, 0);
    let bs = BeamSearch::new(&inst).with_beam_width(1).with_max_depth(40);
    assert_eq!(bs.beam_width, 1);
    assert_eq!(bs.max_depth, Some(40));
    let sol = bs.solve();
    assert!(loads_within(&sol, &inst));
    assert!(sol.is_valid() || sol.routes.iter().all(|r| r.is_empty()));
}

#[test]
fn beam_search_falls_back_when_depth_too_small() {
    let inst = square_instance(10, 4, 0);
    let sol = BeamSearch::new(&inst).with_max_depth(3).search();
    assert_eq!(sol.routes, vec![Vec::<usize>::new(), Vec::new()]);
    assert!(!sol.is_valid());
}

#[test]
fn beam_initial_state_and_successors() {
    let inst = square_instance(10, 4, 0);
    let bs = BeamSearch::new(&inst);
    let s0 = bs.initial_state();
    assert_eq!(s0.served_count, 0);
    let succ = bs.generate_successors(&s0);
    // every vehicle can pick up every request; nothing else
    assert_eq!(succ.len(), 8);
    assert!(bs.is_feasible(&s0));
    let kept = bs.with_beam_width(3).select_best_states(succ);
    assert_eq!(kept.len(), 3);
}

#[test]
fn vnd_never_worse_than_start() {
    let inst = square_instance(10, 4, 1_000_000);
    let vnd = VND::new(&inst, all_neighborhoods()).with_max_iterations(20).with_biased_construction(false);
    assert_eq!(vnd.max_iterations, 20);
    let sol = vnd.solve();
    assert!(sol.routes.len() == 2);
    let start = vnd.construct_initial_solution();
    if start.is_valid() {
        let (improved, converged, _) = scf_pdp::vnd::descend(start.duplicate(), &all_neighborhoods(), 1000);
        assert!(improved.objective_function_value() <= start.objective_function_value());
        assert!(converged);
    }
}

#[test]
fn grasp_returns_valid_solution() {
    let inst = square_instance(10, 4, 1_000_000);
    for strategy in [
        LocalSearchStrategy::SingleNeighborhood(Neighborhood::Relocate),
        LocalSearchStrategy::VND,
        LocalSearchStrategy::CompositeNeighborhood,
    ] {
        let config = GRASPConfig { max_iterations: 5, local_search_strategy: strategy, ..GRASPConfig::default() };
        let sol = GRASP::new(&inst, config).solve();
        assert!(sol.is_valid());
    }
}

#[test]
fn grasp_default_config() {
    let c = GRASPConfig::default();
    assert_eq!(c.max_iterations, 100);
    assert_eq!(c.time_limit_seconds, 300);
    assert_eq!(c.local_search_strategy, LocalSearchStrategy::VND);
    assert!(c.biased_construction);
}

#[test]
fn annealing_accepts_by_threshold() {
    let inst = square_instance(10, 4, 0);
    let sa = SimulatedAnnealing::new(&inst, Neighborhood::Exchange, 100, 10, 10, true);
    assert!(sa.accept_solution(10, 9, 0));
    assert!(!sa.accept_solution(10, 10, 0));
    assert!(!sa.accept_solution(10, 11, 0));
    assert!(sa.accept_solution(10, 11, 2));
    assert!(!sa.accept_solution(10, 12, 2));
}

#[test]
fn annealing_at_zero_temperature_never_worsens() {
    let inst = square_instance(10, 4, 1_000_000);
    let sa = SimulatedAnnealing::new(&inst, Neighborhood::Relocate, 100, 10, 10, false);
    let started = std::time::Instant::now();
    if let Ok(state) = sa.start() {
        let before = state.current.objective_function_value();
        let best_before = state.best.as_ref().map(|b| b.objective_function_value());
        let state = sa.run_level(state, &vec![0; 10], &started);
        assert!(state.current.objective_function_value() <= before);
        if let Some(b) = best_before {
            assert!(state.best.as_ref().unwrap().objective_function_value() <= b);
        }
        assert!(state.iteration <= 10);
        let answer = sa.finish(state);
        assert!(answer.routes.len() == 2);
    }
}

#[test]
fn config_sizes() {
    assert_eq!(InstanceReqSize::Size50.as_str(), "50");
    assert_eq!(InstanceReqSize::Size10000.as_str(), "10000");
    assert_eq!(InstanceReqSize::all().len(), 8);
    assert_eq!(InstanceReqSize::small(), vec![InstanceReqSize::Size50, InstanceReqSize::Size100]);
    assert_eq!(InstanceReqSize::medium().len(), 3);
    assert_eq!(InstanceReqSize::large()[2], InstanceReqSize::Size10000);
}

#[test]
fn config_solvers() {
    let d = SolverConfig::default();
    assert!(d.run_deterministic && !d.run_random && !d.run_grasp);
    let f = SolverConfig::fast_only();
    assert!(f.run_deterministic && f.run_random && !f.run_beam_search);
    let a = SolverConfig::all();
    assert!(a.run_metaheuristic_comparison && a.run_simulated_annealing);
    let m = SolverConfig::metaheuristics_only();
    assert!(m.run_vnd && m.run_grasp && !m.run_random);
}

#[test]
fn heuristic_score_exact() {
    let inst = square_instance(10, 4, 1_000_000);
    let bs = BeamSearch::new(&inst);
    let s0 = bs.initial_state();
    let s1 = bs.apply_pickup(&s0, 0, 0);
    assert_eq!(s1.routes, vec![vec![1], vec![]]);
    assert_eq!(s1.current_loads, vec![2, 0]);
    // distance 10, fairness 1/2, four requests short, one short route
    let expected: u128 = 10_000_000 + 500_000 + 4 * 10_000 * 1_000_000 + 200 * 1_000_000;
    assert_eq!(scf_pdp::beam_search::heuristic_score(&inst, &s1), expected);
    let s2 = bs.apply_dropoff(&s1, 0, 0);
    assert_eq!(s2.served_count, 1);
    assert_eq!(s2.current_loads, vec![0, 0]);
    let s3 = bs.apply_depot_return(&s2, 0);
    assert_eq!(s3.routes, vec![vec![1, 5, 0], vec![]]);
    assert!(bs.has_feasible_pickups(&s2, 0));
    assert!(!bs.has_pending_dropoffs(&s2, 0));
    assert!(bs.has_pending_dropoffs(&s1, 0));
}

#[test]
fn beam_selection_drops_duplicates() {
    let inst = square_instance(10, 4, 0);
    let bs = BeamSearch::new(&inst).with_beam_width(2);
    let s0 = bs.initial_state();
    let states = vec![bs.apply_pickup(&s0, 0, 0), bs.apply_pickup(&s0, 0, 0), bs.apply_pickup(&s0, 1, 1)];
    let kept = bs.select_best_states(states);
    assert_eq!(kept.len(), 2);
    assert!(!kept[0].same_as(&kept[1]));
    let small = vec![bs.apply_pickup(&s0, 0, 0)];
    assert_eq!(bs.select_best_states(small).len(), 1);
}

#[test]
fn least_loaded_takes_first_minimum() {
    assert_eq!(scf_pdp::deterministic::least_loaded(&vec![5, 2, 7, 2]), 1);
    assert_eq!(scf_pdp::deterministic::least_loaded(&vec![0]), 0);
}

#[test]
fn random_neighbour_is_one_of_the_neighbourhood() {
    let inst = square_instance(10, 2, 0);
    let sol = Solution::new(&inst, vec![vec![1, 5, 2, 6], vec![]]);
    let all = relocate_nh(&sol);
    assert!(all.len() >= 2);
    let sa = SimulatedAnnealing::new(&inst, Neighborhood::Relocate, 10, 10, 10, false);
    let mut seen = Vec::new();
    for _ in 0..60 {
        let nb = sa.generate_random_neighbor(&sol).unwrap();
        assert!(all.iter().any(|s| s.routes == nb.routes));
        if !seen.contains(&nb.routes) {
            seen.push(nb.routes.clone());
        }
    }
    assert!(seen.len() >= 2);
}

#[test]
fn zero_time_budget_stops_before_first_step() {
    let inst = square_instance(10, 4, 1_000_000);
    let config = LocalSearchConfig { time_limit_seconds: 0, ..LocalSearchConfig::default() };
    let ls = LocalSearch::new(&inst, config);
    let initial = ls.construct_initial_solution();
    let routes = initial.routes.clone();
    let result = ls.improve(initial);
    assert_eq!(result.routes, routes);
}

#[test]
fn single_neighbourhood_search_ends_in_local_optimum() {
    let inst = square_instance(10, 4, 1_000_000);
    let config = GRASPConfig {
        local_search_strategy: LocalSearchStrategy::SingleNeighborhood(Neighborhood::Relocate),
        ..GRASPConfig::default()
    };
    let grasp = GRASP::new(&inst, config);
    let start = grasp.construct_solution();
    if start.is_valid() {
        let result = grasp.local_search(start);
        let obj = result.objective_function_value();
        assert!(relocate_nh(&result).iter().filter(|nb| nb.is_valid()).all(|nb| nb.objective_function_value() >= obj));
    }
}

#[test]
fn composite_search_ends_in_local_optimum() {
    let inst = square_instance(10, 4, 1_000_000);
    let config = GRASPConfig { local_search_strategy: LocalSearchStrategy::CompositeNeighborhood, ..GRASPConfig::default() };
    let grasp = GRASP::new(&inst, config);
    let start = grasp.construct_solution();
    if start.is_valid() {
        let result = grasp.composite_neighborhood_search(start);
        let obj = result.objective_function_value();
        for nh in [Neighborhood::Relocate, Neighborhood::Exchange, Neighborhood::TwoOpt] {
            // candidates may be infeasible: the guarantee is about the feasible ones
            assert!(generate_neighbors(&result, nh)
                .iter()
                .filter(|nb| nb.is_valid())
                .all(|nb| nb.objective_function_value() >= obj));
        }
    }
}

#[test]
fn local_search_advance_rules() {
    // a large fairness weight makes splitting the route an improvement
    let inst = square_instance(10, 2, 100_000_000);
    let config = LocalSearchConfig {
        neighborhood: Neighborhood::Relocate,
        step_function: StepFunction::BestImprovement,
        max_iterations: 5,
        max_no_improvement: 5,
        ..LocalSearchConfig::default()
    };
    let ls = LocalSearch::new(&inst, config);
    let cur = Solution::new(&inst, vec![vec![1, 5, 2, 6], vec![]]);
    let p = SearchProgress { current: cur.duplicate(), best: cur.duplicate(), iterations: 0, no_improvement: 0, converged: false };
    assert!(ls.keeps_going(&p));
    let p = ls.advance(p, None);
    assert!(p.converged);
    assert!(!ls.keeps_going(&p));
    let p = SearchProgress { current: cur.duplicate(), best: cur.duplicate(), iterations: 0, no_improvement: 0, converged: false };
    let next = ls.search_step(&cur).unwrap();
    let next_routes = next.routes.clone();
    let p = ls.advance(p, Some(next));
    assert_eq!(p.iterations, 1);
    assert_eq!(p.no_improvement, 0);
    assert_eq!(p.best.routes, next_routes);
}

#[test]
fn annealing_step_rules() {
    let inst = square_instance(10, 2, 0);
    let sa = SimulatedAnnealing::new(&inst, Neighborhood::Relocate, 100, 10, 10, false);
    let cur = Solution::new(&inst, vec![vec![1, 5, 2, 6], vec![]]);
    let neighbours = relocate_nh(&cur);
    let worse = neighbours.iter().find(|n| n.objective_function_value() > cur.objective_function_value());
    if let Some(w) = worse {
        let state = AnnealingState { current: cur.duplicate(), best: Some(cur.duplicate()), iteration: 0 };
        let after = sa.step(state, Some(w.duplicate()), 0);
        assert_eq!(after.current.routes, cur.routes);
        assert_eq!(after.iteration, 1);
        let state = AnnealingState { current: cur.duplicate(), best: Some(cur.duplicate()), iteration: 0 };
        let after = sa.step(state, Some(w.duplicate()), u128::MAX);
        assert_eq!(after.current.routes, w.routes);
        assert_eq!(after.best.as_ref().unwrap().routes, cur.routes);
    }
}

#[test]
fn grasp_round_skips_infeasible_construction() {
    let inst = square_instance(10, 2, 0);
    let grasp = GRASP::new(&inst, GRASPConfig::default());
    let bad = Solution::new(&inst, vec![vec![5, 1], vec![]]);
    assert!(grasp.round(None, bad).is_none());
    let good = Solution::new(&inst, vec![vec![1, 5, 2, 6], vec![]]);
    let kept = grasp.round(None, good).unwrap();
    assert!(kept.is_valid());
}

#[test]
fn two_opt_lists_infeasible_reversals_too() {
    let inst = square_instance(10, 2, 0);
    let sol = Solution::new(&inst, vec![vec![1, 5, 2, 6], vec![]]);
    let two = two_opt_nh(&sol);
    // (1, 2) and (2, 3) and (1, 3) reversals, whatever their feasibility
    assert_eq!(two.len(), 1);
    assert_eq!(two[0].routes[0], vec![1, 2, 5, 6]);
    let sol5 = Solution::new(&inst, vec![vec![1, 2, 5, 6, 0], vec![]]);
    let all = two_opt_nh(&sol5);
    assert_eq!(all.len(), 3);
    assert!(all.iter().any(|s| !s.is_valid()));
}

#[test]
fn annealing_best_is_the_first_feasible_visited() {
    // the start is infeasible (dropoff before pickup); the accepted neighbour is feasible
    let inst = square_instance(10, 1, 0);
    let sa = SimulatedAnnealing::new(&inst, Neighborhood::Relocate, 100, 10, 10, false);
    let start = Solution::new(&inst, vec![vec![1, 5, 6, 2], vec![]]);
    assert!(!start.is_valid());
    let state = AnnealingState { current: start.duplicate(), best: None, iteration: 0 };
    let nb = relocate_nh(&start).into_iter().find(|n| n.is_valid());
    if let Some(nb) = nb {
        let after = sa.step(state, Some(nb.duplicate()), u128::MAX);
        assert_eq!(after.best.as_ref().unwrap().routes, nb.routes);
        assert!(sa.finish(after).is_valid());
    }
}

#[test]
fn step_among_takes_first_or_first_best() {
    let inst = square_instance(10, 2, 100_000_000);
    let cur = Solution::new(&inst, vec![vec![1, 5, 2, 6], vec![]]);
    let cur_obj = cur.objective_function_value();
    let ns: Vec<Solution> = relocate_nh(&cur).into_iter().filter(|n| n.is_valid()).collect();
    let objs: Vec<u128> = ns.iter().map(|n| n.objective_function_value()).collect();
    let first = objs.iter().position(|&o| o < cur_obj);
    let min = objs.iter().copied().min();
    let f = scf_pdp::local_search::step_among(&cur, ns.iter().map(|n| n.duplicate()).collect(), StepFunction::FirstImprovement);
    assert_eq!(f.map(|s| s.routes), first.map(|k| ns[k].routes.clone()));
    let b = scf_pdp::local_search::step_among(&cur, ns.iter().map(|n| n.duplicate()).collect(), StepFunction::BestImprovement);
    match min {
        Some(m) if m < cur_obj => {
            let k = objs.iter().position(|&o| o == m).unwrap();
            assert_eq!(b.unwrap().routes, ns[k].routes);
        },
        _ => assert!(b.is_none()),
    }
}
