use scf_pdp::deterministic::DeterministicConstruction;
use scf_pdp::random::{shuffled_range, RandomConstruction};
use scf_pdp::{Instance, Solution, Solver};

fn dist_matrix(points: &[(f64, f64)]) -> Vec<Vec<u64>> {
    let mut m = vec![vec![0u64; points.len()]; points.len()];
    for u in 0..points.len() {
        for v in 0..points.len() {
            let dx = points[u].0 - points[v].0;
            let dy = points[u].1 - points[v].1;
            m[u][v] = dx.hypot(dy).ceil() as u64;
        }
    }
    m
}

fn load_profile_ok(sol: &Solution, cap: usize, n: usize, demands: &[usize]) -> bool {
    for route in &sol.routes {
        let mut load: i64 = 0;
        for &x in route {
            if x >= 1 && x <= n {
                load += demands[x - 1] as i64;
            } else if x > n {
                load -= demands[x - n - 1] as i64;
            }
            if load < 0 || load > cap as i64 {
                return false;
            }
        }
    }
    true
}

#[test]
fn deterministic_two_requests_one_vehicle() {
    let points = [(0.0, 0.0), (1.0, 0.0), (2.0, 0.0), (1.0, 1.0), (2.0, 1.0)];
    let inst = Instance::new("p".to_string(), 2, 1, 10, 2, 0, vec![3, 4], dist_matrix(&points)).unwrap();
    let sol = DeterministicConstruction::new(&inst).solve();
    assert_eq!(sol.routes.len(), 1);
    assert_eq!(sol.routes[0], vec![1, 3, 2, 4]);
    assert!(load_profile_ok(&sol, 10, 2, &[3, 4]));
    assert!(sol.is_valid());
}

#[test]
fn deterministic_prefers_lower_objective() {
    // request 0 near the depot, request 1 far; two vehicles, fairness weight 0
    let points = [(0.0, 0.0), (1.0, 0.0), (10.0, 0.0), (2.0, 0.0), (11.0, 0.0)];
    let inst = Instance::new("q".to_string(), 2, 2, 10, 2, 0, vec![1, 1], dist_matrix(&points)).unwrap();
    let sol = DeterministicConstruction::new(&inst).construct_solution();
    // both cost the same added distance in either vehicle: the first vehicle wins ties
    assert_eq!(sol.routes, vec![vec![1, 3, 2, 4], vec![]]);
    assert!(sol.is_valid());
}

#[test]
fn deterministic_fairness_spreads_requests() {
    let points = [(0.0, 0.0), (1.0, 0.0), (0.0, 1.0), (2.0, 0.0), (0.0, 2.0)];
    // a large fairness weight makes the second request go to the idle vehicle
    let inst = Instance::new("f".to_string(), 2, 2, 10, 2, 100_000_000, vec![1, 1], dist_matrix(&points)).unwrap();
    let sol = DeterministicConstruction::new(&inst).construct_solution();
    assert_eq!(sol.routes, vec![vec![1, 3], vec![2, 4]]);
}

#[test]
fn deterministic_falls_back_to_least_loaded() {
    let points = [(0.0, 0.0), (1.0, 0.0), (2.0, 0.0), (1.0, 1.0), (2.0, 1.0)];
    // each demand exceeds the capacity: both go to the least loaded vehicle
    let inst = Instance::new("c".to_string(), 2, 2, 2, 2, 0, vec![3, 4], dist_matrix(&points)).unwrap();
    let sol = DeterministicConstruction::new(&inst).construct_solution();
    assert_eq!(sol.routes, vec![vec![1, 3], vec![2, 4]]);
    assert!(!sol.is_valid());
}

#[test]
fn deterministic_without_vehicles() {
    let points = [(0.0, 0.0), (1.0, 0.0), (1.0, 1.0)];
    let inst = Instance::new("z".to_string(), 1, 0, 5, 1, 0, vec![1], dist_matrix(&points)).unwrap();
    let sol = DeterministicConstruction::new(&inst).solve();
    assert!(sol.routes.is_empty());
}

#[test]
fn utility_ranks_by_demand_over_trip() {
    // request 0: demand 1, trip 1+1+2 = 4; request 1: demand 6, trip 2+... ; request 2: demand 1, far away
    let points = [
        (0.0, 0.0),
        (1.0, 0.0), (0.0, 2.0), (30.0, 0.0),
        (1.0, 1.0), (0.0, 3.0), (31.0, 0.0),
    ];
    let inst = Instance::new("u".to_string(), 3, 2, 10, 2, 0, vec![1, 6, 1], dist_matrix(&points)).unwrap();
    let det = DeterministicConstruction::new(&inst);
    let util = det.compute_utility();
    assert_eq!(util, vec![(1, 4), (6, 6), (1, 62)]);
    assert_eq!(det.top_requests(), vec![1, 0]);
    let sol = det.utility_based_construction();
    // round robin: the best request to vehicle 0, the next to vehicle 1
    assert_eq!(sol.routes, vec![vec![2, 5], vec![1, 4]]);
    assert!(sol.is_valid());
}

#[test]
fn utility_round_robin_skips_full_vehicle() {
    let points = [(0.0, 0.0), (1.0, 0.0), (2.0, 0.0), (3.0, 0.0), (1.0, 1.0), (2.0, 1.0), (3.0, 1.0)];
    // capacity 5: demands 5, 5, 5; each vehicle takes one, the third finds no room
    let inst = Instance::new("r".to_string(), 3, 2, 5, 3, 0, vec![5, 5, 5], dist_matrix(&points)).unwrap();
    let sol = DeterministicConstruction::new(&inst).utility_based_construction();
    assert_eq!(sol.routes.len(), 2);
    assert_eq!(sol.routes[0].len(), 2);
    assert_eq!(sol.routes[1].len(), 2);
    assert!(!sol.is_valid());
}

#[test]
fn shuffled_range_is_a_permutation() {
    let mut moved = false;
    for _ in 0..5 {
        let v = shuffled_range(20);
        let mut sorted = v.clone();
        sorted.sort();
        assert_eq!(sorted, (0..20).collect::<Vec<usize>>());
        if v != (0..20).collect::<Vec<usize>>() {
            moved = true;
        }
    }
    assert!(moved);
}

#[test]
fn random_construction_serves_gamma_distinct_requests() {
    let points = [
        (0.0, 0.0),
        (1.0, 0.0), (2.0, 0.0), (3.0, 0.0), (4.0, 0.0),
        (1.0, 1.0), (2.0, 1.0), (3.0, 1.0), (4.0, 1.0),
    ];
    let inst = Instance::new("r".to_string(), 4, 2, 10, 3, 0, vec![2, 2, 2, 2], dist_matrix(&points)).unwrap();
    for biased in [false, true] {
        let sol = RandomConstruction::new(&inst, biased).solve();
        assert_eq!(sol.routes.len(), 2);
        let mut pickups: Vec<usize> = sol.routes.iter().flatten().copied().filter(|&x| x <= 4).collect();
        pickups.sort();
        pickups.dedup();
        assert_eq!(pickups.len(), 3);
        assert!(sol.is_valid());
    }
}

#[test]
fn biased_construction_fills_last_vehicle_first() {
    let points = [(0.0, 0.0), (1.0, 0.0), (2.0, 0.0), (1.0, 1.0), (2.0, 1.0)];
    let inst = Instance::new("b".to_string(), 2, 3, 10, 2, 0, vec![3, 4], dist_matrix(&points)).unwrap();
    let sol = RandomConstruction::new(&inst, true).construct_solution();
    assert!(sol.routes[0].is_empty());
    assert!(sol.routes[1].is_empty());
    assert_eq!(sol.routes[2].len(), 4);
}

#[test]
fn can_assign_checks_capacity() {
    let points = [(0.0, 0.0), (1.0, 0.0), (2.0, 0.0), (1.0, 1.0), (2.0, 1.0)];
    let inst = Instance::new("b".to_string(), 2, 1, 5, 2, 0, vec![3, 6], dist_matrix(&points)).unwrap();
    let rc = RandomConstruction::new(&inst, false);
    assert!(rc.can_assign_request(&vec![], 0));
    assert!(!rc.can_assign_request(&vec![], 1));
    let routes = rc.assign_request_to_vehicle(&vec![vec![], vec![]], 1, 0);
    assert_eq!(routes, vec![vec![], vec![1, 3]]);
}
