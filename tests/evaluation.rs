use scf_pdp::evaluation::Ratio;
use scf_pdp::instance::{DropoffIndex, LocationKind, PickupIndex};
use scf_pdp::{Instance, Solution};

fn dist_matrix(depot: (f64, f64), pickups: &[(f64, f64)], dropoffs: &[(f64, f64)]) -> Vec<Vec<u64>> {
    let mut all = vec![depot];
    all.extend_from_slice(pickups);
    all.extend_from_slice(dropoffs);
    let mut m = vec![vec![0u64; all.len()]; all.len()];
    for u in 0..all.len() {
        for v in 0..all.len() {
            let dx = all[u].0 - all[v].0;
            let dy = all[u].1 - all[v].1;
            m[u][v] = dx.hypot(dy).ceil() as u64;
        }
    }
    m
}

/// Two requests on a line: pickups (1,0), (2,0); dropoffs (1,1), (2,1).
fn two_request_instance(n_vehicles: usize, cap: usize, gamma: usize, rho_micro: u64) -> Instance {
    let dist = dist_matrix((0.0, 0.0), &[(1.0, 0.0), (2.0, 0.0)], &[(1.0, 1.0), (2.0, 1.0)]);
    Instance::new("line".to_string(), 2, n_vehicles, cap, gamma, rho_micro, vec![3, 4], dist).unwrap()
}

#[test]
fn instance_new_checks_shapes() {
    let dist = dist_matrix((0.0, 0.0), &[(1.0, 0.0)], &[(1.0, 1.0)]);
    assert!(Instance::new("a".to_string(), 1, 1, 5, 1, 0, vec![2], dist.clone()).is_some());
    // wrong number of demands
    assert!(Instance::new("a".to_string(), 1, 1, 5, 1, 0, vec![2, 3], dist.clone()).is_none());
    // matrix of the wrong size
    assert!(Instance::new("a".to_string(), 2, 1, 5, 1, 0, vec![2, 3], dist.clone()).is_none());
    // a ragged row
    let mut ragged = dist.clone();
    ragged[1].pop();
    assert!(Instance::new("a".to_string(), 1, 1, 5, 1, 0, vec![2], ragged).is_none());
    // a distance past the limit
    let mut far = dist;
    far[0][1] = u64::MAX;
    assert!(Instance::new("a".to_string(), 1, 1, 5, 1, 0, vec![2], far).is_none());
}

#[test]
fn node_indices() {
    assert_eq!(PickupIndex::of_request(0).0, 1);
    assert_eq!(PickupIndex::of_request(4).0, 5);
    assert_eq!(DropoffIndex::of_request(5, 0).0, 6);
    assert_eq!(DropoffIndex::of_request(5, 4).0, 10);
}

#[test]
fn getters() {
    let inst = two_request_instance(1, 10, 2, 1_500_000);
    assert_eq!(inst.name(), "line");
    assert_eq!(inst.n_reqs(), 2);
    assert_eq!(inst.n_vehicles(), 1);
    assert_eq!(inst.cap(), 10);
    assert_eq!(inst.gamma(), 2);
    assert_eq!(inst.rho(), 1_500_000);
    assert_eq!(inst.demands(), &vec![3, 4]);
    assert_eq!(inst.distance(0, 2), 2);
    assert_eq!(inst.distance(1, 4), 2);
    assert_eq!(inst.compute_distance_matrix().len(), 5);
}

#[test]
fn route_distance_counts_depot_legs() {
    let inst = two_request_instance(2, 10, 1, 0);
    // depot->1 (1) + 1->3 (1) + 3->depot (ceil(sqrt 2) = 2)
    let sol = Solution::new(&inst, vec![vec![1, 3], vec![]]);
    assert_eq!(sol.get_route_distances(), vec![4, 0]);
    assert_eq!(sol.total_travel_distance(), 4);
    // a route that starts and ends at the depot pays no extra leg
    let sol = Solution::new(&inst, vec![vec![0, 1, 3, 0], vec![]]);
    assert_eq!(sol.get_route_distances(), vec![4, 0]);
}

#[test]
fn fairness_is_one_for_empty_routes() {
    let inst = two_request_instance(3, 10, 0, 0);
    let sol = Solution::empty(&inst, 3);
    assert_eq!(sol.jain_fairness(), Ratio { num: 1, den: 1 });
    assert_eq!(sol.objective_function_value(), 0);
}

#[test]
fn fairness_is_one_for_equal_routes() {
    let inst = two_request_instance(2, 10, 0, 0);
    // both routes cost 4
    let sol = Solution::new(&inst, vec![vec![1, 3], vec![1, 3]]);
    let f = sol.jain_fairness();
    assert_eq!(f.num, f.den);
    assert_eq!(f.num, 64);
}

#[test]
fn fairness_of_unequal_routes() {
    let inst = two_request_instance(2, 10, 0, 2_000_000);
    // distances 4 and 0: (4)^2 / (2 * 16) = 1/2
    let sol = Solution::new(&inst, vec![vec![1, 3], vec![]]);
    let f = sol.jain_fairness();
    assert_eq!((f.num, f.den), (16, 32));
    assert!(f.num > 0 && f.num <= f.den);
    // objective: 4 + 2 * (1 - 1/2) = 5, in millionths
    assert_eq!(sol.objective_function_value(), 5_000_000);
}

#[test]
fn objective_rounds_fairness_term_down() {
    let inst = two_request_instance(3, 10, 0, 1_000_000);
    // distances 4, 0, 0: fairness 16 / 48 = 1/3; rho * 2/3 = 666666.66..
    let sol = Solution::new(&inst, vec![vec![1, 3], vec![], vec![]]);
    assert_eq!(sol.jain_fairness(), Ratio { num: 16, den: 48 });
    assert_eq!(sol.objective_function_value(), 4_000_000 + 666_666);
}

#[test]
fn within_limits_for_small_solutions() {
    let inst = two_request_instance(2, 10, 0, 0);
    let sol = Solution::new(&inst, vec![vec![1, 3], vec![2, 4]]);
    assert!(sol.within_limits());
}

#[test]
fn duplicate_keeps_routes() {
    let inst = two_request_instance(2, 10, 0, 0);
    let sol = Solution::new(&inst, vec![vec![1, 3], vec![2, 4]]);
    let copy = sol.duplicate();
    assert_eq!(copy.routes, sol.routes);
}

#[test]
fn valid_solution_passes() {
    let inst = two_request_instance(2, 10, 2, 0);
    let sol = Solution::new(&inst, vec![vec![1, 3], vec![2, 4]]);
    assert!(sol.is_valid());
    let both = Solution::new(&inst, vec![vec![1, 2, 3, 4], vec![]]);
    assert!(both.is_valid());
}

#[test]
fn invalid_when_capacity_exceeded() {
    let inst = two_request_instance(1, 6, 2, 0);
    // load 3 + 4 = 7 > 6
    let sol = Solution::new(&inst, vec![vec![1, 2, 3, 4]]);
    assert!(!sol.is_valid());
    let seq = Solution::new(&inst, vec![vec![1, 3, 2, 4]]);
    assert!(seq.is_valid());
}

#[test]
fn invalid_when_dropoff_precedes_pickup() {
    let inst = two_request_instance(1, 10, 1, 0);
    let sol = Solution::new(&inst, vec![vec![3, 1]]);
    assert!(!sol.is_valid());
}

#[test]
fn invalid_when_dropoff_in_other_route() {
    let inst = two_request_instance(2, 10, 1, 0);
    let sol = Solution::new(&inst, vec![vec![1], vec![3]]);
    assert!(!sol.is_valid());
}

#[test]
fn invalid_when_pickup_repeated() {
    let inst = two_request_instance(2, 10, 1, 0);
    let sol = Solution::new(&inst, vec![vec![1, 3], vec![1, 3]]);
    assert!(!sol.is_valid());
}

#[test]
fn invalid_when_route_ends_loaded() {
    let inst = two_request_instance(1, 10, 0, 0);
    let sol = Solution::new(&inst, vec![vec![1]]);
    assert!(!sol.is_valid());
}

#[test]
fn invalid_when_gamma_not_met() {
    let inst = two_request_instance(1, 10, 2, 0);
    let sol = Solution::new(&inst, vec![vec![1, 3]]);
    assert!(!sol.is_valid());
    let inst1 = two_request_instance(1, 10, 1, 0);
    let sol1 = Solution::new(&inst1, vec![vec![1, 3]]);
    assert!(sol1.is_valid());
}

#[test]
fn repeated_dropoff_with_zero_final_load_is_valid() {
    // demands [3, 3]: loads 3, 0, -3, 0; no prefix above capacity, final load 0
    let dist = dist_matrix((0.0, 0.0), &[(1.0, 0.0), (2.0, 0.0)], &[(1.0, 1.0), (2.0, 1.0)]);
    let inst = Instance::new("dup".to_string(), 2, 1, 10, 1, 0, vec![3, 3], dist).unwrap();
    let sol = Solution::new(&inst, vec![vec![1, 3, 3, 2]]);
    assert!(sol.is_valid());
}

#[test]
fn location_kinds() {
    let inst = two_request_instance(1, 10, 2, 0);
    assert_eq!(inst.location_kind(0), LocationKind::Depot);
    assert_eq!(inst.location_kind(2), LocationKind::Pickup(2));
    assert_eq!(inst.location_kind(3), LocationKind::Dropoff(1));
    assert_eq!(inst.location_kind(5), LocationKind::Invalid);
}
