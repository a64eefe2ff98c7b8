use vstd::prelude::*;
use crate::evaluation::{
    lemma_fairness_equal, lemma_fairness_range,
    compute_route_distances, fairness_den, fairness_num, nodes_in_range, objective_micro, objective_of,
    route_distance, route_distances, routes_view, scorable, sum, total_distance, fairness_of, lemma_sum_prefix,
    Ratio, MAX_TOTAL_DISTANCE, OBJ_SCALE,
};
use crate::instance::{Instance, MAX_DIST, MAX_RHO, MAX_VEHICLES};
use crate::moves::copy_routes;
use crate::validity::{check_routes, routes_valid};

verus! {

/// A candidate answer: one stop sequence per vehicle, tied to the instance
/// it answers.
#[derive(Debug)]
pub struct Solution<'a> {
    pub instance: &'a Instance,
    pub routes: Vec<Vec<usize>>,
}

/// Bound on the distances of a list of routes, for the 128-bit sum.
pub open spec fn distances_bounded(ds: Seq<nat>) -> bool {
    forall|v: int| 0 <= v < ds.len() ==> #[trigger] ds[v] <= 18446744073709551616 * MAX_DIST
}

/// The distances of all routes, summed in 128 bits.
pub fn sum_distances(ds: &Vec<u128>, Ghost(spec_ds): Ghost<Seq<nat>>) -> (r: u128)
    requires
        ds@.len() == spec_ds.len(),
        ds@.len() <= MAX_VEHICLES,
        forall|i: int| 0 <= i < ds@.len() ==> #[trigger] ds@[i] == spec_ds[i],
        distances_bounded(spec_ds),
    ensures
        r == sum(spec_ds),
{
    let mut s: u128 = 0;
    let mut i: usize = 0;
    while i < ds.len()
        invariant
            ds@.len() == spec_ds.len(),
            ds@.len() <= MAX_VEHICLES,
            forall|k: int| 0 <= k < ds@.len() ==> #[trigger] ds@[k] == spec_ds[k],
            distances_bounded(spec_ds),
            i <= ds@.len(),
            s == sum(spec_ds.subrange(0, i as int)),
            s <= i * (18446744073709551616 * MAX_DIST),
        decreases ds@.len() - i,
    {
        proof {
            lemma_sum_prefix(spec_ds, i as int);
            assert(i * (18446744073709551616 * MAX_DIST) + 18446744073709551616 * MAX_DIST == (i + 1) * (
            18446744073709551616 * MAX_DIST)) by (nonlinear_arith);
            assert((i + 1) * (18446744073709551616 * MAX_DIST) <= 65536 * (18446744073709551616 * MAX_DIST))
                by (nonlinear_arith)
                requires i + 1 <= 65536;
        }
        s = s + ds[i];
        i += 1;
    }
    proof {
        assert(spec_ds.subrange(0, ds@.len() as int) =~= spec_ds);
    }
    s
}

impl<'a> Solution<'a> {
    /// The routes as sequences of nodes.
    pub open spec fn rs(&self) -> Seq<Seq<usize>> {
        routes_view(&self.routes)
    }

    /// Well-formed: the instance is, every stop is one of its nodes, and the
    /// fleet is within the library's limit.
    pub open spec fn wf(&self) -> bool {
        &&& self.instance.wf()
        &&& nodes_in_range(self.instance, self.rs())
        &&& self.routes@.len() <= MAX_VEHICLES
    }

    pub open spec fn valid(&self) -> bool {
        routes_valid(self.instance, self.rs())
    }

    pub open spec fn objective(&self) -> nat {
        objective_micro(self.instance, self.rs())
    }

    pub open spec fn scorable(&self) -> bool {
        scorable(self.instance, self.rs())
    }

    pub fn new(instance: &'a Instance, routes: Vec<Vec<usize>>) -> (r: Solution<'a>)
        ensures
            r.instance == instance,
            r.routes == routes,
    {
        Solution { instance, routes }
    }

    /// One empty route for each of `num_vehicles` vehicles.
    pub fn empty(instance: &'a Instance, num_vehicles: usize) -> (r: Solution<'a>)
        ensures
            r.instance == instance,
            r.rs().len() == num_vehicles,
            forall|v: int| 0 <= v < num_vehicles ==> #[trigger] r.rs()[v].len() == 0,
    {
        let mut routes: Vec<Vec<usize>> = Vec::new();
        let mut v: usize = 0;
        while v < num_vehicles
            invariant
                v <= num_vehicles,
                routes@.len() == v,
                forall|u: int| 0 <= u < v ==> #[trigger] routes@[u]@.len() == 0,
            decreases num_vehicles - v,
        {
            routes.push(Vec::new());
            v += 1;
        }
        Solution { instance, routes }
    }

    /// A copy with its own routes, tied to the same instance.
    pub fn duplicate(&self) -> (r: Solution<'a>)
        ensures
            r.instance == self.instance,
            r.routes@.len() == self.routes@.len(),
            r.rs() == self.rs(),
    {
        Solution { instance: self.instance, routes: copy_routes(&self.routes) }
    }

    /// Distance of each route, in order.
    pub fn get_route_distances(&self) -> (r: Vec<u128>)
        requires
            self.wf(),
        ensures
            r@.len() == self.rs().len(),
            forall|v: int| 0 <= v < r@.len() ==> #[trigger] r@[v] == route_distance(self.instance, self.rs()[v]),
            forall|v: int| 0 <= v < r@.len() ==> #[trigger] r@[v] <= 18446744073709551616 * MAX_DIST,
    {
        let r = compute_route_distances(self.instance, &self.routes);
        proof {
            assert forall|v: int| 0 <= v < r@.len() implies #[trigger] r@[v] == route_distance(self.instance, self.rs()[v]) by {
                assert(route_distances(self.instance, self.rs())[v] == route_distance(self.instance, self.rs()[v]));
            }
        }
        r
    }

    /// The distances of the routes as a ghost sequence, tied to computed values.
    proof fn lemma_distances(&self, ds: Vec<u128>)
        requires
            self.wf(),
            ds@.len() == self.rs().len(),
            forall|v: int| 0 <= v < ds@.len() ==> #[trigger] ds@[v] == route_distance(self.instance, self.rs()[v]),
            forall|v: int| 0 <= v < ds@.len() ==> #[trigger] ds@[v] <= 18446744073709551616 * MAX_DIST,
        ensures
            forall|v: int| 0 <= v < ds@.len() ==> #[trigger] ds@[v] == route_distances(self.instance, self.rs())[v],
            route_distances(self.instance, self.rs()).len() == ds@.len(),
            distances_bounded(route_distances(self.instance, self.rs())),
    {
        let sd = route_distances(self.instance, self.rs());
        assert forall|v: int| 0 <= v < sd.len() implies #[trigger] sd[v] <= 18446744073709551616 * MAX_DIST by {
            assert(sd[v] == ds@[v]);
        }
    }

    /// Sum of the route distances.
    pub fn total_travel_distance(&self) -> (r: u128)
        requires
            self.wf(),
        ensures
            r == total_distance(self.instance, self.rs()),
    {
        let ds = self.get_route_distances();
        proof {
            self.lemma_distances(ds);
        }
        sum_distances(&ds, Ghost(route_distances(self.instance, self.rs())))
    }

    /// Whether the fairness and the objective can be computed exactly.
    pub fn within_limits(&self) -> (r: bool)
        requires
            self.wf(),
        ensures
            r == self.scorable(),
    {
        self.total_travel_distance() <= MAX_TOTAL_DISTANCE
    }

    /// Jain's index of the route distances, as the exact fraction
    /// `(sum d)^2 / (k * sum d^2)`, or `1/1` when every distance is zero.
    pub fn jain_fairness(&self) -> (r: Ratio)
        requires
            self.wf(),
            self.scorable(),
        ensures
            r.num == fairness_num(route_distances(self.instance, self.rs())),
            r.den == fairness_den(route_distances(self.instance, self.rs())),
    {
        let ds = self.get_route_distances();
        proof {
            self.lemma_distances(ds);
        }
        fairness_of(&ds, Ghost(route_distances(self.instance, self.rs())))
    }

    /// `total distance + rho * (1 - fairness)`, in millionths, rounded down.
    pub fn objective_function_value(&self) -> (r: u128)
        requires
            self.wf(),
            self.scorable(),
        ensures
            r == self.objective(),
            r <= MAX_TOTAL_DISTANCE * OBJ_SCALE + MAX_RHO,
    {
        let ds = self.get_route_distances();
        proof {
            self.lemma_distances(ds);
        }
        objective_of(&ds, Ghost(route_distances(self.instance, self.rs())), self.instance.rho_micro)
    }

    /// Whether the routes are feasible and serve at least `gamma` requests.
    pub fn is_valid(&self) -> (r: bool)
        requires
            self.wf(),
        ensures
            r == self.valid(),
    {
        check_routes(self.instance, &self.routes)
    }
}

/// Jain's index of a solution's route distances lies in `(0, 1]`, and is
/// exactly one where every route has the same distance (all zero included).
pub proof fn lemma_solution_fairness(sol: &Solution)
    ensures
        0 < fairness_num(route_distances(sol.instance, sol.rs())) <= fairness_den(route_distances(sol.instance, sol.rs())),
        (forall|v: int, w: int|
            0 <= v < sol.rs().len() && 0 <= w < sol.rs().len() ==> route_distance(sol.instance, #[trigger] sol.rs()[v])
                == route_distance(sol.instance, #[trigger] sol.rs()[w])) ==> fairness_num(
            route_distances(sol.instance, sol.rs()),
        ) == fairness_den(route_distances(sol.instance, sol.rs())),
{
    let ds = route_distances(sol.instance, sol.rs());
    lemma_fairness_range(ds);
    if forall|v: int, w: int|
        0 <= v < sol.rs().len() && 0 <= w < sol.rs().len() ==> route_distance(sol.instance, #[trigger] sol.rs()[v])
            == route_distance(sol.instance, #[trigger] sol.rs()[w]) {
        if ds.len() > 0 {
            assert forall|i: int| 0 <= i < ds.len() implies #[trigger] ds[i] == ds[0] by {
                assert(ds[i] == route_distance(sol.instance, sol.rs()[i]));
                assert(ds[0] == route_distance(sol.instance, sol.rs()[0]));
            }
            lemma_fairness_equal(ds, ds[0]);
        } else {
            lemma_fairness_equal(ds, 0);
        }
    }
}

} // verus!
