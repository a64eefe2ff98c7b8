use vstd::prelude::*;
use crate::evaluation::{nodes_in_range, objective_micro, routes_view, scorable};
use crate::instance::{Instance, MAX_REQS, MAX_VEHICLES};
use crate::beam_search::{count_true, lemma_count_true_all, lemma_count_true_none, lemma_count_true_set};
use crate::moves::{copy_route, replace_route};
use crate::solution::Solution;
use crate::solver::Solver;

verus! {

/// The stops of vehicle `v` after the first `t` requests of `reqs` were
/// handed out by `owner` (a vehicle index, or none for a skipped request):
/// each assigned request as its pickup directly followed by its dropoff, in
/// the order handed out.
pub open spec fn assigned_stops(inst: &Instance, reqs: Seq<int>, owner: Seq<int>, v: int, t: int) -> Seq<usize>
    decreases t,
{
    if t <= 0 {
        Seq::empty()
    } else {
        let s = assigned_stops(inst, reqs, owner, v, t - 1);
        if owner[t - 1] == v {
            s.push(inst.pickup_node(reqs[t - 1]) as usize).push(inst.dropoff_node(reqs[t - 1]) as usize)
        } else {
            s
        }
    }
}

/// The routes are exactly what `owner` hands out of `reqs`, where a
/// negative owner leaves a request out.
pub open spec fn handed_out(inst: &Instance, rs: Seq<Seq<usize>>, reqs: Seq<int>, owner: Seq<int>) -> bool {
    &&& owner.len() == reqs.len()
    &&& forall|i: int| 0 <= i < owner.len() ==> #[trigger] owner[i] < rs.len()
    &&& forall|v: int| 0 <= v < rs.len() ==> #[trigger] rs[v] == assigned_stops(inst, reqs, owner, v, reqs.len() as int)
}

/// The routes are exactly what `owner` hands out of `reqs`, every request
/// to a vehicle of the fleet.
pub open spec fn built_from(inst: &Instance, rs: Seq<Seq<usize>>, reqs: Seq<int>, owner: Seq<int>) -> bool {
    &&& handed_out(inst, rs, reqs, owner)
    &&& forall|i: int| 0 <= i < owner.len() ==> 0 <= #[trigger] owner[i]
}

pub open spec fn first_requests(m: int) -> Seq<int> {
    Seq::new(m as nat, |i: int| i)
}

pub(crate) proof fn lemma_assigned_prefix(inst: &Instance, reqs: Seq<int>, owner: Seq<int>, w: int, v: int, t: int)
    requires
        0 <= t <= owner.len(),
    ensures
        assigned_stops(inst, reqs, owner.push(w), v, t) == assigned_stops(inst, reqs, owner, v, t),
    decreases t,
{
    if t > 0 {
        lemma_assigned_prefix(inst, reqs, owner, w, v, t - 1);
        assert(owner.push(w)[t - 1] == owner[t - 1]);
    }
}

pub(crate) proof fn lemma_assigned_in_range(inst: &Instance, reqs: Seq<int>, owner: Seq<int>, v: int, t: int)
    requires
        inst.wf(),
        t <= reqs.len(),
        t <= owner.len(),
        forall|i: int| 0 <= i < reqs.len() ==> 0 <= #[trigger] reqs[i] < inst.n_reqs,
    ensures
        forall|j: int|
            0 <= j < assigned_stops(inst, reqs, owner, v, t).len() ==> #[trigger] assigned_stops(inst, reqs, owner, v, t)[j]
                < inst.num_nodes(),
    decreases t,
{
    if t > 0 {
        lemma_assigned_in_range(inst, reqs, owner, v, t - 1);
        let q = reqs[t - 1];
        assert(0 <= q < inst.n_reqs);
        let s = assigned_stops(inst, reqs, owner, v, t - 1);
        if owner[t - 1] == v {
            let s2 = s.push(inst.pickup_node(q) as usize).push(inst.dropoff_node(q) as usize);
            assert forall|j: int| 0 <= j < s2.len() implies #[trigger] s2[j] < inst.num_nodes() by {
                if j < s.len() {
                    assert(s2[j] == s[j]);
                }
            }
        }
    }
}

pub(crate) proof fn lemma_assigned_len(inst: &Instance, reqs: Seq<int>, owner: Seq<int>, v: int, t: int)
    requires
        t >= 0,
    ensures
        assigned_stops(inst, reqs, owner, v, t).len() <= 2 * t,
    decreases t,
{
    if t > 0 {
        lemma_assigned_len(inst, reqs, owner, v, t - 1);
    }
}

/// Appends the pickup and the dropoff of request `q` to route `v`.
pub(crate) fn append_request(inst: &Instance, routes: &Vec<Vec<usize>>, v: usize, q: usize) -> (r: Vec<Vec<usize>>)
    requires
        inst.wf(),
        v < routes@.len(),
        q < inst.n_reqs,
        routes@[v as int]@.len() + 2 < usize::MAX,
    ensures
        r@.len() == routes@.len(),
        routes_view(&r) == routes_view(routes).update(
            v as int,
            routes_view(routes)[v as int].push((q + 1) as usize).push((q + 1 + inst.n_reqs) as usize),
        ),
{
    let mut route = copy_route(&routes[v]);
    route.push(q + 1);
    route.push(q + 1 + inst.n_reqs);
    replace_route(routes, v, route)
}

/// The first index of a least value, scanning from `k` with `best` the
/// first least value so far.
pub open spec fn first_min_from(s: Seq<int>, k: int, best: int) -> int
    decreases s.len() - k,
{
    if k >= s.len() {
        best
    } else if s[k] < s[best] {
        first_min_from(s, k + 1, k)
    } else {
        first_min_from(s, k + 1, best)
    }
}

pub open spec fn as_ints(s: Seq<u128>) -> Seq<int> {
    s.map_values(|x: u128| x as int)
}

/// The first vehicle among the least loaded.
pub fn least_loaded(loads: &Vec<u128>) -> (r: usize)
    requires
        loads@.len() > 0,
    ensures
        r < loads@.len(),
        r == first_min_from(as_ints(loads@), 1, 0),
{
    let ghost s = as_ints(loads@);
    let mut best: usize = 0;
    let mut k: usize = 1;
    while k < loads.len()
        invariant
            s == as_ints(loads@),
            1 <= k <= loads@.len(),
            best < k,
            first_min_from(s, 1, 0) == first_min_from(s, k as int, best as int),
        decreases loads@.len() - k,
    {
        if loads[k] < loads[best] {
            best = k;
        }
        k += 1;
    }
    best
}

/// The routes after the first `t` requests of `reqs` are handed out.
pub open spec fn routes_after(inst: &Instance, reqs: Seq<int>, owner: Seq<int>, nv: int, t: int) -> Seq<Seq<usize>> {
    Seq::new(nv as nat, |u: int| assigned_stops(inst, reqs, owner, u, t))
}

/// Those routes with request `t` appended to vehicle `k`.
pub open spec fn trial_routes(inst: &Instance, reqs: Seq<int>, owner: Seq<int>, nv: int, t: int, k: int) -> Seq<
    Seq<usize>,
> {
    let rs = routes_after(inst, reqs, owner, nv, t);
    rs.update(k, rs[k].push(inst.pickup_node(reqs[t]) as usize).push(inst.dropoff_node(reqs[t]) as usize))
}

/// For each vehicle: it has room for request `t`, and the trial routes can
/// be scored.
pub open spec fn trial_fits(inst: &Instance, reqs: Seq<int>, owner: Seq<int>, nv: int, t: int) -> Seq<bool> {
    Seq::new(
        nv as nat,
        |k: int|
            vehicle_load(inst, reqs, owner, k, t) + inst.demand(reqs[t]) <= inst.cap && scorable(
                inst,
                trial_routes(inst, reqs, owner, nv, t, k),
            ),
    )
}

/// For each vehicle: the objective of the trial routes.
pub open spec fn trial_objectives(inst: &Instance, reqs: Seq<int>, owner: Seq<int>, nv: int, t: int) -> Seq<int> {
    Seq::new(nv as nat, |k: int| objective_micro(inst, trial_routes(inst, reqs, owner, nv, t, k)) as int)
}

/// The first vehicle of lowest objective among those that fit, scanning
/// from `k` with `best` (negative for none) the best so far.
pub open spec fn best_from(fits: Seq<bool>, objs: Seq<int>, k: int, best: int) -> int
    decreases fits.len() - k,
{
    if k >= fits.len() {
        best
    } else if fits[k] && (best < 0 || objs[k] < objs[best]) {
        best_from(fits, objs, k + 1, k)
    } else {
        best_from(fits, objs, k + 1, best)
    }
}

pub open spec fn vehicle_loads(inst: &Instance, reqs: Seq<int>, owner: Seq<int>, nv: int, t: int) -> Seq<int> {
    Seq::new(nv as nat, |u: int| vehicle_load(inst, reqs, owner, u, t))
}

/// The routes are those of the greedy construction: the first
/// `min(gamma, n)` requests handed out one by one by `greedy_choice`.
pub open spec fn greedy_construction(inst: &Instance, rs: Seq<Seq<usize>>) -> bool {
    inst.n_vehicles > 0 ==> exists|owner: Seq<int>|
        #[trigger] built_from(inst, rs, first_requests(inst.target_count()), owner) && forall|t: int|
            0 <= t < owner.len() ==> #[trigger] owner[t] == greedy_choice(
                inst,
                first_requests(inst.target_count()),
                owner,
                inst.n_vehicles as int,
                t,
            )
}

/// The vehicle that the greedy construction gives request `t`: the first of
/// lowest objective among those with room, else the first least loaded.
pub open spec fn greedy_choice(inst: &Instance, reqs: Seq<int>, owner: Seq<int>, nv: int, t: int) -> int {
    let b = best_from(trial_fits(inst, reqs, owner, nv, t), trial_objectives(inst, reqs, owner, nv, t), 0, -1);
    if b >= 0 {
        b
    } else {
        first_min_from(vehicle_loads(inst, reqs, owner, nv, t), 1, 0)
    }
}

proof fn lemma_greedy_prefix(inst: &Instance, reqs: Seq<int>, owner: Seq<int>, w: int, nv: int, t: int)
    requires
        0 <= t <= owner.len(),
    ensures
        greedy_choice(inst, reqs, owner.push(w), nv, t) == greedy_choice(inst, reqs, owner, nv, t),
{
    let o2 = owner.push(w);
    let r1 = routes_after(inst, reqs, o2, nv, t);
    let r2 = routes_after(inst, reqs, owner, nv, t);
    assert forall|u: int| 0 <= u < r1.len() implies #[trigger] r1[u] == r2[u] by {
        lemma_assigned_prefix(inst, reqs, owner, w, u, t);
    }
    assert(r1 =~= r2);
    let f1 = trial_fits(inst, reqs, o2, nv, t);
    let f2 = trial_fits(inst, reqs, owner, nv, t);
    assert forall|k: int| 0 <= k < f1.len() implies #[trigger] f1[k] == f2[k] by {
        lemma_vehicle_load_prefix(inst, reqs, owner, w, k, t);
        assert(trial_routes(inst, reqs, o2, nv, t, k) == trial_routes(inst, reqs, owner, nv, t, k));
    }
    assert(f1 =~= f2);
    let b1 = trial_objectives(inst, reqs, o2, nv, t);
    let b2 = trial_objectives(inst, reqs, owner, nv, t);
    assert forall|k: int| 0 <= k < b1.len() implies #[trigger] b1[k] == b2[k] by {
        assert(trial_routes(inst, reqs, o2, nv, t, k) == trial_routes(inst, reqs, owner, nv, t, k));
    }
    assert(b1 =~= b2);
    let l1 = vehicle_loads(inst, reqs, o2, nv, t);
    let l2 = vehicle_loads(inst, reqs, owner, nv, t);
    assert forall|k: int| 0 <= k < l1.len() implies #[trigger] l1[k] == l2[k] by {
        lemma_vehicle_load_prefix(inst, reqs, owner, w, k, t);
    }
    assert(l1 =~= l2);
}

proof fn lemma_vehicle_load_bound(inst: &Instance, reqs: Seq<int>, owner: Seq<int>, v: int, t: int)
    requires
        inst.wf(),
        t <= reqs.len(),
        forall|i: int| 0 <= i < reqs.len() ==> 0 <= #[trigger] reqs[i] < inst.n_reqs,
    ensures
        0 <= vehicle_load(inst, reqs, owner, v, t) <= (if t < 0 { 0 } else { t }) * 18446744073709551616,
    decreases t,
{
    if t > 0 {
        lemma_vehicle_load_bound(inst, reqs, owner, v, t - 1);
        let q = reqs[t - 1];
        assert(inst.demands@[q] <= usize::MAX);
        assert((t - 1) * 18446744073709551616 + 18446744073709551616 == t * 18446744073709551616) by (nonlinear_arith);
    }
}

/// Greedy constructions that need no randomness.
pub struct DeterministicConstruction<'a> {
    pub instance: &'a Instance,
}

impl<'a> DeterministicConstruction<'a> {
    pub fn new(instance: &'a Instance) -> (r: Self)
        ensures
            r.instance == instance,
    {
        DeterministicConstruction { instance }
    }

    /// Serves the first `min(gamma, n)` requests in order. Each goes, as its
    /// pickup directly followed by its dropoff, to the end of the route of
    /// the vehicle with room for it whose resulting routes score lowest (the
    /// first such on ties); where no vehicle has room, to the least loaded.
    pub fn construct_solution(&self) -> (r: Solution<'a>)
        requires
            self.instance.wf(),
        ensures
            r.wf(),
            r.instance == self.instance,
            r.rs().len() == self.instance.n_vehicles,
            greedy_construction(self.instance, r.rs()),
    {
        let inst = self.instance;
        let n = inst.n_reqs;
        let nv = inst.n_vehicles;
        let cap = inst.cap as u128;
        let m = if inst.gamma < n { inst.gamma } else { n };
        let ghost reqs = first_requests(m as int);
        assert(m == inst.target_count());
        let mut routes: Vec<Vec<usize>> = Vec::new();
        let mut loads: Vec<u128> = Vec::new();
        let mut v: usize = 0;
        while v < nv
            invariant
                v <= nv,
                routes@.len() == v,
                loads@.len() == v,
                forall|u: int| 0 <= u < v ==> #[trigger] routes@[u]@ == Seq::<usize>::empty(),
                forall|u: int| 0 <= u < v ==> #[trigger] loads@[u] == 0,
            decreases nv - v,
        {
            routes.push(Vec::new());
            loads.push(0);
            v += 1;
        }
        if nv == 0 {
            assert(routes_view(&routes) =~= Seq::empty());
            return Solution { instance: inst, routes };
        }
        let ghost mut owner: Seq<int> = Seq::empty();
        proof {
            assert forall|u: int| 0 <= u < nv implies #[trigger] routes_view(&routes)[u] == assigned_stops(inst, reqs, owner, u, 0) by {
                assert(routes_view(&routes)[u] == routes@[u]@);
            }
        }
        let mut req: usize = 0;
        while req < m
            invariant
                inst.wf(),
                inst == self.instance,
                n == inst.n_reqs,
                nv == inst.n_vehicles,
                0 < nv <= MAX_VEHICLES,
                cap == inst.cap,
                m <= n,
                reqs == first_requests(m as int),
                req <= m,
                owner.len() == req,
                routes@.len() == nv,
                loads@.len() == nv,
                forall|i: int| 0 <= i < owner.len() ==> 0 <= #[trigger] owner[i] < nv,
                forall|i: int| 0 <= i < owner.len() ==> #[trigger] owner[i] == greedy_choice(inst, reqs, owner, nv as int, i),
                forall|u: int| 0 <= u < nv ==> #[trigger] routes_view(&routes)[u] == assigned_stops(inst, reqs, owner, u, req as int),
                forall|u: int| 0 <= u < nv ==> #[trigger] loads@[u] == vehicle_load(inst, reqs, owner, u, req as int),
            decreases m - req,
        {
            proof {
                assert forall|i: int| 0 <= i < reqs.len() implies 0 <= #[trigger] reqs[i] < inst.n_reqs by {}
                assert forall|u: int, j: int|
                    0 <= u < routes_view(&routes).len() && 0 <= j < routes_view(&routes)[u].len() implies #[trigger] routes_view(&routes)[u][j] < inst.num_nodes() by {
                    lemma_assigned_in_range(inst, reqs, owner, u, req as int);
                }
                assert(nodes_in_range(inst, routes_view(&routes)));
                assert(routes_view(&routes) =~= routes_after(inst, reqs, owner, nv as int, req as int));
                assert(reqs[req as int] == req);
            }
            proof {
                assert forall|u: int| 0 <= u < nv implies #[trigger] loads@[u] <= req * 18446744073709551616 by {
                    lemma_vehicle_load_bound(inst, reqs, owner, u, req as int);
                }
            }
            let ghost fits = trial_fits(inst, reqs, owner, nv as int, req as int);
            let ghost objs = trial_objectives(inst, reqs, owner, nv as int, req as int);
            let demand = inst.demands[req] as u128;
            let mut best_vehicle: Option<usize> = None;
            let mut best_score: u128 = 0;
            let mut k: usize = 0;
            while k < nv
                invariant
                    inst.wf(),
                    inst == self.instance,
                    n == inst.n_reqs,
                    nv == routes@.len(),
                    nv <= MAX_VEHICLES,
                    nv == loads@.len(),
                    cap == inst.cap,
                    req < m <= n,
                    reqs == first_requests(m as int),
                    reqs[req as int] == req,
                    owner.len() == req,
                    nodes_in_range(inst, routes_view(&routes)),
                    routes_view(&routes) == routes_after(inst, reqs, owner, nv as int, req as int),
                    fits == trial_fits(inst, reqs, owner, nv as int, req as int),
                    objs == trial_objectives(inst, reqs, owner, nv as int, req as int),
                    forall|u: int| 0 <= u < nv ==> #[trigger] loads@[u] == vehicle_load(inst, reqs, owner, u, req as int),
                    forall|u: int| 0 <= u < nv ==> #[trigger] loads@[u] <= req * 18446744073709551616,
                    demand == inst.demand(req as int),
                    k <= nv,
                    best_vehicle is Some ==> best_vehicle->0 < k && best_score == objs[best_vehicle->0 as int],
                    best_from(fits, objs, 0, -1) == best_from(
                        fits,
                        objs,
                        k as int,
                        match best_vehicle {
                            Some(b) => b as int,
                            None => -1,
                        },
                    ),
                decreases nv - k,
            {
                proof {
                    assert(req * 18446744073709551616 + 18446744073709551616 <= MAX_REQS * 18446744073709551616 + 18446744073709551616) by (nonlinear_arith)
                        requires req < MAX_REQS;
                    lemma_assigned_len(inst, reqs, owner, k as int, req as int);
                    assert(routes_view(&routes)[k as int] == routes@[k as int]@);
                }
                if loads[k] + demand <= cap {
                    let test_routes = append_request(inst, &routes, k, req);
                    proof {
                        let tv = routes_view(&test_routes);
                        assert(tv =~= trial_routes(inst, reqs, owner, nv as int, req as int, k as int));
                        assert forall|u: int, j: int| 0 <= u < tv.len() && 0 <= j < tv[u].len() implies #[trigger] tv[u][j] < inst.num_nodes() by {
                            if u != k {
                                assert(tv[u] == routes_view(&routes)[u]);
                            } else {
                                let old_r = routes_view(&routes)[u];
                                if j < old_r.len() {
                                    assert(tv[u][j] == old_r[j]);
                                }
                            }
                        }
                    }
                    let cand = Solution { instance: inst, routes: test_routes };
                    if cand.within_limits() {
                        let score = cand.objective_function_value();
                        if best_vehicle.is_none() || score < best_score {
                            best_vehicle = Some(k);
                            best_score = score;
                        }
                    }
                }
                k += 1;
            }
            let vehicle = match best_vehicle {
                Some(k) => k,
                None => least_loaded(&loads),
            };
            proof {
                assert(as_ints(loads@) =~= vehicle_loads(inst, reqs, owner, nv as int, req as int));
                assert(vehicle == greedy_choice(inst, reqs, owner, nv as int, req as int));
                lemma_assigned_len(inst, reqs, owner, vehicle as int, req as int);
                assert(routes_view(&routes)[vehicle as int] == routes@[vehicle as int]@);
            }
            routes = append_request(inst, &routes, vehicle, req);
            proof {
                let new_owner = owner.push(vehicle as int);
                assert forall|u: int| 0 <= u < nv implies #[trigger] routes_view(&routes)[u] == assigned_stops(inst, reqs, new_owner, u, req + 1) by {
                    lemma_assigned_prefix(inst, reqs, owner, vehicle as int, u, req as int);
                }
                assert forall|i: int| 0 <= i < new_owner.len() implies #[trigger] new_owner[i] == greedy_choice(inst, reqs, new_owner, nv as int, i) by {
                    lemma_greedy_prefix(inst, reqs, owner, vehicle as int, nv as int, i);
                    if i < owner.len() {
                        assert(new_owner[i] == owner[i]);
                    }
                }
                assert forall|u: int| 0 <= u < nv implies vehicle_load(inst, reqs, new_owner, u, req as int) == vehicle_load(inst, reqs, owner, u, req as int) by {
                    lemma_vehicle_load_prefix(inst, reqs, owner, vehicle as int, u, req as int);
                }
                assert(req * 18446744073709551616 + 18446744073709551616 == (req + 1) * 18446744073709551616) by (nonlinear_arith);
                owner = new_owner;
            }
            loads.set(vehicle, loads[vehicle] + demand);
            req += 1;
        }
        proof {
            assert forall|u: int, j: int|
                0 <= u < routes_view(&routes).len() && 0 <= j < routes_view(&routes)[u].len() implies #[trigger] routes_view(&routes)[u][j] < inst.num_nodes() by {
                lemma_assigned_in_range(inst, reqs, owner, u, m as int);
            }
            assert(built_from(inst, routes_view(&routes), reqs, owner));
            assert(reqs == first_requests(inst.target_count()));
            assert(forall|t: int| 0 <= t < owner.len() ==> #[trigger] owner[t] == greedy_choice(inst, reqs, owner, nv as int, t));
            let r = Solution { instance: inst, routes };
            assert(built_from(self.instance, r.rs(), first_requests(self.instance.target_count()), owner) && forall|t: int|
                0 <= t < owner.len() ==> #[trigger] owner[t] == greedy_choice(
                    self.instance,
                    first_requests(self.instance.target_count()),
                    owner,
                    self.instance.n_vehicles as int,
                    t,
                ));
            assert(greedy_construction(inst, r.rs()));
        }
        Solution { instance: inst, routes }
    }

}

/// Numerator of a request's utility: its demand.
pub open spec fn utility_num(inst: &Instance, q: int) -> int {
    inst.demand(q)
}

/// Denominator of a request's utility: the round trip depot, pickup,
/// dropoff, depot; one where that trip costs nothing.
pub open spec fn utility_den(inst: &Instance, q: int) -> int {
    let p = inst.pickup_node(q);
    let d = inst.dropoff_node(q);
    let trip = inst.d(0, p) + inst.d(p, d) + inst.d(d, 0);
    if trip > 0 {
        trip as int
    } else {
        1
    }
}

/// Request `a` ranks before request `b`: higher utility, or equal utility
/// and a lower index.
pub open spec fn ranks_before(inst: &Instance, a: int, b: int) -> bool {
    let x = utility_num(inst, a) * utility_den(inst, b);
    let y = utility_num(inst, b) * utility_den(inst, a);
    x > y || (x == y && a < b)
}

proof fn lemma_cross_transitive(a1: int, a2: int, b1: int, b2: int, c1: int, c2: int)
    requires
        a2 > 0,
        b2 > 0,
        c2 > 0,
        a1 * b2 >= b1 * a2,
        b1 * c2 >= c1 * b2,
    ensures
        a1 * c2 >= c1 * a2,
        (a1 * b2 > b1 * a2 || b1 * c2 > c1 * b2) ==> a1 * c2 > c1 * a2,
{
    assert(a1 * b2 * c2 >= b1 * a2 * c2) by (nonlinear_arith)
        requires a1 * b2 >= b1 * a2, c2 > 0;
    assert(b1 * c2 * a2 >= c1 * b2 * a2) by (nonlinear_arith)
        requires b1 * c2 >= c1 * b2, a2 > 0;
    assert(a1 * c2 * b2 >= c1 * a2 * b2) by (nonlinear_arith)
        requires a1 * b2 * c2 >= b1 * a2 * c2, b1 * c2 * a2 >= c1 * b2 * a2;
    assert(a1 * c2 >= c1 * a2) by (nonlinear_arith)
        requires a1 * c2 * b2 >= c1 * a2 * b2, b2 > 0;
    if a1 * b2 > b1 * a2 {
        assert(a1 * b2 * c2 > b1 * a2 * c2) by (nonlinear_arith)
            requires a1 * b2 > b1 * a2, c2 > 0;
        assert(a1 * c2 * b2 > c1 * a2 * b2) by (nonlinear_arith)
            requires a1 * b2 * c2 > b1 * a2 * c2, b1 * c2 * a2 >= c1 * b2 * a2;
        assert(a1 * c2 > c1 * a2) by (nonlinear_arith)
            requires a1 * c2 * b2 > c1 * a2 * b2, b2 > 0;
    }
    if b1 * c2 > c1 * b2 {
        assert(b1 * c2 * a2 > c1 * b2 * a2) by (nonlinear_arith)
            requires b1 * c2 > c1 * b2, a2 > 0;
        assert(a1 * c2 * b2 > c1 * a2 * b2) by (nonlinear_arith)
            requires a1 * b2 * c2 >= b1 * a2 * c2, b1 * c2 * a2 > c1 * b2 * a2;
        assert(a1 * c2 > c1 * a2) by (nonlinear_arith)
            requires a1 * c2 * b2 > c1 * a2 * b2, b2 > 0;
    }
}

proof fn lemma_ranks_transitive(inst: &Instance, a: int, b: int, c: int)
    requires
        ranks_before(inst, a, b),
        ranks_before(inst, b, c),
    ensures
        ranks_before(inst, a, c),
{
    lemma_cross_transitive(
        utility_num(inst, a),
        utility_den(inst, a),
        utility_num(inst, b),
        utility_den(inst, b),
        utility_num(inst, c),
        utility_den(inst, c),
    );
}

proof fn lemma_ranks_total(inst: &Instance, a: int, b: int)
    requires
        a != b,
    ensures
        ranks_before(inst, a, b) || ranks_before(inst, b, a),
        !(ranks_before(inst, a, b) && ranks_before(inst, b, a)),
{
}

impl<'a> DeterministicConstruction<'a> {
    /// The utility of each request as a fraction `(demand, trip)`.
    pub fn compute_utility(&self) -> (r: Vec<(u128, u128)>)
        requires
            self.instance.wf(),
        ensures
            r@.len() == self.instance.n_reqs,
            forall|q: int|
                0 <= q < r@.len() ==> (#[trigger] r@[q]).0 == utility_num(self.instance, q) && r@[q].1 == utility_den(
                    self.instance,
                    q,
                ),
    {
        let inst = self.instance;
        let n = inst.n_reqs;
        let mut out: Vec<(u128, u128)> = Vec::new();
        let mut q: usize = 0;
        while q < n
            invariant
                inst == self.instance,
                inst.wf(),
                n == inst.n_reqs,
                q <= n,
                out@.len() == q,
                forall|k: int|
                    0 <= k < q ==> (#[trigger] out@[k]).0 == utility_num(inst, k) && out@[k].1 == utility_den(inst, k),
            decreases n - q,
        {
            let p = q + 1;
            let d = q + 1 + n;
            let trip = inst.distance(0, p) as u128 + inst.distance(p, d) as u128 + inst.distance(d, 0) as u128;
            let den: u128 = if trip > 0 { trip } else { 1 };
            out.push((inst.demands[q] as u128, den));
            q += 1;
        }
        out
    }

    /// The `min(gamma, n)` requests of highest utility, best first.
    pub fn top_requests(&self) -> (r: Vec<usize>)
        requires
            self.instance.wf(),
        ensures
            r@.len() == self.instance.target_count(),
            r@.no_duplicates(),
            forall|i: int| 0 <= i < r@.len() ==> #[trigger] r@[i] < self.instance.n_reqs,
            forall|i: int, k: int| 0 <= i < k < r@.len() ==> ranks_before(self.instance, #[trigger] r@[i] as int, #[trigger] r@[k] as int),
            forall|i: int, u: usize|
                #![trigger r@[i], r@.contains(u)]
                0 <= i < r@.len() && u < self.instance.n_reqs && !r@.contains(u) ==> ranks_before(
                    self.instance,
                    r@[i] as int,
                    u as int,
                ),
    {
        let inst = self.instance;
        let n = inst.n_reqs;
        let m = if inst.gamma < n { inst.gamma } else { n };
        let util = self.compute_utility();
        let mut chosen: Vec<bool> = Vec::new();
        let mut q: usize = 0;
        while q < n
            invariant
                q <= n,
                chosen@.len() == q,
                forall|k: int| 0 <= k < q ==> !#[trigger] chosen@[k],
            decreases n - q,
        {
            chosen.push(false);
            q += 1;
        }
        let mut order: Vec<usize> = Vec::new();
        proof {
            lemma_count_true_none(chosen@);
        }
        while order.len() < m
            invariant
                inst == self.instance,
                inst.wf(),
                n == inst.n_reqs,
                m == inst.target_count(),
                m <= n,
                chosen@.len() == n,
                util@.len() == n,
                forall|k: int|
                    0 <= k < n ==> (#[trigger] util@[k]).0 == utility_num(inst, k) && util@[k].1 == utility_den(inst, k),
                order@.len() <= m,
                order@.no_duplicates(),
                count_true(chosen@) == order@.len(),
                forall|i: int| 0 <= i < order@.len() ==> #[trigger] order@[i] < n,
                forall|u: int| 0 <= u < n ==> (#[trigger] chosen@[u] <==> order@.contains(u as usize)),
                forall|i: int, k: int| 0 <= i < k < order@.len() ==> ranks_before(inst, #[trigger] order@[i] as int, #[trigger] order@[k] as int),
                forall|i: int, u: usize|
                    #![trigger order@[i], order@.contains(u)]
                    0 <= i < order@.len() && u < n && !order@.contains(u) ==> ranks_before(inst, order@[i] as int, u as int),
            decreases m - order@.len(),
        {
            let mut best: usize = n;
            let mut j: usize = 0;
            while j < n
                invariant
                    inst == self.instance,
                    inst.wf(),
                    n == inst.n_reqs,
                    chosen@.len() == n,
                    util@.len() == n,
                    forall|k: int|
                        0 <= k < n ==> (#[trigger] util@[k]).0 == utility_num(inst, k) && util@[k].1 == utility_den(inst, k),
                    j <= n,
                    best == n || (best < j && !chosen@[best as int]),
                    best == n ==> forall|u: int| 0 <= u < j ==> #[trigger] chosen@[u],
                    best < n ==> forall|u: int| 0 <= u < j && !#[trigger] chosen@[u] && u != best ==> ranks_before(inst, best as int, u),
                decreases n - j,
            {
                if !chosen[j] {
                    let better = if best == n {
                        true
                    } else {
                        let (nj, dj) = util[j];
                        let (nb, db) = util[best];
                        proof {
                            assert(nj * db <= 18446744073709551615 * (3 * 4294967295 + 1)) by (nonlinear_arith)
                                requires nj <= 18446744073709551615, db <= 3 * 4294967295 + 1;
                            assert(nb * dj <= 18446744073709551615 * (3 * 4294967295 + 1)) by (nonlinear_arith)
                                requires nb <= 18446744073709551615, dj <= 3 * 4294967295 + 1;
                        }
                        nj * db > nb * dj
                    };
                    if better {
                        proof {
                            if best < n {
                                assert(ranks_before(inst, j as int, best as int));
                                assert forall|u: int| 0 <= u < j + 1 && !#[trigger] chosen@[u] && u != j implies ranks_before(inst, j as int, u) by {
                                    if u != best {
                                        lemma_ranks_transitive(inst, j as int, best as int, u);
                                    }
                                }
                            }
                        }
                        best = j;
                    } else {
                        proof {
                            if best < n {
                                lemma_ranks_total(inst, best as int, j as int);
                            }
                        }
                    }
                }
                j += 1;
            }
            proof {
                // fewer than `m <= n` requests are chosen, so one is left
                if best == n {
                    lemma_count_true_all(chosen@);
                }
            }
            let ghost old_order = order@;
            proof {
                lemma_count_true_set(chosen@, best as int);
            }
            order.push(best);
            chosen.set(best, true);
            proof {
                assert(!old_order.contains(best));
                assert forall|u: int| 0 <= u < n implies (#[trigger] chosen@[u] <==> order@.contains(u as usize)) by {
                    if u == best {
                        assert(order@[order@.len() - 1] == best);
                    } else {
                        if order@.contains(u as usize) {
                            let w = choose|w: int| 0 <= w < order@.len() && order@[w] == u as usize;
                            assert(w < old_order.len());
                            assert(old_order[w] == u as usize);
                        }
                        if old_order.contains(u as usize) {
                            let w = choose|w: int| 0 <= w < old_order.len() && old_order[w] == u as usize;
                            assert(order@[w] == u as usize);
                        }
                    }
                }
                assert forall|i: int, u: usize|
                    #![trigger order@[i], order@.contains(u)]
                    0 <= i < order@.len() && u < n && !order@.contains(u) implies ranks_before(inst, order@[i] as int, u as int) by {
                    assert(!chosen@[u as int]);
                    if i < old_order.len() {
                        assert(order@[i] == old_order[i]);
                        assert(!old_order.contains(u)) by {
                            if old_order.contains(u) {
                                let w = choose|w: int| 0 <= w < old_order.len() && old_order[w] == u;
                                assert(order@[w] == u);
                            }
                        }
                    } else {
                        assert(u != best);
                    }
                }
                assert forall|i: int, k: int| 0 <= i < k < order@.len() implies ranks_before(inst, #[trigger] order@[i] as int, #[trigger] order@[k] as int) by {
                    if k == order@.len() - 1 {
                        assert(order@[i] == old_order[i]);
                    }
                }
            }
        }
        order
    }
}

/// Load handed to vehicle `v` by the first `t` requests of `reqs`.
pub open spec fn vehicle_load(inst: &Instance, reqs: Seq<int>, owner: Seq<int>, v: int, t: int) -> int
    decreases t,
{
    if t <= 0 {
        0
    } else {
        vehicle_load(inst, reqs, owner, v, t - 1) + if owner[t - 1] == v {
            inst.demand(reqs[t - 1])
        } else {
            0
        }
    }
}

/// Vehicle `v` has room for request `t` of `reqs` after the requests before it.
pub open spec fn has_room(inst: &Instance, reqs: Seq<int>, owner: Seq<int>, v: int, t: int) -> bool {
    vehicle_load(inst, reqs, owner, v, t) + inst.demand(reqs[t]) <= inst.cap
}

/// The first vehicle from `v` on with room for request `t`, or `-1`.
pub open spec fn first_with_room(inst: &Instance, reqs: Seq<int>, owner: Seq<int>, nv: int, v: int, t: int) -> int
    decreases nv - v,
{
    if v >= nv {
        -1
    } else if has_room(inst, reqs, owner, v, t) {
        v
    } else {
        first_with_room(inst, reqs, owner, nv, v + 1, t)
    }
}

/// Round robin: request `t` goes to vehicle `t % nv` where it has room, else
/// to the first vehicle with room, else nowhere.
pub open spec fn round_robin_choice(inst: &Instance, reqs: Seq<int>, owner: Seq<int>, nv: int, t: int) -> int {
    if has_room(inst, reqs, owner, t % nv, t) {
        t % nv
    } else {
        first_with_room(inst, reqs, owner, nv, 0, t)
    }
}

/// The requests in `reqs` are the `min(gamma, n)` of highest utility, best first.
pub open spec fn top_by_utility(inst: &Instance, reqs: Seq<int>) -> bool {
    &&& reqs.len() == inst.target_count()
    &&& reqs.no_duplicates()
    &&& forall|i: int| 0 <= i < reqs.len() ==> 0 <= #[trigger] reqs[i] < inst.n_reqs
    &&& forall|i: int, k: int| 0 <= i < k < reqs.len() ==> ranks_before(inst, #[trigger] reqs[i], #[trigger] reqs[k])
    &&& forall|i: int, u: int|
        #![trigger reqs[i], reqs.contains(u)]
        0 <= i < reqs.len() && 0 <= u < inst.n_reqs && !reqs.contains(u) ==> ranks_before(inst, reqs[i], u)
}

proof fn lemma_vehicle_load_prefix(inst: &Instance, reqs: Seq<int>, owner: Seq<int>, w: int, v: int, t: int)
    requires
        0 <= t <= owner.len(),
    ensures
        vehicle_load(inst, reqs, owner.push(w), v, t) == vehicle_load(inst, reqs, owner, v, t),
    decreases t,
{
    if t > 0 {
        lemma_vehicle_load_prefix(inst, reqs, owner, w, v, t - 1);
        assert(owner.push(w)[t - 1] == owner[t - 1]);
    }
}

proof fn lemma_first_with_room_skip(inst: &Instance, reqs: Seq<int>, owner: Seq<int>, nv: int, v: int, t: int)
    requires
        0 <= v <= nv,
        forall|u: int| 0 <= u < v ==> !#[trigger] has_room(inst, reqs, owner, u, t),
    ensures
        first_with_room(inst, reqs, owner, nv, 0, t) == first_with_room(inst, reqs, owner, nv, v, t),
    decreases v,
{
    if v > 0 {
        lemma_first_with_room_skip(inst, reqs, owner, nv, v - 1, t);
        assert(!has_room(inst, reqs, owner, v - 1, t));
    }
}

impl<'a> DeterministicConstruction<'a> {
    /// Ranks the requests by utility, demand over round-trip distance, and
    /// hands the best `min(gamma, n)` out round robin: each to the next
    /// vehicle in turn where it has room, else to the first vehicle with
    /// room, else to none.
    pub fn utility_based_construction(&self) -> (r: Solution<'a>)
        requires
            self.instance.wf(),
        ensures
            r.wf(),
            r.instance == self.instance,
            r.rs().len() == self.instance.n_vehicles,
            self.instance.n_vehicles > 0 ==> exists|reqs: Seq<int>, owner: Seq<int>|
                #[trigger] handed_out(self.instance, r.rs(), reqs, owner) && top_by_utility(self.instance, reqs)
                    && forall|t: int|
                    0 <= t < owner.len() ==> #[trigger] owner[t] == round_robin_choice(
                        self.instance,
                        reqs,
                        owner,
                        self.instance.n_vehicles as int,
                        t,
                    ),
    {
        let inst = self.instance;
        let nv = inst.n_vehicles;
        let cap = inst.cap as u128;
        let order = self.top_requests();
        let ghost reqs = order@.map_values(|x: usize| x as int);
        let mut routes: Vec<Vec<usize>> = Vec::new();
        let mut loads: Vec<u128> = Vec::new();
        let mut v: usize = 0;
        while v < nv
            invariant
                v <= nv,
                routes@.len() == v,
                loads@.len() == v,
                forall|u: int| 0 <= u < v ==> #[trigger] routes@[u]@ == Seq::<usize>::empty(),
                forall|u: int| 0 <= u < v ==> #[trigger] loads@[u] == 0,
            decreases nv - v,
        {
            routes.push(Vec::new());
            loads.push(0);
            v += 1;
        }
        if nv == 0 {
            assert(routes_view(&routes) =~= Seq::empty());
            return Solution { instance: inst, routes };
        }
        proof {
            assert forall|i: int| 0 <= i < reqs.len() implies 0 <= #[trigger] reqs[i] < inst.n_reqs by {
                assert(reqs[i] == order@[i]);
            }
        }
        let ghost mut owner: Seq<int> = Seq::empty();
        let mut t: usize = 0;
        while t < order.len()
            invariant
                inst == self.instance,
                inst.wf(),
                nv == inst.n_vehicles,
                0 < nv <= MAX_VEHICLES,
                cap == inst.cap,
                reqs == order@.map_values(|x: usize| x as int),
                order@.len() <= MAX_REQS,
                forall|i: int| 0 <= i < reqs.len() ==> 0 <= #[trigger] reqs[i] < inst.n_reqs,
                forall|i: int| 0 <= i < order@.len() ==> #[trigger] order@[i] < inst.n_reqs,
                t <= order@.len(),
                owner.len() == t,
                routes@.len() == nv,
                loads@.len() == nv,
                forall|i: int| 0 <= i < owner.len() ==> #[trigger] owner[i] < nv,
                forall|i: int| 0 <= i < owner.len() ==> #[trigger] owner[i] == round_robin_choice(inst, reqs, owner, nv as int, i),
                forall|u: int| 0 <= u < nv ==> #[trigger] routes_view(&routes)[u] == assigned_stops(inst, reqs, owner, u, t as int),
                forall|u: int| 0 <= u < nv ==> #[trigger] loads@[u] == vehicle_load(inst, reqs, owner, u, t as int),
                forall|u: int| 0 <= u < nv ==> #[trigger] loads@[u] <= cap,
            decreases order@.len() - t,
        {
            let req = order[t];
            assert(reqs[t as int] == req);
            let demand = inst.demands[req] as u128;
            let rr = t % nv;
            let mut chosen: Option<usize> = None;
            if loads[rr] + demand <= cap {
                chosen = Some(rr);
            } else {
                let mut w: usize = 0;
                while w < nv && chosen.is_none()
                    invariant
                        inst == self.instance,
                        nv == inst.n_vehicles,
                        loads@.len() == nv,
                        t < reqs.len(),
                        reqs[t as int] == req,
                        demand == inst.demand(req as int),
                        cap == inst.cap,
                        forall|u: int| 0 <= u < nv ==> #[trigger] loads@[u] == vehicle_load(inst, reqs, owner, u, t as int),
                        forall|u: int| 0 <= u < nv ==> #[trigger] loads@[u] <= cap,
                        w <= nv,
                        chosen is None ==> forall|u: int| 0 <= u < w ==> !#[trigger] has_room(inst, reqs, owner, u, t as int),
                        chosen is Some ==> chosen->0 == w && w < nv && has_room(inst, reqs, owner, w as int, t as int)
                            && forall|u: int| 0 <= u < w ==> !#[trigger] has_room(inst, reqs, owner, u, t as int),
                    decreases nv - w + (if chosen is None { 1int } else { 0int }),
                {
                    if loads[w] + demand <= cap {
                        chosen = Some(w);
                    } else {
                        w += 1;
                    }
                }
                proof {
                    lemma_first_with_room_skip(inst, reqs, owner, nv as int, w as int, t as int);
                }
            }
            let ghost pick: int = match chosen {
                Some(c) => c as int,
                None => -1,
            };
            assert(pick == round_robin_choice(inst, reqs, owner, nv as int, t as int));
            match chosen {
                Some(c) => {
                    proof {
                        lemma_assigned_len(inst, reqs, owner, c as int, t as int);
                        assert(routes_view(&routes)[c as int] == routes@[c as int]@);
                    }
                    routes = append_request(inst, &routes, c, req);
                    loads.set(c, loads[c] + demand);
                },
                None => {},
            }
            proof {
                let new_owner = owner.push(pick);
                assert forall|u: int| 0 <= u < nv implies #[trigger] routes_view(&routes)[u] == assigned_stops(inst, reqs, new_owner, u, t + 1) by {
                    lemma_assigned_prefix(inst, reqs, owner, pick, u, t as int);
                }
                assert forall|u: int| 0 <= u < nv implies #[trigger] loads@[u] == vehicle_load(inst, reqs, new_owner, u, t + 1) by {
                    lemma_vehicle_load_prefix(inst, reqs, owner, pick, u, t as int);
                }
                assert forall|i: int| 0 <= i < new_owner.len() implies #[trigger] new_owner[i] == round_robin_choice(inst, reqs, new_owner, nv as int, i) by {
                    assert forall|u: int| 0 <= u < nv implies #[trigger] vehicle_load(inst, reqs, new_owner, u, i) == vehicle_load(inst, reqs, owner, u, i) by {
                        lemma_vehicle_load_prefix(inst, reqs, owner, pick, u, i);
                    }
                    lemma_round_robin_prefix(inst, reqs, owner, pick, nv as int, i);
                    if i < owner.len() {
                        assert(new_owner[i] == owner[i]);
                    }
                }
                owner = new_owner;
            }
            t += 1;
        }
        proof {
            assert forall|u: int, j: int|
                0 <= u < routes_view(&routes).len() && 0 <= j < routes_view(&routes)[u].len() implies #[trigger] routes_view(&routes)[u][j] < inst.num_nodes() by {
                lemma_assigned_in_range(inst, reqs, owner, u, reqs.len() as int);
            }
            assert(handed_out(inst, routes_view(&routes), reqs, owner));
            assert(reqs.len() == order@.len());
            assert forall|i: int, k: int| 0 <= i < k < reqs.len() implies ranks_before(inst, #[trigger] reqs[i], #[trigger] reqs[k]) by {
                assert(reqs[i] == order@[i] as int);
                assert(reqs[k] == order@[k] as int);
            }
            assert forall|a: int, b: int| 0 <= a < reqs.len() && 0 <= b < reqs.len() && a != b implies reqs[a] != reqs[b] by {
                assert(order@[a] != order@[b]);
            }
            assert forall|i: int, u: int|
                #![trigger reqs[i], reqs.contains(u)]
                0 <= i < reqs.len() && 0 <= u < inst.n_reqs && !reqs.contains(u) implies ranks_before(inst, reqs[i], u) by {
                if order@.contains(u as usize) {
                    let w = choose|w: int| 0 <= w < order@.len() && order@[w] == u as usize;
                    assert(reqs[w] == u);
                }
                assert(!order@.contains(u as usize));
                assert(reqs[i] == order@[i] as int);
            }
            assert(top_by_utility(inst, reqs));
        }
        Solution { instance: inst, routes }
    }
}

proof fn lemma_round_robin_prefix(inst: &Instance, reqs: Seq<int>, owner: Seq<int>, w: int, nv: int, i: int)
    requires
        0 <= i <= owner.len(),
        nv > 0,
    ensures
        round_robin_choice(inst, reqs, owner.push(w), nv, i) == round_robin_choice(inst, reqs, owner, nv, i),
{
    assert forall|u: int| #[trigger] has_room(inst, reqs, owner.push(w), u, i) == has_room(inst, reqs, owner, u, i) by {
        lemma_vehicle_load_prefix(inst, reqs, owner, w, u, i);
    }
    lemma_first_with_room_same(inst, reqs, owner, owner.push(w), nv, 0, i);
}

proof fn lemma_first_with_room_same(inst: &Instance, reqs: Seq<int>, o1: Seq<int>, o2: Seq<int>, nv: int, v: int, t: int)
    requires
        forall|u: int| #[trigger] has_room(inst, reqs, o1, u, t) == has_room(inst, reqs, o2, u, t),
    ensures
        first_with_room(inst, reqs, o1, nv, v, t) == first_with_room(inst, reqs, o2, nv, v, t),
    decreases nv - v,
{
    if v < nv {
        lemma_first_with_room_same(inst, reqs, o1, o2, nv, v + 1, t);
        assert(has_room(inst, reqs, o1, v, t) == has_room(inst, reqs, o2, v, t));
    }
}

impl<'a> Solver<'a> for DeterministicConstruction<'a> {
    open spec fn problem(&self) -> &'a Instance {
        self.instance
    }

    /// The greedy construction.
    open spec fn solves(&self, r: Solution<'a>) -> bool {
        greedy_construction(self.instance, r.rs())
    }

    fn solve(&self) -> (r: Solution<'a>) {
        self.construct_solution()
    }
}

} // verus!
