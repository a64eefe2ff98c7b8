use vstd::prelude::*;
use rand::seq::SliceRandom;
use rand::Rng;
use crate::deterministic::{
    append_request, assigned_stops, built_from, lemma_assigned_in_range, lemma_assigned_len, lemma_assigned_prefix,
};
use crate::evaluation::routes_view;
use crate::instance::{Instance, MAX_REQS, MAX_VEHICLES};
use crate::moves::{capacity_ok, check_route_capacity, copy_route};
use crate::solution::Solution;
use crate::solver::Solver;

verus! {

/// Relies on rand's `SliceRandom::shuffle`, driven by `rand::thread_rng`:
/// it only swaps elements, so the result is a permutation of the input.
#[verifier::external_body]
pub(crate) fn shuffle_indices(v: &mut Vec<usize>)
    ensures
        final(v)@.to_multiset() == old(v)@.to_multiset(),
{
    v.shuffle(&mut rand::thread_rng());
}

/// Relies on rand's `Rng::gen_range`, driven by `rand::thread_rng`: a value
/// in `0..n`, which must not be empty.
#[verifier::external_body]
pub(crate) fn random_below(n: usize) -> (r: usize)
    requires
        n > 0,
    ensures
        r < n,
{
    rand::thread_rng().gen_range(0..n)
}

/// `0..n` in a random order.
pub fn shuffled_range(n: usize) -> (r: Vec<usize>)
    ensures
        r@.len() == n,
        r@.no_duplicates(),
        forall|k: int| 0 <= k < r@.len() ==> #[trigger] r@[k] < n,
        forall|i: usize| i < n ==> #[trigger] r@.contains(i),
{
    let mut v: Vec<usize> = Vec::new();
    let mut i: usize = 0;
    while i < n
        invariant
            i <= n,
            v@.len() == i,
            forall|k: int| 0 <= k < i ==> #[trigger] v@[k] == k,
        decreases n - i,
    {
        v.push(i);
        i += 1;
    }
    let ghost before = v@;
    assert(before.no_duplicates());
    shuffle_indices(&mut v);
    proof {
        broadcast use vstd::seq_lib::group_to_multiset_ensures;

        before.lemma_multiset_has_no_duplicates();
        assert(v@.to_multiset() == before.to_multiset());
        v@.lemma_multiset_has_no_duplicates_conv();
        assert(v@.to_multiset().len() == before.to_multiset().len());
        assert forall|k: int| 0 <= k < v@.len() implies #[trigger] v@[k] < n by {
            assert(v@.contains(v@[k]));
            assert(v@.to_multiset().count(v@[k]) > 0);
            assert(before.contains(v@[k]));
        }
        assert forall|i: usize| i < n implies #[trigger] v@.contains(i) by {
            assert(before[i as int] == i);
            assert(before.contains(i));
            assert(before.to_multiset().count(i) > 0);
        }
    }
    v
}

/// Request indices as integers.
pub open spec fn as_requests(s: Seq<usize>) -> Seq<int> {
    s.map_values(|x: usize| x as int)
}

/// Where a route can take a request: appending its pickup and its dropoff
/// keeps every prefix load at most `cap`.
pub open spec fn can_take(inst: &Instance, r: Seq<usize>, q: int) -> bool {
    capacity_ok(inst, r.push(inst.pickup_node(q) as usize).push(inst.dropoff_node(q) as usize))
}

/// Vehicle `v` can take request `t` of `reqs` after the requests before it.
pub open spec fn vehicle_can_take(inst: &Instance, reqs: Seq<int>, owner: Seq<int>, v: int, t: int) -> bool {
    can_take(inst, assigned_stops(inst, reqs, owner, v, t), reqs[t])
}

/// Scanning the vehicles from `v` down to the first: the first that can take
/// request `t`; the last vehicle where none can.
pub open spec fn downward_choice(inst: &Instance, reqs: Seq<int>, owner: Seq<int>, nv: int, v: int, t: int) -> int
    decreases v + 1,
{
    if v < 0 {
        nv - 1
    } else if vehicle_can_take(inst, reqs, owner, v, t) {
        v
    } else {
        downward_choice(inst, reqs, owner, nv, v - 1, t)
    }
}

/// How the requests were handed out: each to a vehicle that can take it
/// where any can, and in the biased mode to the first that can, from the
/// last vehicle down, or else the last vehicle.
pub open spec fn assignment_rule(inst: &Instance, reqs: Seq<int>, owner: Seq<int>, nv: int, biased: bool) -> bool {
    &&& forall|t: int|
        0 <= t < owner.len() ==> vehicle_can_take(inst, reqs, owner, #[trigger] owner[t], t) || forall|v: int|
            0 <= v < nv ==> !#[trigger] vehicle_can_take(inst, reqs, owner, v, t)
    &&& biased ==> forall|t: int| 0 <= t < owner.len() ==> #[trigger] owner[t] == downward_choice(inst, reqs, owner, nv, nv - 1, t)
}

proof fn lemma_can_take_prefix(inst: &Instance, reqs: Seq<int>, owner: Seq<int>, w: int, nv: int, t: int)
    requires
        0 <= t <= owner.len(),
    ensures
        forall|v: int| #[trigger] vehicle_can_take(inst, reqs, owner.push(w), v, t) == vehicle_can_take(inst, reqs, owner, v, t),
        forall|v: int| #[trigger] downward_choice(inst, reqs, owner.push(w), nv, v, t) == downward_choice(inst, reqs, owner, nv, v, t),
{
    assert forall|v: int| #[trigger] vehicle_can_take(inst, reqs, owner.push(w), v, t) == vehicle_can_take(inst, reqs, owner, v, t) by {
        lemma_assigned_prefix(inst, reqs, owner, w, v, t);
    }
    assert forall|v: int| #[trigger] downward_choice(inst, reqs, owner.push(w), nv, v, t) == downward_choice(inst, reqs, owner, nv, v, t) by {
        lemma_downward_same(inst, reqs, owner, owner.push(w), nv, v, t);
    }
}

proof fn lemma_downward_same(inst: &Instance, reqs: Seq<int>, o1: Seq<int>, o2: Seq<int>, nv: int, v: int, t: int)
    requires
        forall|u: int| #[trigger] vehicle_can_take(inst, reqs, o1, u, t) == vehicle_can_take(inst, reqs, o2, u, t),
    ensures
        downward_choice(inst, reqs, o1, nv, v, t) == downward_choice(inst, reqs, o2, nv, v, t),
    decreases v + 1,
{
    if v >= 0 {
        lemma_downward_same(inst, reqs, o1, o2, nv, v - 1, t);
        assert(vehicle_can_take(inst, reqs, o1, v, t) == vehicle_can_take(inst, reqs, o2, v, t));
    }
}

proof fn lemma_downward_skip(inst: &Instance, reqs: Seq<int>, owner: Seq<int>, nv: int, k: int, t: int)
    requires
        0 <= k <= nv,
        forall|j: int| 0 <= j < k ==> !#[trigger] vehicle_can_take(inst, reqs, owner, nv - 1 - j, t),
    ensures
        downward_choice(inst, reqs, owner, nv, nv - 1, t) == downward_choice(inst, reqs, owner, nv, nv - 1 - k, t),
    decreases k,
{
    if k > 0 {
        lemma_downward_skip(inst, reqs, owner, nv, k - 1, t);
        assert(!vehicle_can_take(inst, reqs, owner, nv - 1 - (k - 1), t));
    }
}

/// The routes are a random construction: `min(gamma, n)` distinct requests
/// handed out under `assignment_rule`.
pub open spec fn random_construction(inst: &Instance, rs: Seq<Seq<usize>>, biased: bool) -> bool {
    inst.n_vehicles > 0 ==> exists|reqs: Seq<int>, owner: Seq<int>|
        #[trigger] built_from(inst, rs, reqs, owner) && reqs.len() == inst.target_count() && reqs.no_duplicates() && (
        forall|i: int| 0 <= i < reqs.len() ==> 0 <= #[trigger] reqs[i] < inst.n_reqs) && assignment_rule(
            inst,
            reqs,
            owner,
            inst.n_vehicles as int,
            biased,
        )
}

/// A random selection of `min(gamma, n)` requests, each appended as its
/// pickup directly followed by its dropoff to a vehicle with room for it.
pub struct RandomConstruction<'a> {
    pub instance: &'a Instance,
    /// Whether vehicles are tried in a fixed order, from the last to the
    /// first, rather than in a random order for each request.
    pub biased: bool,
}

impl<'a> RandomConstruction<'a> {
    pub fn new(instance: &'a Instance, biased: bool) -> (r: Self)
        ensures
            r.instance == instance,
            r.biased == biased,
    {
        RandomConstruction { instance, biased }
    }

    /// Whether route `route` can take request `req`.
    pub fn can_assign_request(&self, route: &Vec<usize>, req: usize) -> (r: bool)
        requires
            self.instance.wf(),
            req < self.instance.n_reqs,
            route@.len() + 2 < usize::MAX,
            forall|j: int| 0 <= j < route@.len() ==> #[trigger] route@[j] < self.instance.num_nodes(),
        ensures
            r == can_take(self.instance, route@, req as int),
    {
        let mut test_route = copy_route(route);
        test_route.push(req + 1);
        test_route.push(req + 1 + self.instance.n_reqs);
        proof {
            let t = test_route@;
            assert forall|j: int| 0 <= j < t.len() implies #[trigger] t[j] < self.instance.num_nodes() by {
                if j < route@.len() {
                    assert(t[j] == route@[j]);
                }
            }
        }
        check_route_capacity(self.instance, &test_route)
    }

    /// The order in which vehicles are tried for one request.
    fn vehicle_order(&self, nv: usize) -> (r: Vec<usize>)
        ensures
            r@.len() == nv,
            forall|k: int| 0 <= k < r@.len() ==> #[trigger] r@[k] < nv,
            self.biased ==> forall|k: int| 0 <= k < r@.len() ==> #[trigger] r@[k] == nv - 1 - k,
            forall|v: usize| v < nv ==> #[trigger] r@.contains(v),
    {
        if self.biased {
            let mut order: Vec<usize> = Vec::new();
            let mut k: usize = 0;
            while k < nv
                invariant
                    k <= nv,
                    order@.len() == k,
                    forall|m: int| 0 <= m < k ==> #[trigger] order@[m] == nv - 1 - m,
                decreases nv - k,
            {
                order.push(nv - 1 - k);
                k += 1;
            }
            assert forall|v: usize| v < nv implies #[trigger] order@.contains(v) by {
                assert(order@[nv - 1 - v] == v);
            }
            order
        } else {
            shuffled_range(nv)
        }
    }

    /// Hands the selected requests out in order: each to the first vehicle
    /// of its vehicle order that can take it, or else to the first vehicle of
    /// that order.
    pub fn assign_requests(&self, selected: &Vec<usize>) -> (r: Vec<Vec<usize>>)
        requires
            self.instance.wf(),
            self.instance.n_vehicles > 0,
            selected@.len() <= MAX_REQS,
            forall|k: int| 0 <= k < selected@.len() ==> #[trigger] selected@[k] < self.instance.n_reqs,
        ensures
            r@.len() == self.instance.n_vehicles,
            exists|owner: Seq<int>|
                #[trigger] built_from(self.instance, routes_view(&r), as_requests(selected@), owner) && assignment_rule(
                    self.instance,
                    as_requests(selected@),
                    owner,
                    self.instance.n_vehicles as int,
                    self.biased,
                ),
    {
        let inst = self.instance;
        let nv = inst.n_vehicles;
        let ghost reqs = as_requests(selected@);
        let mut routes: Vec<Vec<usize>> = Vec::new();
        let mut v: usize = 0;
        while v < nv
            invariant
                v <= nv,
                routes@.len() == v,
                forall|u: int| 0 <= u < v ==> #[trigger] routes@[u]@ == Seq::<usize>::empty(),
            decreases nv - v,
        {
            routes.push(Vec::new());
            v += 1;
        }
        let ghost mut owner: Seq<int> = Seq::empty();
        proof {
            assert forall|u: int| 0 <= u < nv implies #[trigger] routes_view(&routes)[u] == assigned_stops(inst, reqs, owner, u, 0) by {
                assert(routes_view(&routes)[u] == routes@[u]@);
            }
        }
        let mut t: usize = 0;
        while t < selected.len()
            invariant
                inst.wf(),
                inst == self.instance,
                nv == inst.n_vehicles,
                0 < nv <= MAX_VEHICLES,
                reqs == as_requests(selected@),
                selected@.len() <= MAX_REQS,
                forall|k: int| 0 <= k < selected@.len() ==> #[trigger] selected@[k] < inst.n_reqs,
                t <= selected@.len(),
                owner.len() == t,
                routes@.len() == nv,
                forall|i: int| 0 <= i < owner.len() ==> 0 <= #[trigger] owner[i] < nv,
                forall|u: int| 0 <= u < nv ==> #[trigger] routes_view(&routes)[u] == assigned_stops(inst, reqs, owner, u, t as int),
                assignment_rule(inst, reqs, owner, nv as int, self.biased),
            decreases selected@.len() - t,
        {
            let req = selected[t];
            assert(reqs[t as int] == req);
            proof {
                assert forall|i: int| 0 <= i < reqs.len() implies 0 <= #[trigger] reqs[i] < inst.n_reqs by {
                    assert(reqs[i] == selected@[i]);
                }
            }
            let order = self.vehicle_order(nv);
            let mut chosen: usize = order[0];
            let mut found = false;
            let mut k: usize = 0;
            while k < nv && !found
                invariant
                    inst.wf(),
                    inst == self.instance,
                    nv == inst.n_vehicles,
                    req < inst.n_reqs,
                    reqs[t as int] == req,
                    t < selected@.len() <= MAX_REQS,
                    reqs.len() == selected@.len(),
                    owner.len() == t,
                    routes@.len() == nv,
                    order@.len() == nv,
                    forall|m: int| 0 <= m < order@.len() ==> #[trigger] order@[m] < nv,
                    forall|i: int| 0 <= i < reqs.len() ==> 0 <= #[trigger] reqs[i] < inst.n_reqs,
                    forall|u: int| 0 <= u < nv ==> #[trigger] routes_view(&routes)[u] == assigned_stops(inst, reqs, owner, u, t as int),
                    chosen < nv,
                    k <= nv,
                    forall|j: int| 0 <= j < k ==> !#[trigger] vehicle_can_take(inst, reqs, owner, order@[j] as int, t as int),
                    !found ==> chosen == order@[0],
                    found ==> k < nv && chosen == order@[k as int] && vehicle_can_take(inst, reqs, owner, chosen as int, t as int),
                decreases nv - k + (if found { 0int } else { 1int }),
            {
                let w = order[k];
                proof {
                    lemma_assigned_len(inst, reqs, owner, w as int, t as int);
                    lemma_assigned_in_range(inst, reqs, owner, w as int, t as int);
                    assert(routes_view(&routes)[w as int] == routes@[w as int]@);
                }
                if self.can_assign_request(&routes[w], req) {
                    chosen = w;
                    found = true;
                } else {
                    k += 1;
                }
            }
            proof {
                lemma_assigned_len(inst, reqs, owner, chosen as int, t as int);
                assert(routes_view(&routes)[chosen as int] == routes@[chosen as int]@);
                if !found {
                    assert forall|v: int| 0 <= v < nv implies !#[trigger] vehicle_can_take(inst, reqs, owner, v, t as int) by {
                        assert(order@.contains(v as usize));
                        let j = choose|j: int| 0 <= j < order@.len() && order@[j] == v as usize;
                        assert(!vehicle_can_take(inst, reqs, owner, order@[j] as int, t as int));
                    }
                }
                if self.biased {
                    assert forall|j: int| 0 <= j < k implies !#[trigger] vehicle_can_take(inst, reqs, owner, nv - 1 - j, t as int) by {
                        assert(order@[j] == nv - 1 - j);
                    }
                    lemma_downward_skip(inst, reqs, owner, nv as int, k as int, t as int);
                    if found {
                        assert(order@[k as int] == nv - 1 - k);
                    }
                    assert(chosen == downward_choice(inst, reqs, owner, nv as int, nv - 1, t as int));
                }
            }
            routes = self.assign_request_to_vehicle(&routes, chosen, req);
            proof {
                let new_owner = owner.push(chosen as int);
                assert forall|u: int| 0 <= u < nv implies #[trigger] routes_view(&routes)[u] == assigned_stops(inst, reqs, new_owner, u, t + 1) by {
                    lemma_assigned_prefix(inst, reqs, owner, chosen as int, u, t as int);
                }
                assert forall|i: int| 0 <= i < new_owner.len() implies vehicle_can_take(inst, reqs, new_owner, #[trigger] new_owner[i], i) || forall|v: int|
                    0 <= v < nv ==> !#[trigger] vehicle_can_take(inst, reqs, new_owner, v, i) by {
                    lemma_can_take_prefix(inst, reqs, owner, chosen as int, nv as int, i);
                    if i < owner.len() {
                        assert(new_owner[i] == owner[i]);
                    }
                }
                if self.biased {
                    assert forall|i: int| 0 <= i < new_owner.len() implies #[trigger] new_owner[i] == downward_choice(inst, reqs, new_owner, nv as int, nv - 1, i) by {
                        lemma_can_take_prefix(inst, reqs, owner, chosen as int, nv as int, i);
                        if i < owner.len() {
                            assert(new_owner[i] == owner[i]);
                        }
                    }
                }
                owner = new_owner;
            }
            t += 1;
        }
        proof {
            assert(built_from(inst, routes_view(&routes), reqs, owner));
            assert(assignment_rule(inst, reqs, owner, nv as int, self.biased));
        }
        routes
    }

    /// Appends the pickup and then the dropoff of `req` to route `vehicle_id`.
    pub fn assign_request_to_vehicle(&self, routes: &Vec<Vec<usize>>, vehicle_id: usize, req: usize) -> (r: Vec<
        Vec<usize>,
    >)
        requires
            self.instance.wf(),
            vehicle_id < routes@.len(),
            req < self.instance.n_reqs,
            routes@[vehicle_id as int]@.len() + 2 < usize::MAX,
        ensures
            r@.len() == routes@.len(),
            routes_view(&r) == routes_view(routes).update(
                vehicle_id as int,
                routes_view(routes)[vehicle_id as int].push((req + 1) as usize).push(
                    (req + 1 + self.instance.n_reqs) as usize,
                ),
            ),
    {
        append_request(self.instance, routes, vehicle_id, req)
    }

    /// Picks `min(gamma, n)` distinct requests at random and hands them out.
    pub fn construct_solution(&self) -> (r: Solution<'a>)
        requires
            self.instance.wf(),
        ensures
            r.wf(),
            r.instance == self.instance,
            r.rs().len() == self.instance.n_vehicles,
            random_construction(self.instance, r.rs(), self.biased),
    {
        let inst = self.instance;
        let n = inst.n_reqs;
        let nv = inst.n_vehicles;
        let m = if inst.gamma < n { inst.gamma } else { n };
        if nv == 0 {
            let routes: Vec<Vec<usize>> = Vec::new();
            assert(routes_view(&routes) =~= Seq::empty());
            return Solution { instance: inst, routes };
        }
        let all = shuffled_range(n);
        let mut selected: Vec<usize> = Vec::new();
        let mut i: usize = 0;
        while i < m
            invariant
                m <= n,
                all@.len() == n,
                i <= m,
                selected@ == all@.subrange(0, i as int),
            decreases m - i,
        {
            selected.push(all[i]);
            i += 1;
            assert(selected@ =~= all@.subrange(0, i as int));
        }
        let routes = self.assign_requests(&selected);
        let ghost reqs = as_requests(selected@);
        proof {
            let owner = choose|owner: Seq<int>|
                #[trigger] built_from(inst, routes_view(&routes), reqs, owner) && assignment_rule(
                    inst,
                    reqs,
                    owner,
                    nv as int,
                    self.biased,
                );
            assert forall|i: int| 0 <= i < reqs.len() implies 0 <= #[trigger] reqs[i] < inst.n_reqs by {
                assert(reqs[i] == selected@[i]);
                assert(selected@[i] == all@[i]);
            }
            assert forall|a: int, b: int| 0 <= a < reqs.len() && 0 <= b < reqs.len() && a != b implies reqs[a] != reqs[b] by {
                assert(all@[a] != all@[b]);
            }
            assert(reqs.no_duplicates());
            assert forall|u: int, j: int|
                0 <= u < routes_view(&routes).len() && 0 <= j < routes_view(&routes)[u].len() implies #[trigger] routes_view(&routes)[u][j] < inst.num_nodes() by {
                lemma_assigned_in_range(inst, reqs, owner, u, reqs.len() as int);
            }
            assert(reqs.len() == inst.target_count());
        }
        Solution { instance: inst, routes }
    }

}

impl<'a> Solver<'a> for RandomConstruction<'a> {
    open spec fn problem(&self) -> &'a Instance {
        self.instance
    }

    /// A random construction in the configured mode.
    open spec fn solves(&self, r: Solution<'a>) -> bool {
        random_construction(self.instance, r.rs(), self.biased)
    }

    fn solve(&self) -> (r: Solution<'a>) {
        self.construct_solution()
    }
}

} // verus!
