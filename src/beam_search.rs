use vstd::prelude::*;
use crate::evaluation::{nodes_in_range, objective_micro, routes_view, scorable, OBJ_SCALE};
use crate::instance::{Instance, MAX_VEHICLES};
use crate::moves::{copy_route, copy_routes, replace_route};
use crate::solution::Solution;
use crate::solver::Solver;
use crate::validity::{lemma_route_loads, load, routes_valid};

verus! {

/// Penalty, in distance units, for each request short of `gamma`.
pub const GAMMA_PENALTY: u128 = 10000;

/// Penalty, in distance units, for each visit to the depot.
pub const DEPOT_PENALTY: u128 = 500;

/// Penalty, in distance units, for a non-empty route with fewer than two
/// dropoffs.
pub const SHORT_ROUTE_PENALTY: u128 = 200;

/// Where a request stands in a partial solution.
#[derive(Debug, Clone, Copy, PartialEq, Eq, Structural)]
pub enum ReqState {
    Unserved,
    PickedUp,
    Delivered,
}

/// A state of the beam: routes built so far, with the bookkeeping that the
/// actions read.
#[derive(Debug)]
pub struct PartialSolution {
    pub routes: Vec<Vec<usize>>,
    pub req_states: Vec<ReqState>,
    pub served_count: usize,
    pub current_loads: Vec<usize>,
    pub pickup_vehicle: Vec<Option<usize>>,
}

/// No load over capacity, and every delivered request has a vehicle that
/// picked it up.
pub open spec fn feasible_view(inst: &Instance, s: PartialView) -> bool {
    &&& forall|v: int| 0 <= v < s.loads.len() ==> #[trigger] s.loads[v] <= inst.cap
    &&& forall|q: int| 0 <= q < s.states.len() && #[trigger] s.states[q] == ReqState::Delivered ==> s.picked_by[q] is Some
}

/// Feasible and serving at least `gamma` requests.
pub open spec fn complete_view(inst: &Instance, s: PartialView) -> bool {
    s.served >= inst.gamma && feasible_view(inst, s)
}

/// Everything a partial solution holds, as plain values.
pub struct PartialView {
    pub rs: Seq<Seq<usize>>,
    pub states: Seq<ReqState>,
    pub served: usize,
    pub loads: Seq<usize>,
    pub picked_by: Seq<Option<usize>>,
}

impl PartialSolution {
    pub open spec fn view(&self) -> PartialView {
        PartialView {
            rs: routes_view(&self.routes),
            states: self.req_states@,
            served: self.served_count,
            loads: self.current_loads@,
            picked_by: self.pickup_vehicle@,
        }
    }

    /// The shape that the instance fixes, and every stop a node of it.
    pub open spec fn wf(&self, inst: &Instance) -> bool {
        &&& self.routes@.len() == inst.n_vehicles
        &&& self.current_loads@.len() == inst.n_vehicles
        &&& self.req_states@.len() == inst.n_reqs
        &&& self.pickup_vehicle@.len() == inst.n_reqs
        &&& nodes_in_range(inst, routes_view(&self.routes))
    }

    /// No load over capacity, and every delivered request has a vehicle that
    /// picked it up.
    pub open spec fn feasible(&self, inst: &Instance) -> bool {
        feasible_view(inst, self.view())
    }

    /// Feasible and serving at least `gamma` requests.
    pub open spec fn complete(&self, inst: &Instance) -> bool
        {
        self.served_count >= inst.gamma && self.feasible(inst)
    }

    /// An independent copy.
    pub fn duplicate(&self) -> (r: PartialSolution)
        ensures
            r.view() == self.view(),
            r.routes@.len() == self.routes@.len(),
    {
        let mut states: Vec<ReqState> = Vec::new();
        let mut picked: Vec<Option<usize>> = Vec::new();
        let mut q: usize = 0;
        while q < self.req_states.len()
            invariant
                q <= self.req_states@.len(),
                states@ == self.req_states@.subrange(0, q as int),
            decreases self.req_states@.len() - q,
        {
            states.push(self.req_states[q]);
            q += 1;
            assert(states@ =~= self.req_states@.subrange(0, q as int));
        }
        let mut q: usize = 0;
        while q < self.pickup_vehicle.len()
            invariant
                q <= self.pickup_vehicle@.len(),
                picked@ == self.pickup_vehicle@.subrange(0, q as int),
            decreases self.pickup_vehicle@.len() - q,
        {
            picked.push(self.pickup_vehicle[q]);
            q += 1;
            assert(picked@ =~= self.pickup_vehicle@.subrange(0, q as int));
        }
        assert(states@ =~= self.req_states@);
        assert(picked@ =~= self.pickup_vehicle@);
        PartialSolution {
            routes: copy_routes(&self.routes),
            req_states: states,
            served_count: self.served_count,
            current_loads: copy_route(&self.current_loads),
            pickup_vehicle: picked,
        }
    }

    /// Whether two states hold the same values.
    pub fn same_as(&self, other: &PartialSolution) -> (r: bool)
        ensures
            r == (self.view() == other.view()),
    {
        if self.served_count != other.served_count {
            return false;
        }
        if !same_usizes(&self.current_loads, &other.current_loads) {
            return false;
        }
        if self.req_states.len() != other.req_states.len() || self.pickup_vehicle.len() != other.pickup_vehicle.len() {
            return false;
        }
        if self.routes.len() != other.routes.len() {
            assert(routes_view(&self.routes).len() != routes_view(&other.routes).len());
            return false;
        }
        let mut q: usize = 0;
        while q < self.req_states.len()
            invariant
                self.req_states@.len() == other.req_states@.len(),
                q <= self.req_states@.len(),
                forall|k: int| 0 <= k < q ==> #[trigger] self.req_states@[k] == other.req_states@[k],
            decreases self.req_states@.len() - q,
        {
            if self.req_states[q] != other.req_states[q] {
                return false;
            }
            q += 1;
        }
        assert(self.req_states@ =~= other.req_states@);
        let mut q: usize = 0;
        while q < self.pickup_vehicle.len()
            invariant
                self.pickup_vehicle@.len() == other.pickup_vehicle@.len(),
                q <= self.pickup_vehicle@.len(),
                forall|k: int| 0 <= k < q ==> #[trigger] self.pickup_vehicle@[k] == other.pickup_vehicle@[k],
            decreases self.pickup_vehicle@.len() - q,
        {
            let same = match (self.pickup_vehicle[q], other.pickup_vehicle[q]) {
                (Some(a), Some(b)) => a == b,
                (None, None) => true,
                _ => false,
            };
            if !same {
                return false;
            }
            q += 1;
        }
        assert(self.pickup_vehicle@ =~= other.pickup_vehicle@);
        let mut v: usize = 0;
        while v < self.routes.len()
            invariant
                self.routes@.len() == other.routes@.len(),
                v <= self.routes@.len(),
                forall|k: int| 0 <= k < v ==> #[trigger] routes_view(&self.routes)[k] == routes_view(&other.routes)[k],
            decreases self.routes@.len() - v,
        {
            if !same_usizes(&self.routes[v], &other.routes[v]) {
                assert(routes_view(&self.routes)[v as int] != routes_view(&other.routes)[v as int]);
                return false;
            }
            v += 1;
        }
        assert(routes_view(&self.routes) =~= routes_view(&other.routes));
        true
    }
}

/// Whether two lists of integers are equal.
pub fn same_usizes(a: &Vec<usize>, b: &Vec<usize>) -> (r: bool)
    ensures
        r == (a@ == b@),
{
    if a.len() != b.len() {
        return false;
    }
    let mut i: usize = 0;
    while i < a.len()
        invariant
            a@.len() == b@.len(),
            i <= a@.len(),
            forall|k: int| 0 <= k < i ==> #[trigger] a@[k] == b@[k],
        decreases a@.len() - i,
    {
        if a[i] != b[i] {
            return false;
        }
        i += 1;
    }
    assert(a@ =~= b@);
    true
}

pub open spec fn count_depot(r: Seq<usize>) -> nat
    decreases r.len(),
{
    if r.len() == 0 {
        0
    } else {
        count_depot(r.drop_last()) + if r.last() == 0 {
            1nat
        } else {
            0nat
        }
    }
}

pub open spec fn count_dropoffs(inst: &Instance, r: Seq<usize>) -> nat
    decreases r.len(),
{
    if r.len() == 0 {
        0
    } else {
        count_dropoffs(inst, r.drop_last()) + if r.last() > inst.n_reqs {
            1nat
        } else {
            0nat
        }
    }
}

/// Depot visits over the first `v` routes.
pub open spec fn depot_visits(rs: Seq<Seq<usize>>, v: int) -> nat
    decreases v,
{
    if v <= 0 {
        0
    } else {
        depot_visits(rs, v - 1) + count_depot(rs[v - 1])
    }
}

/// Non-empty routes with fewer than two dropoffs, over the first `v` routes.
pub open spec fn short_routes(inst: &Instance, rs: Seq<Seq<usize>>, v: int) -> nat
    decreases v,
{
    if v <= 0 {
        0
    } else {
        short_routes(inst, rs, v - 1) + if rs[v - 1].len() > 0 && count_dropoffs(inst, rs[v - 1]) < 2 {
            1nat
        } else {
            0nat
        }
    }
}

/// The beam's score of a state, in millionths, lower is better: the
/// objective of its routes plus the penalties for missing requests, depot
/// visits and short routes. A state past the scoring limits scores last.
pub open spec fn heuristic(inst: &Instance, ps: PartialView) -> nat {
    if !scorable(inst, ps.rs) {
        u128::MAX as nat
    } else {
        (objective_micro(inst, ps.rs) + (if ps.served < inst.gamma {
            (inst.gamma - ps.served) * GAMMA_PENALTY * OBJ_SCALE
        } else {
            0
        }) + depot_visits(ps.rs, ps.rs.len() as int) * DEPOT_PENALTY * OBJ_SCALE + short_routes(
            inst,
            ps.rs,
            ps.rs.len() as int,
        ) * SHORT_ROUTE_PENALTY * OBJ_SCALE) as nat
    }
}

proof fn lemma_count_depot_le(r: Seq<usize>)
    ensures
        count_depot(r) <= r.len(),
    decreases r.len(),
{
    if r.len() > 0 {
        lemma_count_depot_le(r.drop_last());
    }
}

proof fn lemma_count_prefix(inst: &Instance, r: Seq<usize>, i: int)
    requires
        0 <= i < r.len(),
    ensures
        count_depot(r.subrange(0, i + 1)) == count_depot(r.subrange(0, i)) + if r[i] == 0 { 1nat } else { 0nat },
        count_dropoffs(inst, r.subrange(0, i + 1)) == count_dropoffs(inst, r.subrange(0, i)) + if r[i] > inst.n_reqs {
            1nat
        } else {
            0nat
        },
{
    assert(r.subrange(0, i + 1).drop_last() =~= r.subrange(0, i));
}

/// Depot stops and dropoffs of one route.
fn route_counts(inst: &Instance, r: &Vec<usize>) -> (c: (usize, usize))
    ensures
        c.0 == count_depot(r@),
        c.1 == count_dropoffs(inst, r@),
{
    let mut zeros: usize = 0;
    let mut drops: usize = 0;
    let mut i: usize = 0;
    while i < r.len()
        invariant
            i <= r@.len(),
            zeros == count_depot(r@.subrange(0, i as int)),
            drops == count_dropoffs(inst, r@.subrange(0, i as int)),
            zeros <= i,
            drops <= i,
        decreases r@.len() - i,
    {
        proof {
            lemma_count_prefix(inst, r@, i as int);
        }
        if r[i] == 0 {
            zeros += 1;
        }
        if r[i] > inst.n_reqs {
            drops += 1;
        }
        i += 1;
    }
    assert(r@.subrange(0, r@.len() as int) =~= r@);
    (zeros, drops)
}

/// The beam's score of a state.
pub fn heuristic_score(inst: &Instance, state: &PartialSolution) -> (r: u128)
    requires
        inst.wf(),
        state.wf(inst),
    ensures
        r == heuristic(inst, state.view()),
{
    let sol = Solution { instance: inst, routes: copy_routes(&state.routes) };
    if !sol.within_limits() {
        return u128::MAX;
    }
    let obj = sol.objective_function_value();
    let ghost rs = routes_view(&state.routes);
    let gamma_pen: u128 = if state.served_count < inst.gamma {
        ((inst.gamma - state.served_count) as u128) * GAMMA_PENALTY * OBJ_SCALE
    } else {
        0
    };
    let mut depots: u128 = 0;
    let mut shorts: u128 = 0;
    let mut v: usize = 0;
    while v < state.routes.len()
        invariant
            state.routes@.len() <= MAX_VEHICLES,
            rs == routes_view(&state.routes),
            v <= state.routes@.len(),
            depots == depot_visits(rs, v as int),
            shorts == short_routes(inst, rs, v as int),
            depots <= v * 18446744073709551615,
            shorts <= v,
        decreases state.routes@.len() - v,
    {
        let (zeros, drops) = route_counts(inst, &state.routes[v]);
        assert(rs[v as int] == state.routes@[v as int]@);
        proof {
            assert(depots + zeros <= (v + 1) * 18446744073709551615) by (nonlinear_arith)
                requires depots <= v * 18446744073709551615, zeros <= 18446744073709551615;
            assert((v + 1) * 18446744073709551615 <= 65536 * 18446744073709551615) by (nonlinear_arith)
                requires v + 1 <= 65536;
        }
        depots = depots + zeros as u128;
        if state.routes[v].len() > 0 && drops < 2 {
            shorts = shorts + 1;
        }
        v += 1;
    }
    proof {
        assert(depots * DEPOT_PENALTY * OBJ_SCALE <= 65536 * 18446744073709551615 * DEPOT_PENALTY * OBJ_SCALE) by (nonlinear_arith)
            requires depots <= 65536 * 18446744073709551615;
        assert(shorts * SHORT_ROUTE_PENALTY * OBJ_SCALE <= 65536 * SHORT_ROUTE_PENALTY * OBJ_SCALE) by (nonlinear_arith)
            requires shorts <= 65536;
        assert(state.routes@.len() * 18446744073709551615 <= 65536 * 18446744073709551615) by (nonlinear_arith)
            requires state.routes@.len() <= 65536;
    }
    obj + gamma_pen + depots * DEPOT_PENALTY * OBJ_SCALE + shorts * SHORT_ROUTE_PENALTY * OBJ_SCALE
}

pub open spec fn after_pickup(inst: &Instance, s: PartialView, v: int, q: int) -> PartialView {
    PartialView {
        rs: s.rs.update(v, s.rs[v].push(inst.pickup_node(q) as usize)),
        states: s.states.update(q, ReqState::PickedUp),
        served: s.served,
        loads: s.loads.update(v, (s.loads[v] + inst.demand(q)) as usize),
        picked_by: s.picked_by.update(q, Some(v as usize)),
    }
}

pub open spec fn after_dropoff(inst: &Instance, s: PartialView, v: int, q: int) -> PartialView {
    PartialView {
        rs: s.rs.update(v, s.rs[v].push(inst.dropoff_node(q) as usize)),
        states: s.states.update(q, ReqState::Delivered),
        served: (s.served + 1) as usize,
        loads: s.loads.update(v, (s.loads[v] - inst.demand(q)) as usize),
        picked_by: s.picked_by,
    }
}

pub open spec fn after_depot(s: PartialView, v: int) -> PartialView {
    PartialView { rs: s.rs.update(v, s.rs[v].push(0usize)), ..s }
}

/// Vehicle `v` can pick up request `q`: it is unserved and fits.
pub open spec fn pickup_enabled(inst: &Instance, s: PartialView, v: int, q: int) -> bool {
    0 <= q < s.states.len() && s.states[q] == ReqState::Unserved && s.loads[v] + inst.demand(q) <= inst.cap
}

/// Vehicle `v` can drop off request `q`: it picked it up and still holds it.
pub open spec fn dropoff_enabled(s: PartialView, v: int, q: int) -> bool {
    0 <= q < s.states.len() && s.states[q] == ReqState::PickedUp && s.picked_by[q] == Some(v as usize)
}

/// Vehicle `v` may return to the depot: its route is under way, does not
/// end at the depot, and it has nothing it could pick up or drop off.
pub open spec fn depot_enabled(inst: &Instance, s: PartialView, v: int) -> bool {
    &&& s.rs[v].len() > 0
    &&& s.rs[v].last() != 0
    &&& forall|q: int| !#[trigger] pickup_enabled(inst, s, v, q)
    &&& forall|q: int| !#[trigger] dropoff_enabled(s, v, q)
}

/// `t` follows from `s` by one enabled action of vehicle `v`.
pub open spec fn successor_by(inst: &Instance, s: PartialView, t: PartialView, v: int) -> bool {
    ||| exists|q: int| pickup_enabled(inst, s, v, q) && #[trigger] after_pickup(inst, s, v, q) == t
    ||| exists|q: int| dropoff_enabled(s, v, q) && #[trigger] after_dropoff(inst, s, v, q) == t
    ||| depot_enabled(inst, s, v) && after_depot(s, v) == t
}

/// `t` follows from `s` by one enabled action of one vehicle.
pub open spec fn is_successor(inst: &Instance, s: PartialView, t: PartialView) -> bool {
    exists|v: int| 0 <= v < s.rs.len() && #[trigger] successor_by(inst, s, t, v)
}

/// Views of a list of states.
pub open spec fn views(states: Seq<PartialSolution>) -> Seq<PartialView> {
    states.map_values(|p: PartialSolution| p.view())
}

/// A dropoff that the search takes: enabled, with the load and the count
/// of served requests in range.
pub open spec fn dropoff_taken(inst: &Instance, s: PartialView, v: int, q: int) -> bool {
    dropoff_enabled(s, v, q) && s.loads[v] >= inst.demand(q) && s.served < usize::MAX
}

/// The pickups by vehicle `v` of requests `0..q`, in order of request.
pub open spec fn pickups_upto(inst: &Instance, s: PartialView, v: int, q: int) -> Seq<PartialView>
    decreases q,
{
    if q <= 0 {
        Seq::empty()
    } else if pickup_enabled(inst, s, v, q - 1) {
        pickups_upto(inst, s, v, q - 1).push(after_pickup(inst, s, v, q - 1))
    } else {
        pickups_upto(inst, s, v, q - 1)
    }
}

/// The dropoffs by vehicle `v` of requests `0..q`, in order of request.
pub open spec fn dropoffs_upto(inst: &Instance, s: PartialView, v: int, q: int) -> Seq<PartialView>
    decreases q,
{
    if q <= 0 {
        Seq::empty()
    } else if dropoff_taken(inst, s, v, q - 1) {
        dropoffs_upto(inst, s, v, q - 1).push(after_dropoff(inst, s, v, q - 1))
    } else {
        dropoffs_upto(inst, s, v, q - 1)
    }
}

/// The depot return of vehicle `v`, where it is allowed.
pub open spec fn depot_return(inst: &Instance, s: PartialView, v: int) -> Seq<PartialView> {
    if depot_enabled(inst, s, v) {
        seq![after_depot(s, v)]
    } else {
        Seq::empty()
    }
}

/// The successors by vehicle `v`: its pickups, then its dropoffs, then its
/// depot return; none where its route cannot grow.
pub open spec fn vehicle_successors(inst: &Instance, s: PartialView, v: int) -> Seq<PartialView> {
    if s.rs[v].len() < usize::MAX - 2 {
        pickups_upto(inst, s, v, inst.n_reqs as int) + dropoffs_upto(inst, s, v, inst.n_reqs as int) + depot_return(
            inst,
            s,
            v,
        )
    } else {
        Seq::empty()
    }
}

/// The successors by vehicles `0..v`, vehicle by vehicle.
pub open spec fn successors_upto(inst: &Instance, s: PartialView, v: int) -> Seq<PartialView>
    decreases v,
{
    if v <= 0 {
        Seq::empty()
    } else {
        successors_upto(inst, s, v - 1) + vehicle_successors(inst, s, v - 1)
    }
}

/// The stops over all routes.
pub open spec fn total_stops(rs: Seq<Seq<usize>>) -> nat
    decreases rs.len(),
{
    if rs.len() == 0 {
        0
    } else {
        total_stops(rs.drop_last()) + rs.last().len()
    }
}

/// One route per vehicle, and at most `d` stops in all.
pub open spec fn stops_within(inst: &Instance, s: PartialView, d: nat) -> bool {
    s.rs.len() == inst.n_vehicles && total_stops(s.rs) <= d
}

pub open spec fn beam_within(inst: &Instance, b: Seq<PartialView>, d: nat) -> bool {
    forall|k: int| 0 <= k < b.len() ==> stops_within(inst, #[trigger] b[k], d)
}

proof fn lemma_total_push(rs: Seq<Seq<usize>>, v: int, x: usize)
    requires
        0 <= v < rs.len(),
    ensures
        total_stops(rs.update(v, rs[v].push(x))) == total_stops(rs) + 1,
    decreases rs.len(),
{
    let u = rs.update(v, rs[v].push(x));
    if v == rs.len() - 1 {
        assert(u.drop_last() =~= rs.drop_last());
    } else {
        assert(u.drop_last() =~= rs.drop_last().update(v, rs.drop_last()[v].push(x)));
        lemma_total_push(rs.drop_last(), v, x);
    }
}

proof fn lemma_total_empty(rs: Seq<Seq<usize>>)
    requires
        forall|v: int| 0 <= v < rs.len() ==> (#[trigger] rs[v]).len() == 0,
    ensures
        total_stops(rs) == 0,
    decreases rs.len(),
{
    if rs.len() > 0 {
        assert forall|v: int| 0 <= v < rs.drop_last().len() implies (#[trigger] rs.drop_last()[v]).len() == 0 by {
            assert(rs.drop_last()[v] == rs[v]);
        }
        lemma_total_empty(rs.drop_last());
    }
}

proof fn lemma_within_concat(inst: &Instance, a: Seq<PartialView>, b: Seq<PartialView>, d: nat)
    requires
        beam_within(inst, a, d),
        beam_within(inst, b, d),
    ensures
        beam_within(inst, a + b, d),
{
    assert forall|k: int| 0 <= k < (a + b).len() implies stops_within(inst, #[trigger] (a + b)[k], d) by {
        if k < a.len() {
            assert((a + b)[k] == a[k]);
        } else {
            assert((a + b)[k] == b[k - a.len()]);
        }
    }
}

proof fn lemma_within_mono(inst: &Instance, a: Seq<PartialView>, d: nat, e: nat)
    requires
        beam_within(inst, a, d),
        d <= e,
    ensures
        beam_within(inst, a, e),
{
    assert forall|k: int| 0 <= k < a.len() implies stops_within(inst, #[trigger] a[k], e) by {
        assert(stops_within(inst, a[k], d));
    }
}

proof fn lemma_within_push(inst: &Instance, a: Seq<PartialView>, x: PartialView, d: nat)
    requires
        beam_within(inst, a, d),
        stops_within(inst, x, d),
    ensures
        beam_within(inst, a.push(x), d),
{
    assert forall|k: int| 0 <= k < a.push(x).len() implies stops_within(inst, #[trigger] a.push(x)[k], d) by {
        if k < a.len() {
            assert(a.push(x)[k] == a[k]);
        }
    }
}

proof fn lemma_pickups_within(inst: &Instance, s: PartialView, d: nat, v: int, q: int)
    requires
        stops_within(inst, s, d),
        0 <= v < inst.n_vehicles,
    ensures
        beam_within(inst, pickups_upto(inst, s, v, q), d + 1),
    decreases q,
{
    if q > 0 {
        lemma_pickups_within(inst, s, d, v, q - 1);
        if pickup_enabled(inst, s, v, q - 1) {
            lemma_total_push(s.rs, v, inst.pickup_node(q - 1) as usize);
            lemma_within_push(inst, pickups_upto(inst, s, v, q - 1), after_pickup(inst, s, v, q - 1), d + 1);
        }
    }
}

proof fn lemma_dropoffs_within(inst: &Instance, s: PartialView, d: nat, v: int, q: int)
    requires
        stops_within(inst, s, d),
        0 <= v < inst.n_vehicles,
    ensures
        beam_within(inst, dropoffs_upto(inst, s, v, q), d + 1),
    decreases q,
{
    if q > 0 {
        lemma_dropoffs_within(inst, s, d, v, q - 1);
        if dropoff_taken(inst, s, v, q - 1) {
            lemma_total_push(s.rs, v, inst.dropoff_node(q - 1) as usize);
            lemma_within_push(inst, dropoffs_upto(inst, s, v, q - 1), after_dropoff(inst, s, v, q - 1), d + 1);
        }
    }
}

proof fn lemma_successors_within(inst: &Instance, s: PartialView, d: nat, v: int)
    requires
        stops_within(inst, s, d),
        0 <= v <= inst.n_vehicles,
    ensures
        beam_within(inst, successors_upto(inst, s, v), d + 1),
    decreases v,
{
    if v > 0 {
        lemma_successors_within(inst, s, d, v - 1);
        let w = v - 1;
        if s.rs[w].len() < usize::MAX - 2 {
            lemma_pickups_within(inst, s, d, w, inst.n_reqs as int);
            lemma_dropoffs_within(inst, s, d, w, inst.n_reqs as int);
            let dep = depot_return(inst, s, w);
            if depot_enabled(inst, s, w) {
                lemma_total_push(s.rs, w, 0usize);
                assert(stops_within(inst, after_depot(s, w), d + 1));
            }
            assert(beam_within(inst, dep, d + 1));
            lemma_within_concat(inst, pickups_upto(inst, s, w, inst.n_reqs as int), dropoffs_upto(inst, s, w, inst.n_reqs as int), d + 1);
            lemma_within_concat(
                inst,
                pickups_upto(inst, s, w, inst.n_reqs as int) + dropoffs_upto(inst, s, w, inst.n_reqs as int),
                dep,
                d + 1,
            );
        }
        lemma_within_concat(inst, successors_upto(inst, s, w), vehicle_successors(inst, s, w), d + 1);
    }
}

proof fn lemma_expand_within(inst: &Instance, beam: Seq<PartialView>, d: nat)
    requires
        beam_within(inst, beam, d),
    ensures
        beam_within(inst, expand_spec(inst, beam), d + 1),
    decreases beam.len(),
{
    if beam.len() > 0 {
        assert(beam_within(inst, beam.drop_last(), d)) by {
            assert forall|k: int| 0 <= k < beam.drop_last().len() implies stops_within(inst, #[trigger] beam.drop_last()[k], d) by {
                assert(beam.drop_last()[k] == beam[k]);
            }
        }
        lemma_expand_within(inst, beam.drop_last(), d);
        assert(stops_within(inst, beam[beam.len() - 1], d));
        lemma_successors_within(inst, beam.last(), d, inst.n_vehicles as int);
        lemma_within_concat(
            inst,
            expand_spec(inst, beam.drop_last()),
            successors_upto(inst, beam.last(), inst.n_vehicles as int),
            d + 1,
        );
    }
}

proof fn lemma_parts_within(inst: &Instance, all: Seq<PartialView>, d: nat)
    requires
        beam_within(inst, all, d),
    ensures
        beam_within(inst, complete_part(inst, all), d),
        beam_within(inst, incomplete_part(inst, all), d),
    decreases all.len(),
{
    if all.len() > 0 {
        assert(beam_within(inst, all.drop_last(), d)) by {
            assert forall|k: int| 0 <= k < all.drop_last().len() implies stops_within(inst, #[trigger] all.drop_last()[k], d) by {
                assert(all.drop_last()[k] == all[k]);
            }
        }
        lemma_parts_within(inst, all.drop_last(), d);
        assert(stops_within(inst, all[all.len() - 1], d));
        if complete_view(inst, all.last()) {
            lemma_within_push(inst, complete_part(inst, all.drop_last()), all.last(), d);
        } else {
            lemma_within_push(inst, incomplete_part(inst, all.drop_last()), all.last(), d);
        }
    }
}

proof fn lemma_unpicked_range(hs: Seq<nat>, picked: Seq<bool>, j: int, best: int)
    requires
        -1 <= best < hs.len(),
        0 <= j,
    ensures
        -1 <= unpicked_min(hs, picked, j, best) < hs.len(),
    decreases hs.len() - j,
{
    if j < hs.len() {
        if !picked[j] && (best < 0 || hs[j] < hs[best]) {
            lemma_unpicked_range(hs, picked, j + 1, j);
        } else {
            lemma_unpicked_range(hs, picked, j + 1, best);
        }
    }
}

proof fn lemma_select_within(
    inst: &Instance,
    hs: Seq<nat>,
    vs: Seq<PartialView>,
    bw: nat,
    picked: Seq<bool>,
    out: Seq<PartialView>,
    fuel: nat,
    d: nat,
)
    requires
        hs.len() == vs.len(),
        beam_within(inst, vs, d),
        beam_within(inst, out, d),
    ensures
        beam_within(inst, select_rec(hs, vs, bw, picked, out, fuel), d),
    decreases fuel,
{
    if !(fuel == 0 || out.len() >= bw) {
        let b = unpicked_min(hs, picked, 0, -1);
        lemma_unpicked_range(hs, picked, 0, -1);
        if b >= 0 {
            assert(stops_within(inst, vs[b], d));
            let out2 = if out.contains(vs[b]) {
                out
            } else {
                out.push(vs[b])
            };
            if !out.contains(vs[b]) {
                lemma_within_push(inst, out, vs[b], d);
            }
            lemma_select_within(inst, hs, vs, bw, picked.update(b, true), out2, (fuel - 1) as nat, d);
        }
    }
}

proof fn lemma_selected_within(inst: &Instance, bw: nat, vs: Seq<PartialView>, d: nat)
    requires
        beam_within(inst, vs, d),
    ensures
        beam_within(inst, selected(inst, bw, vs), d),
{
    lemma_select_within(
        inst,
        vs.map_values(|v: PartialView| heuristic(inst, v)),
        vs,
        bw,
        Seq::new(vs.len(), |i: int| false),
        Seq::empty(),
        vs.len(),
        d,
    );
}

/// Every state of the beam search's result has at most `md` stops: each
/// expansion adds exactly one stop.
pub proof fn lemma_run_within(inst: &Instance, bw: nat, md: nat, depth: nat, beam: Seq<PartialView>)
    requires
        beam_within(inst, beam, depth),
        depth <= md,
    ensures
        beam_within(inst, run_beam(inst, bw, md, depth, beam), md),
    decreases md - depth,
{
    if depth >= md || beam.len() == 0 {
        lemma_within_mono(inst, beam, depth, md);
    } else {
        let all = expand_spec(inst, beam);
        lemma_expand_within(inst, beam, depth);
        if all.len() == 0 {
            lemma_within_mono(inst, beam, depth, md);
        } else {
            lemma_parts_within(inst, all, depth + 1);
            let c = complete_part(inst, all);
            if c.len() > 0 {
                let b1 = selected(inst, bw, c);
                lemma_selected_within(inst, bw, c, depth + 1);
                if depth + 1 < md {
                    lemma_expand_within(inst, b1, depth + 1);
                    lemma_within_mono(inst, b1, depth + 1, depth + 2);
                    lemma_within_concat(inst, b1, expand_spec(inst, b1), depth + 2);
                    lemma_selected_within(inst, bw, b1 + expand_spec(inst, b1), depth + 2);
                    lemma_within_mono(inst, selected(inst, bw, b1 + expand_spec(inst, b1)), depth + 2, md);
                } else {
                    lemma_within_mono(inst, b1, depth + 1, md);
                }
            } else {
                lemma_selected_within(inst, bw, incomplete_part(inst, all), depth + 1);
                lemma_run_within(inst, bw, md, depth + 1, selected(inst, bw, incomplete_part(inst, all)));
            }
        }
    }
}

/// The beam's data for one instance.
pub struct BeamSearch<'a> {
    pub instance: &'a Instance,
    pub beam_width: usize,
    pub max_depth: Option<usize>,
}

pub open spec fn count_true(s: Seq<bool>) -> nat
    decreases s.len(),
{
    if s.len() == 0 {
        0
    } else {
        count_true(s.drop_last()) + if s.last() {
            1nat
        } else {
            0nat
        }
    }
}

pub(crate) proof fn lemma_count_true_set(s: Seq<bool>, i: int)
    requires
        0 <= i < s.len(),
        !s[i],
    ensures
        count_true(s.update(i, true)) == count_true(s) + 1,
    decreases s.len(),
{
    if i < s.len() - 1 {
        assert(s.update(i, true).drop_last() =~= s.drop_last().update(i, true));
        lemma_count_true_set(s.drop_last(), i);
    } else {
        assert(s.update(i, true).drop_last() =~= s.drop_last());
    }
}

pub(crate) proof fn lemma_count_true_all(s: Seq<bool>)
    requires
        forall|i: int| 0 <= i < s.len() ==> #[trigger] s[i],
    ensures
        count_true(s) == s.len(),
    decreases s.len(),
{
    if s.len() > 0 {
        assert forall|i: int| 0 <= i < s.drop_last().len() implies #[trigger] s.drop_last()[i] by {
            assert(s.drop_last()[i] == s[i]);
        }
        lemma_count_true_all(s.drop_last());
    }
}

pub(crate) proof fn lemma_count_true_none(s: Seq<bool>)
    requires
        forall|i: int| 0 <= i < s.len() ==> !#[trigger] s[i],
    ensures
        count_true(s) == 0,
    decreases s.len(),
{
    if s.len() > 0 {
        assert forall|i: int| 0 <= i < s.drop_last().len() implies !#[trigger] s.drop_last()[i] by {
            assert(s.drop_last()[i] == s[i]);
        }
        lemma_count_true_none(s.drop_last());
    }
}

proof fn lemma_count_true_full(s: Seq<bool>)
    ensures
        count_true(s) <= s.len(),
        count_true(s) == s.len() ==> forall|i: int| 0 <= i < s.len() ==> #[trigger] s[i],
    decreases s.len(),
{
    if s.len() > 0 {
        lemma_count_true_full(s.drop_last());
        if count_true(s) == s.len() {
            assert forall|i: int| 0 <= i < s.len() implies #[trigger] s[i] by {
                if i < s.len() - 1 {
                    assert(s.drop_last()[i] == s[i]);
                }
            }
        }
    }
}

impl<'a> BeamSearch<'a> {
    /// A beam of width 20 and a depth budget of 200.
    pub fn new(instance: &'a Instance) -> (r: Self)
        ensures
            r.instance == instance,
            r.beam_width == 20,
            r.max_depth == Some(200usize),
    {
        BeamSearch { instance, beam_width: 20, max_depth: Some(200) }
    }

    pub fn with_beam_width(self, beam_width: usize) -> (r: Self)
        ensures
            r.instance == self.instance,
            r.beam_width == beam_width,
            r.max_depth == self.max_depth,
    {
        BeamSearch { beam_width, ..self }
    }

    pub fn with_max_depth(self, max_depth: usize) -> (r: Self)
        ensures
            r.instance == self.instance,
            r.beam_width == self.beam_width,
            r.max_depth == Some(max_depth),
    {
        BeamSearch { max_depth: Some(max_depth), ..self }
    }

    /// The depth budget: the one set, or four times the number of requests.
    pub open spec fn depth_budget(&self) -> nat {
        match self.max_depth {
            Some(d) => d as nat,
            None => if 4 * self.instance.n_reqs <= usize::MAX {
                (4 * self.instance.n_reqs) as nat
            } else {
                usize::MAX as nat
            },
        }
    }

    /// Empty routes, every request unserved.
    pub fn initial_state(&self) -> (r: PartialSolution)
        requires
            self.instance.wf(),
        ensures
            r.wf(self.instance),
            r.served_count == 0,
            forall|v: int| 0 <= v < r.routes@.len() ==> (#[trigger] r.view().rs[v]).len() == 0,
            forall|v: int| 0 <= v < r.current_loads@.len() ==> #[trigger] r.current_loads@[v] == 0,
            forall|q: int| 0 <= q < r.req_states@.len() ==> #[trigger] r.req_states@[q] == ReqState::Unserved,
            r.view() == initial_view(self.instance),
    {
        let n = self.instance.n_reqs;
        let nv = self.instance.n_vehicles;
        let mut routes: Vec<Vec<usize>> = Vec::new();
        let mut loads: Vec<usize> = Vec::new();
        let mut v: usize = 0;
        while v < nv
            invariant
                v <= nv,
                routes@.len() == v,
                loads@.len() == v,
                forall|u: int| 0 <= u < v ==> #[trigger] routes@[u]@.len() == 0,
                forall|u: int| 0 <= u < v ==> #[trigger] loads@[u] == 0,
            decreases nv - v,
        {
            routes.push(Vec::new());
            loads.push(0);
            v += 1;
        }
        let mut states: Vec<ReqState> = Vec::new();
        let mut picked: Vec<Option<usize>> = Vec::new();
        let mut q: usize = 0;
        while q < n
            invariant
                q <= n,
                states@.len() == q,
                picked@.len() == q,
                forall|k: int| 0 <= k < q ==> #[trigger] states@[k] == ReqState::Unserved,
                forall|k: int| 0 <= k < q ==> #[trigger] picked@[k] == None::<usize>,
            decreases n - q,
        {
            states.push(ReqState::Unserved);
            picked.push(None);
            q += 1;
        }
        let r = PartialSolution {
            routes,
            req_states: states,
            served_count: 0,
            current_loads: loads,
            pickup_vehicle: picked,
        };
        proof {
            assert forall|u: int, j: int|
                0 <= u < routes_view(&r.routes).len() && 0 <= j < routes_view(&r.routes)[u].len() implies #[trigger] routes_view(&r.routes)[u][j] < self.instance.num_nodes() by {
                assert(routes_view(&r.routes)[u] == r.routes@[u]@);
            }
            let iv = initial_view(self.instance);
            assert(r.view().rs =~= iv.rs) by {
                assert forall|u: int| 0 <= u < iv.rs.len() implies #[trigger] r.view().rs[u] == iv.rs[u] by {
                    assert(r.view().rs[u] == r.routes@[u]@);
                    assert(r.routes@[u]@ =~= Seq::<usize>::empty());
                }
            }
            assert(r.view().states =~= iv.states);
            assert(r.view().loads =~= iv.loads);
            assert(r.view().picked_by =~= iv.picked_by);
        }
        r
    }

    /// The state after vehicle `vehicle_id` picks up request `req`.
    pub fn apply_pickup(&self, state: &PartialSolution, vehicle_id: usize, req: usize) -> (r: PartialSolution)
        requires
            self.instance.wf(),
            state.wf(self.instance),
            vehicle_id < self.instance.n_vehicles,
            pickup_enabled(self.instance, state.view(), vehicle_id as int, req as int),
            state.view().rs[vehicle_id as int].len() + 1 < usize::MAX,
        ensures
            r.wf(self.instance),
            r.view() == after_pickup(self.instance, state.view(), vehicle_id as int, req as int),
    {
        let inst = self.instance;
        let mut next = state.duplicate();
        assert(next.routes@[vehicle_id as int]@ == state.view().rs[vehicle_id as int]);
        let mut route = copy_route(&next.routes[vehicle_id]);
        route.push(req + 1);
        let ghost rv = route@;
        next.routes = replace_route(&next.routes, vehicle_id, route);
        next.req_states.set(req, ReqState::PickedUp);
        let load = next.current_loads[vehicle_id] + inst.demands[req];
        next.current_loads.set(vehicle_id, load);
        next.pickup_vehicle.set(req, Some(vehicle_id));
        proof {
            let nr = routes_view(&next.routes);
            assert(nr == state.view().rs.update(vehicle_id as int, rv));
            assert forall|u: int, j: int| 0 <= u < nr.len() && 0 <= j < nr[u].len() implies #[trigger] nr[u][j] < inst.num_nodes() by {
                if u != vehicle_id {
                    assert(nr[u] == state.view().rs[u]);
                } else if j < rv.len() - 1 {
                    assert(nr[u][j] == state.view().rs[u][j]);
                }
            }
            assert(next.view() == after_pickup(inst, state.view(), vehicle_id as int, req as int));
        }
        next
    }

    /// The state after vehicle `vehicle_id` drops off request `req`.
    pub fn apply_dropoff(&self, state: &PartialSolution, vehicle_id: usize, req: usize) -> (r: PartialSolution)
        requires
            self.instance.wf(),
            state.wf(self.instance),
            vehicle_id < self.instance.n_vehicles,
            dropoff_enabled(state.view(), vehicle_id as int, req as int),
            state.view().loads[vehicle_id as int] >= self.instance.demand(req as int),
            state.served_count < usize::MAX,
            state.view().rs[vehicle_id as int].len() + 1 < usize::MAX,
        ensures
            r.wf(self.instance),
            r.view() == after_dropoff(self.instance, state.view(), vehicle_id as int, req as int),
    {
        let inst = self.instance;
        let mut next = state.duplicate();
        assert(next.routes@[vehicle_id as int]@ == state.view().rs[vehicle_id as int]);
        let mut route = copy_route(&next.routes[vehicle_id]);
        route.push(req + 1 + inst.n_reqs);
        let ghost rv = route@;
        next.routes = replace_route(&next.routes, vehicle_id, route);
        next.req_states.set(req, ReqState::Delivered);
        let load = next.current_loads[vehicle_id] - inst.demands[req];
        next.current_loads.set(vehicle_id, load);
        next.served_count = next.served_count + 1;
        proof {
            let nr = routes_view(&next.routes);
            assert(nr == state.view().rs.update(vehicle_id as int, rv));
            assert forall|u: int, j: int| 0 <= u < nr.len() && 0 <= j < nr[u].len() implies #[trigger] nr[u][j] < inst.num_nodes() by {
                if u != vehicle_id {
                    assert(nr[u] == state.view().rs[u]);
                } else if j < rv.len() - 1 {
                    assert(nr[u][j] == state.view().rs[u][j]);
                }
            }
            assert(next.view() == after_dropoff(inst, state.view(), vehicle_id as int, req as int));
        }
        next
    }

    /// The state after vehicle `vehicle_id` returns to the depot.
    pub fn apply_depot_return(&self, state: &PartialSolution, vehicle_id: usize) -> (r: PartialSolution)
        requires
            self.instance.wf(),
            state.wf(self.instance),
            vehicle_id < self.instance.n_vehicles,
            state.view().rs[vehicle_id as int].len() + 1 < usize::MAX,
        ensures
            r.wf(self.instance),
            r.view() == after_depot(state.view(), vehicle_id as int),
    {
        let inst = self.instance;
        let mut next = state.duplicate();
        assert(next.routes@[vehicle_id as int]@ == state.view().rs[vehicle_id as int]);
        let mut route = copy_route(&next.routes[vehicle_id]);
        route.push(0);
        let ghost rv = route@;
        next.routes = replace_route(&next.routes, vehicle_id, route);
        proof {
            let nr = routes_view(&next.routes);
            assert(nr == state.view().rs.update(vehicle_id as int, rv));
            assert forall|u: int, j: int| 0 <= u < nr.len() && 0 <= j < nr[u].len() implies #[trigger] nr[u][j] < inst.num_nodes() by {
                if u != vehicle_id {
                    assert(nr[u] == state.view().rs[u]);
                } else if j < rv.len() - 1 {
                    assert(nr[u][j] == state.view().rs[u][j]);
                }
            }
            assert(next.view() == after_depot(state.view(), vehicle_id as int));
        }
        next
    }

    /// Every successor of `state`, vehicle by vehicle: pickups, then dropoffs,
    /// then the depot return where it is allowed.
    pub fn generate_successors(&self, state: &PartialSolution) -> (r: Vec<PartialSolution>)
        requires
            self.instance.wf(),
            state.wf(self.instance),
        ensures
            forall|k: int|
                0 <= k < r@.len() ==> (#[trigger] r@[k]).wf(self.instance) && is_successor(
                    self.instance,
                    state.view(),
                    r@[k].view(),
                ),
            views(r@) == successors_upto(self.instance, state.view(), self.instance.n_vehicles as int),
    {
        let inst = self.instance;
        let n = inst.n_reqs;
        let nv = inst.n_vehicles;
        let cap = inst.cap;
        let ghost s = state.view();
        let mut out: Vec<PartialSolution> = Vec::new();
        assert(views(out@) =~= successors_upto(inst, s, 0));
        let mut v: usize = 0;
        while v < nv
            invariant
                inst == self.instance,
                inst.wf(),
                state.wf(inst),
                s == state.view(),
                n == inst.n_reqs,
                nv == inst.n_vehicles,
                cap == inst.cap,
                v <= nv,
                forall|k: int| 0 <= k < out@.len() ==> (#[trigger] out@[k]).wf(inst) && is_successor(inst, s, out@[k].view()),
                views(out@) == successors_upto(inst, s, v as int),
            decreases nv - v,
        {
            let route_len = state.routes[v].len();
            assert(state.routes@[v as int]@ == s.rs[v as int]);
            let load = state.current_loads[v];
            if route_len < usize::MAX - 2 {
                proof {
                    assert(successors_upto(inst, s, v as int) + pickups_upto(inst, s, v as int, 0) =~= successors_upto(inst, s, v as int));
                }
                // pickups
                let mut q: usize = 0;
                while q < n
                    invariant
                        inst == self.instance,
                        inst.wf(),
                        state.wf(inst),
                        s == state.view(),
                        n == inst.n_reqs,
                        nv == inst.n_vehicles,
                        cap == inst.cap,
                        v < nv,
                        load == s.loads[v as int],
                        route_len == s.rs[v as int].len(),
                        route_len < usize::MAX - 2,
                        q <= n,
                        forall|k: int| 0 <= k < out@.len() ==> (#[trigger] out@[k]).wf(inst) && is_successor(inst, s, out@[k].view()),
                        views(out@) == successors_upto(inst, s, v as int) + pickups_upto(inst, s, v as int, q as int),
                    decreases n - q,
                {
                    if state.req_states[q] == ReqState::Unserved && inst.demands[q] <= cap && load <= cap - inst.demands[q] {
                        let next = self.apply_pickup(state, v, q);
                        assert(pickup_enabled(inst, s, v as int, q as int));
                        assert(after_pickup(inst, s, v as int, q as int) == next.view());
                        assert(successor_by(inst, s, next.view(), v as int));
                        assert(is_successor(inst, s, next.view())) by {
                            assert(0 <= v < s.rs.len());
                        }
                        let ghost before = views(out@);
                        let ghost nv_view = next.view();
                        out.push(next);
                        proof {
                            assert(views(out@) =~= before.push(nv_view));
                            assert((successors_upto(inst, s, v as int) + pickups_upto(inst, s, v as int, q as int)).push(nv_view)
                                =~= successors_upto(inst, s, v as int) + pickups_upto(inst, s, v as int, q as int).push(nv_view));
                        }
                    } else {
                        assert(!pickup_enabled(inst, s, v as int, q as int));
                    }
                    q += 1;
                }
                // dropoffs
                let mut q: usize = 0;
                proof {
                    assert(successors_upto(inst, s, v as int) + pickups_upto(inst, s, v as int, n as int) + dropoffs_upto(inst, s, v as int, 0)
                        =~= successors_upto(inst, s, v as int) + pickups_upto(inst, s, v as int, n as int));
                }
                while q < n
                    invariant
                        inst == self.instance,
                        inst.wf(),
                        state.wf(inst),
                        s == state.view(),
                        n == inst.n_reqs,
                        nv == inst.n_vehicles,
                        cap == inst.cap,
                        v < nv,
                        load == s.loads[v as int],
                        route_len == s.rs[v as int].len(),
                        route_len < usize::MAX - 2,
                        q <= n,
                        forall|k: int| 0 <= k < out@.len() ==> (#[trigger] out@[k]).wf(inst) && is_successor(inst, s, out@[k].view()),
                        views(out@) == successors_upto(inst, s, v as int) + pickups_upto(inst, s, v as int, n as int)
                            + dropoffs_upto(inst, s, v as int, q as int),
                    decreases n - q,
                {
                    let mine = match state.pickup_vehicle[q] {
                        Some(w) => w == v,
                        None => false,
                    };
                    if state.req_states[q] == ReqState::PickedUp && mine && load >= inst.demands[q]
                        && state.served_count < usize::MAX {
                        let next = self.apply_dropoff(state, v, q);
                        assert(dropoff_enabled(s, v as int, q as int));
                        assert(after_dropoff(inst, s, v as int, q as int) == next.view());
                        assert(successor_by(inst, s, next.view(), v as int));
                        assert(is_successor(inst, s, next.view())) by {
                            assert(0 <= v < s.rs.len());
                        }
                        assert(dropoff_taken(inst, s, v as int, q as int));
                        let ghost before = views(out@);
                        let ghost nv_view = next.view();
                        out.push(next);
                        proof {
                            let head = successors_upto(inst, s, v as int) + pickups_upto(inst, s, v as int, n as int);
                            assert(views(out@) =~= before.push(nv_view));
                            assert((head + dropoffs_upto(inst, s, v as int, q as int)).push(nv_view)
                                =~= head + dropoffs_upto(inst, s, v as int, q as int).push(nv_view));
                        }
                    } else {
                        assert(!dropoff_taken(inst, s, v as int, q as int));
                    }
                    q += 1;
                }
                // depot return, only when nothing else is left to this vehicle
                let ghost head = successors_upto(inst, s, v as int) + pickups_upto(inst, s, v as int, n as int)
                    + dropoffs_upto(inst, s, v as int, n as int);
                assert(views(out@) == head);
                if route_len > 0 && state.routes[v][route_len - 1] != 0 {
                    let can_pick = self.has_feasible_pickups(state, v);
                    let must_drop = self.has_pending_dropoffs(state, v);
                    if !can_pick && !must_drop {
                        let next = self.apply_depot_return(state, v);
                        assert(depot_enabled(inst, s, v as int));
                        assert(after_depot(s, v as int) == next.view());
                        assert(successor_by(inst, s, next.view(), v as int));
                        assert(is_successor(inst, s, next.view())) by {
                            assert(0 <= v < s.rs.len());
                        }
                        let ghost before = views(out@);
                        let ghost nv_view = next.view();
                        out.push(next);
                        proof {
                            assert(views(out@) =~= before.push(nv_view));
                        }
                    }
                }
                proof {
                    assert(state.routes@[v as int]@ == s.rs[v as int]);
                    if route_len > 0 {
                        assert(s.rs[v as int].last() == state.routes@[v as int]@[route_len - 1]);
                    }
                    assert(views(out@) =~= head + depot_return(inst, s, v as int));
                    assert(successors_upto(inst, s, v + 1) =~= successors_upto(inst, s, v as int) + vehicle_successors(inst, s, v as int));
                    assert(head + depot_return(inst, s, v as int) =~= successors_upto(inst, s, v as int) + vehicle_successors(inst, s, v as int));
                }
            } else {
                proof {
                    assert(successors_upto(inst, s, v + 1) =~= successors_upto(inst, s, v as int));
                }
            }
            v += 1;
        }
        out
    }

    /// Whether vehicle `v` could pick up some unserved request.
    pub fn has_feasible_pickups(&self, state: &PartialSolution, v: usize) -> (r: bool)
        requires
            self.instance.wf(),
            state.wf(self.instance),
            v < self.instance.n_vehicles,
        ensures
            r == exists|q: int| #[trigger] pickup_enabled(self.instance, state.view(), v as int, q),
    {
        let inst = self.instance;
        let load = state.current_loads[v];
        let mut q: usize = 0;
        while q < inst.n_reqs
            invariant
                inst == self.instance,
                inst.wf(),
                state.wf(inst),
                v < inst.n_vehicles,
                load == state.view().loads[v as int],
                q <= inst.n_reqs,
                forall|k: int| 0 <= k < q ==> !#[trigger] pickup_enabled(inst, state.view(), v as int, k),
            decreases inst.n_reqs - q,
        {
            if state.req_states[q] == ReqState::Unserved && inst.demands[q] <= inst.cap && load <= inst.cap - inst.demands[q] {
                assert(pickup_enabled(inst, state.view(), v as int, q as int));
                return true;
            }
            q += 1;
        }
        false
    }

    /// Whether vehicle `v` holds a request it has yet to drop off.
    pub fn has_pending_dropoffs(&self, state: &PartialSolution, v: usize) -> (r: bool)
        requires
            self.instance.wf(),
            state.wf(self.instance),
            v < self.instance.n_vehicles,
        ensures
            r == exists|q: int| #[trigger] dropoff_enabled(state.view(), v as int, q),
    {
        let inst = self.instance;
        let mut q: usize = 0;
        while q < inst.n_reqs
            invariant
                inst == self.instance,
                inst.wf(),
                state.wf(inst),
                v < inst.n_vehicles,
                q <= inst.n_reqs,
                forall|k: int| 0 <= k < q ==> !#[trigger] dropoff_enabled(state.view(), v as int, k),
            decreases inst.n_reqs - q,
        {
            let mine = match state.pickup_vehicle[q] {
                Some(w) => w == v,
                None => false,
            };
            if state.req_states[q] == ReqState::PickedUp && mine {
                assert(dropoff_enabled(state.view(), v as int, q as int));
                return true;
            }
            q += 1;
        }
        false
    }

    /// Whether no load is over capacity and every delivered request has a
    /// vehicle that picked it up.
    pub fn is_feasible(&self, state: &PartialSolution) -> (r: bool)
        requires
            state.wf(self.instance),
        ensures
            r == state.feasible(self.instance),
    {
        let mut v: usize = 0;
        while v < state.current_loads.len()
            invariant
                v <= state.current_loads@.len(),
                forall|k: int| 0 <= k < v ==> #[trigger] state.current_loads@[k] <= self.instance.cap,
            decreases state.current_loads@.len() - v,
        {
            if state.current_loads[v] > self.instance.cap {
                assert(state.view().loads[v as int] > self.instance.cap);
                return false;
            }
            v += 1;
        }
        let mut q: usize = 0;
        while q < state.req_states.len()
            invariant
                state.wf(self.instance),
                q <= state.req_states@.len(),
                forall|k: int| 0 <= k < v ==> #[trigger] state.current_loads@[k] <= self.instance.cap,
                v == state.current_loads@.len(),
                forall|k: int|
                    0 <= k < q && #[trigger] state.req_states@[k] == ReqState::Delivered ==> state.pickup_vehicle@[k] is Some,
            decreases state.req_states@.len() - q,
        {
            if state.req_states[q] == ReqState::Delivered && state.pickup_vehicle[q].is_none() {
                assert(state.view().states[q as int] == ReqState::Delivered);
                return false;
            }
            q += 1;
        }
        true
    }
}

/// The first index of a lowest score among the indices not yet picked,
/// scanning from `j` with `best` (negative for none) the best so far.
pub open spec fn unpicked_min(hs: Seq<nat>, picked: Seq<bool>, j: int, best: int) -> int
    decreases hs.len() - j,
{
    if j >= hs.len() {
        best
    } else if !picked[j] && (best < 0 || hs[j] < hs[best]) {
        unpicked_min(hs, picked, j + 1, j)
    } else {
        unpicked_min(hs, picked, j + 1, best)
    }
}

/// Selection from `vs` with scores `hs`: repeatedly pick the first state of
/// lowest score not yet picked and keep it unless an equal state is kept,
/// until `bw` are kept or every state was picked.
pub open spec fn select_rec(
    hs: Seq<nat>,
    vs: Seq<PartialView>,
    bw: nat,
    picked: Seq<bool>,
    out: Seq<PartialView>,
    fuel: nat,
) -> Seq<PartialView>
    decreases fuel,
{
    if fuel == 0 || out.len() >= bw {
        out
    } else {
        let b = unpicked_min(hs, picked, 0, -1);
        if b < 0 {
            out
        } else {
            select_rec(
                hs,
                vs,
                bw,
                picked.update(b, true),
                if out.contains(vs[b]) {
                    out
                } else {
                    out.push(vs[b])
                },
                (fuel - 1) as nat,
            )
        }
    }
}

/// The beam kept out of the states `vs`: the best `bw` distinct states by
/// score, lowest first, the earlier on ties.
pub open spec fn selected(inst: &Instance, bw: nat, vs: Seq<PartialView>) -> Seq<PartialView> {
    select_rec(
        vs.map_values(|v: PartialView| heuristic(inst, v)),
        vs,
        bw,
        Seq::new(vs.len(), |i: int| false),
        Seq::empty(),
        vs.len(),
    )
}

/// `x` holds the same values as one of `states`.
pub open spec fn among(states: Seq<PartialSolution>, x: PartialSolution) -> bool {
    exists|i: int| 0 <= i < states.len() && #[trigger] states[i].view() == x.view()
}

/// `x` is among the kept states, or scores no better than any of them.
pub open spec fn kept_or_no_better(inst: &Instance, kept: Seq<PartialSolution>, x: PartialSolution) -> bool {
    ||| exists|k: int| 0 <= k < kept.len() && #[trigger] kept[k].view() == x.view()
    ||| forall|k: int| 0 <= k < kept.len() ==> heuristic(inst, (#[trigger] kept[k]).view()) <= heuristic(inst, x.view())
}

/// The state's routes form a feasible, scorable solution that serves enough
/// requests.
pub open spec fn qualifies(inst: &Instance, ps: &PartialSolution) -> bool {
    qualifies_view(inst, ps.view())
}

/// A state whose routes form a feasible, scorable solution that serves
/// enough requests.
pub open spec fn qualifies_view(inst: &Instance, s: PartialView) -> bool {
    &&& complete_view(inst, s)
    &&& routes_valid(inst, s.rs)
    &&& scorable(inst, s.rs)
}

/// The state the search starts from: empty routes and loads, every request
/// unserved.
pub open spec fn initial_view(inst: &Instance) -> PartialView {
    PartialView {
        rs: Seq::new(inst.n_vehicles as nat, |v: int| Seq::<usize>::empty()),
        states: Seq::new(inst.n_reqs as nat, |q: int| ReqState::Unserved),
        served: 0,
        loads: Seq::new(inst.n_vehicles as nat, |v: int| 0usize),
        picked_by: Seq::new(inst.n_reqs as nat, |q: int| None::<usize>),
    }
}

/// The successors of every state of `beam`, state by state.
pub open spec fn expand_spec(inst: &Instance, beam: Seq<PartialView>) -> Seq<PartialView>
    decreases beam.len(),
{
    if beam.len() == 0 {
        Seq::empty()
    } else {
        expand_spec(inst, beam.drop_last()) + successors_upto(inst, beam.last(), inst.n_vehicles as int)
    }
}

/// The complete states of `all`, in order.
pub open spec fn complete_part(inst: &Instance, all: Seq<PartialView>) -> Seq<PartialView>
    decreases all.len(),
{
    if all.len() == 0 {
        Seq::empty()
    } else if complete_view(inst, all.last()) {
        complete_part(inst, all.drop_last()).push(all.last())
    } else {
        complete_part(inst, all.drop_last())
    }
}

/// The other states of `all`, in order.
pub open spec fn incomplete_part(inst: &Instance, all: Seq<PartialView>) -> Seq<PartialView>
    decreases all.len(),
{
    if all.len() == 0 {
        Seq::empty()
    } else if !complete_view(inst, all.last()) {
        incomplete_part(inst, all.drop_last()).push(all.last())
    } else {
        incomplete_part(inst, all.drop_last())
    }
}

/// The beam search from depth `depth` with beam `beam`: expand every
/// state; at the first depth with a complete successor keep the best
/// complete ones, expand and select once more if depth remains, and stop;
/// otherwise keep the best successors and go one depth further, up to the
/// depth budget `md`, or until the beam or its successors run out.
pub open spec fn run_beam(inst: &Instance, bw: nat, md: nat, depth: nat, beam: Seq<PartialView>) -> Seq<PartialView>
    decreases md - depth,
{
    if depth >= md || beam.len() == 0 {
        beam
    } else {
        let all = expand_spec(inst, beam);
        if all.len() == 0 {
            beam
        } else {
            let c = complete_part(inst, all);
            if c.len() > 0 {
                let b1 = selected(inst, bw, c);
                if depth + 1 < md {
                    selected(inst, bw, b1 + expand_spec(inst, b1))
                } else {
                    b1
                }
            } else {
                run_beam(inst, bw, md, depth + 1, selected(inst, bw, incomplete_part(inst, all)))
            }
        }
    }
}

impl<'a> BeamSearch<'a> {
    /// Keeps the best `beam_width` distinct states by score, lowest first
    /// (the earlier on ties).
    pub fn select_best_states(&self, states: Vec<PartialSolution>) -> (r: Vec<PartialSolution>)
        requires
            self.instance.wf(),
            forall|i: int| 0 <= i < states@.len() ==> (#[trigger] states@[i]).wf(self.instance),
        ensures
            forall|k: int| 0 <= k < r@.len() ==> (#[trigger] r@[k]).wf(self.instance),
            forall|k: int| 0 <= k < r@.len() ==> #[trigger] among(states@, r@[k]),
            views(r@) == selected(self.instance, self.beam_width as nat, views(states@)),
            r@.len() <= self.beam_width,
            forall|k1: int, k2: int|
                0 <= k1 < k2 < r@.len() ==> heuristic(self.instance, (#[trigger] r@[k1]).view()) <= heuristic(
                    self.instance,
                    (#[trigger] r@[k2]).view(),
                ),
            forall|k1: int, k2: int|
                0 <= k1 < r@.len() && 0 <= k2 < r@.len() && k1 != k2 ==> (#[trigger] r@[k1]).view() != (
                #[trigger] r@[k2]).view(),
            forall|i: int| 0 <= i < states@.len() ==> #[trigger] kept_or_no_better(self.instance, r@, states@[i]),
    {
        let inst = self.instance;
        let n = states.len();
        let bw = self.beam_width;
        let mut scores: Vec<u128> = Vec::new();
        let mut picked: Vec<bool> = Vec::new();
        let mut i: usize = 0;
        while i < n
            invariant
                inst == self.instance,
                inst.wf(),
                n == states@.len(),
                forall|j: int| 0 <= j < states@.len() ==> (#[trigger] states@[j]).wf(inst),
                i <= n,
                scores@.len() == i,
                picked@.len() == i,
                forall|j: int| 0 <= j < i ==> #[trigger] scores@[j] == heuristic(inst, states@[j].view()),
                forall|j: int| 0 <= j < i ==> !#[trigger] picked@[j],
            decreases n - i,
        {
            scores.push(heuristic_score(inst, &states[i]));
            picked.push(false);
            i += 1;
        }
        let mut out: Vec<PartialSolution> = Vec::new();
        let ghost mut src: Seq<int> = Seq::empty();
        let ghost mut rep: Seq<int> = Seq::new(n as nat, |j: int| 0);
        let ghost vs = views(states@);
        let ghost hs = vs.map_values(|v: PartialView| heuristic(inst, v));
        proof {
            lemma_count_true_none(picked@);
            assert(picked@ =~= Seq::new(vs.len(), |i: int| false));
            assert(views(out@) =~= Seq::<PartialView>::empty());
        }
        let mut finished = false;
        while out.len() < bw && !finished
            invariant
                finished ==> unpicked_min(hs, picked@, 0, -1) < 0,
                vs == views(states@),
                hs == vs.map_values(|v: PartialView| heuristic(inst, v)),
                selected(inst, bw as nat, vs) == select_rec(hs, vs, bw as nat, picked@, views(out@), (n - count_true(picked@)) as nat),
                inst == self.instance,
                inst.wf(),
                bw == self.beam_width,
                n == states@.len(),
                forall|j: int| 0 <= j < states@.len() ==> (#[trigger] states@[j]).wf(inst),
                scores@.len() == n,
                picked@.len() == n,
                rep.len() == n,
                src.len() == out@.len(),
                out@.len() <= bw,
                forall|j: int| 0 <= j < n ==> #[trigger] scores@[j] == heuristic(inst, states@[j].view()),
                forall|k: int| 0 <= k < out@.len() ==> (#[trigger] out@[k]).wf(inst),
                forall|k: int|
                    0 <= k < out@.len() ==> 0 <= #[trigger] src[k] < n && out@[k].view() == states@[src[k]].view(),
                forall|j: int|
                    0 <= j < n && #[trigger] picked@[j] ==> 0 <= rep[j] < out@.len() && out@[rep[j]].view()
                        == states@[j].view(),
                forall|j: int, k: int|
                    0 <= j < n && !#[trigger] picked@[j] && 0 <= k < out@.len() ==> heuristic(inst, (#[trigger] out@[k]).view())
                        <= scores@[j],
                forall|k1: int, k2: int|
                    0 <= k1 < k2 < out@.len() ==> heuristic(inst, (#[trigger] out@[k1]).view()) <= heuristic(
                        inst,
                        (#[trigger] out@[k2]).view(),
                    ),
                forall|k1: int, k2: int|
                    0 <= k1 < out@.len() && 0 <= k2 < out@.len() && k1 != k2 ==> (#[trigger] out@[k1]).view() != (
                    #[trigger] out@[k2]).view(),
                count_true(picked@) <= n,
            decreases 2 * (n - count_true(picked@)) + (if finished { 0int } else { 1int }),
        {
            let mut best: Option<usize> = None;
            let mut j: usize = 0;
            while j < n
                invariant
                    n == states@.len(),
                    scores@.len() == n,
                    picked@.len() == n,
                    j <= n,
                    best is Some ==> best->0 < j && !picked@[best->0 as int] && forall|m: int|
                        0 <= m < j && !#[trigger] picked@[m] ==> scores@[best->0 as int] <= scores@[m],
                    best is None ==> forall|m: int| 0 <= m < j ==> #[trigger] picked@[m],
                    hs.len() == n,
                    forall|m: int| 0 <= m < n ==> #[trigger] hs[m] == scores@[m],
                    unpicked_min(hs, picked@, 0, -1) == unpicked_min(hs, picked@, j as int, match best {
                        Some(b) => b as int,
                        None => -1,
                    }),
                decreases n - j,
            {
                if !picked[j] {
                    let better = match best {
                        None => true,
                        Some(b) => scores[j] < scores[b],
                    };
                    if better {
                        best = Some(j);
                    }
                }
                j += 1;
            }
            match best {
                None => {
                    finished = true;
                },
                Some(b) => {
                    proof {
                        lemma_count_true_set(picked@, b as int);
                        lemma_count_true_full(picked@.update(b as int, true));
                    }
                    let ghost old_picked = picked@;
                    let ghost old_views = views(out@);
                    picked.set(b, true);
                    let mut dup: Option<usize> = None;
                    let mut k: usize = 0;
                    while k < out.len() && dup.is_none()
                        invariant
                            b < n == states@.len(),
                            k <= out@.len(),
                            dup is Some ==> dup->0 < out@.len() && out@[dup->0 as int].view() == states@[b as int].view(),
                            dup is None ==> forall|m: int| 0 <= m < k ==> (#[trigger] out@[m]).view() != states@[b as int].view(),
                        decreases out@.len() - k + (if dup is None { 1int } else { 0int }),
                    {
                        if out[k].same_as(&states[b]) {
                            dup = Some(k);
                        } else {
                            k += 1;
                        }
                    }
                    proof {
                        assert(dup is Some <==> old_views.contains(vs[b as int])) by {
                            if let Some(d) = dup {
                                assert(old_views[d as int] == vs[b as int]);
                            }
                            if old_views.contains(vs[b as int]) {
                                let w = choose|w: int| 0 <= w < old_views.len() && old_views[w] == vs[b as int];
                                assert(out@[w].view() == states@[b as int].view());
                            }
                        }
                    }
                    match dup {
                        Some(k) => {
                            proof {
                                rep = rep.update(b as int, k as int);
                            }
                        },
                        None => {
                            let copy = states[b].duplicate();
                            let ghost old_out = out@;
                            assert(k == old_out.len());
                            out.push(copy);
                            proof {
                                assert forall|k1: int, k2: int|
                                    0 <= k1 < out@.len() && 0 <= k2 < out@.len() && k1 != k2 implies (#[trigger] out@[k1]).view() != (
                                    #[trigger] out@[k2]).view() by {
                                    if k1 < old_out.len() && k2 < old_out.len() {
                                        assert(out@[k1] == old_out[k1]);
                                        assert(out@[k2] == old_out[k2]);
                                    } else if k1 < old_out.len() {
                                        assert(out@[k1] == old_out[k1]);
                                        assert(old_out[k1].view() != states@[b as int].view());
                                    } else {
                                        assert(out@[k2] == old_out[k2]);
                                        assert(old_out[k2].view() != states@[b as int].view());
                                    }
                                }
                                rep = rep.update(b as int, out@.len() - 1);
                                src = src.push(b as int);
                                assert(views(out@) =~= old_views.push(vs[b as int]));
                                assert(heuristic(inst, out@[out@.len() - 1].view()) == scores@[b as int]);
                            }
                        },
                    }
                    proof {
                        assert forall|jj: int, kk: int|
                            0 <= jj < n && !#[trigger] picked@[jj] && 0 <= kk < out@.len() implies heuristic(inst, (#[trigger] out@[kk]).view())
                                <= scores@[jj] by {
                            assert(!old_picked[jj]);
                            if kk == out@.len() - 1 && dup is None {
                                assert(scores@[b as int] <= scores@[jj]);
                            }
                        }
                    }
                },
            }
        }
        proof {
            assert forall|k: int| 0 <= k < out@.len() implies #[trigger] among(states@, out@[k]) by {
                assert(states@[src[k]].view() == out@[k].view());
            }
            assert forall|j: int| 0 <= j < states@.len() implies #[trigger] kept_or_no_better(inst, out@, states@[j]) by {
                if picked@[j] {
                    assert(out@[rep[j]].view() == states@[j].view());
                } else {
                    assert forall|k: int| 0 <= k < out@.len() implies heuristic(inst, (#[trigger] out@[k]).view()) <= heuristic(inst, states@[j].view()) by {
                        assert(heuristic(inst, out@[k].view()) <= scores@[j]);
                    }
                }
            }
        }
        out
    }

    /// Among the states whose routes qualify, the solution of the lowest
    /// objective (the earliest on ties); `None` where none qualifies.
    pub fn best_complete_solution(&self, beam: &Vec<PartialSolution>) -> (r: Option<Solution<'a>>)
        requires
            self.instance.wf(),
            forall|i: int| 0 <= i < beam@.len() ==> (#[trigger] beam@[i]).wf(self.instance),
        ensures
            r is Some ==> {
                &&& r->0.wf()
                &&& r->0.instance == self.instance
                &&& r->0.valid()
                &&& r->0.scorable()
                &&& r->0.rs().len() == self.instance.n_vehicles
                &&& exists|k: int| 0 <= k < beam@.len() && qualifies(self.instance, &beam@[k]) && #[trigger] beam@[k].view().rs == r->0.rs()
                &&& forall|k: int|
                    0 <= k < beam@.len() && qualifies(self.instance, #[trigger] &beam@[k]) ==> r->0.objective()
                        <= objective_micro(self.instance, beam@[k].view().rs)
            },
            r is None ==> forall|k: int| 0 <= k < beam@.len() ==> !qualifies(self.instance, #[trigger] &beam@[k]),
    {
        let inst = self.instance;
        let mut best: Option<Solution<'a>> = None;
        let mut best_obj: u128 = 0;
        let mut k: usize = 0;
        while k < beam.len()
            invariant
                inst == self.instance,
                inst.wf(),
                forall|i: int| 0 <= i < beam@.len() ==> (#[trigger] beam@[i]).wf(inst),
                k <= beam@.len(),
                best is None ==> forall|m: int| 0 <= m < k ==> !qualifies(inst, #[trigger] &beam@[m]),
                best is Some ==> {
                    &&& best->0.wf()
                    &&& best->0.instance == inst
                    &&& best->0.valid()
                    &&& best->0.scorable()
                    &&& best->0.rs().len() == inst.n_vehicles
                    &&& best_obj == best->0.objective()
                    &&& exists|m: int| 0 <= m < beam@.len() && qualifies(inst, &beam@[m]) && #[trigger] beam@[m].view().rs == best->0.rs()
                    &&& forall|m: int|
                        0 <= m < k && qualifies(inst, #[trigger] &beam@[m]) ==> best_obj <= objective_micro(inst, beam@[m].view().rs)
                },
            decreases beam@.len() - k,
        {
            let st = &beam[k];
            if st.served_count >= inst.gamma && self.is_feasible(st) {
                let sol = Solution { instance: inst, routes: copy_routes(&st.routes) };
                if sol.is_valid() && sol.within_limits() {
                    let obj = sol.objective_function_value();
                    assert(qualifies(inst, &beam@[k as int]));
                    if best.is_none() || obj < best_obj {
                        best = Some(sol);
                        best_obj = obj;
                    }
                }
            }
            k += 1;
        }
        best
    }

    /// Every route empty: the answer when no complete state was found.
    pub fn fallback_solution(&self) -> (r: Solution<'a>)
        requires
            self.instance.wf(),
        ensures
            r.wf(),
            r.instance == self.instance,
            r.rs().len() == self.instance.n_vehicles,
            forall|v: int| 0 <= v < r.rs().len() ==> (#[trigger] r.rs()[v]).len() == 0,
    {
        let r = Solution::empty(self.instance, self.instance.n_vehicles);
        proof {
            assert forall|u: int, j: int| 0 <= u < r.rs().len() && 0 <= j < r.rs()[u].len() implies #[trigger] r.rs()[u][j] < self.instance.num_nodes() by {
            }
        }
        r
    }

    /// The successors of every state of the beam, state by state.
    fn expand(&self, beam: &Vec<PartialSolution>) -> (r: Vec<PartialSolution>)
        requires
            self.instance.wf(),
            forall|i: int| 0 <= i < beam@.len() ==> (#[trigger] beam@[i]).wf(self.instance),
        ensures
            forall|i: int| 0 <= i < r@.len() ==> (#[trigger] r@[i]).wf(self.instance),
            views(r@) == expand_spec(self.instance, views(beam@)),
    {
        let mut all: Vec<PartialSolution> = Vec::new();
        let mut b: usize = 0;
        assert(views(all@) =~= expand_spec(self.instance, views(beam@).subrange(0, 0)));
        while b < beam.len()
            invariant
                self.instance.wf(),
                forall|i: int| 0 <= i < beam@.len() ==> (#[trigger] beam@[i]).wf(self.instance),
                b <= beam@.len(),
                forall|i: int| 0 <= i < all@.len() ==> (#[trigger] all@[i]).wf(self.instance),
                views(all@) == expand_spec(self.instance, views(beam@).subrange(0, b as int)),
            decreases beam@.len() - b,
        {
            let mut succ = self.generate_successors(&beam[b]);
            let ghost before = views(all@);
            let ghost sv = views(succ@);
            all.append(&mut succ);
            proof {
                let pre = views(beam@).subrange(0, b + 1);
                assert(pre.drop_last() =~= views(beam@).subrange(0, b as int));
                assert(pre.last() == beam@[b as int].view());
                assert(views(all@) =~= before + sv);
            }
            b += 1;
        }
        assert(views(beam@).subrange(0, beam@.len() as int) =~= views(beam@));
        all
    }

    /// The complete and the other states of `all`, each in order.
    fn split_complete(&self, all: &Vec<PartialSolution>) -> (r: (Vec<PartialSolution>, Vec<PartialSolution>))
        requires
            self.instance.wf(),
            forall|i: int| 0 <= i < all@.len() ==> (#[trigger] all@[i]).wf(self.instance),
        ensures
            forall|i: int| 0 <= i < r.0@.len() ==> (#[trigger] r.0@[i]).wf(self.instance),
            forall|i: int| 0 <= i < r.1@.len() ==> (#[trigger] r.1@[i]).wf(self.instance),
            views(r.0@) == complete_part(self.instance, views(all@)),
            views(r.1@) == incomplete_part(self.instance, views(all@)),
    {
        let inst = self.instance;
        let mut complete: Vec<PartialSolution> = Vec::new();
        let mut incomplete: Vec<PartialSolution> = Vec::new();
        let mut k: usize = 0;
        assert(views(all@).subrange(0, 0) =~= Seq::<PartialView>::empty());
        assert(views(complete@) =~= Seq::<PartialView>::empty());
        assert(views(incomplete@) =~= Seq::<PartialView>::empty());
        while k < all.len()
            invariant
                inst == self.instance,
                inst.wf(),
                forall|i: int| 0 <= i < all@.len() ==> (#[trigger] all@[i]).wf(inst),
                forall|i: int| 0 <= i < complete@.len() ==> (#[trigger] complete@[i]).wf(inst),
                forall|i: int| 0 <= i < incomplete@.len() ==> (#[trigger] incomplete@[i]).wf(inst),
                k <= all@.len(),
                views(complete@) == complete_part(inst, views(all@).subrange(0, k as int)),
                views(incomplete@) == incomplete_part(inst, views(all@).subrange(0, k as int)),
            decreases all@.len() - k,
        {
            let st = all[k].duplicate();
            assert(st.wf(inst)) by {
                assert(st.view() == all@[k as int].view());
            }
            let ghost pre = views(all@).subrange(0, k + 1);
            proof {
                assert(pre.drop_last() =~= views(all@).subrange(0, k as int));
                assert(pre.last() == st.view());
            }
            let ghost vc = views(complete@);
            let ghost vi = views(incomplete@);
            if st.served_count >= inst.gamma && self.is_feasible(&st) {
                complete.push(st);
                assert(views(complete@) =~= vc.push(pre.last()));
            } else {
                incomplete.push(st);
                assert(views(incomplete@) =~= vi.push(pre.last()));
            }
            k += 1;
        }
        assert(views(all@).subrange(0, all@.len() as int) =~= views(all@));
        (complete, incomplete)
    }

    /// The round after the first complete depth: the beam with its
    /// successors, selected again.
    fn bonus_round(&self, beam: Vec<PartialSolution>) -> (r: Vec<PartialSolution>)
        requires
            self.instance.wf(),
            forall|i: int| 0 <= i < beam@.len() ==> (#[trigger] beam@[i]).wf(self.instance),
        ensures
            forall|i: int| 0 <= i < r@.len() ==> (#[trigger] r@[i]).wf(self.instance),
            views(r@) == selected(
                self.instance,
                self.beam_width as nat,
                views(beam@) + expand_spec(self.instance, views(beam@)),
            ),
    {
        let inst = self.instance;
        let mut continued: Vec<PartialSolution> = Vec::new();
        let mut k: usize = 0;
        assert(views(continued@) =~= views(beam@).subrange(0, 0));
        while k < beam.len()
            invariant
                inst == self.instance,
                inst.wf(),
                forall|i: int| 0 <= i < beam@.len() ==> (#[trigger] beam@[i]).wf(inst),
                forall|i: int| 0 <= i < continued@.len() ==> (#[trigger] continued@[i]).wf(inst),
                k <= beam@.len(),
                views(continued@) == views(beam@).subrange(0, k as int),
            decreases beam@.len() - k,
        {
            let st = beam[k].duplicate();
            assert(st.wf(inst)) by {
                assert(st.view() == beam@[k as int].view());
            }
            let ghost vc = views(continued@);
            let ghost sv = st.view();
            continued.push(st);
            assert(views(continued@) =~= vc.push(sv));
            assert(views(beam@).subrange(0, k + 1) =~= views(beam@).subrange(0, k as int).push(views(beam@)[k as int]));
            k += 1;
        }
        assert(views(beam@).subrange(0, beam@.len() as int) =~= views(beam@));
        let ghost vb = views(continued@);
        let mut more = self.expand(&beam);
        let ghost vm = views(more@);
        continued.append(&mut more);
        assert(views(continued@) =~= vb + vm);
        self.select_best_states(continued)
    }

    /// The beam that the search ends with.
    pub open spec fn final_beam(&self) -> Seq<PartialView> {
        run_beam(self.instance, self.beam_width as nat, self.depth_budget(), 0, seq![initial_view(self.instance)])
    }

    /// Beam search from the empty state (see `run_beam`). Returns the
    /// routes of a qualifying state of the final beam of lowest objective,
    /// or all routes empty exactly where no state of the final beam
    /// qualifies.
    pub fn search(&self) -> (r: Solution<'a>)
        requires
            self.instance.wf(),
        ensures
            r.wf(),
            r.instance == self.instance,
            r.rs().len() == self.instance.n_vehicles,
            (exists|k: int| 0 <= k < self.final_beam().len() && qualifies_view(self.instance, #[trigger] self.final_beam()[k]))
                ==> {
                &&& r.valid()
                &&& r.scorable()
                &&& exists|k: int|
                    0 <= k < self.final_beam().len() && qualifies_view(self.instance, self.final_beam()[k])
                        && #[trigger] self.final_beam()[k].rs == r.rs()
                &&& forall|k: int|
                    0 <= k < self.final_beam().len() && qualifies_view(self.instance, #[trigger] self.final_beam()[k])
                        ==> r.objective() <= objective_micro(self.instance, self.final_beam()[k].rs)
            },
            !(exists|k: int| 0 <= k < self.final_beam().len() && qualifies_view(self.instance, #[trigger] self.final_beam()[k]))
                ==> forall|v: int| 0 <= v < r.rs().len() ==> (#[trigger] r.rs()[v]).len() == 0,
            (r.valid() && r.scorable()) || forall|v: int| 0 <= v < r.rs().len() ==> (#[trigger] r.rs()[v]).len() == 0,
            forall|v: int, i: int|
                0 <= v < r.rs().len() && 0 <= i <= r.rs()[v].len() ==> #[trigger] load(self.instance, r.rs()[v], i)
                    <= self.instance.cap,
            total_stops(r.rs()) <= self.depth_budget(),
    {
        let inst = self.instance;
        let bw = self.beam_width;
        let max_depth: usize = match self.max_depth {
            Some(d) => d,
            None => if inst.n_reqs <= usize::MAX / 4 {
                4 * inst.n_reqs
            } else {
                usize::MAX
            },
        };
        let ghost md = self.depth_budget();
        assert(max_depth == md);
        let mut beam: Vec<PartialSolution> = Vec::new();
        beam.push(self.initial_state());
        assert(views(beam@) =~= seq![initial_view(inst)]);
        let mut depth: usize = 0;
        let mut done = false;
        while depth < max_depth && !done
            invariant
                inst == self.instance,
                inst.wf(),
                bw == self.beam_width,
                max_depth == md,
                depth <= max_depth,
                forall|i: int| 0 <= i < beam@.len() ==> (#[trigger] beam@[i]).wf(inst),
                !done ==> self.final_beam() == run_beam(inst, bw as nat, md, depth as nat, views(beam@)),
                done ==> self.final_beam() == views(beam@),
            decreases 2 * (max_depth - depth) + (if done { 0int } else { 1int }),
        {
            if beam.len() == 0 {
                done = true;
            } else {
                let all = self.expand(&beam);
                if all.len() == 0 {
                    done = true;
                } else {
                    let (complete, incomplete) = self.split_complete(&all);
                    if complete.len() > 0 {
                        beam = self.select_best_states(complete);
                        if depth < max_depth - 1 {
                            beam = self.bonus_round(beam);
                        }
                        done = true;
                    } else {
                        beam = self.select_best_states(incomplete);
                        depth += 1;
                    }
                }
            }
        }
        let ghost fb = views(beam@);
        assert(self.final_beam() == fb);
        let found = self.best_complete_solution(&beam);
        let ghost some = found is Some;
        let r = match found {
            Some(s) => s,
            None => self.fallback_solution(),
        };
        proof {
            assert forall|k: int| 0 <= k < beam@.len() implies #[trigger] fb[k] == beam@[k].view() by {}
            assert forall|k: int| 0 <= k < fb.len() implies (qualifies_view(inst, #[trigger] fb[k]) <==> qualifies(inst, &beam@[k])) by {
                assert(fb[k] == beam@[k].view());
            }
            let iv = initial_view(inst);
            lemma_total_empty(iv.rs);
            assert(beam_within(inst, seq![iv], 0)) by {
                assert forall|k: int| 0 <= k < seq![iv].len() implies stops_within(inst, #[trigger] seq![iv][k], 0) by {
                    assert(seq![iv][k] == iv);
                }
            }
            lemma_run_within(inst, bw as nat, md, 0, seq![iv]);
            if some {
                let k0 = choose|k: int| 0 <= k < beam@.len() && qualifies(inst, &beam@[k]) && #[trigger] beam@[k].view().rs == r.rs();
                assert(stops_within(inst, fb[k0], md));
                assert(fb[k0].rs == r.rs());
                assert(qualifies_view(inst, fb[k0]));
                assert forall|k: int| 0 <= k < fb.len() && qualifies_view(inst, #[trigger] fb[k]) implies r.objective()
                    <= objective_micro(inst, fb[k].rs) by {
                    assert(qualifies(inst, &beam@[k]));
                    assert(fb[k] == beam@[k].view());
                }
            } else {
                assert forall|k: int| 0 <= k < fb.len() implies !qualifies_view(inst, #[trigger] fb[k]) by {
                    assert(!qualifies(inst, &beam@[k]));
                }
                lemma_total_empty(r.rs());
            }
            assert forall|v: int, i: int|
                0 <= v < r.rs().len() && 0 <= i <= r.rs()[v].len() implies #[trigger] load(inst, r.rs()[v], i)
                    <= inst.cap by {
                if r.valid() {
                    lemma_route_loads(inst, r.rs(), v, i);
                } else {
                    assert(r.rs()[v].len() == 0);
                }
            }
            if exists|k: int| 0 <= k < fb.len() && qualifies_view(inst, #[trigger] fb[k]) {
                let k = choose|k: int| 0 <= k < fb.len() && qualifies_view(inst, #[trigger] fb[k]);
                assert(qualifies(inst, &beam@[k]));
            }
        }
        r
    }
}

impl<'a> Solver<'a> for BeamSearch<'a> {
    open spec fn problem(&self) -> &'a Instance {
        self.instance
    }

    /// A qualifying state of the final beam of lowest objective, or all
    /// routes empty where none qualifies.
    open spec fn solves(&self, r: Solution<'a>) -> bool {
        &&& (exists|k: int| 0 <= k < self.final_beam().len() && qualifies_view(self.instance, #[trigger] self.final_beam()[k]))
            ==> {
            &&& r.valid()
            &&& r.scorable()
            &&& exists|k: int|
                0 <= k < self.final_beam().len() && qualifies_view(self.instance, self.final_beam()[k])
                    && #[trigger] self.final_beam()[k].rs == r.rs()
            &&& forall|k: int|
                0 <= k < self.final_beam().len() && qualifies_view(self.instance, #[trigger] self.final_beam()[k])
                    ==> r.objective() <= objective_micro(self.instance, self.final_beam()[k].rs)
        }
        &&& !(exists|k: int| 0 <= k < self.final_beam().len() && qualifies_view(self.instance, #[trigger] self.final_beam()[k]))
            ==> forall|v: int| 0 <= v < r.rs().len() ==> (#[trigger] r.rs()[v]).len() == 0
        &&& total_stops(r.rs()) <= self.depth_budget()
    }

    fn solve(&self) -> (r: Solution<'a>) {
        self.search()
    }
}

} // verus!
