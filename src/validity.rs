use vstd::prelude::*;
use crate::evaluation::{nodes_in_range, routes_view};
use crate::instance::Instance;

verus! {

/// The signed load after the first `i` stops of a route.
pub open spec fn load(inst: &Instance, r: Seq<usize>, i: int) -> int
    decreases i,
{
    if i <= 0 {
        0
    } else {
        load(inst, r, i - 1) + inst.delta(r[i - 1] as int)
    }
}

/// No prefix load exceeds `cap` and the route ends empty.
pub open spec fn loads_ok(inst: &Instance, r: Seq<usize>) -> bool {
    &&& forall|i: int| 0 <= i <= r.len() ==> #[trigger] load(inst, r, i) <= inst.cap
    &&& load(inst, r, r.len() as int) == 0
}

/// Each dropoff of the route comes after its request's pickup in the same route.
pub open spec fn dropoffs_after_pickups(inst: &Instance, r: Seq<usize>) -> bool {
    forall|j: int|
        0 <= j < r.len() && inst.is_dropoff(#[trigger] r[j] as int) ==> exists|i: int|
            0 <= i < j && r[i] == inst.pickup_node(inst.req_of(r[j] as int))
}

/// No pickup node occurs twice, within a route or across routes.
pub open spec fn pickups_unique(inst: &Instance, rs: Seq<Seq<usize>>) -> bool {
    forall|v1: int, i1: int, v2: int, i2: int|
        0 <= v1 < rs.len() && 0 <= i1 < rs[v1].len() && 0 <= v2 < rs.len() && 0 <= i2 < rs[v2].len()
            && inst.is_pickup(#[trigger] rs[v1][i1] as int) && #[trigger] rs[v2][i2] == rs[v1][i1] ==> v1 == v2 && i1
            == i2
}

/// Request `q` is delivered somewhere.
pub open spec fn served(inst: &Instance, rs: Seq<Seq<usize>>, q: int) -> bool {
    exists|v: int, j: int| 0 <= v < rs.len() && 0 <= j < rs[v].len() && rs[v][j] == inst.dropoff_node(q)
}

/// The number of requests among `0..m` that are delivered.
pub open spec fn served_count(inst: &Instance, rs: Seq<Seq<usize>>, m: int) -> nat
    decreases m,
{
    if m <= 0 {
        0
    } else {
        served_count(inst, rs, m - 1) + if served(inst, rs, m - 1) {
            1nat
        } else {
            0nat
        }
    }
}

/// A feasible set of routes: loads within capacity and back to zero,
/// dropoffs after their pickups in the same route, no pickup twice, and at
/// least `gamma` distinct requests delivered.
pub open spec fn routes_valid(inst: &Instance, rs: Seq<Seq<usize>>) -> bool {
    &&& forall|v: int| 0 <= v < rs.len() ==> loads_ok(inst, #[trigger] rs[v])
    &&& forall|v: int| 0 <= v < rs.len() ==> dropoffs_after_pickups(inst, #[trigger] rs[v])
    &&& pickups_unique(inst, rs)
    &&& served_count(inst, rs, inst.n_reqs as int) >= inst.gamma
}

/// Position `(u, j)` comes before position `(v, i)` in route-major order.
pub open spec fn before(rs: Seq<Seq<usize>>, u: int, j: int, v: int, i: int) -> bool {
    0 <= u && 0 <= j && ((u < v && j < rs[u].len()) || (u == v && j < i))
}

proof fn lemma_served_count_bound(inst: &Instance, rs: Seq<Seq<usize>>, m: int)
    ensures
        served_count(inst, rs, m) <= if m < 0 { 0 } else { m },
    decreases m,
{
    if m > 0 {
        lemma_served_count_bound(inst, rs, m - 1);
    }
}

/// Checks `routes_valid` in one pass over the stops.
pub fn check_routes(inst: &Instance, routes: &Vec<Vec<usize>>) -> (r: bool)
    requires
        inst.wf(),
        nodes_in_range(inst, routes_view(routes)),
    ensures
        r == routes_valid(inst, routes_view(routes)),
{
    let ghost rs = routes_view(routes);
    let n = inst.n_reqs;
    let cap = inst.cap;
    let mut picked: Vec<bool> = Vec::new();
    let mut owner: Vec<usize> = Vec::new();
    let mut delivered: Vec<bool> = Vec::new();
    let ghost mut pick_at: Seq<int> = Seq::empty();
    let ghost mut drop_v: Seq<int> = Seq::empty();
    let ghost mut drop_j: Seq<int> = Seq::empty();
    let mut q0: usize = 0;
    while q0 < n
        invariant
            q0 <= n,
            picked@.len() == q0,
            owner@.len() == q0,
            delivered@.len() == q0,
            pick_at.len() == q0,
            drop_v.len() == q0,
            drop_j.len() == q0,
            forall|q: int| 0 <= q < q0 ==> !#[trigger] picked@[q],
            forall|q: int| 0 <= q < q0 ==> !#[trigger] delivered@[q],
        decreases n - q0,
    {
        picked.push(false);
        owner.push(0);
        delivered.push(false);
        proof {
            pick_at = pick_at.push(0);
            drop_v = drop_v.push(0);
            drop_j = drop_j.push(0);
        }
        q0 += 1;
    }
    let mut v: usize = 0;
    while v < routes.len()
        invariant
            inst.wf(),
            n == inst.n_reqs,
            cap == inst.cap,
            rs == routes_view(routes),
            nodes_in_range(inst, rs),
            v <= rs.len(),
            picked@.len() == n,
            owner@.len() == n,
            delivered@.len() == n,
            pick_at.len() == n,
            drop_v.len() == n,
            drop_j.len() == n,
            forall|u: int| 0 <= u < v ==> loads_ok(inst, #[trigger] rs[u]),
            // every pickup seen so far is recorded, at its one position
            forall|u: int, j: int|
                before(rs, u, j, v as int, 0) && inst.is_pickup(#[trigger] rs[u][j] as int) ==> picked@[inst.req_of(
                    rs[u][j] as int,
                )] && owner@[inst.req_of(rs[u][j] as int)] == u && pick_at[inst.req_of(rs[u][j] as int)] == j,
            forall|q: int|
                0 <= q < n && #[trigger] picked@[q] ==> before(rs, owner@[q] as int, pick_at[q], v as int, 0)
                    && rs[owner@[q] as int][pick_at[q]] == inst.pickup_node(q),
            // every dropoff seen so far is recorded, after its pickup
            forall|u: int, j: int|
                before(rs, u, j, v as int, 0) && inst.is_dropoff(#[trigger] rs[u][j] as int) ==> delivered@[inst.req_of(
                    rs[u][j] as int,
                )] && picked@[inst.req_of(rs[u][j] as int)] && owner@[inst.req_of(rs[u][j] as int)] == u
                    && pick_at[inst.req_of(rs[u][j] as int)] < j,
            forall|q: int|
                0 <= q < n && #[trigger] delivered@[q] ==> before(rs, drop_v[q], drop_j[q], v as int, 0)
                    && rs[drop_v[q]][drop_j[q]] == inst.dropoff_node(q),
        decreases rs.len() - v,
    {
        let route = &routes[v];
        assert(route@ == rs[v as int]);
        // the signed load is `up - down`, each an unsigned sum that cannot underflow
        let mut up: u128 = 0;
        let mut down: u128 = 0;
        let mut i: usize = 0;
        while i < route.len()
            invariant
                inst.wf(),
                n == inst.n_reqs,
                cap == inst.cap,
                rs == routes_view(routes),
                nodes_in_range(inst, rs),
                v < rs.len(),
                route@ == rs[v as int],
                i <= route@.len(),
                picked@.len() == n,
                owner@.len() == n,
                delivered@.len() == n,
                pick_at.len() == n,
                drop_v.len() == n,
                drop_j.len() == n,
                forall|u: int| 0 <= u < v ==> loads_ok(inst, #[trigger] rs[u]),
                up - down == load(inst, rs[v as int], i as int),
                up <= i * 18446744073709551615,
                down <= i * 18446744073709551615,
                forall|k: int| 0 <= k <= i ==> #[trigger] load(inst, rs[v as int], k) <= inst.cap,
                forall|u: int, j: int|
                    before(rs, u, j, v as int, i as int) && inst.is_pickup(#[trigger] rs[u][j] as int) ==> picked@[inst.req_of(
                        rs[u][j] as int,
                    )] && owner@[inst.req_of(rs[u][j] as int)] == u && pick_at[inst.req_of(rs[u][j] as int)] == j,
                forall|q: int|
                    0 <= q < n && #[trigger] picked@[q] ==> before(rs, owner@[q] as int, pick_at[q], v as int, i as int)
                        && rs[owner@[q] as int][pick_at[q]] == inst.pickup_node(q),
                forall|u: int, j: int|
                    before(rs, u, j, v as int, i as int) && inst.is_dropoff(#[trigger] rs[u][j] as int) ==> delivered@[inst.req_of(
                        rs[u][j] as int,
                    )] && picked@[inst.req_of(rs[u][j] as int)] && owner@[inst.req_of(rs[u][j] as int)] == u
                        && pick_at[inst.req_of(rs[u][j] as int)] < j,
                forall|q: int|
                    0 <= q < n && #[trigger] delivered@[q] ==> before(rs, drop_v[q], drop_j[q], v as int, i as int)
                        && rs[drop_v[q]][drop_j[q]] == inst.dropoff_node(q),
            decreases route@.len() - i,
        {
            let x = route[i];
            assert(rs[v as int][i as int] == x);
            assert(x < inst.num_nodes());
            proof {
                assert(i < 18446744073709551615);
                assert(i * 18446744073709551615 + 18446744073709551615 == (i + 1) * 18446744073709551615) by (nonlinear_arith);
                assert((i + 1) * 18446744073709551615 <= 18446744073709551615 * 18446744073709551615) by (nonlinear_arith)
                    requires i + 1 <= 18446744073709551615;
            }
            if x >= 1 && x <= n {
                let q = x - 1;
                if picked[q] {
                    proof {
                        let u = owner@[q as int] as int;
                        let j = pick_at[q as int];
                        assert(rs[u][j] == x);
                        assert(!pickups_unique(inst, rs));
                    }
                    return false;
                }
                let dem = inst.demands[q] as u128;
                if up + dem > cap as u128 + down {
                    proof {
                        assert(load(inst, rs[v as int], i + 1) > inst.cap);
                        assert(!loads_ok(inst, rs[v as int]));
                    }
                    return false;
                }
                up = up + dem;
                picked.set(q, true);
                owner.set(q, v);
                proof {
                    pick_at = pick_at.update(q as int, i as int);
                }
            } else if x > n {
                let q = x - n - 1;
                if !picked[q] || owner[q] != v {
                    proof {
                        if dropoffs_after_pickups(inst, rs[v as int]) {
                            let k = choose|k: int| 0 <= k < i && rs[v as int][k] == inst.pickup_node(q as int);
                            assert(before(rs, v as int, k, v as int, i as int));
                            assert(inst.is_pickup(rs[v as int][k] as int));
                            assert(false);
                        }
                    }
                    return false;
                }
                let dem = inst.demands[q] as u128;
                down = down + dem;
                delivered.set(q, true);
                proof {
                    drop_v = drop_v.update(q as int, v as int);
                    drop_j = drop_j.update(q as int, i as int);
                }
            }
            i += 1;
        }
        if up != down {
            proof {
                assert(!loads_ok(inst, rs[v as int]));
            }
            return false;
        }
        v += 1;
    }
    // every stop has been seen: count the delivered requests
    let mut count: usize = 0;
    let mut q: usize = 0;
    while q < n
        invariant
            inst.wf(),
            n == inst.n_reqs,
            rs == routes_view(routes),
            q <= n,
            delivered@.len() == n,
            drop_v.len() == n,
            drop_j.len() == n,
            count == served_count(inst, rs, q as int),
            forall|k: int| 0 <= k < n ==> (#[trigger] delivered@[k] <==> served(inst, rs, k)),
        decreases n - q,
    {
        proof {
            lemma_served_count_bound(inst, rs, q as int);
        }
        if delivered[q] {
            count += 1;
        }
        q += 1;
    }
    count >= inst.gamma
}

} // verus!

verus! {

/// In a feasible set of routes, a delivered request was picked up earlier in
/// the same route, and both of its nodes occur in that one route only: its
/// pickup exactly once.
pub proof fn lemma_served_request_in_one_route(inst: &Instance, rs: Seq<Seq<usize>>, q: int)
    requires
        inst.wf(),
        routes_valid(inst, rs),
        0 <= q < inst.n_reqs,
        served(inst, rs, q),
    ensures
        exists|v: int, i: int, j: int|
            0 <= v < rs.len() && 0 <= i < j < rs[v].len() && rs[v][i] == inst.pickup_node(q) && rs[v][j]
                == inst.dropoff_node(q) && (forall|u: int, k: int|
                0 <= u < rs.len() && 0 <= k < rs[u].len() && #[trigger] rs[u][k] == inst.pickup_node(q) ==> u == v
                    && k == i) && (forall|u: int, k: int|
                0 <= u < rs.len() && 0 <= k < rs[u].len() && #[trigger] rs[u][k] == inst.dropoff_node(q) ==> u
                    == v),
{
    let (v, j) = choose|v: int, j: int|
        0 <= v < rs.len() && 0 <= j < rs[v].len() && rs[v][j] == inst.dropoff_node(q);
    assert(dropoffs_after_pickups(inst, rs[v]));
    assert(inst.is_dropoff(rs[v][j] as int));
    let i = choose|i: int| 0 <= i < j && rs[v][i] == inst.pickup_node(inst.req_of(rs[v][j] as int));
    assert(inst.req_of(rs[v][j] as int) == q);
    assert forall|u: int, k: int|
        0 <= u < rs.len() && 0 <= k < rs[u].len() && #[trigger] rs[u][k] == inst.pickup_node(q) implies u == v
            && k == i by {
        assert(inst.is_pickup(rs[v][i] as int));
        assert(rs[u][k] == rs[v][i]);
    }
    assert forall|u: int, k: int|
        0 <= u < rs.len() && 0 <= k < rs[u].len() && #[trigger] rs[u][k] == inst.dropoff_node(q) implies u
            == v by {
        assert(dropoffs_after_pickups(inst, rs[u]));
        assert(inst.is_dropoff(rs[u][k] as int));
        assert(inst.req_of(rs[u][k] as int) == q);
        let i2 = choose|i2: int| 0 <= i2 < k && rs[u][i2] == inst.pickup_node(inst.req_of(rs[u][k] as int));
        assert(inst.is_pickup(rs[v][i] as int));
        assert(rs[u][i2] == rs[v][i]);
    }
}

/// In a feasible set of routes, the load along every route never exceeds
/// `cap` and is zero at the route's end.
pub proof fn lemma_route_loads(inst: &Instance, rs: Seq<Seq<usize>>, v: int, i: int)
    requires
        routes_valid(inst, rs),
        0 <= v < rs.len(),
        0 <= i <= rs[v].len(),
    ensures
        load(inst, rs[v], i) <= inst.cap,
        load(inst, rs[v], rs[v].len() as int) == 0,
{
    assert(loads_ok(inst, rs[v]));
}

} // verus!
