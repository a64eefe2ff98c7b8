use vstd::prelude::*;
use crate::evaluation::{nodes_in_range, routes_view};
use crate::instance::{Instance, MAX_REQS};
use crate::local_search::{neighborhood_candidates, Neighborhood};
use crate::solution::Solution;
use crate::evaluation::scorable;
use crate::validity::{load, routes_valid};

verus! {

/// The route with every occurrence of nodes `p` and `d` taken out.
pub open spec fn without(r: Seq<usize>, p: int, d: int) -> Seq<usize>
    decreases r.len(),
{
    if r.len() == 0 {
        r
    } else {
        let t = without(r.drop_last(), p, d);
        if r.last() != p && r.last() != d {
            t.push(r.last())
        } else {
            t
        }
    }
}

/// The route with pickup `p` put at `pos` and then dropoff `d` at `dpos`.
pub open spec fn with_request(r: Seq<usize>, pos: int, dpos: int, p: usize, d: usize) -> Seq<usize> {
    r.insert(pos, p).insert(dpos, d)
}

/// No prefix load of the route exceeds `cap`.
pub open spec fn capacity_ok(inst: &Instance, r: Seq<usize>) -> bool {
    forall|i: int| 0 <= i <= r.len() ==> #[trigger] load(inst, r, i) <= inst.cap
}

/// The route with the stops at positions `i..=j` in reverse order.
pub open spec fn two_opt_route(r: Seq<usize>, i: int, j: int) -> Seq<usize> {
    Seq::new(r.len(), |k: int| if i <= k <= j { r[i + j - k] } else { r[k] })
}

/// Routes after moving request `q` from vehicle `v1` to vehicle `v2`.
pub open spec fn relocated(
    inst: &Instance,
    a: Seq<Seq<usize>>,
    v1: int,
    v2: int,
    q: int,
    pos: int,
    dpos: int,
) -> Seq<Seq<usize>> {
    let p = inst.pickup_node(q);
    let d = inst.dropoff_node(q);
    a.update(v1, without(a[v1], p, d)).update(v2, with_request(a[v2], pos, dpos, p as usize, d as usize))
}

pub open spec fn is_relocation(inst: &Instance, a: Seq<Seq<usize>>, b: Seq<Seq<usize>>) -> bool {
    exists|v1: int, v2: int, q: int, pos: int, dpos: int|
        relocation_considered(inst, a, v1, v2, q, pos, dpos) && #[trigger] relocated(inst, a, v1, v2, q, pos, dpos) == b
}

/// Routes after request `q1` of vehicle `v1` and request `q2` of vehicle
/// `v2` trade places.
pub open spec fn exchanged(
    inst: &Instance,
    a: Seq<Seq<usize>>,
    v1: int,
    v2: int,
    q1: int,
    q2: int,
    pos1: int,
    dpos1: int,
    pos2: int,
    dpos2: int,
) -> Seq<Seq<usize>> {
    let p1 = inst.pickup_node(q1);
    let d1 = inst.dropoff_node(q1);
    let p2 = inst.pickup_node(q2);
    let d2 = inst.dropoff_node(q2);
    a.update(v1, with_request(without(a[v1], p1, d1), pos2, dpos2, p2 as usize, d2 as usize)).update(
        v2,
        with_request(without(a[v2], p2, d2), pos1, dpos1, p1 as usize, d1 as usize),
    )
}

pub open spec fn is_exchange(inst: &Instance, a: Seq<Seq<usize>>, b: Seq<Seq<usize>>) -> bool {
    exists|v1: int, v2: int, q1: int, q2: int, pos1: int, pos2: int|
        exchange_considered(inst, a, v1, v2, q1, q2, pos1, pos2) && #[trigger] exchange_candidate(
            inst,
            a,
            v1,
            v2,
            q1,
            q2,
            pos1,
            pos2,
        ) == b
}

pub open spec fn is_two_opt(a: Seq<Seq<usize>>, b: Seq<Seq<usize>>) -> bool {
    exists|v: int, i: int, j: int|
        0 <= v < a.len() && 1 <= i < j <= a[v].len() - 2 && #[trigger] a.update(v, two_opt_route(a[v], i, j)) == b
}

/// A neighbour that the search may use: same instance and fleet, well
/// formed, feasible and scorable.
pub open spec fn usable_neighbor(cur: &Solution, nb: Solution) -> bool {
    &&& nb.instance == cur.instance
    &&& nb.wf()
    &&& nb.valid()
    &&& nb.scorable()
    &&& nb.rs().len() == cur.rs().len()
}

/// A generated neighbour: same instance and fleet, well formed; whether it
/// is feasible is for the caller to check.
pub open spec fn candidate_neighbor(cur: &Solution, nb: Solution) -> bool {
    &&& nb.instance == cur.instance
    &&& nb.wf()
    &&& nb.rs().len() == cur.rs().len()
}

pub fn copy_route(r: &Vec<usize>) -> (out: Vec<usize>)
    ensures
        out@ == r@,
{
    let mut out: Vec<usize> = Vec::new();
    let mut i: usize = 0;
    while i < r.len()
        invariant
            i <= r@.len(),
            out@ == r@.subrange(0, i as int),
        decreases r@.len() - i,
    {
        out.push(r[i]);
        i += 1;
        assert(out@ =~= r@.subrange(0, i as int));
    }
    assert(r@.subrange(0, r@.len() as int) =~= r@);
    out
}

pub fn copy_routes(rs: &Vec<Vec<usize>>) -> (out: Vec<Vec<usize>>)
    ensures
        out@.len() == rs@.len(),
        routes_view(&out) == routes_view(rs),
{
    let mut out: Vec<Vec<usize>> = Vec::new();
    let mut i: usize = 0;
    while i < rs.len()
        invariant
            i <= rs@.len(),
            out@.len() == i,
            forall|k: int| 0 <= k < i ==> #[trigger] out@[k]@ == rs@[k]@,
        decreases rs@.len() - i,
    {
        let r = copy_route(&rs[i]);
        out.push(r);
        i += 1;
    }
    assert(routes_view(&out) =~= routes_view(rs));
    out
}

/// The routes with route `v` replaced.
pub fn replace_route(routes: &Vec<Vec<usize>>, v: usize, r: Vec<usize>) -> (out: Vec<Vec<usize>>)
    requires
        v < routes@.len(),
    ensures
        out@.len() == routes@.len(),
        routes_view(&out) == routes_view(routes).update(v as int, r@),
{
    let mut out = copy_routes(routes);
    let ghost rv = r@;
    out.set(v, r);
    assert(routes_view(&out) =~= routes_view(routes).update(v as int, rv));
    out
}

/// Whether every stop is a node of the instance.
pub fn routes_in_range(inst: &Instance, routes: &Vec<Vec<usize>>) -> (r: bool)
    requires
        inst.wf(),
    ensures
        r == nodes_in_range(inst, routes_view(routes)),
{
    let nodes = 2 * inst.n_reqs + 1;
    let mut v: usize = 0;
    while v < routes.len()
        invariant
            inst.wf(),
            nodes == inst.num_nodes(),
            v <= routes@.len(),
            forall|u: int, j: int|
                0 <= u < v && 0 <= j < routes_view(routes)[u].len() ==> #[trigger] routes_view(routes)[u][j] < nodes,
        decreases routes@.len() - v,
    {
        let route = &routes[v];
        assert(route@ == routes_view(routes)[v as int]);
        let mut j: usize = 0;
        while j < route.len()
            invariant
                nodes == inst.num_nodes(),
                v < routes@.len(),
                route@ == routes_view(routes)[v as int],
                j <= route@.len(),
                forall|u: int, k: int|
                    0 <= u < v && 0 <= k < routes_view(routes)[u].len() ==> #[trigger] routes_view(routes)[u][k] < nodes,
                forall|k: int| 0 <= k < j ==> #[trigger] route@[k] < nodes,
            decreases route@.len() - j,
        {
            if route[j] >= nodes {
                assert(routes_view(routes)[v as int][j as int] >= nodes);
                return false;
            }
            j += 1;
        }
        v += 1;
    }
    true
}

/// The requests whose pickup occurs in the route, in increasing order,
/// each once.
pub fn extract_requests_from_route(inst: &Instance, route: &Vec<usize>) -> (r: Vec<usize>)
    requires
        inst.wf(),
    ensures
        forall|k: int| 0 <= k < r@.len() ==> #[trigger] r@[k] < inst.n_reqs,
        forall|k1: int, k2: int| 0 <= k1 < k2 < r@.len() ==> r@[k1] < r@[k2],
        forall|q: usize| q < inst.n_reqs ==> (#[trigger] r@.contains(q) <==> route@.contains((q + 1) as usize)),
{
    let n = inst.n_reqs;
    let mut marks: Vec<bool> = Vec::new();
    let mut q: usize = 0;
    while q < n
        invariant
            q <= n,
            marks@.len() == q,
            forall|k: int| 0 <= k < q ==> !#[trigger] marks@[k],
        decreases n - q,
    {
        marks.push(false);
        q += 1;
    }
    let mut i: usize = 0;
    while i < route.len()
        invariant
            n == inst.n_reqs,
            n <= MAX_REQS,
            i <= route@.len(),
            marks@.len() == n,
            forall|k: int| 0 <= k < n ==> (#[trigger] marks@[k] <==> route@.subrange(0, i as int).contains((k + 1) as usize)),
        decreases route@.len() - i,
    {
        let x = route[i];
        let ghost pre = route@.subrange(0, i as int);
        let ghost old_marks = marks@;
        proof {
            assert(route@.subrange(0, i + 1) =~= pre.push(x));
        }
        if x >= 1 && x <= n {
            marks.set(x - 1, true);
        }
        proof {
            assert forall|k: int| 0 <= k < n implies (#[trigger] marks@[k] <==> pre.push(x).contains((k + 1) as usize)) by {
                if pre.push(x).contains((k + 1) as usize) {
                    let w = choose|w: int| 0 <= w < pre.len() + 1 && pre.push(x)[w] == (k + 1) as usize;
                    if w < pre.len() {
                        assert(pre[w] == (k + 1) as usize);
                        assert(pre.contains((k + 1) as usize));
                    }
                }
                if pre.contains((k + 1) as usize) {
                    let w = choose|w: int| 0 <= w < pre.len() && pre[w] == (k + 1) as usize;
                    assert(pre.push(x)[w] == (k + 1) as usize);
                }
                if x == k + 1 {
                    assert(pre.push(x)[pre.len() as int] == x);
                }
            }
        }
        i += 1;
    }
    assert(route@.subrange(0, route@.len() as int) =~= route@);
    let mut out: Vec<usize> = Vec::new();
    let mut q: usize = 0;
    while q < n
        invariant
            n == inst.n_reqs,
            q <= n,
            marks@.len() == n,
            forall|k: int| 0 <= k < n ==> (#[trigger] marks@[k] <==> route@.contains((k + 1) as usize)),
            forall|k: int| 0 <= k < out@.len() ==> #[trigger] out@[k] < q,
            forall|k1: int, k2: int| 0 <= k1 < k2 < out@.len() ==> out@[k1] < out@[k2],
            forall|k: int| 0 <= k < q ==> (out@.contains(k as usize) <==> #[trigger] marks@[k]),
            forall|k: usize| q <= k < n ==> !#[trigger] out@.contains(k),
        decreases n - q,
    {
        if marks[q] {
            let ghost old_out = out@;
            out.push(q);
            proof {
                assert(out@.drop_last() =~= old_out);
                assert forall|k: int| 0 <= k < q + 1 implies (out@.contains(k as usize) <==> #[trigger] marks@[k]) by {
                    if k < q {
                        if out@.contains(k as usize) {
                            let w = choose|w: int| 0 <= w < out@.len() && out@[w] == k as usize;
                            assert(w < out@.len() - 1);
                        }
                        if marks@[k] {
                            assert(old_out.contains(k as usize));
                            let w = choose|w: int| 0 <= w < old_out.len() && old_out[w] == k as usize;
                            assert(out@[w] == k as usize);
                        }
                    } else {
                        assert(out@[out@.len() - 1] == q);
                    }
                }
                assert forall|k: usize| q + 1 <= k < n implies !#[trigger] out@.contains(k) by {
                    if out@.contains(k) {
                        let w = choose|w: int| 0 <= w < out@.len() && out@[w] == k;
                        if w < out@.len() - 1 {
                            assert(old_out[w] == k);
                            assert(old_out.contains(k));
                        }
                    }
                }
            }
        }
        q += 1;
    }
    proof {
        assert forall|k: usize| k < n implies (#[trigger] out@.contains(k) <==> route@.contains((k + 1) as usize)) by {
            assert(marks@[k as int] <==> route@.contains((k + 1) as usize));
        }
    }
    out
}

/// The route without the pickup and the dropoff of request `q`.
pub fn remove_request_from_route(inst: &Instance, route: &Vec<usize>, q: usize) -> (r: Vec<usize>)
    requires
        inst.wf(),
        q < inst.n_reqs,
    ensures
        r@ == without(route@, inst.pickup_node(q as int), inst.dropoff_node(q as int)),
{
    let p = q + 1;
    let d = q + 1 + inst.n_reqs;
    let mut out: Vec<usize> = Vec::new();
    let mut i: usize = 0;
    while i < route.len()
        invariant
            p == inst.pickup_node(q as int),
            d == inst.dropoff_node(q as int),
            i <= route@.len(),
            out@ == without(route@.subrange(0, i as int), p as int, d as int),
        decreases route@.len() - i,
    {
        let x = route[i];
        assert(route@.subrange(0, i + 1).drop_last() =~= route@.subrange(0, i as int));
        if x != p && x != d {
            out.push(x);
        }
        i += 1;
    }
    assert(route@.subrange(0, route@.len() as int) =~= route@);
    out
}

/// Whether no prefix load of the route exceeds `cap`.
pub fn check_route_capacity(inst: &Instance, route: &Vec<usize>) -> (r: bool)
    requires
        inst.wf(),
        forall|j: int| 0 <= j < route@.len() ==> #[trigger] route@[j] < inst.num_nodes(),
    ensures
        r == capacity_ok(inst, route@),
{
    let n = inst.n_reqs;
    let cap = inst.cap;
    // the signed load is `up - down`, each an unsigned sum that cannot underflow
    let mut up: u128 = 0;
    let mut down: u128 = 0;
    let mut i: usize = 0;
    while i < route.len()
        invariant
            inst.wf(),
            n == inst.n_reqs,
            cap == inst.cap,
            forall|j: int| 0 <= j < route@.len() ==> #[trigger] route@[j] < inst.num_nodes(),
            i <= route@.len(),
            up - down == load(inst, route@, i as int),
            up <= i * 18446744073709551615,
            down <= i * 18446744073709551615,
            forall|k: int| 0 <= k <= i ==> #[trigger] load(inst, route@, k) <= inst.cap,
        decreases route@.len() - i,
    {
        let x = route[i];
        assert(x < inst.num_nodes());
        proof {
            assert(i < 18446744073709551615);
            assert(i * 18446744073709551615 + 18446744073709551615 == (i + 1) * 18446744073709551615) by (nonlinear_arith);
            assert((i + 1) * 18446744073709551615 <= 18446744073709551615 * 18446744073709551615) by (nonlinear_arith)
                requires i + 1 <= 18446744073709551615;
        }
        if x >= 1 && x <= n {
            let dem = inst.demands[x - 1] as u128;
            if up + dem > cap as u128 + down {
                assert(load(inst, route@, i + 1) > inst.cap);
                return false;
            }
            up = up + dem;
        } else if x > n {
            let dem = inst.demands[x - n - 1] as u128;
            down = down + dem;
        }
        i += 1;
    }
    true
}

/// The route with the pickup of request `q` put at `position` and then its
/// dropoff at `dpos`.
pub fn insert_at(inst: &Instance, route: &Vec<usize>, q: usize, position: usize, dpos: usize) -> (r: Vec<usize>)
    requires
        inst.wf(),
        q < inst.n_reqs,
        position < dpos <= route@.len() + 1,
        route@.len() + 2 < usize::MAX,
        forall|j: int| 0 <= j < route@.len() ==> #[trigger] route@[j] < inst.num_nodes(),
    ensures
        r@ == with_request(route@, position as int, dpos as int, (q + 1) as usize, (q + 1 + inst.n_reqs) as usize),
        forall|j: int| 0 <= j < r@.len() ==> #[trigger] r@[j] < inst.num_nodes(),
{
    let p = q + 1;
    let d = q + 1 + inst.n_reqs;
    let mut out = copy_route(route);
    out.insert(position, p);
    out.insert(dpos, d);
    proof {
        let fr = out@;
        assert(fr == route@.insert(position as int, p).insert(dpos as int, d));
        assert forall|j: int| 0 <= j < fr.len() implies #[trigger] fr[j] < inst.num_nodes() by {
            if j < dpos {
                if j < position {
                    assert(fr[j] == route@[j]);
                } else if j > position {
                    assert(fr[j] == route@[j - 1]);
                }
            } else if j > dpos {
                if j - 1 > position {
                    assert(fr[j] == route@[j - 2]);
                }
            }
        }
    }
    out
}

/// The first dropoff position from `e` on that keeps the load of the route
/// within capacity, with the pickup of request `q` at `pos`; `-1` where
/// none does.
pub open spec fn first_fit(inst: &Instance, r: Seq<usize>, q: int, pos: int, e: int) -> int
    decreases r.len() + 2 - e,
{
    if e > r.len() + 1 {
        -1
    } else if capacity_ok(
        inst,
        with_request(r, pos, e, inst.pickup_node(q) as usize, inst.dropoff_node(q) as usize),
    ) {
        e
    } else {
        first_fit(inst, r, q, pos, e + 1)
    }
}

proof fn lemma_first_fit_range(inst: &Instance, r: Seq<usize>, q: int, pos: int, e: int)
    ensures
        first_fit(inst, r, q, pos, e) == -1 || e <= first_fit(inst, r, q, pos, e) <= r.len() + 1,
    decreases r.len() + 2 - e,
{
    if e <= r.len() + 1 {
        lemma_first_fit_range(inst, r, q, pos, e + 1);
    }
}

/// Puts the pickup of request `q` at `position` and its dropoff at the first
/// later position that keeps the load within capacity; `None` where no
/// position does.
pub fn insert_request_into_route(inst: &Instance, route: &Vec<usize>, q: usize, position: usize) -> (r: Option<
    Vec<usize>,
>)
    requires
        inst.wf(),
        q < inst.n_reqs,
        position <= route@.len(),
        route@.len() + 2 < usize::MAX,
        forall|j: int| 0 <= j < route@.len() ==> #[trigger] route@[j] < inst.num_nodes(),
    ensures
        r is Some ==> exists|dpos: int|
            position < dpos <= route@.len() + 1 && r->0@ == #[trigger] with_request(
                route@,
                position as int,
                dpos,
                (q + 1) as usize,
                (q + 1 + inst.n_reqs) as usize,
            ) && capacity_ok(inst, r->0@),
        r is None ==> forall|dpos: int|
            position < dpos <= route@.len() + 1 ==> !capacity_ok(
                inst,
                #[trigger] with_request(route@, position as int, dpos, (q + 1) as usize, (q + 1 + inst.n_reqs) as usize),
            ),
        r is Some ==> r->0@ == with_request(
            route@,
            position as int,
            first_fit(inst, route@, q as int, position as int, position + 1),
            (q + 1) as usize,
            (q + 1 + inst.n_reqs) as usize,
        ),
        r is None <==> first_fit(inst, route@, q as int, position as int, position + 1) == -1,
{
    let p = q + 1;
    let d = q + 1 + inst.n_reqs;
    let len = route.len();
    let mut dpos: usize = position + 1;
    while dpos <= len + 1
        invariant
            inst.wf(),
            q < inst.n_reqs,
            p == q + 1,
            d == q + 1 + inst.n_reqs,
            len == route@.len(),
            route@.len() + 2 < usize::MAX,
            position < dpos <= len + 2,
            forall|j: int| 0 <= j < route@.len() ==> #[trigger] route@[j] < inst.num_nodes(),
            forall|e: int| position < e < dpos ==> !capacity_ok(inst, #[trigger] with_request(route@, position as int, e, p, d)),
            first_fit(inst, route@, q as int, position as int, position + 1) == first_fit(inst, route@, q as int, position as int, dpos as int),
        decreases len + 2 - dpos,
    {
        let final_route = insert_at(inst, route, q, position, dpos);
        if check_route_capacity(inst, &final_route) {
            assert(capacity_ok(inst, final_route@));
            assert(final_route@ == with_request(route@, position as int, dpos as int, (q + 1) as usize, (q + 1 + inst.n_reqs) as usize));
            return Some(final_route);
        }
        dpos += 1;
    }
    None
}

proof fn lemma_without_bounded(r: Seq<usize>, p: int, d: int, bound: int)
    requires
        forall|j: int| 0 <= j < r.len() ==> #[trigger] r[j] < bound,
    ensures
        forall|j: int| 0 <= j < without(r, p, d).len() ==> #[trigger] without(r, p, d)[j] < bound,
        without(r, p, d).len() <= r.len(),
    decreases r.len(),
{
    if r.len() > 0 {
        lemma_without_bounded(r.drop_last(), p, d, bound);
    }
}

/// A candidate that a search can use: every stop a node, feasible, and
/// scorable.
pub open spec fn keepable(inst: &Instance, rs: Seq<Seq<usize>>) -> bool {
    nodes_in_range(inst, rs) && routes_valid(inst, rs) && scorable(inst, rs)
}


/// Some solution of the list has routes `rs`.
pub open spec fn listed(out: Seq<Solution>, rs: Seq<Seq<usize>>) -> bool {
    exists|k: int| 0 <= k < out.len() && #[trigger] out[k].rs() == rs
}

/// The routes after reversing positions `i..=j` of route `v`.
pub open spec fn two_opt_candidate(a: Seq<Seq<usize>>, v: int, i: int, j: int) -> Seq<Seq<usize>> {
    a.update(v, two_opt_route(a[v], i, j))
}

/// The reversals up to route `v`, and within route `v` up to `(i, j)`,
/// whose stops are all nodes are all listed.
pub open spec fn two_opt_covered(inst: &Instance, a: Seq<Seq<usize>>, out: Seq<Solution>, v: int, i: int, j: int) -> bool {
    forall|w: int, x: int, y: int|
        0 <= w < a.len() && 1 <= x < y <= a[w].len() - 2 && (w < v || (w == v && (x < i || (x == i && y < j))))
            && nodes_in_range(inst, #[trigger] two_opt_candidate(a, w, x, y)) ==> listed(out, two_opt_candidate(a, w, x, y))
}

proof fn lemma_listed_push(out: Seq<Solution>, s: Solution, rs: Seq<Seq<usize>>)
    requires
        listed(out, rs),
    ensures
        listed(out.push(s), rs),
{
    let k = choose|k: int| 0 <= k < out.len() && #[trigger] out[k].rs() == rs;
    assert(out.push(s)[k] == out[k]);
}

/// The neighbour relation of each move family.
pub open spec fn is_move(inst: &Instance, nh: Neighborhood, a: Seq<Seq<usize>>, b: Seq<Seq<usize>>) -> bool {
    match nh {
        Neighborhood::Relocate => is_relocation(inst, a, b),
        Neighborhood::Exchange => is_exchange(inst, a, b),
        Neighborhood::TwoOpt => is_two_opt(a, b),
    }
}

/// Turns candidate routes into a solution where every stop is a node.
fn keep_candidate<'a>(current: &Solution<'a>, routes: Vec<Vec<usize>>) -> (r: Option<Solution<'a>>)
    requires
        current.wf(),
        routes@.len() == current.routes@.len(),
    ensures
        r is Some ==> candidate_neighbor(current, r->0) && r->0.rs() == routes_view(&routes),
        r is None ==> !nodes_in_range(current.instance, routes_view(&routes)),
{
    if !routes_in_range(current.instance, &routes) {
        return None;
    }
    Some(Solution { instance: current.instance, routes })
}

/// The route with positions `i..=j` reversed.
pub fn reverse_segment(route: &Vec<usize>, i: usize, j: usize) -> (r: Vec<usize>)
    requires
        i <= j < route@.len(),
    ensures
        r@ == two_opt_route(route@, i as int, j as int),
{
    let mut out: Vec<usize> = Vec::new();
    let mut k: usize = 0;
    while k < route.len()
        invariant
            i <= j < route@.len(),
            k <= route@.len(),
            out@.len() == k,
            forall|m: int| 0 <= m < k ==> #[trigger] out@[m] == two_opt_route(route@, i as int, j as int)[m],
        decreases route@.len() - k,
    {
        if i <= k && k <= j {
            out.push(route[j - (k - i)]);
        } else {
            out.push(route[k]);
        }
        k += 1;
    }
    assert(out@ =~= two_opt_route(route@, i as int, j as int));
    out
}

/// A relocation that the neighbourhood considers: request `q`, picked up
/// in route `v1`, moved to another route `v2` with its pickup at `pos` and
/// its dropoff at `dpos`.
pub open spec fn relocation_considered(
    inst: &Instance,
    a: Seq<Seq<usize>>,
    v1: int,
    v2: int,
    q: int,
    pos: int,
    dpos: int,
) -> bool {
    &&& 0 <= v1 < a.len()
    &&& 0 <= v2 < a.len()
    &&& v1 != v2
    &&& 0 <= q < inst.n_reqs
    &&& a[v1].contains((q + 1) as usize)
    &&& a[v2].len() < usize::MAX - 3
    &&& 0 <= pos <= a[v2].len()
    &&& pos < dpos <= a[v2].len() + 1
    &&& capacity_ok(inst, with_request(a[v2], pos, dpos, inst.pickup_node(q) as usize, inst.dropoff_node(q) as usize))
}

/// `(v1, v2, q, pos, dpos)` comes before `(c1, c2, cq, cp, cd)` in
/// lexicographic order.
pub open spec fn lex_before(
    v1: int,
    v2: int,
    q: int,
    pos: int,
    dpos: int,
    c1: int,
    c2: int,
    cq: int,
    cp: int,
    cd: int,
) -> bool {
    v1 < c1 || (v1 == c1 && (v2 < c2 || (v2 == c2 && (q < cq || (q == cq && (pos < cp || (pos == cp && dpos < cd)))))))
}

/// The considered relocations before `(c1, c2, cq, cp, cd)` that are
/// whose stops are all nodes are all listed.
pub open spec fn relocate_covered(
    inst: &Instance,
    a: Seq<Seq<usize>>,
    out: Seq<Solution>,
    c1: int,
    c2: int,
    cq: int,
    cp: int,
    cd: int,
) -> bool {
    forall|v1: int, v2: int, q: int, pos: int, dpos: int|
        relocation_considered(inst, a, v1, v2, q, pos, dpos) && lex_before(v1, v2, q, pos, dpos, c1, c2, cq, cp, cd)
            && nodes_in_range(inst, #[trigger] relocated(inst, a, v1, v2, q, pos, dpos)) ==> listed(
            out,
            relocated(inst, a, v1, v2, q, pos, dpos),
        )
}

/// The next request to move out of a route, or `n` once all were moved.
pub open spec fn request_at(reqs: Seq<usize>, t: int, n: int) -> int {
    if t < reqs.len() {
        reqs[t] as int
    } else {
        n
    }
}

/// Moves of one request from one vehicle into another vehicle's route: a
/// candidate for each pickup position and each later dropoff position where
/// the load of the receiving route stays within capacity. Every such move is
/// listed; whether a candidate is feasible is for the caller to check.
pub fn relocate_nh<'a>(current: &Solution<'a>) -> (out: Vec<Solution<'a>>)
    requires
        current.wf(),
    ensures
        forall|k: int|
            0 <= k < out@.len() ==> candidate_neighbor(current, #[trigger] out@[k]) && is_relocation(
                current.instance,
                current.rs(),
                out@[k].rs(),
            ),
        forall|v1: int, v2: int, q: int, pos: int, dpos: int|
            relocation_considered(current.instance, current.rs(), v1, v2, q, pos, dpos) && nodes_in_range(
                current.instance,
                #[trigger] relocated(current.instance, current.rs(), v1, v2, q, pos, dpos),
            ) ==> listed(out@, relocated(current.instance, current.rs(), v1, v2, q, pos, dpos)),
{
    let inst = current.instance;
    let ghost a = current.rs();
    let nv = current.routes.len();
    let mut out: Vec<Solution<'a>> = Vec::new();
    let mut v1: usize = 0;
    while v1 < nv
        invariant
            current.wf(),
            inst == current.instance,
            a == current.rs(),
            nv == a.len(),
            v1 <= nv,
            forall|k: int|
                0 <= k < out@.len() ==> candidate_neighbor(current, #[trigger] out@[k]) && is_relocation(inst, a, out@[k].rs()),
            relocate_covered(inst, a, out@, v1 as int, 0, 0, 0, 0),
        decreases nv - v1,
    {
        let mut v2: usize = 0;
        while v2 < nv
            invariant
                current.wf(),
                inst == current.instance,
                a == current.rs(),
                nv == a.len(),
                v1 < nv,
                v2 <= nv,
                forall|k: int|
                    0 <= k < out@.len() ==> candidate_neighbor(current, #[trigger] out@[k]) && is_relocation(inst, a, out@[k].rs()),
                relocate_covered(inst, a, out@, v1 as int, v2 as int, 0, 0, 0),
            decreases nv - v2,
        {
            let len2 = current.routes[v2].len();
            assert(current.routes@[v2 as int]@ == a[v2 as int]);
            if v1 != v2 && len2 < usize::MAX - 3 {
                let reqs = extract_requests_from_route(inst, &current.routes[v1]);
                assert(current.routes@[v1 as int]@ == a[v1 as int]);
                proof {
                    assert forall|w1: int, w2: int, q: int, pos: int, dpos: int|
                        relocation_considered(inst, a, w1, w2, q, pos, dpos) && lex_before(
                            w1, w2, q, pos, dpos, v1 as int, v2 as int, request_at(reqs@, 0, inst.n_reqs as int), 0, 0,
                        ) && nodes_in_range(inst, #[trigger] relocated(inst, a, w1, w2, q, pos, dpos)) implies listed(
                        out@,
                        relocated(inst, a, w1, w2, q, pos, dpos),
                    ) by {
                        if w1 == v1 && w2 == v2 {
                            assert(reqs@.contains(q as usize));
                            let s = choose|s: int| 0 <= s < reqs@.len() && reqs@[s] == q as usize;
                            if s > 0 {
                                assert(reqs@[0] < reqs@[s]);
                            }
                        }
                    }
                }
                let mut t: usize = 0;
                while t < reqs.len()
                    invariant
                        current.wf(),
                        inst == current.instance,
                        a == current.rs(),
                        nv == a.len(),
                        v1 < nv,
                        v2 < nv,
                        v1 != v2,
                        len2 == a[v2 as int].len(),
                        len2 < usize::MAX - 3,
                        current.routes@[v1 as int]@ == a[v1 as int],
                        current.routes@[v2 as int]@ == a[v2 as int],
                        t <= reqs@.len(),
                        forall|k: int| 0 <= k < reqs@.len() ==> #[trigger] reqs@[k] < inst.n_reqs,
                        forall|k1: int, k2: int| 0 <= k1 < k2 < reqs@.len() ==> reqs@[k1] < reqs@[k2],
                        forall|q: usize| q < inst.n_reqs ==> (#[trigger] reqs@.contains(q) <==> a[v1 as int].contains((q + 1) as usize)),
                        forall|k: int|
                            0 <= k < out@.len() ==> candidate_neighbor(current, #[trigger] out@[k]) && is_relocation(inst, a, out@[k].rs()),
                        relocate_covered(inst, a, out@, v1 as int, v2 as int, request_at(reqs@, t as int, inst.n_reqs as int), 0, 0),
                    decreases reqs@.len() - t,
                {
                    let req = reqs[t];
                    assert(req < inst.n_reqs);
                    assert(reqs@.contains(req));
                    assert(a[v1 as int].contains((req + 1) as usize));
                    let without_r = remove_request_from_route(inst, &current.routes[v1], req);
                    let mut pos: usize = 0;
                    while pos <= len2
                        invariant
                            current.wf(),
                            inst == current.instance,
                            a == current.rs(),
                            nv == a.len(),
                            v1 < nv,
                            v2 < nv,
                            v1 != v2,
                            req < inst.n_reqs,
                            len2 == a[v2 as int].len(),
                            len2 < usize::MAX - 3,
                            pos <= len2 + 1,
                            current.routes@[v2 as int]@ == a[v2 as int],
                            without_r@ == without(a[v1 as int], inst.pickup_node(req as int), inst.dropoff_node(req as int)),
                                a[v1 as int].contains((req + 1) as usize),
                            forall|k: int|
                                0 <= k < out@.len() ==> candidate_neighbor(current, #[trigger] out@[k]) && is_relocation(inst, a, out@[k].rs()),
                            relocate_covered(inst, a, out@, v1 as int, v2 as int, req as int, pos as int, 0),
                        decreases len2 + 1 - pos,
                    {
                        proof {
                            assert forall|j: int| 0 <= j < a[v2 as int].len() implies #[trigger] a[v2 as int][j] < inst.num_nodes() by {
                                assert(nodes_in_range(inst, a));
                            }
                        }
                        let mut dpos: usize = pos + 1;
                        while dpos <= len2 + 1
                            invariant
                                current.wf(),
                                inst == current.instance,
                                a == current.rs(),
                                nv == a.len(),
                                v1 < nv,
                                v2 < nv,
                                v1 != v2,
                                req < inst.n_reqs,
                                pos <= len2,
                                pos < dpos <= len2 + 2,
                                len2 == a[v2 as int].len(),
                                len2 < usize::MAX - 3,
                                current.routes@[v2 as int]@ == a[v2 as int],
                                forall|j: int| 0 <= j < a[v2 as int].len() ==> #[trigger] a[v2 as int][j] < inst.num_nodes(),
                                without_r@ == without(a[v1 as int], inst.pickup_node(req as int), inst.dropoff_node(req as int)),
                                a[v1 as int].contains((req + 1) as usize),
                                forall|k: int|
                                    0 <= k < out@.len() ==> candidate_neighbor(current, #[trigger] out@[k]) && is_relocation(inst, a, out@[k].rs()),
                                relocate_covered(inst, a, out@, v1 as int, v2 as int, req as int, pos as int, dpos as int),
                            decreases len2 + 2 - dpos,
                        {
                            let ghost cand = relocated(inst, a, v1 as int, v2 as int, req as int, pos as int, dpos as int);
                            let ghost old_out = out@;
                            let with_r = insert_at(inst, &current.routes[v2], req, pos, dpos);
                            if check_route_capacity(inst, &with_r) {
                                let step = replace_route(&current.routes, v1, copy_route(&without_r));
                                let new_routes = replace_route(&step, v2, with_r);
                                assert(routes_view(&new_routes) =~= cand);
                                assert(relocation_considered(inst, a, v1 as int, v2 as int, req as int, pos as int, dpos as int));
                                if let Some(nb) = keep_candidate(current, new_routes) {
                                    out.push(nb);
                                    proof {
                                        assert(out@[out@.len() - 1].rs() == cand);
                                    }
                                }
                            }
                            proof {
                                assert forall|w1: int, w2: int, q: int, x: int, y: int|
                                    relocation_considered(inst, a, w1, w2, q, x, y) && lex_before(
                                        w1, w2, q, x, y, v1 as int, v2 as int, req as int, pos as int, dpos + 1,
                                    ) && nodes_in_range(inst, #[trigger] relocated(inst, a, w1, w2, q, x, y)) implies listed(
                                    out@,
                                    relocated(inst, a, w1, w2, q, x, y),
                                ) by {
                                    if w1 == v1 && w2 == v2 && q == req && x == pos && y == dpos {
                                        assert(listed(out@, cand)) by {
                                            assert(out@[out@.len() - 1].rs() == cand);
                                        }
                                    } else {
                                        assert(listed(old_out, relocated(inst, a, w1, w2, q, x, y)));
                                        if out@ != old_out {
                                            assert(out@ == old_out.push(out@[out@.len() - 1]));
                                            lemma_listed_push(old_out, out@[out@.len() - 1], relocated(inst, a, w1, w2, q, x, y));
                                        }
                                    }
                                }
                            }
                            dpos += 1;
                        }
                        pos += 1;
                    }
                    proof {
                        assert forall|w1: int, w2: int, q: int, x: int, y: int|
                            relocation_considered(inst, a, w1, w2, q, x, y) && lex_before(
                                w1, w2, q, x, y, v1 as int, v2 as int, request_at(reqs@, t + 1, inst.n_reqs as int), 0, 0,
                            ) && nodes_in_range(inst, #[trigger] relocated(inst, a, w1, w2, q, x, y)) implies listed(
                            out@,
                            relocated(inst, a, w1, w2, q, x, y),
                        ) by {
                            if w1 == v1 && w2 == v2 && q > req {
                                assert(reqs@.contains(q as usize));
                                let s = choose|s: int| 0 <= s < reqs@.len() && reqs@[s] == q as usize;
                                if s <= t {
                                    if s < t {
                                        assert(reqs@[s] < reqs@[t as int]);
                                    }
                                } else if s > t + 1 {
                                    assert(reqs@[t + 1] < reqs@[s]);
                                }
                            }
                        }
                    }
                    t += 1;
                }
            }
            proof {
                assert forall|w1: int, w2: int, q: int, x: int, y: int|
                    relocation_considered(inst, a, w1, w2, q, x, y) && lex_before(w1, w2, q, x, y, v1 as int, v2 + 1, 0, 0, 0)
                        && nodes_in_range(inst, #[trigger] relocated(inst, a, w1, w2, q, x, y)) implies listed(
                    out@,
                    relocated(inst, a, w1, w2, q, x, y),
                ) by {
                }
            }
            v2 += 1;
        }
        v1 += 1;
    }
    out
}

/// A swap that the neighbourhood considers: request `q1` of route `v1` and
/// request `q2` of a later route `v2` trade places, each picked up at the
/// given position of the other route (with the other request taken out)
/// and dropped off at the first later position that keeps the load within
/// capacity, which must exist.
pub open spec fn exchange_considered(
    inst: &Instance,
    a: Seq<Seq<usize>>,
    v1: int,
    v2: int,
    q1: int,
    q2: int,
    pos1: int,
    pos2: int,
) -> bool {
    let r1 = without(a[v1], inst.pickup_node(q1), inst.dropoff_node(q1));
    let r2 = without(a[v2], inst.pickup_node(q2), inst.dropoff_node(q2));
    &&& 0 <= v1 < v2 < a.len()
    &&& 0 <= q1 < inst.n_reqs
    &&& 0 <= q2 < inst.n_reqs
    &&& a[v1].contains((q1 + 1) as usize)
    &&& a[v2].contains((q2 + 1) as usize)
    &&& r1.len() < usize::MAX - 3
    &&& r2.len() < usize::MAX - 3
    &&& 0 <= pos1 <= r2.len()
    &&& 0 <= pos2 <= r1.len()
    &&& first_fit(inst, r2, q1, pos1, pos1 + 1) >= 0
    &&& first_fit(inst, r1, q2, pos2, pos2 + 1) >= 0
}

/// The routes after the swap.
pub open spec fn exchange_candidate(
    inst: &Instance,
    a: Seq<Seq<usize>>,
    v1: int,
    v2: int,
    q1: int,
    q2: int,
    pos1: int,
    pos2: int,
) -> Seq<Seq<usize>> {
    let r1 = without(a[v1], inst.pickup_node(q1), inst.dropoff_node(q1));
    let r2 = without(a[v2], inst.pickup_node(q2), inst.dropoff_node(q2));
    exchanged(
        inst,
        a,
        v1,
        v2,
        q1,
        q2,
        pos1,
        first_fit(inst, r2, q1, pos1, pos1 + 1),
        pos2,
        first_fit(inst, r1, q2, pos2, pos2 + 1),
    )
}

/// `(v1, v2, q1, q2, pos1, pos2)` comes before `(c1, .., c6)` in
/// lexicographic order.
pub open spec fn lex6_before(
    v1: int,
    v2: int,
    q1: int,
    q2: int,
    pos1: int,
    pos2: int,
    c1: int,
    c2: int,
    c3: int,
    c4: int,
    c5: int,
    c6: int,
) -> bool {
    v1 < c1 || (v1 == c1 && (v2 < c2 || (v2 == c2 && (q1 < c3 || (q1 == c3 && (q2 < c4 || (q2 == c4 && (pos1 < c5
        || (pos1 == c5 && pos2 < c6)))))))))
}

/// The considered swaps before `(c1, .., c6)` whose stops are all nodes are all
/// listed.
pub open spec fn exchange_covered(
    inst: &Instance,
    a: Seq<Seq<usize>>,
    out: Seq<Solution>,
    c1: int,
    c2: int,
    c3: int,
    c4: int,
    c5: int,
    c6: int,
) -> bool {
    forall|v1: int, v2: int, q1: int, q2: int, pos1: int, pos2: int|
        exchange_considered(inst, a, v1, v2, q1, q2, pos1, pos2) && lex6_before(
            v1,
            v2,
            q1,
            q2,
            pos1,
            pos2,
            c1,
            c2,
            c3,
            c4,
            c5,
            c6,
        ) && nodes_in_range(inst, #[trigger] exchange_candidate(inst, a, v1, v2, q1, q2, pos1, pos2)) ==> listed(
            out,
            exchange_candidate(inst, a, v1, v2, q1, q2, pos1, pos2),
        )
}

/// Swaps of a request of one vehicle with a request of a later vehicle:
/// each request goes into the other route at every pickup position, with its
/// dropoff at the first later position that keeps the load within capacity.
/// Every such swap is listed; whether a candidate is feasible is for the
/// caller to check.
pub fn exchange_nh<'a>(current: &Solution<'a>) -> (out: Vec<Solution<'a>>)
    requires
        current.wf(),
    ensures
        forall|k: int|
            0 <= k < out@.len() ==> candidate_neighbor(current, #[trigger] out@[k]) && is_exchange(
                current.instance,
                current.rs(),
                out@[k].rs(),
            ),
        forall|v1: int, v2: int, q1: int, q2: int, pos1: int, pos2: int|
            exchange_considered(current.instance, current.rs(), v1, v2, q1, q2, pos1, pos2) && nodes_in_range(
                current.instance,
                #[trigger] exchange_candidate(current.instance, current.rs(), v1, v2, q1, q2, pos1, pos2),
            ) ==> listed(out@, exchange_candidate(current.instance, current.rs(), v1, v2, q1, q2, pos1, pos2)),
{
    let inst = current.instance;
    let ghost a = current.rs();
    let ghost n = inst.n_reqs as int;
    let nv = current.routes.len();
    let mut out: Vec<Solution<'a>> = Vec::new();
    let mut v1: usize = 0;
    while v1 < nv
        invariant
            current.wf(),
            inst == current.instance,
            a == current.rs(),
            n == inst.n_reqs,
            nv == a.len(),
            v1 <= nv,
            forall|k: int|
                0 <= k < out@.len() ==> candidate_neighbor(current, #[trigger] out@[k]) && is_exchange(inst, a, out@[k].rs()),
            exchange_covered(inst, a, out@, v1 as int, 0, 0, 0, 0, 0),
        decreases nv - v1,
    {
        let mut v2: usize = v1 + 1;
        while v2 < nv
            invariant
                current.wf(),
                inst == current.instance,
                a == current.rs(),
                n == inst.n_reqs,
                nv == a.len(),
                v1 < v2,
                v1 < nv,
                v2 <= nv,
                forall|k: int|
                    0 <= k < out@.len() ==> candidate_neighbor(current, #[trigger] out@[k]) && is_exchange(inst, a, out@[k].rs()),
                exchange_covered(inst, a, out@, v1 as int, v2 as int, 0, 0, 0, 0),
            decreases nv - v2,
        {
            let reqs1 = extract_requests_from_route(inst, &current.routes[v1]);
            let reqs2 = extract_requests_from_route(inst, &current.routes[v2]);
            assert(current.routes@[v1 as int]@ == a[v1 as int]);
            assert(current.routes@[v2 as int]@ == a[v2 as int]);
            proof {
                assert forall|w1: int, w2: int, q1: int, q2: int, x1: int, x2: int|
                    exchange_considered(inst, a, w1, w2, q1, q2, x1, x2) && lex6_before(
                        w1, w2, q1, q2, x1, x2, v1 as int, v2 as int, request_at(reqs1@, 0, n), 0, 0, 0,
                    ) && nodes_in_range(inst, #[trigger] exchange_candidate(inst, a, w1, w2, q1, q2, x1, x2)) implies listed(
                    out@,
                    exchange_candidate(inst, a, w1, w2, q1, q2, x1, x2),
                ) by {
                    if w1 == v1 && w2 == v2 {
                        assert(reqs1@.contains(q1 as usize));
                        let s = choose|s: int| 0 <= s < reqs1@.len() && reqs1@[s] == q1 as usize;
                        if s > 0 {
                            assert(reqs1@[0] < reqs1@[s]);
                        }
                    }
                }
            }
            let mut t1: usize = 0;
            while t1 < reqs1.len()
                invariant
                    current.wf(),
                    inst == current.instance,
                    a == current.rs(),
                    n == inst.n_reqs,
                    nv == a.len(),
                    v1 < v2 < nv,
                    current.routes@[v1 as int]@ == a[v1 as int],
                    current.routes@[v2 as int]@ == a[v2 as int],
                    t1 <= reqs1@.len(),
                    forall|k: int| 0 <= k < reqs1@.len() ==> #[trigger] reqs1@[k] < inst.n_reqs,
                    forall|k: int| 0 <= k < reqs2@.len() ==> #[trigger] reqs2@[k] < inst.n_reqs,
                    forall|k1: int, k2: int| 0 <= k1 < k2 < reqs1@.len() ==> reqs1@[k1] < reqs1@[k2],
                    forall|k1: int, k2: int| 0 <= k1 < k2 < reqs2@.len() ==> reqs2@[k1] < reqs2@[k2],
                    forall|q: usize| q < inst.n_reqs ==> (#[trigger] reqs1@.contains(q) <==> a[v1 as int].contains((q + 1) as usize)),
                    forall|q: usize| q < inst.n_reqs ==> (#[trigger] reqs2@.contains(q) <==> a[v2 as int].contains((q + 1) as usize)),
                    forall|k: int|
                        0 <= k < out@.len() ==> candidate_neighbor(current, #[trigger] out@[k]) && is_exchange(inst, a, out@[k].rs()),
                    exchange_covered(inst, a, out@, v1 as int, v2 as int, request_at(reqs1@, t1 as int, n), 0, 0, 0),
                decreases reqs1@.len() - t1,
            {
                let req1 = reqs1[t1];
                assert(req1 < inst.n_reqs);
                assert(reqs1@.contains(req1));
                assert(a[v1 as int].contains((req1 + 1) as usize));
                proof {
                    assert forall|w1: int, w2: int, q1: int, q2: int, x1: int, x2: int|
                        exchange_considered(inst, a, w1, w2, q1, q2, x1, x2) && lex6_before(
                            w1, w2, q1, q2, x1, x2, v1 as int, v2 as int, req1 as int, request_at(reqs2@, 0, n), 0, 0,
                        ) && nodes_in_range(inst, #[trigger] exchange_candidate(inst, a, w1, w2, q1, q2, x1, x2)) implies listed(
                        out@,
                        exchange_candidate(inst, a, w1, w2, q1, q2, x1, x2),
                    ) by {
                        if w1 == v1 && w2 == v2 && q1 == req1 {
                            assert(reqs2@.contains(q2 as usize));
                            let s = choose|s: int| 0 <= s < reqs2@.len() && reqs2@[s] == q2 as usize;
                            if s > 0 {
                                assert(reqs2@[0] < reqs2@[s]);
                            }
                        }
                    }
                }
                let mut t2: usize = 0;
                while t2 < reqs2.len()
                    invariant
                        current.wf(),
                        inst == current.instance,
                        a == current.rs(),
                        n == inst.n_reqs,
                        nv == a.len(),
                        v1 < v2 < nv,
                        req1 < inst.n_reqs,
                        a[v1 as int].contains((req1 + 1) as usize),
                        current.routes@[v1 as int]@ == a[v1 as int],
                        current.routes@[v2 as int]@ == a[v2 as int],
                        t2 <= reqs2@.len(),
                        forall|k: int| 0 <= k < reqs2@.len() ==> #[trigger] reqs2@[k] < inst.n_reqs,
                        forall|k1: int, k2: int| 0 <= k1 < k2 < reqs2@.len() ==> reqs2@[k1] < reqs2@[k2],
                        forall|q: usize| q < inst.n_reqs ==> (#[trigger] reqs2@.contains(q) <==> a[v2 as int].contains((q + 1) as usize)),
                        forall|k: int|
                            0 <= k < out@.len() ==> candidate_neighbor(current, #[trigger] out@[k]) && is_exchange(inst, a, out@[k].rs()),
                        exchange_covered(inst, a, out@, v1 as int, v2 as int, req1 as int, request_at(reqs2@, t2 as int, n), 0, 0),
                    decreases reqs2@.len() - t2,
                {
                    let req2 = reqs2[t2];
                    assert(req2 < inst.n_reqs);
                    assert(reqs2@.contains(req2));
                    assert(a[v2 as int].contains((req2 + 1) as usize));
                    let r1 = remove_request_from_route(inst, &current.routes[v1], req1);
                    let r2 = remove_request_from_route(inst, &current.routes[v2], req2);
                    let len1 = r1.len();
                    let len2 = r2.len();
                    proof {
                        assert forall|j: int| 0 <= j < a[v1 as int].len() implies #[trigger] a[v1 as int][j] < inst.num_nodes() by {
                            assert(nodes_in_range(inst, a));
                        }
                        assert forall|j: int| 0 <= j < a[v2 as int].len() implies #[trigger] a[v2 as int][j] < inst.num_nodes() by {
                            assert(nodes_in_range(inst, a));
                        }
                        lemma_without_bounded(a[v1 as int], inst.pickup_node(req1 as int), inst.dropoff_node(req1 as int), inst.num_nodes());
                        lemma_without_bounded(a[v2 as int], inst.pickup_node(req2 as int), inst.dropoff_node(req2 as int), inst.num_nodes());
                    }
                    if len1 < usize::MAX - 3 && len2 < usize::MAX - 3 {
                        let mut pos1: usize = 0;
                        while pos1 <= len2
                            invariant
                                current.wf(),
                                inst == current.instance,
                                a == current.rs(),
                                n == inst.n_reqs,
                                nv == a.len(),
                                v1 < v2 < nv,
                                req1 < inst.n_reqs,
                                req2 < inst.n_reqs,
                                len1 == r1@.len(),
                                len2 == r2@.len(),
                                len1 < usize::MAX - 3,
                                len2 < usize::MAX - 3,
                                pos1 <= len2 + 1,
                                forall|j: int| 0 <= j < r1@.len() ==> #[trigger] r1@[j] < inst.num_nodes(),
                                forall|j: int| 0 <= j < r2@.len() ==> #[trigger] r2@[j] < inst.num_nodes(),
                                r1@ == without(a[v1 as int], inst.pickup_node(req1 as int), inst.dropoff_node(req1 as int)),
                                r2@ == without(a[v2 as int], inst.pickup_node(req2 as int), inst.dropoff_node(req2 as int)),
                                a[v1 as int].contains((req1 + 1) as usize),
                                a[v2 as int].contains((req2 + 1) as usize),
                                forall|k: int|
                                    0 <= k < out@.len() ==> candidate_neighbor(current, #[trigger] out@[k]) && is_exchange(inst, a, out@[k].rs()),
                                exchange_covered(inst, a, out@, v1 as int, v2 as int, req1 as int, req2 as int, pos1 as int, 0),
                            decreases len2 + 1 - pos1,
                        {
                            let mut pos2: usize = 0;
                            while pos2 <= len1
                                invariant
                                    current.wf(),
                                    inst == current.instance,
                                    a == current.rs(),
                                    n == inst.n_reqs,
                                    nv == a.len(),
                                    v1 < v2 < nv,
                                    req1 < inst.n_reqs,
                                    req2 < inst.n_reqs,
                                    pos1 <= len2,
                                    pos2 <= len1 + 1,
                                    len1 == r1@.len(),
                                    len2 == r2@.len(),
                                    len1 < usize::MAX - 3,
                                    len2 < usize::MAX - 3,
                                    forall|j: int| 0 <= j < r1@.len() ==> #[trigger] r1@[j] < inst.num_nodes(),
                                    forall|j: int| 0 <= j < r2@.len() ==> #[trigger] r2@[j] < inst.num_nodes(),
                                    r1@ == without(a[v1 as int], inst.pickup_node(req1 as int), inst.dropoff_node(req1 as int)),
                                    r2@ == without(a[v2 as int], inst.pickup_node(req2 as int), inst.dropoff_node(req2 as int)),
                                a[v1 as int].contains((req1 + 1) as usize),
                                a[v2 as int].contains((req2 + 1) as usize),
                                    forall|k: int|
                                        0 <= k < out@.len() ==> candidate_neighbor(current, #[trigger] out@[k]) && is_exchange(inst, a, out@[k].rs()),
                                    exchange_covered(inst, a, out@, v1 as int, v2 as int, req1 as int, req2 as int, pos1 as int, pos2 as int),
                                decreases len1 + 1 - pos2,
                            {
                                let ghost cand = exchange_candidate(inst, a, v1 as int, v2 as int, req1 as int, req2 as int, pos1 as int, pos2 as int);
                                let ghost old_out = out@;
                                let new1 = insert_request_into_route(inst, &r1, req2, pos2);
                                let new2 = insert_request_into_route(inst, &r2, req1, pos1);
                                match (new1, new2) {
                                    (Some(route1), Some(route2)) => {
                                        let ghost dp1 = first_fit(inst, r2@, req1 as int, pos1 as int, pos1 + 1);
                                        let ghost dp2 = first_fit(inst, r1@, req2 as int, pos2 as int, pos2 + 1);
                                        proof {
                                            lemma_first_fit_range(inst, r2@, req1 as int, pos1 as int, pos1 + 1);
                                            lemma_first_fit_range(inst, r1@, req2 as int, pos2 as int, pos2 + 1);
                                            assert(exchange_considered(inst, a, v1 as int, v2 as int, req1 as int, req2 as int, pos1 as int, pos2 as int));
                                        }
                                        let step = replace_route(&current.routes, v1, route1);
                                        let new_routes = replace_route(&step, v2, route2);
                                        assert(routes_view(&new_routes) =~= cand);
                                        assert(routes_view(&new_routes) =~= exchanged(
                                            inst,
                                            a,
                                            v1 as int,
                                            v2 as int,
                                            req1 as int,
                                            req2 as int,
                                            pos1 as int,
                                            dp1,
                                            pos2 as int,
                                            dp2,
                                        ));
                                        if let Some(nb) = keep_candidate(current, new_routes) {
                                            out.push(nb);
                                            proof {
                                                assert(out@[out@.len() - 1].rs() == cand);
                                            }
                                        }
                                    },
                                    _ => {},
                                }
                                proof {
                                    assert forall|w1: int, w2: int, q1: int, q2: int, x1: int, x2: int|
                                        exchange_considered(inst, a, w1, w2, q1, q2, x1, x2) && lex6_before(
                                            w1, w2, q1, q2, x1, x2, v1 as int, v2 as int, req1 as int, req2 as int, pos1 as int, pos2 + 1,
                                        ) && nodes_in_range(inst, #[trigger] exchange_candidate(inst, a, w1, w2, q1, q2, x1, x2)) implies listed(
                                        out@,
                                        exchange_candidate(inst, a, w1, w2, q1, q2, x1, x2),
                                    ) by {
                                        if w1 == v1 && w2 == v2 && q1 == req1 && q2 == req2 && x1 == pos1 && x2 == pos2 {
                                            assert(out@[out@.len() - 1].rs() == cand);
                                        } else {
                                            assert(listed(old_out, exchange_candidate(inst, a, w1, w2, q1, q2, x1, x2)));
                                            if out@ != old_out {
                                                assert(out@ == old_out.push(out@[out@.len() - 1]));
                                                lemma_listed_push(old_out, out@[out@.len() - 1], exchange_candidate(inst, a, w1, w2, q1, q2, x1, x2));
                                            }
                                        }
                                    }
                                }
                                pos2 += 1;
                            }
                            pos1 += 1;
                        }
                    }
                    proof {
                        assert forall|w1: int, w2: int, q1: int, q2: int, x1: int, x2: int|
                            exchange_considered(inst, a, w1, w2, q1, q2, x1, x2) && lex6_before(
                                w1, w2, q1, q2, x1, x2, v1 as int, v2 as int, req1 as int, request_at(reqs2@, t2 + 1, n), 0, 0,
                            ) && nodes_in_range(inst, #[trigger] exchange_candidate(inst, a, w1, w2, q1, q2, x1, x2)) implies listed(
                            out@,
                            exchange_candidate(inst, a, w1, w2, q1, q2, x1, x2),
                        ) by {
                            if w1 == v1 && w2 == v2 && q1 == req1 && q2 > req2 {
                                assert(reqs2@.contains(q2 as usize));
                                let s = choose|s: int| 0 <= s < reqs2@.len() && reqs2@[s] == q2 as usize;
                                if s <= t2 {
                                    if s < t2 {
                                        assert(reqs2@[s] < reqs2@[t2 as int]);
                                    }
                                } else if s > t2 + 1 {
                                    assert(reqs2@[t2 + 1] < reqs2@[s]);
                                }
                            }
                        }
                    }
                    t2 += 1;
                }
                proof {
                    assert forall|w1: int, w2: int, q1: int, q2: int, x1: int, x2: int|
                        exchange_considered(inst, a, w1, w2, q1, q2, x1, x2) && lex6_before(
                            w1, w2, q1, q2, x1, x2, v1 as int, v2 as int, request_at(reqs1@, t1 + 1, n), 0, 0, 0,
                        ) && nodes_in_range(inst, #[trigger] exchange_candidate(inst, a, w1, w2, q1, q2, x1, x2)) implies listed(
                        out@,
                        exchange_candidate(inst, a, w1, w2, q1, q2, x1, x2),
                    ) by {
                        if w1 == v1 && w2 == v2 && q1 > req1 {
                            assert(reqs1@.contains(q1 as usize));
                            let s = choose|s: int| 0 <= s < reqs1@.len() && reqs1@[s] == q1 as usize;
                            if s <= t1 {
                                if s < t1 {
                                    assert(reqs1@[s] < reqs1@[t1 as int]);
                                }
                            } else if s > t1 + 1 {
                                assert(reqs1@[t1 + 1] < reqs1@[s]);
                            }
                        }
                    }
                }
                t1 += 1;
            }
            v2 += 1;
        }
        v1 += 1;
    }
    out
}

/// Reversals of an inner segment `i..=j` (`1 <= i < j <= len - 2`) of one
/// route of four or more stops. Every such reversal is listed; precedence
/// and capacity are left to the caller's check.
pub fn two_opt_nh<'a>(current: &Solution<'a>) -> (out: Vec<Solution<'a>>)
    requires
        current.wf(),
    ensures
        forall|k: int|
            0 <= k < out@.len() ==> candidate_neighbor(current, #[trigger] out@[k]) && is_two_opt(current.rs(), out@[k].rs()),
        forall|v: int, i: int, j: int|
            0 <= v < current.rs().len() && 1 <= i < j <= current.rs()[v].len() - 2 && nodes_in_range(
                current.instance,
                #[trigger] two_opt_candidate(current.rs(), v, i, j),
            ) ==> listed(out@, two_opt_candidate(current.rs(), v, i, j)),
{
    let ghost a = current.rs();
    let ghost inst = current.instance;
    let nv = current.routes.len();
    let mut out: Vec<Solution<'a>> = Vec::new();
    let mut v: usize = 0;
    while v < nv
        invariant
            current.wf(),
            a == current.rs(),
            nv == a.len(),
            v <= nv,
            inst == current.instance,
            forall|k: int| 0 <= k < out@.len() ==> candidate_neighbor(current, #[trigger] out@[k]) && is_two_opt(a, out@[k].rs()),
            two_opt_covered(inst, a, out@, v as int, 0, 0),
        decreases nv - v,
    {
        let route = &current.routes[v];
        assert(route@ == a[v as int]);
        let len = route.len();
        if len >= 4 {
            let mut i: usize = 1;
            while i < len - 2
                invariant
                    current.wf(),
                    a == current.rs(),
                    nv == a.len(),
                    v < nv,
                    route@ == a[v as int],
                    len == route@.len(),
                    len >= 4,
                    1 <= i,
                    i <= len - 2,
                    inst == current.instance,
                    forall|k: int| 0 <= k < out@.len() ==> candidate_neighbor(current, #[trigger] out@[k]) && is_two_opt(a, out@[k].rs()),
                    two_opt_covered(inst, a, out@, v as int, i as int, 0),
                decreases len - i,
            {
                let mut j: usize = i + 1;
                while j < len - 1
                    invariant
                        current.wf(),
                        a == current.rs(),
                        nv == a.len(),
                        v < nv,
                        route@ == a[v as int],
                        len == route@.len(),
                        1 <= i < j,
                        i < len - 2,
                        j <= len - 1,
                        inst == current.instance,
                        forall|k: int| 0 <= k < out@.len() ==> candidate_neighbor(current, #[trigger] out@[k]) && is_two_opt(a, out@[k].rs()),
                        two_opt_covered(inst, a, out@, v as int, i as int, j as int),
                    decreases len - j,
                {
                    let new_route = reverse_segment(route, i, j);
                    let new_routes = replace_route(&current.routes, v, new_route);
                    let ghost cand = two_opt_candidate(a, v as int, i as int, j as int);
                    assert(routes_view(&new_routes) == cand);
                    let ghost old_out = out@;
                    if let Some(nb) = keep_candidate(current, new_routes) {
                        out.push(nb);
                        proof {
                            assert(out@[out@.len() - 1].rs() == cand);
                            assert(listed(out@, cand));
                        }
                    }
                    proof {
                        assert forall|w: int, x: int, y: int|
                            0 <= w < a.len() && 1 <= x < y <= a[w].len() - 2 && (w < v || (w == v && (x < i || (x == i && y < j + 1))))
                                && nodes_in_range(inst, #[trigger] two_opt_candidate(a, w, x, y)) implies listed(out@, two_opt_candidate(a, w, x, y)) by {
                            if !(w == v && x == i && y == j) {
                                assert(listed(old_out, two_opt_candidate(a, w, x, y)));
                                if out@ != old_out {
                                    lemma_listed_push(old_out, out@[out@.len() - 1], two_opt_candidate(a, w, x, y));
                                    assert(out@ == old_out.push(out@[out@.len() - 1]));
                                }
                            }
                        }
                    }
                    j += 1;
                }
                proof {
                    assert forall|w: int, x: int, y: int|
                        0 <= w < a.len() && 1 <= x < y <= a[w].len() - 2 && (w < v || (w == v && (x < i + 1 || (x == i + 1 && y < 0))))
                            && nodes_in_range(inst, #[trigger] two_opt_candidate(a, w, x, y)) implies listed(out@, two_opt_candidate(a, w, x, y)) by {
                        if w == v && x == i {
                            assert(y < j);
                        }
                    }
                }
                i += 1;
            }
        }
        proof {
            assert forall|w: int, x: int, y: int|
                0 <= w < a.len() && 1 <= x < y <= a[w].len() - 2 && (w < v + 1 || (w == v + 1 && (x < 0 || (x == 0 && y < 0))))
                    && nodes_in_range(inst, #[trigger] two_opt_candidate(a, w, x, y)) implies listed(out@, two_opt_candidate(a, w, x, y)) by {
                if w == v {
                    assert(a[v as int].len() == len);
                }
            }
        }
        v += 1;
    }
    out
}

/// All candidate neighbours of `current` under one move family.
pub fn generate_neighbors<'a>(current: &Solution<'a>, nh: Neighborhood) -> (out: Vec<Solution<'a>>)
    requires
        current.wf(),
    ensures
        neighborhood_candidates(current.instance, nh, current.rs(), out@),
        forall|k: int|
            0 <= k < out@.len() ==> candidate_neighbor(current, #[trigger] out@[k]) && is_move(
                current.instance,
                nh,
                current.rs(),
                out@[k].rs(),
            ),
{
    match nh {
        Neighborhood::Relocate => relocate_nh(current),
        Neighborhood::Exchange => exchange_nh(current),
        Neighborhood::TwoOpt => two_opt_nh(current),
    }
}

} // verus!
