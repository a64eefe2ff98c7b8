use vstd::prelude::*;
use crate::instance::{Instance, MAX_DIST, MAX_RHO, MAX_VEHICLES};

verus! {

/// Largest total travel distance that the fairness and objective arithmetic takes.
pub const MAX_TOTAL_DISTANCE: u128 = 4294967295;

/// Objective values are counted in millionths of a distance unit.
pub const OBJ_SCALE: u128 = 1000000;

/// The view of a list of routes.
pub open spec fn routes_view(routes: &Vec<Vec<usize>>) -> Seq<Seq<usize>> {
    routes@.map_values(|r: Vec<usize>| r@)
}

/// Every stop of every route is a node of the instance.
pub open spec fn nodes_in_range(inst: &Instance, rs: Seq<Seq<usize>>) -> bool {
    forall|v: int, j: int| 0 <= v < rs.len() && 0 <= j < rs[v].len() ==> #[trigger] rs[v][j] < inst.num_nodes()
}

/// Sum of the costs of consecutive stops.
pub open spec fn legs(inst: &Instance, r: Seq<usize>) -> nat
    decreases r.len(),
{
    if r.len() < 2 {
        0
    } else {
        legs(inst, r.drop_last()) + inst.d(r[r.len() - 2] as int, r[r.len() - 1] as int)
    }
}

/// Distance of one route: from the depot to the first stop unless that stop
/// is the depot, between consecutive stops, and back to the depot unless the
/// route already ends there. An empty route costs nothing.
pub open spec fn route_distance(inst: &Instance, r: Seq<usize>) -> nat {
    if r.len() == 0 {
        0
    } else {
        (if r[0] != 0 { inst.d(0, r[0] as int) } else { 0 }) + legs(inst, r) + (if r.last() != 0 {
            inst.d(r.last() as int, 0)
        } else {
            0
        })
    }
}

pub open spec fn route_distances(inst: &Instance, rs: Seq<Seq<usize>>) -> Seq<nat> {
    rs.map_values(|r: Seq<usize>| route_distance(inst, r))
}

pub open spec fn sum(s: Seq<nat>) -> nat
    decreases s.len(),
{
    if s.len() == 0 {
        0
    } else {
        sum(s.drop_last()) + s.last()
    }
}

pub open spec fn sum_sq(s: Seq<nat>) -> nat
    decreases s.len(),
{
    if s.len() == 0 {
        0
    } else {
        sum_sq(s.drop_last()) + s.last() * s.last()
    }
}

pub open spec fn total_distance(inst: &Instance, rs: Seq<Seq<usize>>) -> nat {
    sum(route_distances(inst, rs))
}

/// Numerator of Jain's index `(sum d)^2 / (k * sum d^2)`; the index is one
/// where every distance is zero.
pub open spec fn fairness_num(ds: Seq<nat>) -> nat {
    if sum_sq(ds) == 0 {
        1
    } else {
        sum(ds) * sum(ds)
    }
}

/// Denominator of Jain's index.
pub open spec fn fairness_den(ds: Seq<nat>) -> nat {
    if sum_sq(ds) == 0 {
        1
    } else {
        ds.len() * sum_sq(ds)
    }
}

/// `rho * (1 - fairness)` in millionths, rounded down.
pub open spec fn unfairness_micro(rho_micro: nat, ds: Seq<nat>) -> nat {
    if sum_sq(ds) == 0 {
        0
    } else {
        ((rho_micro * (fairness_den(ds) - fairness_num(ds))) / (fairness_den(ds) as int)) as nat
    }
}

/// The objective `total distance + rho * (1 - fairness)`, in millionths.
pub open spec fn objective_micro(inst: &Instance, rs: Seq<Seq<usize>>) -> nat {
    (total_distance(inst, rs) * OBJ_SCALE + unfairness_micro(inst.rho_micro as nat, route_distances(inst, rs))) as nat
}

/// The routes can be scored within the library's arithmetic.
pub open spec fn scorable(inst: &Instance, rs: Seq<Seq<usize>>) -> bool {
    rs.len() <= MAX_VEHICLES && total_distance(inst, rs) <= MAX_TOTAL_DISTANCE
}

/// An exact non-negative fraction `num / den`.
#[derive(Debug, Clone, Copy, PartialEq, Eq)]
pub struct Ratio {
    pub num: u128,
    pub den: u128,
}

pub proof fn lemma_sum_prefix(s: Seq<nat>, i: int)
    requires
        0 <= i < s.len(),
    ensures
        sum(s.subrange(0, i + 1)) == sum(s.subrange(0, i)) + s[i],
        sum_sq(s.subrange(0, i + 1)) == sum_sq(s.subrange(0, i)) + s[i] * s[i],
{
    assert(s.subrange(0, i + 1).drop_last() =~= s.subrange(0, i));
}

pub proof fn lemma_sum_prefix_le(s: Seq<nat>, i: int)
    requires
        0 <= i <= s.len(),
    ensures
        sum(s.subrange(0, i)) <= sum(s),
    decreases s.len() - i,
{
    if i < s.len() {
        lemma_sum_prefix(s, i);
        lemma_sum_prefix_le(s, i + 1);
    } else {
        assert(s.subrange(0, i) =~= s);
    }
}

pub proof fn lemma_sum_sq_le(s: Seq<nat>)
    ensures
        sum_sq(s) <= sum(s) * sum(s),
    decreases s.len(),
{
    if s.len() > 0 {
        lemma_sum_sq_le(s.drop_last());
        let a = sum(s.drop_last());
        let b = sum_sq(s.drop_last());
        let d = s.last();
        assert(b + d * d <= (a + d) * (a + d)) by (nonlinear_arith)
            requires
                b <= a * a,
                a >= 0,
                d >= 0,
        ;
    }
}

pub proof fn lemma_spread(s: Seq<nat>, x: int)
    ensures
        sum_sq(s) - 2 * x * sum(s) + s.len() * x * x >= 0,
    decreases s.len(),
{
    if s.len() > 0 {
        let t = s.drop_last();
        lemma_spread(t, x);
        let e = s.last() as int;
        let q = sum_sq(t) as int;
        let a = sum(t) as int;
        let k = t.len() as int;
        assert(q + e * e - 2 * x * (a + e) + (k + 1) * x * x == (q - 2 * x * a + k * x * x) + (e - x) * (e - x))
            by (nonlinear_arith);
        assert((e - x) * (e - x) >= 0) by (nonlinear_arith);
        assert(sum_sq(s) == q + e * e);
        assert(sum(s) == a + e);
        assert(s.len() == k + 1);
        let total = sum_sq(s) as int;
        let ss = sum(s) as int;
        assert(total - 2 * x * ss + (k + 1) * x * x >= 0) by (nonlinear_arith)
            requires
                total == q + e * e,
                ss == a + e,
                q + e * e - 2 * x * (a + e) + (k + 1) * x * x == (q - 2 * x * a + k * x * x) + (e - x) * (e - x),
                q - 2 * x * a + k * x * x >= 0,
                (e - x) * (e - x) >= 0,
        ;
        assert(sum_sq(s) - 2 * x * sum(s) + s.len() * x * x == total - 2 * x * ss + (k + 1) * x * x);
    } else {
        let z = sum(s) as int;
        let zq = sum_sq(s) as int;
        let zk = s.len() as int;
        assert(zq - 2 * x * z + zk * x * x >= 0) by (nonlinear_arith)
            requires zk == 0, z == 0, zq == 0;
    }
}

/// Cauchy-Schwarz for a list of distances: `(sum d)^2 <= k * sum d^2`.
pub proof fn lemma_cauchy(s: Seq<nat>)
    ensures
        sum(s) * sum(s) <= s.len() * sum_sq(s),
    decreases s.len(),
{
    if s.len() > 0 {
        let t = s.drop_last();
        lemma_cauchy(t);
        let e = s.last() as int;
        lemma_spread(t, e);
        let q = sum_sq(t) as int;
        let a = sum(t) as int;
        let k = t.len() as int;
        assert((a + e) * (a + e) <= (k + 1) * (q + e * e)) by (nonlinear_arith)
            requires
                a * a <= k * q,
                q - 2 * e * a + k * e * e >= 0,
        ;
    }
}

pub proof fn lemma_equal_sums(s: Seq<nat>, c: nat)
    requires
        forall|i: int| 0 <= i < s.len() ==> s[i] == c,
    ensures
        sum(s) == s.len() * c,
        sum_sq(s) == s.len() * (c * c),
    decreases s.len(),
{
    if s.len() > 0 {
        lemma_equal_sums(s.drop_last(), c);
        let k = (s.len() - 1) as int;
        assert(k * c + c == (k + 1) * c) by (nonlinear_arith);
        assert(k * (c * c) + c * c == (k + 1) * (c * c)) by (nonlinear_arith);
    }
}

/// Jain's index of any list of distances lies in `(0, 1]`.
pub proof fn lemma_fairness_range(ds: Seq<nat>)
    ensures
        0 < fairness_num(ds) <= fairness_den(ds),
{
    if sum_sq(ds) != 0 {
        lemma_cauchy(ds);
        lemma_sum_sq_le(ds);
        assert(sum(ds) * sum(ds) > 0);
    }
}

/// Jain's index is exactly one when all distances are equal, zero included.
pub proof fn lemma_fairness_equal(ds: Seq<nat>, c: nat)
    requires
        forall|i: int| 0 <= i < ds.len() ==> ds[i] == c,
    ensures
        fairness_num(ds) == fairness_den(ds),
{
    lemma_equal_sums(ds, c);
    let k = ds.len() as int;
    if sum_sq(ds) != 0 {
        assert((k * c) * (k * c) == k * (k * (c * c))) by (nonlinear_arith);
    }
}

/// Distance of one route, computed.
pub fn compute_route_distance(inst: &Instance, route: &Vec<usize>) -> (r: u128)
    requires
        inst.wf(),
        forall|j: int| 0 <= j < route@.len() ==> #[trigger] route@[j] < inst.num_nodes(),
    ensures
        r == route_distance(inst, route@),
        r <= (route@.len() + 1) * MAX_DIST,
{
    let n = route.len();
    if n == 0 {
        return 0;
    }
    let mut acc: u128 = 0;
    let mut i: usize = 1;
    assert(route@.subrange(0, 1).len() < 2);
    while i < n
        invariant
            inst.wf(),
            n == route@.len(),
            1 <= i <= n,
            forall|j: int| 0 <= j < route@.len() ==> #[trigger] route@[j] < inst.num_nodes(),
            acc == legs(inst, route@.subrange(0, i as int)),
            acc <= (i - 1) * MAX_DIST,
        decreases n - i,
    {
        let d = inst.distance(route[i - 1], route[i]);
        proof {
            let s = route@.subrange(0, i + 1);
            assert(s.drop_last() =~= route@.subrange(0, i as int));
            assert((i - 1) * MAX_DIST + MAX_DIST == i * MAX_DIST) by (nonlinear_arith);
            assert(i * MAX_DIST <= 18446744073709551615 * MAX_DIST) by (nonlinear_arith)
                requires i <= 18446744073709551615;
        }
        acc = acc + d as u128;
        i = i + 1;
    }
    assert(route@.subrange(0, n as int) =~= route@);
    let first = route[0];
    let last = route[n - 1];
    let head: u128 = if first != 0 { inst.distance(0, first) as u128 } else { 0 };
    let tail: u128 = if last != 0 { inst.distance(last, 0) as u128 } else { 0 };
    proof {
        assert((n - 1) * MAX_DIST + 2 * MAX_DIST == (n + 1) * MAX_DIST) by (nonlinear_arith);
        assert((n + 1) * MAX_DIST <= 18446744073709551616 * MAX_DIST) by (nonlinear_arith)
            requires n <= 18446744073709551615;
    }
    head + acc + tail
}

/// Distance of each route, in order.
pub fn compute_route_distances(inst: &Instance, routes: &Vec<Vec<usize>>) -> (r: Vec<u128>)
    requires
        inst.wf(),
        nodes_in_range(inst, routes_view(routes)),
    ensures
        r@.len() == routes@.len(),
        forall|v: int| 0 <= v < r@.len() ==> #[trigger] r@[v] == route_distances(inst, routes_view(routes))[v],
        forall|v: int| 0 <= v < r@.len() ==> #[trigger] r@[v] <= 18446744073709551616 * MAX_DIST,
{
    let mut out: Vec<u128> = Vec::new();
    let mut v: usize = 0;
    while v < routes.len()
        invariant
            inst.wf(),
            nodes_in_range(inst, routes_view(routes)),
            v <= routes@.len(),
            out@.len() == v,
            forall|u: int| 0 <= u < v ==> #[trigger] out@[u] == route_distances(inst, routes_view(routes))[u],
            forall|u: int| 0 <= u < v ==> #[trigger] out@[u] <= 18446744073709551616 * MAX_DIST,
        decreases routes@.len() - v,
    {
        proof {
            assert forall|j: int| 0 <= j < routes@[v as int]@.len() implies #[trigger] routes@[v as int]@[j] < inst.num_nodes() by {
                assert(routes_view(routes)[v as int][j] == routes@[v as int]@[j]);
            }
        }
        let d = compute_route_distance(inst, &routes[v]);
        proof {
            let len = routes@[v as int]@.len();
            assert(len == routes@[v as int].len());
            assert(len <= usize::MAX);
            assert((len + 1) * MAX_DIST <= 18446744073709551616 * MAX_DIST) by (nonlinear_arith)
                requires len <= 18446744073709551615;
        }
        out.push(d);
        v += 1;
    }
    out
}

/// The sum and the sum of squares of a list of distances, where the sum is
/// small enough to square.
pub fn sums_of(ds: &Vec<u128>, Ghost(spec_ds): Ghost<Seq<nat>>) -> (r: (u128, u128))
    requires
        ds@.len() == spec_ds.len(),
        forall|i: int| 0 <= i < ds@.len() ==> #[trigger] ds@[i] == spec_ds[i],
        sum(spec_ds) <= MAX_TOTAL_DISTANCE,
    ensures
        r.0 == sum(spec_ds),
        r.1 == sum_sq(spec_ds),
{
    let mut s: u128 = 0;
    let mut q: u128 = 0;
    let mut i: usize = 0;
    while i < ds.len()
        invariant
            ds@.len() == spec_ds.len(),
            forall|k: int| 0 <= k < ds@.len() ==> #[trigger] ds@[k] == spec_ds[k],
            sum(spec_ds) <= MAX_TOTAL_DISTANCE,
            i <= ds@.len(),
            s == sum(spec_ds.subrange(0, i as int)),
            q == sum_sq(spec_ds.subrange(0, i as int)),
        decreases ds@.len() - i,
    {
        proof {
            lemma_sum_prefix(spec_ds, i as int);
            lemma_sum_prefix_le(spec_ds, i as int + 1);
            lemma_sum_sq_le(spec_ds.subrange(0, i as int + 1));
            let t = sum(spec_ds.subrange(0, i as int + 1));
            assert(t * t <= MAX_TOTAL_DISTANCE * MAX_TOTAL_DISTANCE) by (nonlinear_arith)
                requires t <= MAX_TOTAL_DISTANCE;
            assert(spec_ds[i as int] * spec_ds[i as int] <= t * t) by (nonlinear_arith)
                requires spec_ds[i as int] <= t;
        }
        let d = ds[i];
        s = s + d;
        q = q + d * d;
        i += 1;
    }
    proof {
        assert(spec_ds.subrange(0, ds@.len() as int) =~= spec_ds);
    }
    (s, q)
}

/// Jain's index of a list of distances as an exact fraction.
pub fn fairness_of(ds: &Vec<u128>, Ghost(spec_ds): Ghost<Seq<nat>>) -> (r: Ratio)
    requires
        ds@.len() == spec_ds.len(),
        ds@.len() <= MAX_VEHICLES,
        forall|i: int| 0 <= i < ds@.len() ==> #[trigger] ds@[i] == spec_ds[i],
        sum(spec_ds) <= MAX_TOTAL_DISTANCE,
    ensures
        r.num == fairness_num(spec_ds),
        r.den == fairness_den(spec_ds),
{
    let (s, q) = sums_of(ds, Ghost(spec_ds));
    if q == 0 {
        return Ratio { num: 1, den: 1 };
    }
    let k = ds.len() as u128;
    proof {
        lemma_sum_sq_le(spec_ds);
        assert(s * s <= MAX_TOTAL_DISTANCE * MAX_TOTAL_DISTANCE) by (nonlinear_arith)
            requires s <= MAX_TOTAL_DISTANCE;
        assert(k * q <= (MAX_VEHICLES as int) * (MAX_TOTAL_DISTANCE * MAX_TOTAL_DISTANCE)) by (nonlinear_arith)
            requires k <= MAX_VEHICLES, q <= MAX_TOTAL_DISTANCE * MAX_TOTAL_DISTANCE;
    }
    Ratio { num: s * s, den: k * q }
}

/// The objective of a list of distances, in millionths.
pub fn objective_of(ds: &Vec<u128>, Ghost(spec_ds): Ghost<Seq<nat>>, rho_micro: u64) -> (r: u128)
    requires
        ds@.len() == spec_ds.len(),
        ds@.len() <= MAX_VEHICLES,
        forall|i: int| 0 <= i < ds@.len() ==> #[trigger] ds@[i] == spec_ds[i],
        sum(spec_ds) <= MAX_TOTAL_DISTANCE,
        rho_micro <= MAX_RHO,
    ensures
        r == sum(spec_ds) * OBJ_SCALE + unfairness_micro(rho_micro as nat, spec_ds),
        r <= MAX_TOTAL_DISTANCE * OBJ_SCALE + MAX_RHO,
{
    let (s, q) = sums_of(ds, Ghost(spec_ds));
    proof {
        assert(s * OBJ_SCALE <= MAX_TOTAL_DISTANCE * OBJ_SCALE) by (nonlinear_arith)
            requires s <= MAX_TOTAL_DISTANCE;
    }
    if q == 0 {
        return s * OBJ_SCALE;
    }
    let k = ds.len() as u128;
    let ghost bound: int = (MAX_VEHICLES as int) * (MAX_TOTAL_DISTANCE * MAX_TOTAL_DISTANCE);
    proof {
        lemma_sum_sq_le(spec_ds);
        lemma_cauchy(spec_ds);
        assert(s * s <= MAX_TOTAL_DISTANCE * MAX_TOTAL_DISTANCE) by (nonlinear_arith)
            requires s <= MAX_TOTAL_DISTANCE;
        assert(k * q <= bound) by (nonlinear_arith)
            requires k <= MAX_VEHICLES, q <= MAX_TOTAL_DISTANCE * MAX_TOTAL_DISTANCE,
                bound == (MAX_VEHICLES as int) * (MAX_TOTAL_DISTANCE * MAX_TOTAL_DISTANCE);
        assert(k * q > 0) by (nonlinear_arith)
            requires k >= 1, q >= 1;
        assert((rho_micro as int) * (k * q - s * s) <= (MAX_RHO as int) * bound) by (nonlinear_arith)
            requires rho_micro <= MAX_RHO, 0 <= k * q - s * s <= bound;
    }
    let den = k * q;
    let gap = den - s * s;
    let prod = (rho_micro as u128) * gap;
    let unfair = prod / den;
    proof {
        assert(unfair <= prod) by (nonlinear_arith)
            requires unfair == prod / den, den >= 1, prod >= 0;
        assert(gap <= den);
        assert(prod <= (rho_micro as int) * den) by (nonlinear_arith)
            requires prod == (rho_micro as int) * gap, gap <= den, rho_micro >= 0;
        vstd::arithmetic::div_mod::lemma_div_is_ordered(prod as int, (rho_micro as int) * den, den as int);
        vstd::arithmetic::div_mod::lemma_div_multiples_vanish(rho_micro as int, den as int);
    }
    s * OBJ_SCALE + unfair
}

} // verus!
