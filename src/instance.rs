use vstd::prelude::*;

verus! {

/// Largest fleet the library scores: keeps the fairness arithmetic within 128 bits.
pub const MAX_VEHICLES: usize = 65536;

/// Largest number of requests: keeps node indices `0..=2n` within 32 bits.
pub const MAX_REQS: usize = 1073741823;

/// Largest distance between two nodes.
pub const MAX_DIST: u64 = 4294967295;

/// Largest fairness weight, in millionths.
pub const MAX_RHO: u64 = 1099511627776;

/// The node of a request's pickup location: `1 + request`.
#[derive(Debug, Clone, Copy, PartialEq, Eq, Hash)]
pub struct PickupIndex(pub usize);

/// The node of a request's dropoff location: `1 + n_reqs + request`.
#[derive(Debug, Clone, Copy, PartialEq, Eq, Hash)]
pub struct DropoffIndex(pub usize);

impl PickupIndex {
    pub fn of_request(req: usize) -> (r: PickupIndex)
        requires
            req < MAX_REQS,
        ensures
            r.0 == req + 1,
    {
        PickupIndex(req + 1)
    }
}

impl DropoffIndex {
    pub fn of_request(n_reqs: usize, req: usize) -> (r: DropoffIndex)
        requires
            req < n_reqs <= MAX_REQS,
        ensures
            r.0 == req + n_reqs + 1,
    {
        DropoffIndex(req + n_reqs + 1)
    }
}

/// What a node index stands for, with requests numbered from one.
#[derive(Debug, Clone, Copy, PartialEq, Eq, Structural)]
pub enum LocationKind {
    Depot,
    Pickup(usize),
    Dropoff(usize),
    Invalid,
}

/// A problem instance, read-only once built.
///
/// Nodes are numbered `0` (depot), `1..=n` (pickups) and `n+1..=2n`
/// (dropoffs); `dist[u][v]` is the travel cost from `u` to `v`, already
/// rounded up to an integer. The fairness weight `rho` is held in
/// millionths (`rho_micro == rho * 1_000_000`).
#[derive(Debug)]
pub struct Instance {
    pub name: String,
    pub n_reqs: usize,
    pub n_vehicles: usize,
    pub cap: usize,
    pub gamma: usize,
    pub rho_micro: u64,
    pub demands: Vec<usize>,
    pub dist: Vec<Vec<u64>>,
}

impl Instance {
    pub open spec fn num_nodes(&self) -> int {
        2 * self.n_reqs + 1
    }

    pub open spec fn wf(&self) -> bool {
        &&& self.n_reqs <= MAX_REQS
        &&& self.n_vehicles <= MAX_VEHICLES
        &&& self.rho_micro <= MAX_RHO
        &&& self.demands@.len() == self.n_reqs
        &&& self.dist@.len() == self.num_nodes()
        &&& forall|u: int| 0 <= u < self.num_nodes() ==> #[trigger] self.dist@[u]@.len() == self.num_nodes()
        &&& forall|u: int, v: int|
            0 <= u < self.num_nodes() && 0 <= v < self.num_nodes() ==> #[trigger] self.dist@[u]@[v] <= MAX_DIST
    }

    /// How many requests a construction aims to serve: `min(gamma, n)`.
    pub open spec fn target_count(&self) -> int {
        if self.gamma < self.n_reqs {
            self.gamma as int
        } else {
            self.n_reqs as int
        }
    }

    /// Travel cost from node `u` to node `v`.
    pub open spec fn d(&self, u: int, v: int) -> nat {
        self.dist@[u]@[v] as nat
    }

    pub open spec fn is_pickup(&self, x: int) -> bool {
        1 <= x <= self.n_reqs
    }

    pub open spec fn is_dropoff(&self, x: int) -> bool {
        self.n_reqs < x <= 2 * self.n_reqs
    }

    /// The request that a pickup or dropoff node belongs to.
    pub open spec fn req_of(&self, x: int) -> int {
        if x <= self.n_reqs {
            x - 1
        } else {
            x - self.n_reqs - 1
        }
    }

    pub open spec fn pickup_node(&self, q: int) -> int {
        q + 1
    }

    pub open spec fn dropoff_node(&self, q: int) -> int {
        q + self.n_reqs + 1
    }

    pub open spec fn demand(&self, q: int) -> int {
        self.demands@[q] as int
    }

    /// Signed change of the load when a vehicle visits node `x`.
    pub open spec fn delta(&self, x: int) -> int {
        if self.is_pickup(x) {
            self.demand(self.req_of(x))
        } else if self.is_dropoff(x) {
            -self.demand(self.req_of(x))
        } else {
            0
        }
    }

    /// Builds an instance from its parts; `None` where the shapes do not
    /// fit together or a value is past the library's limits.
    pub fn new(
        name: String,
        n_reqs: usize,
        n_vehicles: usize,
        cap: usize,
        gamma: usize,
        rho_micro: u64,
        demands: Vec<usize>,
        dist: Vec<Vec<u64>>,
    ) -> (r: Option<Instance>)
        ensures
            r is Some <==> (Instance { name, n_reqs, n_vehicles, cap, gamma, rho_micro, demands, dist }).wf(),
            r is Some ==> r->0 == (Instance { name, n_reqs, n_vehicles, cap, gamma, rho_micro, demands, dist }),
    {
        let ghost cand = Instance { name, n_reqs, n_vehicles, cap, gamma, rho_micro, demands, dist };
        if n_reqs > MAX_REQS || n_vehicles > MAX_VEHICLES || rho_micro > MAX_RHO || demands.len() != n_reqs {
            return None;
        }
        let nodes: usize = 2 * n_reqs + 1;
        if dist.len() != nodes {
            return None;
        }
        let mut u: usize = 0;
        while u < nodes
            invariant
                cand == (Instance { name, n_reqs, n_vehicles, cap, gamma, rho_micro, demands, dist }),
                nodes == cand.num_nodes(),
                dist@ == cand.dist@,
                dist@.len() == nodes,
                u <= nodes,
                forall|a: int| 0 <= a < u ==> #[trigger] dist@[a]@.len() == nodes,
                forall|a: int, b: int| 0 <= a < u && 0 <= b < nodes ==> #[trigger] dist@[a]@[b] <= MAX_DIST,
            decreases nodes - u,
        {
            let row = &dist[u];
            if row.len() != nodes {
                assert(cand.dist@[u as int]@.len() != cand.num_nodes());
                assert(!cand.wf());
                return None;
            }
            let mut v: usize = 0;
            while v < nodes
                invariant
                    u < nodes,
                    cand == (Instance { name, n_reqs, n_vehicles, cap, gamma, rho_micro, demands, dist }),
                    nodes == cand.num_nodes(),
                    dist@ == cand.dist@,
                    row@ == dist@[u as int]@,
                    row@.len() == nodes,
                    v <= nodes,
                    forall|b: int| 0 <= b < v ==> #[trigger] row@[b] <= MAX_DIST,
                decreases nodes - v,
            {
                if row[v] > MAX_DIST {
                    assert(cand.dist@[u as int]@[v as int] > MAX_DIST);
                    assert(!cand.wf());
                    return None;
                }
                v += 1;
            }
            u += 1;
        }
        Some(Instance { name, n_reqs, n_vehicles, cap, gamma, rho_micro, demands, dist })
    }

    /// What node `index` stands for: the depot, the pickup or the dropoff of
    /// a request numbered from one, or no node.
    pub fn location_kind(&self, index: usize) -> (r: LocationKind)
        ensures
            index == 0 ==> r == LocationKind::Depot,
            1 <= index <= self.n_reqs ==> r == LocationKind::Pickup(index),
            self.n_reqs < index <= 2 * self.n_reqs ==> r == LocationKind::Dropoff((index - self.n_reqs) as usize),
            index > 2 * self.n_reqs ==> r == LocationKind::Invalid,
    {
        if index == 0 {
            LocationKind::Depot
        } else if index <= self.n_reqs {
            LocationKind::Pickup(index)
        } else if index - self.n_reqs <= self.n_reqs {
            LocationKind::Dropoff(index - self.n_reqs)
        } else {
            LocationKind::Invalid
        }
    }

    pub fn name(&self) -> (r: &str)
        ensures
            r@ == self.name@,
    {
        self.name.as_str()
    }

    pub fn n_reqs(&self) -> (r: usize)
        ensures
            r == self.n_reqs,
    {
        self.n_reqs
    }

    pub fn n_vehicles(&self) -> (r: usize)
        ensures
            r == self.n_vehicles,
    {
        self.n_vehicles
    }

    pub fn cap(&self) -> (r: usize)
        ensures
            r == self.cap,
    {
        self.cap
    }

    pub fn gamma(&self) -> (r: usize)
        ensures
            r == self.gamma,
    {
        self.gamma
    }

    /// The fairness weight, in millionths.
    pub fn rho(&self) -> (r: u64)
        ensures
            r == self.rho_micro,
    {
        self.rho_micro
    }

    pub fn demands(&self) -> (r: &Vec<usize>)
        ensures
            r@ == self.demands@,
    {
        &self.demands
    }

    /// The travel cost from node `u` to node `v`.
    pub fn distance(&self, u: usize, v: usize) -> (r: u64)
        requires
            self.wf(),
            u < self.num_nodes(),
            v < self.num_nodes(),
        ensures
            r == self.d(u as int, v as int),
            r <= MAX_DIST,
    {
        self.dist[u][v]
    }

    /// The distance matrix over all nodes.
    pub fn compute_distance_matrix(&self) -> (r: &Vec<Vec<u64>>)
        ensures
            r@ == self.dist@,
    {
        &self.dist
    }
}

} // verus!
