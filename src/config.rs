use vstd::prelude::*;

verus! {

/// The benchmark sizes, by number of requests.
#[derive(Debug, Clone, Copy, PartialEq, Eq, Structural)]
pub enum InstanceReqSize {
    Size50,
    Size100,
    Size200,
    Size500,
    Size1000,
    Size2000,
    Size5000,
    Size10000,
}

impl InstanceReqSize {
    /// The number of requests.
    pub open spec fn requests(&self) -> nat {
        match self {
            InstanceReqSize::Size50 => 50,
            InstanceReqSize::Size100 => 100,
            InstanceReqSize::Size200 => 200,
            InstanceReqSize::Size500 => 500,
            InstanceReqSize::Size1000 => 1000,
            InstanceReqSize::Size2000 => 2000,
            InstanceReqSize::Size5000 => 5000,
            InstanceReqSize::Size10000 => 10000,
        }
    }

    /// The number of requests in decimal, as the benchmark folders name it.
    pub fn as_str(&self) -> (r: &'static str)
        ensures
            *self == InstanceReqSize::Size50 ==> r@ == "50"@,
            *self == InstanceReqSize::Size100 ==> r@ == "100"@,
            *self == InstanceReqSize::Size200 ==> r@ == "200"@,
            *self == InstanceReqSize::Size500 ==> r@ == "500"@,
            *self == InstanceReqSize::Size1000 ==> r@ == "1000"@,
            *self == InstanceReqSize::Size2000 ==> r@ == "2000"@,
            *self == InstanceReqSize::Size5000 ==> r@ == "5000"@,
            *self == InstanceReqSize::Size10000 ==> r@ == "10000"@,
    {
        match self {
            InstanceReqSize::Size50 => "50",
            InstanceReqSize::Size100 => "100",
            InstanceReqSize::Size200 => "200",
            InstanceReqSize::Size500 => "500",
            InstanceReqSize::Size1000 => "1000",
            InstanceReqSize::Size2000 => "2000",
            InstanceReqSize::Size5000 => "5000",
            InstanceReqSize::Size10000 => "10000",
        }
    }

    /// Every size, smallest first.
    pub fn all() -> (r: Vec<InstanceReqSize>)
        ensures
            r@ == seq![
                InstanceReqSize::Size50,
                InstanceReqSize::Size100,
                InstanceReqSize::Size200,
                InstanceReqSize::Size500,
                InstanceReqSize::Size1000,
                InstanceReqSize::Size2000,
                InstanceReqSize::Size5000,
                InstanceReqSize::Size10000,
            ],
    {
        let r = vec![
            InstanceReqSize::Size50,
            InstanceReqSize::Size100,
            InstanceReqSize::Size200,
            InstanceReqSize::Size500,
            InstanceReqSize::Size1000,
            InstanceReqSize::Size2000,
            InstanceReqSize::Size5000,
            InstanceReqSize::Size10000,
        ];
        assert(r@ =~= seq![
            InstanceReqSize::Size50,
            InstanceReqSize::Size100,
            InstanceReqSize::Size200,
            InstanceReqSize::Size500,
            InstanceReqSize::Size1000,
            InstanceReqSize::Size2000,
            InstanceReqSize::Size5000,
            InstanceReqSize::Size10000,
        ]);
        r
    }

    /// The sizes for quick runs.
    pub fn small() -> (r: Vec<InstanceReqSize>)
        ensures
            r@ == seq![InstanceReqSize::Size50, InstanceReqSize::Size100],
    {
        let r = vec![InstanceReqSize::Size50, InstanceReqSize::Size100];
        assert(r@ =~= seq![InstanceReqSize::Size50, InstanceReqSize::Size100]);
        r
    }

    pub fn medium() -> (r: Vec<InstanceReqSize>)
        ensures
            r@ == seq![InstanceReqSize::Size200, InstanceReqSize::Size500, InstanceReqSize::Size1000],
    {
        let r = vec![InstanceReqSize::Size200, InstanceReqSize::Size500, InstanceReqSize::Size1000];
        assert(r@ =~= seq![InstanceReqSize::Size200, InstanceReqSize::Size500, InstanceReqSize::Size1000]);
        r
    }

    pub fn large() -> (r: Vec<InstanceReqSize>)
        ensures
            r@ == seq![InstanceReqSize::Size2000, InstanceReqSize::Size5000, InstanceReqSize::Size10000],
    {
        let r = vec![InstanceReqSize::Size2000, InstanceReqSize::Size5000, InstanceReqSize::Size10000];
        assert(r@ =~= seq![InstanceReqSize::Size2000, InstanceReqSize::Size5000, InstanceReqSize::Size10000]);
        r
    }
}

/// Which solvers a batch run uses.
#[derive(Debug, Clone, Copy, PartialEq, Eq, Structural)]
pub struct SolverConfig {
    pub run_deterministic: bool,
    pub run_random: bool,
    pub run_beam_search: bool,
    pub run_local_search: bool,
    pub run_vnd: bool,
    pub run_grasp: bool,
    pub run_simulated_annealing: bool,
    pub run_metaheuristic_comparison: bool,
}

impl Default for SolverConfig {
    /// The deterministic construction alone.
    fn default() -> (r: Self)
        ensures
            r == (SolverConfig {
                run_deterministic: true,
                run_random: false,
                run_beam_search: false,
                run_local_search: false,
                run_vnd: false,
                run_grasp: false,
                run_simulated_annealing: false,
                run_metaheuristic_comparison: false,
            }),
    {
        SolverConfig {
            run_deterministic: true,
            run_random: false,
            run_beam_search: false,
            run_local_search: false,
            run_vnd: false,
            run_grasp: false,
            run_simulated_annealing: false,
            run_metaheuristic_comparison: false,
        }
    }
}

impl SolverConfig {
    /// Only the fast constructions.
    pub fn fast_only() -> (r: Self)
        ensures
            r == (SolverConfig {
                run_deterministic: true,
                run_random: true,
                run_beam_search: false,
                run_local_search: false,
                run_vnd: false,
                run_grasp: false,
                run_simulated_annealing: false,
                run_metaheuristic_comparison: false,
            }),
    {
        SolverConfig { run_random: true, ..SolverConfig::default() }
    }

    /// Every solver.
    pub fn all() -> (r: Self)
        ensures
            r == (SolverConfig {
                run_deterministic: true,
                run_random: true,
                run_beam_search: true,
                run_local_search: true,
                run_vnd: true,
                run_grasp: true,
                run_simulated_annealing: true,
                run_metaheuristic_comparison: true,
            }),
    {
        SolverConfig {
            run_deterministic: true,
            run_random: true,
            run_beam_search: true,
            run_local_search: true,
            run_vnd: true,
            run_grasp: true,
            run_simulated_annealing: true,
            run_metaheuristic_comparison: true,
        }
    }

    /// The metaheuristics and their comparison, with the deterministic
    /// construction that the default runs.
    pub fn metaheuristics_only() -> (r: Self)
        ensures
            r == (SolverConfig {
                run_deterministic: true,
                run_random: false,
                run_beam_search: false,
                run_local_search: false,
                run_vnd: true,
                run_grasp: true,
                run_simulated_annealing: true,
                run_metaheuristic_comparison: true,
            }),
    {
        SolverConfig {
            run_vnd: true,
            run_grasp: true,
            run_simulated_annealing: true,
            run_metaheuristic_comparison: true,
            ..SolverConfig::default()
        }
    }
}

} // verus!
