pub mod beam_search;
pub mod clock;
pub mod config;
pub mod deterministic;
pub mod evaluation;
pub mod grasp;
pub mod instance;
pub mod local_search;
pub mod moves;
pub mod random;
pub mod sim_annealing;
pub mod solution;
pub mod solver;
pub mod validity;
pub mod vnd;

pub use beam_search::BeamSearch;
pub use deterministic::DeterministicConstruction;
pub use instance::Instance;
pub use local_search::LocalSearch;
pub use random::RandomConstruction;
pub use solution::Solution;
pub use solver::Solver;
