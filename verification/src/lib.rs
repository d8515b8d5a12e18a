//! A verified solver for the table-day seating problem: people are assigned
//! to table-day slots so as to raise a social-variety objective, subject to a
//! per-table capacity limit, by greedy construction followed by a randomized
//! destroy/repair local search with a memoization cache keyed by the
//! rotation-canonical form of each table's occupant sequence.

pub mod algorithm;
pub mod cache;
pub mod insertion;
pub mod objective;
pub mod problem;
pub mod validator;

pub use algorithm::{solve, solve_deterministic};
pub use objective::ObjectiveValueCalculator;
pub use problem::{ProblemDescription, Solution, MAX_PEOPLE_FOR_TABLE};
pub use validator::validate_solution;
