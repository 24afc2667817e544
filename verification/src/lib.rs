//! Approximate solvers for the multiway number partitioning problem:
//! split a multiset of non-negative integers into k groups so that the
//! largest group sum (the makespan) is as small as possible.
//!
//! Two heuristics share one data model: a GRASP metaheuristic (randomized
//! greedy construction plus local search, restarted) and the Karmarkar-Karp
//! differencing method generalized to k ways.

pub mod common;
pub mod grasp;
pub mod karmarkar_karp;

pub use common::Partition;
pub use common::SolverError;
pub use common::Subset;
