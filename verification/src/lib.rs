//! Lineup optimization library.
//!
//! Assembles an optimal roster ("lineup") of items (players) from a pool,
//! subject to a total budget ceiling and exact per-category cardinality
//! requirements, maximizing the summed projected value of the chosen items.
//!
//! The core is the search engine in [`lineup_optimizer`]: a memoized
//! recursive decision procedure (knapsack with category constraints) whose
//! executable engine is proved to return exactly the recursive specification
//! [`lineup_optimizer::solve`], together with proofs that a feasible result
//! fits its budget, fills the requirements, repeats no item, never worsens
//! under a larger budget, and equals the optimum of the equivalent 0/1
//! integer program.
//!
//! Around the engine: [`player_pool`] freezes the deduplicated, ordered item
//! catalog; [`category_mapper`] resolves textual position labels to category
//! ids; [`common`] derives the constraint vector from a contest's roster
//! slots; [`slate_reader`] normalizes provider slate rows into players;
//! [`builder`] is the fluent configuration object wiring a run together; and
//! [`lp_optimizer`] states the same problem as plain 0/1 program data for an
//! external mixed-integer solver.
//!
//! Projected points are carried as fixed-point integers in thousandths of a
//! point throughout.

pub mod builder;
pub mod category_mapper;
pub mod common;
pub mod lineup_optimizer;
pub mod lp_optimizer;
pub mod player_pool;
pub mod slate_reader;
