//! Rating and tournament engine for a two-conference basketball league.
//!
//! Team skill is tracked as a fixed-point rating (micro points, so a rating
//! of 1000.0 is stored as 1_000_000_000). Win probabilities are fixed-point
//! fractions of `PROB_SCALE`. From recorded or randomly drawn game outcomes
//! the engine updates ratings, simulates best-of-seven series with the
//! 2-2-1-1-1 home pattern, and composes play-in games and elimination
//! rounds into conference brackets and a championship.

pub mod process_data;
pub mod simulate;
pub mod types;
pub mod utils;
