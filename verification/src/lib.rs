//! A Connect-Four engine: a packed two-bits-per-cell board with exact win
//! detection and a positional heuristic, a depth-limited full-width minimax
//! search, a tabular self-play learner with mirror-symmetric memory, several
//! training regimes built on top of it, and a fixed-width byte codec for
//! persisting learned weights.

pub mod board;
pub mod bot;
pub mod codec;
pub mod interactive;
pub mod trainer;
