//! Conflict-Based Search for multi-agent path finding on 4-connected grids.
pub mod grid;
pub mod low_level;
pub mod high_level;
pub mod cbs;
pub mod vertex_cover;
pub mod mdd;
pub mod prioritisation;
pub mod dg_heuristic;
pub mod diagonal_subsolver;
pub mod io;
pub mod parse;
pub mod search_laws;
