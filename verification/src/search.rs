//! State-space search over any puzzle that is given by four functions: the
//! actions open in a state, the state an action leads to, the goal, and a
//! test that may rule a state out.

pub mod bfs;
pub mod dfs;
pub mod frontier;
pub mod laws;
pub mod model;
pub mod order;
pub mod path;

pub use bfs::bfs;
pub use dfs::bounded_dfs;
