//! A verified solver for the numbers round of the Countdown game:
//! given integer tiles and a target, a breadth-first search over
//! immutable states finds the single value closest to the target that
//! the four arithmetic operators can reach, each tile used at most
//! once, stopping early on an exact match.

pub mod node;
pub mod search;

pub use search::solve;
pub use search::SolveStats;

pub use node::Frame;
pub use node::Node;
pub use node::NodeData;
pub use node::Operation;
pub use node::Operator;
