//! Search strategies and the parts they are built from.

pub mod fixed;
pub mod mcts;
pub mod pass;
pub mod random;
pub mod tree;
pub mod util;
