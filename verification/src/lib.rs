//! Move search for two-player games of perfect information by Monte Carlo
//! tree search, with machine-checked contracts.
//!
//! A game is described by the `Game` trait of `interface`. The search of
//! `strategies::mcts` grows a tree of statistics over the states that follow
//! the one it is asked about: each pass walks down the tree by UCT scores,
//! expands one node, plays the game out at random from there and records
//! the outcome on the way back. `strategies::pass` says what a playout and
//! a pass can do, and what follows from that.
//!
//! Scores are fixed-point numbers (`strategies::fixed`), and the tree
//! belongs to one owner at a time, so that every contract can speak of the
//! exact statistics of every node.

pub mod interface;
pub mod strategies;
