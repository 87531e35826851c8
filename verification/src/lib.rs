//! Self-play training of a policy for a two-snake game on an 11 by 11 grid: the game as a
//! sequence of single decisions, the keys and the symmetric variants of its positions, the
//! book-keeping of the tree search that an evaluator guides, a rollout search that needs
//! no evaluator, and the rounds of self-play with their bounded store of samples.
//!
//! The library holds no floating-point numbers. The priors and values of the guided search
//! and the evaluator itself stay with the caller, who hands over the decisions they lead
//! to.

pub mod arena;
pub mod canonical_board;
pub mod coach;
pub mod examples_handler;
pub mod game;
pub mod layout;
pub mod mcts;
pub mod normal_mcts;
pub mod utils;
