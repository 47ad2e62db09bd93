//! Board games (tic-tac-toe, connect four, reversi) and the data and
//! bookkeeping of a Monte-Carlo tree search that plays them.

pub mod game;
pub mod text;
pub mod tic_tac_toe;
pub mod reversi;
pub mod connect_four;
pub mod tree;
pub mod mcts_data;
pub mod amcts_data;
pub mod random;
pub mod search;
pub mod consistency;
pub mod balance;
pub mod terminals;
pub mod step;
pub mod ranking;
pub mod par_search;
pub mod action_text;
pub mod nboard;
pub mod engine;
pub mod runner;
pub mod report;
pub mod dot_visualize;
pub mod games;
