//! Classic computer science problems: adversarial game-tree search over a
//! common position interface, together with the games and puzzles that use it.

pub mod board;
pub mod minimax;
pub mod tictactoe;
pub mod connect4;
pub mod oware;
pub mod graph;
pub mod missionary;
pub mod node;
pub mod csp;
pub mod queens;
pub mod map_coloring;
pub mod sendmoney;
pub mod maze;
pub mod knapsack;
