//! The sliding-tile game 2048 and players for it: the board and its moves,
//! a search tree, and a Monte-Carlo tree search that grows the tree by random
//! rollouts and names the move with the best mean result.

pub mod capacity;
pub mod game_logic;
pub mod random;
pub mod row;
pub mod strategy;
pub mod tree;
