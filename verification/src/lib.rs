//! A word-grid solver: a prefix index (trie) over an uppercase dictionary,
//! and a backtracking depth-first search that walks a rectangular letter grid
//! along 8-directional, non-repeating cell paths, pruning every path whose
//! prefix matches no dictionary word.

pub mod ranking;
pub mod solver;
pub mod trie;

pub use solver::BoggleSolver;
pub use trie::TrieNode;
