//! Crossword grids, the slots in them, and a dictionary-driven filler.

pub mod text;
pub mod crossword;
pub mod parse;
pub mod trie;
pub mod display;
pub mod wordlist;
pub mod fill;
pub mod across;
