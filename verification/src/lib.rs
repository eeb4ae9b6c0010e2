//! A generator of 15 by 15 crossword puzzles: answers and clues are sampled from a
//! line-oriented corpus and laid out so that every new word crosses a letter
//! that is already on the board.

pub mod geometry;
pub mod word;
pub mod occupancy;
pub mod scanner;
pub mod placement;
pub mod chance;
pub mod sampler;
pub mod crossword;
pub mod scoring;
pub mod scatter;
