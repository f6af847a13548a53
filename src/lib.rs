//! Word search on a small letter grid: packed words and paths, the adjacency
//! graph of the grid, the board model, the lexicon and the depth-first search
//! that finds and scores every dictionary word on the board.
pub mod codec;
pub mod board;
pub mod grid;
pub mod lexicon;
pub mod search;
pub mod report;
