//! Word search on a five-by-five letter board: parsing the board text,
//! scoring a traced word, walking the board for dictionary words (with an
//! optional budget of letter replacements), and tallying the best finds.

pub mod board;
pub mod history;
mod text;
pub mod trie;
pub mod search;
pub mod config;
pub mod score;
pub mod parse;
pub mod render;
pub mod tally;
