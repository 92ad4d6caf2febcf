//! A solver for the "Letter Boxed" word puzzle: letters sit on the sides of a
//! square, and a solution is a chain of dictionary words, each starting with
//! the letter the previous one ended with, that never takes two consecutive
//! letters from the same side and together uses every letter on the board.
pub mod board;
pub mod driver;
pub mod index;
pub mod search;
pub mod words;

pub use board::{parse_sides, sides_to_chars, Config};
pub use driver::{chain_line, run};
pub use index::WordIndex;
pub use search::{expand_all, is_complete_chain, permute, solve};
pub use words::{filter_words, is_valid_word, word_chars};
