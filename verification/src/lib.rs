//! Solving engine for fixed-length (five letter) word-guessing puzzles.
//!
//! The crate provides the letter/word/feedback primitives, the constraint
//! model used to prune candidate pools, a greedy interactive solver, and a
//! depth-bounded decision-tree builder together with its player and a parser
//! for externally authored strategy dumps.

pub mod analysis;
pub mod chars;
pub mod decision_tree;
pub mod feedback;
pub mod solver;

pub use analysis::Difference;
pub use chars::words_from_reader;
pub use chars::Char;
pub use chars::ParseError;
pub use chars::Word;
pub use chars::WORD_SIZE;
pub use feedback::Directive;
pub use feedback::Feedback;
pub use feedback::Guess;
pub use solver::solve;
pub use solver::CharSet;
pub use solver::Constraints;
pub use solver::Solution;
pub use solver::Words;
