//! A solver for regex crosswords: rectangular grids in which every row and
//! every column must match a line-specific regular expression.
//!
//! The crate derives, from a restricted regex grammar, the finite set of
//! bytes that could occupy a single matched position, combines per-edge
//! hints into per-row and per-column allowed-byte sets, and then narrows
//! each cell's candidate set by constraint propagation with targeted
//! brute force over one line at a time.

pub mod allowed;
pub mod ast;
pub mod board;
pub mod bytes;
pub mod errors;
pub mod hints;
pub mod puzzle;

pub use allowed::allowed_char_intersection;
pub use allowed::get_all_allowed_chars;
pub use allowed::get_both_allowed_chars;
pub use allowed::get_allowed_chars;
pub use allowed::strip_backreferences;
pub use ast::ClassItem;
pub use ast::ClassSetKind;
pub use ast::PerlClassKind;
pub use ast::RegexAst;
pub use board::Board;
pub use bytes::insert_sorted;
pub use bytes::strictly_sorted;
pub use errors::ConfigurationError;
pub use errors::HintEdge;
pub use errors::ContradictionError;
pub use errors::PatternError;
pub use errors::SolveError;
pub use hints::Hints;
pub use puzzle::Hint;
pub use puzzle::PuzzleSpec;
pub use puzzle::solve_puzzle;
