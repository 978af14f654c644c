//! The typed terminal failures of the solver.
//!
//! All four are terminal and never retried: configuration and pattern
//! problems are detected before any search work begins, a contradiction
//! proves the puzzle unsolvable as given, and search exhaustion is a
//! completeness limitation of line-local search, not a proof of
//! unsatisfiability.

use vstd::prelude::*;

verus! {

/// One of the four hint edges of a puzzle.
#[derive(Debug, Clone, Copy, PartialEq, Eq, Structural)]
pub enum HintEdge {
    Top,
    Bottom,
    Left,
    Right,
}

/// A hint uses a grammar construct outside the supported subset, a
/// literal outside printable ASCII, or cannot be handled by the
/// external matching engine.
#[derive(Debug, Clone, Copy, PartialEq, Eq, Structural)]
pub enum PatternError {
    /// A construct the restricted grammar deliberately excludes:
    /// Unicode or POSIX classes, class set operators, nested brackets.
    UnsupportedConstruct,
    /// A literal outside the printable ASCII range 0x20..=0x7E.
    NonPrintableLiteral,
    /// A bracketed range whose end precedes its start.
    InvalidClassRange,
    /// The external matcher rejected this hint at compile time; the
    /// index counts hints of the edge from one.
    CompileFailed { edge: HintEdge, index: usize },
    /// The external matcher gave up while testing a line.
    MatchFailed,
}

/// Some row or column lacks any hint.
#[derive(Debug, Clone, Copy, PartialEq, Eq, Structural)]
pub enum ConfigurationError {
    /// Neither the top nor the bottom hint list covers every column.
    MissingColumnHints,
    /// Neither the left nor the right hint list covers every row.
    MissingRowHints,
    /// A single line has neither of its two possible hints.
    LineWithoutHint,
}

/// A cell's candidate set became empty, either at initialization or
/// during a refinement step.
#[derive(Debug, Clone, PartialEq, Eq)]
pub enum ContradictionError {
    /// At initialization: the row-allowed and column-allowed sets of
    /// cell (x, y) are disjoint. Both contributing sets are reported.
    EmptyIntersection { x: usize, y: usize, row_allowed: Vec<u8>, col_allowed: Vec<u8> },
    /// During refinement: no candidate byte of the pivot cell can
    /// complete its line. The candidates the cell started with are
    /// reported.
    EmptyRefinement { x: usize, y: usize, is_column: bool, candidates: Vec<u8> },
}

/// The terminal outcomes of solving other than a full solution.
#[derive(Debug, Clone, PartialEq, Eq)]
pub enum SolveError {
    Configuration(ConfigurationError),
    Pattern(PatternError),
    Contradiction(ContradictionError),
    /// No refinement target remains although cells are still undecided.
    SearchExhausted,
}

} // verus!
