//! End-to-end solving tests: board initialization, refinement,
//! blacklisting, and the typed terminal outcomes.

use regex_crossword::get_all_allowed_chars;
use regex_crossword::get_both_allowed_chars;
use regex_crossword::solve_puzzle;
use regex_crossword::Board;
use regex_crossword::ClassItem;
use regex_crossword::ClassSetKind;
use regex_crossword::ConfigurationError;
use regex_crossword::ContradictionError;
use regex_crossword::Hint;
use regex_crossword::HintEdge;
use regex_crossword::Hints;
use regex_crossword::PatternError;
use regex_crossword::PerlClassKind;
use regex_crossword::PuzzleSpec;
use regex_crossword::RegexAst;
use regex_crossword::SolveError;

fn bracket(items: Vec<ClassItem>) -> RegexAst {
    RegexAst::ClassBracketed {
        negated: false,
        kind: ClassSetKind::Item(ClassItem::Union(items)),
    }
}

fn anchored(inner: RegexAst) -> RegexAst {
    RegexAst::Concat(vec![RegexAst::Assertion, inner, RegexAst::Assertion])
}

fn hint(pattern: &[u8], ast: RegexAst) -> Hint {
    Hint { pattern: pattern.to_vec(), ast }
}

/// The `^[AB]$` hint of the one-cell puzzle.
fn ab_hint() -> Hint {
    hint(
        b"^[AB]$",
        anchored(bracket(vec![ClassItem::Literal('A'), ClassItem::Literal('B')])),
    )
}

#[test]
fn one_cell_puzzle_with_two_survivors_is_exhausted() {
    // Both letters individually satisfy both lines, so no refinement
    // step can shrink the candidate set.
    let spec = PuzzleSpec {
        width: 1,
        height: 1,
        top_hints: Some(vec![Some(ab_hint())]),
        bottom_hints: None,
        left_hints: Some(vec![Some(ab_hint())]),
        right_hints: None,
    };
    assert_eq!(solve_puzzle(&spec), Err(SolveError::SearchExhausted));
}

#[test]
fn one_cell_puzzle_starts_from_the_hint_intersection() {
    let spec = PuzzleSpec {
        width: 1,
        height: 1,
        top_hints: Some(vec![Some(ab_hint())]),
        bottom_hints: None,
        left_hints: Some(vec![Some(ab_hint())]),
        right_hints: None,
    };
    let universe = get_all_allowed_chars(&spec).unwrap();
    assert_eq!(universe, vec![b'A', b'B']);
    let top = spec.top_hints.as_ref().unwrap()[0].as_ref();
    let left = spec.left_hints.as_ref().unwrap()[0].as_ref();
    let col = get_both_allowed_chars(top, None, &universe).unwrap();
    let row = get_both_allowed_chars(left, None, &universe).unwrap();
    let board = Board::new(1, 1, &vec![row], &vec![col]).unwrap();
    assert_eq!(board.allowed_chars(0, 0), &vec![b'A', b'B']);
    // After the solving attempt gives up, the candidate set has not
    // grown: it is still a subset of the initial one.
    let hints = Hints::from_spec(&spec).unwrap();
    let mut board = board;
    assert_eq!(board.solve(&hints), Err(SolveError::SearchExhausted));
    assert_eq!(board.allowed_chars(0, 0), &vec![b'A', b'B']);
}

#[test]
fn two_cell_puzzle_is_decided_by_its_column_hints() {
    // width 2, height 1: left hint ^A.$, top hints ^A$ and ^B$.
    let spec = PuzzleSpec {
        width: 2,
        height: 1,
        top_hints: Some(vec![
            Some(hint(b"^A$", anchored(RegexAst::Literal('A')))),
            Some(hint(b"^B$", anchored(RegexAst::Literal('B')))),
        ]),
        bottom_hints: None,
        left_hints: Some(vec![Some(hint(
            b"^A.$",
            anchored(RegexAst::Concat(vec![RegexAst::Literal('A'), RegexAst::Dot])),
        ))]),
        right_hints: None,
    };
    assert_eq!(solve_puzzle(&spec), Ok(vec![b'A', b'B']));
}

#[test]
fn refinement_prunes_through_the_row_hint() {
    // Column hints allow both letters everywhere; only the row hint AB
    // decides the grid, after the column targets are blacklisted.
    let ab = || bracket(vec![ClassItem::Literal('A'), ClassItem::Literal('B')]);
    let spec = PuzzleSpec {
        width: 2,
        height: 1,
        top_hints: Some(vec![
            Some(hint(b"[AB]", ab())),
            Some(hint(b"[AB]", ab())),
        ]),
        bottom_hints: None,
        left_hints: Some(vec![Some(hint(
            b"AB",
            RegexAst::Concat(vec![RegexAst::Literal('A'), RegexAst::Literal('B')]),
        ))]),
        right_hints: None,
    };
    assert_eq!(solve_puzzle(&spec), Ok(vec![b'A', b'B']));
}

#[test]
fn matching_keeps_the_backreference_analysis_drops() {
    // The left hint (A|B)\1 forces both cells equal; its analysis uses
    // the stripped pattern (A|B), its matching the original one. The
    // first column pins the first cell to A, so the backreference
    // decides the second.
    let a_or_b = || RegexAst::Group(Box::new(RegexAst::Alternation(vec![
        RegexAst::Literal('A'),
        RegexAst::Literal('B'),
    ])));
    let spec = PuzzleSpec {
        width: 2,
        height: 1,
        top_hints: Some(vec![
            Some(hint(b"A", RegexAst::Literal('A'))),
            Some(hint(b"A|B", RegexAst::Alternation(vec![
                RegexAst::Literal('A'),
                RegexAst::Literal('B'),
            ]))),
        ]),
        bottom_hints: None,
        left_hints: Some(vec![Some(hint(b"(A|B)\\1", a_or_b()))]),
        right_hints: None,
    };
    assert_eq!(solve_puzzle(&spec), Ok(vec![b'A', b'A']));
}

#[test]
fn column_without_any_hint_is_a_configuration_error() {
    // The second column has a null top hint and no bottom hints at
    // all: detected while the allowed sets are built, before any
    // refinement step.
    let spec = PuzzleSpec {
        width: 2,
        height: 1,
        top_hints: Some(vec![Some(hint(b"A", RegexAst::Literal('A'))), None]),
        bottom_hints: None,
        left_hints: Some(vec![Some(hint(b"AB", RegexAst::Concat(vec![
            RegexAst::Literal('A'),
            RegexAst::Literal('B'),
        ])))]),
        right_hints: None,
    };
    assert_eq!(
        solve_puzzle(&spec),
        Err(SolveError::Configuration(ConfigurationError::LineWithoutHint))
    );
}

#[test]
fn short_hint_list_is_a_configuration_error() {
    let spec = PuzzleSpec {
        width: 2,
        height: 1,
        top_hints: Some(vec![Some(hint(b"A", RegexAst::Literal('A')))]),
        bottom_hints: None,
        left_hints: Some(vec![Some(hint(b"AB", RegexAst::Concat(vec![
            RegexAst::Literal('A'),
            RegexAst::Literal('B'),
        ])))]),
        right_hints: None,
    };
    assert_eq!(
        solve_puzzle(&spec),
        Err(SolveError::Configuration(ConfigurationError::MissingColumnHints))
    );
}

#[test]
fn missing_row_hints_are_a_configuration_error() {
    let spec = PuzzleSpec {
        width: 1,
        height: 1,
        top_hints: Some(vec![Some(hint(b"A", RegexAst::Literal('A')))]),
        bottom_hints: None,
        left_hints: None,
        right_hints: None,
    };
    assert_eq!(
        solve_puzzle(&spec),
        Err(SolveError::Configuration(ConfigurationError::MissingRowHints))
    );
}

#[test]
fn disjoint_row_and_column_sets_are_an_immediate_contradiction() {
    // Row restricted to digits, column restricted to letters.
    let spec = PuzzleSpec {
        width: 1,
        height: 1,
        top_hints: Some(vec![Some(hint(
            b"\\w",
            RegexAst::ClassPerl { kind: PerlClassKind::Word, negated: false },
        ))]),
        bottom_hints: None,
        left_hints: Some(vec![Some(hint(
            b"\\d",
            RegexAst::ClassPerl { kind: PerlClassKind::Digit, negated: false },
        ))]),
        right_hints: None,
    };
    let r = solve_puzzle(&spec);
    match r {
        Err(SolveError::Contradiction(ContradictionError::EmptyIntersection {
            x,
            y,
            row_allowed,
            col_allowed,
        })) => {
            assert_eq!((x, y), (0, 0));
            assert_eq!(row_allowed, (b'0'..=b'9').collect::<Vec<u8>>());
            assert_eq!(col_allowed, (b'A'..=b'Z').collect::<Vec<u8>>());
        },
        other => panic!("expected an empty-intersection contradiction, got {:?}", other),
    }
}

#[test]
fn unicode_class_fails_before_the_solving_loop() {
    let spec = PuzzleSpec {
        width: 1,
        height: 1,
        top_hints: Some(vec![Some(hint(b"\\p{Greek}", RegexAst::ClassUnicode))]),
        bottom_hints: None,
        left_hints: Some(vec![Some(hint(b"A", RegexAst::Literal('A')))]),
        right_hints: None,
    };
    assert_eq!(
        solve_puzzle(&spec),
        Err(SolveError::Pattern(PatternError::UnsupportedConstruct))
    );
}

#[test]
fn non_printable_literal_fails_before_the_solving_loop() {
    let spec = PuzzleSpec {
        width: 1,
        height: 1,
        top_hints: Some(vec![Some(hint("é".as_bytes(), RegexAst::Literal('\u{e9}')))]),
        bottom_hints: None,
        left_hints: Some(vec![Some(hint(b"A", RegexAst::Literal('A')))]),
        right_hints: None,
    };
    assert_eq!(
        solve_puzzle(&spec),
        Err(SolveError::Pattern(PatternError::NonPrintableLiteral))
    );
}

#[test]
fn unparsable_hint_is_a_compile_failure() {
    // The failure names the edge and the 1-based index of the hint.
    let spec = PuzzleSpec {
        width: 2,
        height: 1,
        top_hints: Some(vec![
            Some(hint(b"A", RegexAst::Literal('A'))),
            Some(hint(b"(", RegexAst::Empty)),
        ]),
        bottom_hints: None,
        left_hints: Some(vec![Some(hint(b"AB", RegexAst::Concat(vec![
            RegexAst::Literal('A'),
            RegexAst::Literal('B'),
        ])))]),
        right_hints: None,
    };
    assert_eq!(
        solve_puzzle(&spec),
        Err(SolveError::Pattern(PatternError::CompileFailed {
            edge: HintEdge::Top,
            index: 2,
        }))
    );
}

#[test]
fn fully_decided_board_needs_no_refinement() {
    // Singleton intersections decide the grid at initialization.
    let rows: Vec<Vec<u8>> = vec![vec![b'A', b'B']];
    let cols: Vec<Vec<u8>> = vec![vec![b'A'], vec![b'B']];
    let board = Board::new(2, 1, &rows, &cols).unwrap();
    assert_eq!(board.allowed_chars(0, 0), &vec![b'A']);
    assert_eq!(board.allowed_chars(1, 0), &vec![b'B']);
    assert!(!board.still_undecided());
}

#[test]
fn board_getters_expose_the_grid_state() {
    let row: Vec<u8> = vec![b'A', b'B'];
    let col: Vec<u8> = vec![b'A', b'B'];
    let board = Board::new(1, 1, &vec![row], &vec![col]).unwrap();
    assert_eq!(board.width(), 1);
    assert_eq!(board.height(), 1);
    assert!(board.still_undecided());
    assert_eq!(board.tree_complexity(0, 0), (2, 2));
}
