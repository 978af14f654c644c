//! The puzzle descriptor the solver consumes, and the character-set
//! semantics of its hints.

use vstd::prelude::*;
use crate::ast::RegexAst;
use crate::ast::ast_chars;
use crate::ast::ast_ok;
use crate::ast::ast_wild;
use crate::ast::restricted_chars;
use crate::allowed::get_all_allowed_chars;
use crate::allowed::get_both_allowed_chars;
use crate::board::Board;
use crate::errors::ContradictionError;
use crate::errors::SolveError;
use crate::errors::ConfigurationError;
use crate::errors::PatternError;
use crate::board::hint_answered;
use crate::board::hints_answered;
use crate::board::line_answered;
use crate::hints::Hints;
use crate::hints::anchored;
use crate::hints::config_ok;
use crate::hints::hint_entry;
use crate::hints::hints_match_spec;
use crate::hints::match_answered;
use crate::hints::spec_compiles;

verus! {

/// One hint: the pattern text used for line matching, together with
/// the syntax tree of the same text with backreferences stripped,
/// used for character analysis. Stripping a backreference is sound
/// for analysis because a backreference can only constrain a match,
/// never widen the character set; matching still uses the original
/// text.
pub struct Hint {
    /// The original pattern text.
    pub pattern: Vec<u8>,
    /// The restricted-grammar syntax tree of the stripped pattern.
    pub ast: RegexAst,
}

/// A puzzle descriptor: integer dimensions and up to four optional
/// hint lists. Top and bottom hints constrain columns, left and right
/// hints constrain rows; each entry may be absent.
pub struct PuzzleSpec {
    pub width: usize,
    pub height: usize,
    pub top_hints: Option<Vec<Option<Hint>>>,
    pub bottom_hints: Option<Vec<Option<Hint>>>,
    pub left_hints: Option<Vec<Option<Hint>>>,
    pub right_hints: Option<Vec<Option<Hint>>>,
}

/// The bytes one optional hint contributes to the universe.
pub open spec fn entry_chars(e: Option<Hint>) -> Set<u8> {
    match e {
        Option::Some(h) => ast_chars(h.ast),
        Option::None => Set::empty(),
    }
}

/// Whether one optional hint stays within the supported grammar.
pub open spec fn entry_ok(e: Option<Hint>) -> bool {
    match e {
        Option::Some(h) => ast_ok(h.ast),
        Option::None => true,
    }
}

/// The bytes one edge's hint list contributes to the universe.
pub open spec fn edge_chars(edge: Option<Vec<Option<Hint>>>) -> Set<u8> {
    match edge {
        Option::None => Set::empty(),
        Option::Some(hints) => Set::new(|b: u8| exists|k: int|
            0 <= k < hints@.len() && entry_chars(#[trigger] hints@[k]).contains(b)),
    }
}

/// Whether every hint of one edge stays within the supported grammar.
pub open spec fn edge_ok(edge: Option<Vec<Option<Hint>>>) -> bool {
    match edge {
        Option::None => true,
        Option::Some(hints) => forall|k: int|
            0 <= k < hints@.len() ==> entry_ok(#[trigger] hints@[k]),
    }
}

/// The global alphabet of a puzzle: the union of the unrestricted
/// analysis of every hint on all four edges.
pub open spec fn universe_chars(p: PuzzleSpec) -> Set<u8> {
    edge_chars(p.top_hints).union(edge_chars(p.bottom_hints)).union(
        edge_chars(p.left_hints)).union(edge_chars(p.right_hints))
}

/// Whether every hint of a puzzle stays within the supported grammar.
pub open spec fn puzzle_patterns_ok(p: PuzzleSpec) -> bool {
    edge_ok(p.top_hints) && edge_ok(p.bottom_hints) && edge_ok(p.left_hints)
        && edge_ok(p.right_hints)
}

/// The allowed bytes of one line given its up to two hints: the
/// restricted analysis of the one present hint, or the intersection of
/// both analyses when the line has redundant hints; empty when the
/// line has no hint at all (a configuration error).
pub open spec fn line_allowed_chars(a: Option<Hint>, b: Option<Hint>, u: Set<u8>) -> Set<u8> {
    match (a, b) {
        (Option::None, Option::None) => Set::empty(),
        (Option::Some(h), Option::None) => restricted_chars(h.ast, u),
        (Option::None, Option::Some(h)) => restricted_chars(h.ast, u),
        (Option::Some(ha), Option::Some(hb)) => restricted_chars(ha.ast, u).intersect(
            restricted_chars(hb.ast, u)),
    }
}

/// Whether one line's pair of optional hints can be analyzed: at least
/// one hint present and every present hint within the grammar.
pub open spec fn line_hints_ok(a: Option<Hint>, b: Option<Hint>) -> bool {
    (a is Some || b is Some) && entry_ok(a) && entry_ok(b)
}

/// The value behind an optional reference, as a spec-level option.
pub open spec fn deref_opt(h: Option<&Hint>) -> Option<Hint> {
    match h {
        Option::Some(x) => Option::Some(*x),
        Option::None => Option::None,
    }
}

/// The list behind an optional reference, as a spec-level option.
pub open spec fn deref_opt_vec(v: Option<&Vec<Option<Hint>>>) -> Option<Vec<Option<Hint>>> {
    match v {
        Option::Some(x) => Option::Some(*x),
        Option::None => Option::None,
    }
}

/// Whether every line of the puzzle has at least one hint entry.
pub open spec fn all_lines_hinted(p: PuzzleSpec) -> bool {
    &&& forall|x: int| 0 <= x < p.width ==> (hint_entry(p.top_hints, x) is Some || hint_entry(
        p.bottom_hints,
        x,
    ) is Some)
    &&& forall|y: int| 0 <= y < p.height ==> (hint_entry(p.left_hints, y) is Some || hint_entry(
        p.right_hints,
        y,
    ) is Some)
}

/// Whether the engine gives a definite answer for one optional hint,
/// anchored, on every printable line text of length n.
pub open spec fn entry_answered(e: Option<Hint>, n: int) -> bool {
    match e {
        Option::Some(h) => forall|w: Seq<u8>|
            w.len() == n && (forall|k: int| 0 <= k < n ==> 0x20 <= #[trigger] w[k] && w[k]
                <= 0x7E) ==> #[trigger] match_answered(anchored(h.pattern@), w),
        Option::None => true,
    }
}

/// Whether the engine answers every anchored hint of the puzzle on
/// every printable line text of the right length: then solving can
/// never fail with a matcher give-up.
pub open spec fn puzzle_answered(p: PuzzleSpec) -> bool {
    &&& forall|x: int| 0 <= x < p.width ==> (#[trigger] entry_answered(
        hint_entry(p.top_hints, x),
        p.height as int,
    )) && entry_answered(hint_entry(p.bottom_hints, x), p.height as int)
    &&& forall|y: int| 0 <= y < p.height ==> (#[trigger] entry_answered(
        hint_entry(p.left_hints, y),
        p.width as int,
    )) && entry_answered(hint_entry(p.right_hints, y), p.width as int)
}

/// The allowed bytes of row y, from its left and right hints against
/// the puzzle's universe.
pub open spec fn row_allowed_set(p: PuzzleSpec, y: int) -> Set<u8> {
    line_allowed_chars(
        hint_entry(p.left_hints, y),
        hint_entry(p.right_hints, y),
        universe_chars(p),
    )
}

/// The allowed bytes of column x, from its top and bottom hints
/// against the puzzle's universe.
pub open spec fn col_allowed_set(p: PuzzleSpec, x: int) -> Set<u8> {
    line_allowed_chars(
        hint_entry(p.top_hints, x),
        hint_entry(p.bottom_hints, x),
        universe_chars(p),
    )
}

/// A restricted analysis never leaves the universe.
pub proof fn lemma_line_allowed_in_universe(a: Option<Hint>, b: Option<Hint>, u: Set<u8>)
    ensures
        line_allowed_chars(a, b, u).subset_of(u),
{
    match (a, b) {
        (Option::Some(h), Option::None) => {
            assert(restricted_chars(h.ast, u).subset_of(u));
        },
        (Option::None, Option::Some(h)) => {
            assert(restricted_chars(h.ast, u).subset_of(u));
        },
        (Option::Some(ha), Option::Some(hb)) => {
            assert(restricted_chars(ha.ast, u).subset_of(u));
        },
        (Option::None, Option::None) => {},
    }
}

/// The hint entry of one line, borrowed.
fn hint_at(edge: &Option<Vec<Option<Hint>>>, i: usize) -> (r: Option<&Hint>)
    ensures
        deref_opt(r) == hint_entry(*edge, i as int),
{
    match edge {
        Option::Some(v) => {
            if i < v.len() {
                match &v[i] {
                    Option::Some(h) => Option::Some(h),
                    Option::None => Option::None,
                }
            } else {
                Option::None
            }
        },
        Option::None => Option::None,
    }
}

/// Solve a puzzle end to end: validate and compile its hints, build
/// the global alphabet, derive each row's and column's allowed set,
/// initialize the board from their intersections, and refine until a
/// terminal outcome. On success the decided grid comes back in
/// row-major order, each character drawn from its cell's allowed sets.
#[verifier::loop_isolation(false)]
pub fn solve_puzzle(spec: &PuzzleSpec) -> (r: Result<Vec<u8>, SolveError>)
    requires
        spec.width as int * spec.height as int <= usize::MAX,
        2 * (spec.width as int) * (spec.height as int) < usize::MAX,
    ensures
        r matches Ok(g) ==> {
            &&& config_ok(*spec)
            &&& puzzle_patterns_ok(*spec)
            &&& all_lines_hinted(*spec)
            &&& g@.len() == spec.width as int * spec.height as int
            &&& forall|x: int, y: int|
                0 <= x < spec.width && 0 <= y < spec.height ==> row_allowed_set(
                    *spec,
                    y,
                ).intersect(col_allowed_set(*spec, x)).contains(
                    #[trigger] g@[y * spec.width as int + x],
                )
        },
        !config_ok(*spec) ==> r matches Err(SolveError::Configuration(_)),
        config_ok(*spec) && !puzzle_patterns_ok(*spec) ==> r matches Err(SolveError::Pattern(_)),
        r == Err::<Vec<u8>, SolveError>(SolveError::Configuration(
            crate::errors::ConfigurationError::LineWithoutHint,
        )) ==> !all_lines_hinted(*spec),
        r matches Err(SolveError::Contradiction(ContradictionError::EmptyIntersection {
            x,
            y,
            row_allowed,
            col_allowed,
        })) ==> x < spec.width && y < spec.height && row_allowed@.to_set() == row_allowed_set(
            *spec,
            y as int,
        ) && col_allowed@.to_set() == col_allowed_set(*spec, x as int) && row_allowed_set(
            *spec,
            y as int,
        ).intersect(col_allowed_set(*spec, x as int)) =~= Set::empty(),
        config_ok(*spec) && puzzle_patterns_ok(*spec) && spec_compiles(*spec) && all_lines_hinted(
            *spec,
        ) ==> (r is Ok || r == Err::<Vec<u8>, SolveError>(SolveError::SearchExhausted) || r
            matches Err(SolveError::Contradiction(_)) || r == Err::<Vec<u8>, SolveError>(
            SolveError::Pattern(PatternError::MatchFailed),
        )),
        config_ok(*spec) && puzzle_patterns_ok(*spec) && spec_compiles(*spec) && all_lines_hinted(
            *spec,
        ) && puzzle_answered(*spec) ==> (r is Ok || r == Err::<Vec<u8>, SolveError>(
            SolveError::SearchExhausted,
        ) || r matches Err(SolveError::Contradiction(_))),
        config_ok(*spec) && puzzle_patterns_ok(*spec) && spec_compiles(*spec) && !all_lines_hinted(
            *spec,
        ) ==> r == Err::<Vec<u8>, SolveError>(SolveError::Configuration(
            ConfigurationError::LineWithoutHint,
        )),
{
    let hints = match Hints::from_spec(spec) {
        Ok(h) => h,
        Err(e) => {
            return Err(e);
        },
    };
    let universe = match get_all_allowed_chars(spec) {
        Ok(u) => u,
        Err(e) => {
            return Err(SolveError::Pattern(e));
        },
    };
    proof {
        assert forall|b: u8| universe@.to_set().contains(b)
            implies 0x20 <= b && b <= 0x7E by {
            let k = choose|k: int| 0 <= k < universe@.len() && universe@[k] == b;
        }
    }
    let mut row_allowed: Vec<Vec<u8>> = Vec::new();
    for y in 0..spec.height
        invariant
            row_allowed@.len() == y,
            forall|k: int| 0 <= k < y ==> crate::bytes::strictly_sorted(
                (#[trigger] row_allowed@[k])@,
            ),
            forall|k: int| 0 <= k < y ==> (#[trigger] row_allowed@[k])@.to_set()
                == row_allowed_set(*spec, k),
            forall|k: int, m: int| 0 <= k < y && 0 <= m < row_allowed@[k]@.len()
                ==> 0x20 <= (#[trigger] row_allowed@[k]@[m]) && row_allowed@[k]@[m] <= 0x7E,
            forall|k: int| 0 <= k < y ==> ((#[trigger] hint_entry(spec.left_hints, k)) is Some
                || hint_entry(spec.right_hints, k) is Some),
    {
        let left = hint_at(&spec.left_hints, y);
        let right = hint_at(&spec.right_hints, y);
        let v = match get_both_allowed_chars(left, right, universe.as_slice()) {
            Ok(v) => v,
            Err(e) => {
                proof {
                    if left is None && right is None {
                        assert(hint_entry(spec.left_hints, y as int) is None);
                        assert(hint_entry(spec.right_hints, y as int) is None);
                    }
                }
                return Err(e);
            },
        };
        proof {
            lemma_line_allowed_in_universe(
                hint_entry(spec.left_hints, y as int),
                hint_entry(spec.right_hints, y as int),
                universe_chars(*spec),
            );
            assert forall|m: int| 0 <= m < v@.len()
                implies 0x20 <= (#[trigger] v@[m]) && v@[m] <= 0x7E by {
                assert(v@.to_set().contains(v@[m]));
                assert(universe@.to_set().contains(v@[m]));
            }
        }
        row_allowed.push(v);
    }
    let mut col_allowed: Vec<Vec<u8>> = Vec::new();
    for x in 0..spec.width
        invariant
            col_allowed@.len() == x,
            forall|k: int| 0 <= k < x ==> crate::bytes::strictly_sorted(
                (#[trigger] col_allowed@[k])@,
            ),
            forall|k: int| 0 <= k < x ==> (#[trigger] col_allowed@[k])@.to_set()
                == col_allowed_set(*spec, k),
            forall|k: int| 0 <= k < x ==> ((#[trigger] hint_entry(spec.top_hints, k)) is Some
                || hint_entry(spec.bottom_hints, k) is Some),
    {
        let top = hint_at(&spec.top_hints, x);
        let bottom = hint_at(&spec.bottom_hints, x);
        let v = match get_both_allowed_chars(top, bottom, universe.as_slice()) {
            Ok(v) => v,
            Err(e) => {
                proof {
                    if top is None && bottom is None {
                        assert(hint_entry(spec.top_hints, x as int) is None);
                        assert(hint_entry(spec.bottom_hints, x as int) is None);
                    }
                }
                return Err(e);
            },
        };
        col_allowed.push(v);
    }
    let mut board = match Board::new(spec.width, spec.height, &row_allowed, &col_allowed) {
        Ok(b) => b,
        Err(e) => {
            return Err(e);
        },
    };
    proof {
        if puzzle_answered(*spec) {
            assert forall|x: int| 0 <= x < spec.width
                implies #[trigger] line_answered(
                hints.top@[x],
                hints.bottom@[x],
                spec.height as int,
            ) by {
                if !line_answered(hints.top@[x], hints.bottom@[x], spec.height as int) {
                    let w = choose|w: Seq<u8>|
                        w.len() == spec.height as int && (forall|k: int|
                            0 <= k < spec.height as int ==> 0x20 <= #[trigger] w[k] && w[k]
                                <= 0x7E) && !((#[trigger] hint_answered(hints.top@[x], w))
                            && hint_answered(hints.bottom@[x], w));
                    assert(entry_answered(hint_entry(spec.top_hints, x), spec.height as int));
                    assert(entry_answered(hint_entry(spec.bottom_hints, x), spec.height as int));
                    match hint_entry(spec.top_hints, x) {
                        Option::Some(h) => {
                            assert(match_answered(anchored(h.pattern@), w));
                        },
                        Option::None => {},
                    }
                    match hint_entry(spec.bottom_hints, x) {
                        Option::Some(h) => {
                            assert(match_answered(anchored(h.pattern@), w));
                        },
                        Option::None => {},
                    }
                    assert(false);
                }
            }
            assert forall|y: int| 0 <= y < spec.height
                implies #[trigger] line_answered(
                hints.left@[y],
                hints.right@[y],
                spec.width as int,
            ) by {
                if !line_answered(hints.left@[y], hints.right@[y], spec.width as int) {
                    let w = choose|w: Seq<u8>|
                        w.len() == spec.width as int && (forall|k: int|
                            0 <= k < spec.width as int ==> 0x20 <= #[trigger] w[k] && w[k]
                                <= 0x7E) && !((#[trigger] hint_answered(hints.left@[y], w))
                            && hint_answered(hints.right@[y], w));
                    assert(entry_answered(hint_entry(spec.left_hints, y), spec.width as int));
                    assert(entry_answered(hint_entry(spec.right_hints, y), spec.width as int));
                    match hint_entry(spec.left_hints, y) {
                        Option::Some(h) => {
                            assert(match_answered(anchored(h.pattern@), w));
                        },
                        Option::None => {},
                    }
                    match hint_entry(spec.right_hints, y) {
                        Option::Some(h) => {
                            assert(match_answered(anchored(h.pattern@), w));
                        },
                        Option::None => {},
                    }
                    assert(false);
                }
            }
            assert(hints_answered(hints, spec.width as int, spec.height as int));
        }
    }
    let outcome = board.solve(&hints);
    proof {
        if outcome is Ok {
            let g = outcome->Ok_0;
            assert forall|x: int, y: int| 0 <= x < spec.width && 0 <= y < spec.height
                implies row_allowed_set(*spec, y).intersect(col_allowed_set(*spec, x)).contains(
                #[trigger] g@[y * spec.width as int + x],
            ) by {
                assert(board.cell(x, y).to_set().contains(g@[y * spec.width as int + x]));
            }
        }
    }
    outcome
}

} // verus!
