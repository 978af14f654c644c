//! Compiled line hints: whole-line matchers provided by the external
//! regex engine, paired with the pattern text they were compiled from.
//!
//! The matchers are read-only once built and shared by every
//! refinement step.

use vstd::prelude::*;
use crate::errors::ConfigurationError;
use crate::errors::HintEdge;
use crate::errors::PatternError;
use crate::errors::SolveError;
use crate::puzzle::Hint;
use crate::puzzle::PuzzleSpec;

verus! {

/// What the external matching engine decides for a pattern text and a
/// line text: whether the compiled pattern matches somewhere in the
/// line. The decision is a function of the two texts alone.
pub uninterp spec fn pattern_matches(pattern: Seq<u8>, line: Seq<u8>) -> bool;

/// Whether the external engine accepts a pattern text at compile time:
/// the text is valid UTF-8 and the engine's parser takes it. The
/// decision is a function of the text alone.
pub uninterp spec fn engine_accepts(pattern: Seq<u8>) -> bool;

/// Whether the external engine, asked to match a pattern text against
/// a line text, comes back with a definite answer rather than giving
/// up at its fixed backtracking limit. Like the answer itself, this is
/// a function of the two texts alone.
pub uninterp spec fn match_answered(pattern: Seq<u8>, line: Seq<u8>) -> bool;

/// Declares fancy_regex::Regex so that compiled matchers can live in
/// fields; the value stays opaque to the verifier.
#[verifier::external_type_specification]
#[verifier::external_body]
pub struct ExRegex(fancy_regex::Regex);

/// A compiled whole-line matcher together with the pattern text it was
/// compiled from. The fields are private: only [`compile_hint`]
/// constructs a value, so the pairing always holds.
pub struct CompiledHint {
    regex: fancy_regex::Regex,
    pattern: Vec<u8>,
}

impl CompiledHint {
    /// The pattern text this matcher was compiled from.
    pub closed spec fn spec_pattern(&self) -> Seq<u8> {
        self.pattern@
    }
}

/// Relies on fancy_regex::Regex::new: compiles the given pattern text
/// and pairs the matcher with exactly that text; None when the text is
/// not UTF-8 or the engine rejects the pattern. Compilation is
/// deterministic, so succeeding is exactly [`engine_accepts`].
#[verifier::external_body]
fn compile_hint(pattern: &[u8]) -> (r: Option<CompiledHint>)
    ensures
        r is Some <==> engine_accepts(pattern@),
        r matches Some(h) ==> h.spec_pattern() == pattern@,
{
    let text = std::str::from_utf8(pattern).ok()?;
    let regex = fancy_regex::Regex::new(text).ok()?;
    Some(CompiledHint { regex, pattern: pattern.to_vec() })
}

/// Relies on fancy_regex::Regex::is_match: reports whether the matcher
/// compiled from `spec_pattern` matches in the line text; None exactly
/// when the engine gives up at its fixed backtracking limit. The
/// engine is deterministic: equal texts give equal answers, and
/// whether it answers at all is equally a function of the texts. The
/// line must be printable ASCII so that it is valid UTF-8.
#[verifier::external_body]
pub(crate) fn hint_is_match(h: &CompiledHint, line: &[u8]) -> (r: Option<bool>)
    requires
        forall|k: int| 0 <= k < line@.len() ==> 0x20 <= #[trigger] line@[k] && line@[k] <= 0x7E,
    ensures
        r is Some <==> match_answered(h.spec_pattern(), line@),
        r matches Some(m) ==> m == pattern_matches(h.spec_pattern(), line@),
{
    match std::str::from_utf8(line) {
        Ok(text) => h.regex.is_match(text).ok(),
        Err(_) => None,
    }
}

/// The anchored form of a hint pattern: `^`, the pattern, `$`, so that
/// the compiled matcher accepts whole lines only.
pub open spec fn anchored(pattern: Seq<u8>) -> Seq<u8> {
    seq![0x5Eu8] + pattern + seq![0x24u8]
}

/// Build the anchored pattern text for one hint.
#[verifier::loop_isolation(false)]
fn anchor_pattern(pattern: &[u8]) -> (r: Vec<u8>)
    ensures
        r@ == anchored(pattern@),
{
    let mut r: Vec<u8> = Vec::new();
    r.push(0x5E);
    for i in 0..pattern.len()
        invariant
            r@ == seq![0x5Eu8] + pattern@.take(i as int),
    {
        r.push(pattern[i]);
        proof {
            assert(r@ =~= seq![0x5Eu8] + pattern@.take(i as int + 1));
        }
    }
    r.push(0x24);
    proof {
        assert(pattern@.take(pattern@.len() as int) =~= pattern@);
        assert(r@ =~= anchored(pattern@));
    }
    r
}

/// The hint-list entry of one line, None past the end of the list.
pub open spec fn hint_entry(src: Option<Vec<Option<Hint>>>, i: int) -> Option<Hint> {
    match src {
        Option::Some(v) => if 0 <= i < v@.len() {
            v@[i]
        } else {
            Option::None
        },
        Option::None => Option::None,
    }
}

/// Whether the engine accepts every present hint of an edge's first
/// `length` lines, once anchored.
pub open spec fn edge_compiles(src: Option<Vec<Option<Hint>>>, length: int) -> bool {
    forall|i: int| 0 <= i < length ==> match #[trigger] hint_entry(src, i) {
        Option::Some(h) => engine_accepts(anchored(h.pattern@)),
        Option::None => true,
    }
}

/// The hint list of one edge of a puzzle.
pub open spec fn edge_hints_of(p: PuzzleSpec, e: HintEdge) -> Option<Vec<Option<Hint>>> {
    match e {
        HintEdge::Top => p.top_hints,
        HintEdge::Bottom => p.bottom_hints,
        HintEdge::Left => p.left_hints,
        HintEdge::Right => p.right_hints,
    }
}

/// The number of lines an edge of a puzzle constrains.
pub open spec fn edge_lines_of(p: PuzzleSpec, e: HintEdge) -> int {
    match e {
        HintEdge::Top => p.width as int,
        HintEdge::Bottom => p.width as int,
        HintEdge::Left => p.height as int,
        HintEdge::Right => p.height as int,
    }
}

/// Whether the engine accepts every anchored hint of the whole puzzle.
pub open spec fn spec_compiles(p: PuzzleSpec) -> bool {
    &&& edge_compiles(p.top_hints, p.width as int)
    &&& edge_compiles(p.bottom_hints, p.width as int)
    &&& edge_compiles(p.left_hints, p.height as int)
    &&& edge_compiles(p.right_hints, p.height as int)
}

/// Whether a compiled hint list corresponds to its source entries: a
/// matcher compiled from the anchored pattern wherever a hint stands,
/// nothing wherever none does.
pub open spec fn compiled_matches_source(
    v: Seq<Option<CompiledHint>>,
    src: Option<Vec<Option<Hint>>>,
    length: int,
) -> bool {
    forall|i: int| 0 <= i < length ==> match hint_entry(src, i) {
        Option::Some(h) => (#[trigger] v[i]) matches Option::Some(c) && c.spec_pattern()
            == anchored(h.pattern@),
        Option::None => v[i] is None,
    }
}

/// The compiled hints of a puzzle, one optional matcher per line end.
/// Top and bottom constrain columns; left and right constrain rows.
pub struct Hints {
    pub top: Vec<Option<CompiledHint>>,
    pub bottom: Vec<Option<CompiledHint>>,
    pub left: Vec<Option<CompiledHint>>,
    pub right: Vec<Option<CompiledHint>>,
}

/// The number of entries an optional hint list holds.
pub open spec fn edge_len(e: Option<Vec<Option<Hint>>>) -> int {
    match e {
        Option::Some(v) => v@.len() as int,
        Option::None => 0,
    }
}

/// Edge-count validation: the longer of the top and bottom lists must
/// cover every column, the longer of the left and right lists every
/// row.
pub open spec fn config_ok(p: PuzzleSpec) -> bool {
    &&& (if edge_len(p.top_hints) >= edge_len(p.bottom_hints) {
        edge_len(p.top_hints)
    } else {
        edge_len(p.bottom_hints)
    }) == p.width as int
    &&& (if edge_len(p.left_hints) >= edge_len(p.right_hints) {
        edge_len(p.left_hints)
    } else {
        edge_len(p.right_hints)
    }) == p.height as int
}

/// Whether compiled hints correspond to a puzzle on every edge.
pub open spec fn hints_match_spec(h: Hints, p: PuzzleSpec) -> bool {
    &&& h.top@.len() == p.width
    &&& h.bottom@.len() == p.width
    &&& h.left@.len() == p.height
    &&& h.right@.len() == p.height
    &&& compiled_matches_source(h.top@, p.top_hints, p.width as int)
    &&& compiled_matches_source(h.bottom@, p.bottom_hints, p.width as int)
    &&& compiled_matches_source(h.left@, p.left_hints, p.height as int)
    &&& compiled_matches_source(h.right@, p.right_hints, p.height as int)
}

impl Hints {
    /// Compile one edge's hint list into matchers, padding missing
    /// entries with None up to the line count. Succeeds exactly when
    /// the engine accepts every present anchored hint; a failure names
    /// the edge and the 1-based index of the offending hint.
    #[verifier::loop_isolation(false)]
    fn collect_hints(edge: HintEdge, src: Option<&Vec<Option<Hint>>>, length: usize) -> (r: Result<
        Vec<Option<CompiledHint>>,
        SolveError,
    >)
        ensures
            r is Ok <==> edge_compiles(crate::puzzle::deref_opt_vec(src), length as int),
            r matches Ok(v) ==> v@.len() == length && compiled_matches_source(
                v@,
                crate::puzzle::deref_opt_vec(src),
                length as int,
            ),
            r is Err ==> r matches Err(SolveError::Pattern(PatternError::CompileFailed { .. })),
            r matches Err(SolveError::Pattern(PatternError::CompileFailed {
                edge: fe,
                index,
            })) ==> fe == edge && 1 <= index <= length && (hint_entry(
                crate::puzzle::deref_opt_vec(src),
                index - 1,
            ) matches Option::Some(h) && !engine_accepts(anchored(h.pattern@))),
    {
        let ghost gsrc = crate::puzzle::deref_opt_vec(src);
        let mut out: Vec<Option<CompiledHint>> = Vec::new();
        match src {
            Option::None => {
                for i in 0..length
                    invariant
                        out@.len() == i,
                        compiled_matches_source(out@, gsrc, i as int),
                {
                    out.push(None);
                }
                Ok(out)
            },
            Option::Some(list) => {
                for i in 0..length
                    invariant
                        out@.len() == i,
                        compiled_matches_source(out@, gsrc, i as int),
                        forall|m: int| 0 <= m < i ==> match #[trigger] hint_entry(gsrc, m) {
                            Option::Some(h) => engine_accepts(anchored(h.pattern@)),
                            Option::None => true,
                        },
                {
                    if i < list.len() {
                        match &list[i] {
                            Option::Some(h) => {
                                let anchored_text = anchor_pattern(h.pattern.as_slice());
                                match compile_hint(anchored_text.as_slice()) {
                                    Option::Some(c) => {
                                        out.push(Some(c));
                                    },
                                    Option::None => {
                                        return Err(SolveError::Pattern(
                                            PatternError::CompileFailed {
                                                edge,
                                                index: i + 1,
                                            },
                                        ));
                                    },
                                }
                            },
                            Option::None => {
                                out.push(None);
                            },
                        }
                    } else {
                        out.push(None);
                    }
                }
                Ok(out)
            },
        }
    }

    /// Validate the edge counts of a puzzle and compile every hint.
    /// Succeeds exactly when both edge counts are right and the engine
    /// accepts every present anchored hint; a wrong edge count is a
    /// configuration error, a rejected hint a pattern error naming its
    /// edge and 1-based index.
    pub fn from_spec(spec: &PuzzleSpec) -> (r: Result<Hints, SolveError>)
        ensures
            r is Ok <==> config_ok(*spec) && spec_compiles(*spec),
            r matches Err(SolveError::Configuration(e)) ==> !config_ok(*spec) && (
            e == ConfigurationError::MissingColumnHints
                || e == ConfigurationError::MissingRowHints),
            (r is Ok || r matches Err(SolveError::Pattern(_))) ==> config_ok(*spec),
            r matches Err(SolveError::Pattern(e)) ==> e matches PatternError::CompileFailed {
                ..
            },
            r matches Err(SolveError::Pattern(PatternError::CompileFailed {
                edge,
                index,
            })) ==> 1 <= index <= edge_lines_of(*spec, edge) && (hint_entry(
                edge_hints_of(*spec, edge),
                index - 1,
            ) matches Option::Some(h) && !engine_accepts(anchored(h.pattern@))),
            r matches Ok(h) ==> hints_match_spec(h, *spec),
            r is Err ==> r matches Err(SolveError::Configuration(_)) || r matches Err(
                SolveError::Pattern(_),
            ),
    {
        let top_len: usize = match &spec.top_hints {
            Option::Some(v) => v.len(),
            Option::None => 0,
        };
        let bottom_len: usize = match &spec.bottom_hints {
            Option::Some(v) => v.len(),
            Option::None => 0,
        };
        let left_len: usize = match &spec.left_hints {
            Option::Some(v) => v.len(),
            Option::None => 0,
        };
        let right_len: usize = match &spec.right_hints {
            Option::Some(v) => v.len(),
            Option::None => 0,
        };
        let col_len: usize = if top_len >= bottom_len {
            top_len
        } else {
            bottom_len
        };
        let row_len: usize = if left_len >= right_len {
            left_len
        } else {
            right_len
        };
        if col_len != spec.width {
            return Err(SolveError::Configuration(ConfigurationError::MissingColumnHints));
        }
        if row_len != spec.height {
            return Err(SolveError::Configuration(ConfigurationError::MissingRowHints));
        }
        let top = match Self::collect_hints(HintEdge::Top, spec.top_hints.as_ref(), spec.width) {
            Ok(v) => v,
            Err(e) => {
                return Err(e);
            },
        };
        let bottom = match Self::collect_hints(HintEdge::Bottom, spec.bottom_hints.as_ref(), spec.width) {
            Ok(v) => v,
            Err(e) => {
                return Err(e);
            },
        };
        let left = match Self::collect_hints(HintEdge::Left, spec.left_hints.as_ref(), spec.height) {
            Ok(v) => v,
            Err(e) => {
                return Err(e);
            },
        };
        let right = match Self::collect_hints(HintEdge::Right, spec.right_hints.as_ref(), spec.height) {
            Ok(v) => v,
            Err(e) => {
                return Err(e);
            },
        };
        Ok(Hints { top, bottom, left, right })
    }
}

} // verus!
