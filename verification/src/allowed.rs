//! Combining per-edge hints into per-row and per-column allowed-byte sets.

use vstd::prelude::*;
use crate::bytes::strictly_sorted;
use crate::bytes::lemma_strictly_sorted_same_set;
use crate::ast::RegexAst;
use crate::ast::ast_ok;
use crate::ast::ast_chars;
use crate::ast::ast_wild;
use crate::ast::restricted_chars;
use crate::ast::add_ast_chars;
use crate::ast::ast_has_wild;
use crate::ast::check_supported;
use crate::ast::lemma_ast_chars_printable;
use crate::errors::ConfigurationError;
use crate::errors::PatternError;
use crate::errors::SolveError;
use crate::puzzle::Hint;
use crate::puzzle::PuzzleSpec;
use crate::puzzle::deref_opt;
use crate::puzzle::edge_chars;
use crate::puzzle::edge_ok;
use crate::puzzle::entry_chars;
use crate::puzzle::entry_ok;
use crate::puzzle::line_allowed_chars;
use crate::puzzle::line_hints_ok;
use crate::puzzle::puzzle_patterns_ok;
use crate::puzzle::universe_chars;

verus! {

/// What stripping backreferences from a pattern leaves: every
/// backslash-digit pair is removed, scanning left to right.
pub open spec fn strip_backrefs(s: Seq<u8>) -> Seq<u8>
    decreases s.len(),
{
    if s.len() == 0 {
        Seq::empty()
    } else if s.len() >= 2 && s[0] == 0x5C && 0x30 <= s[1] && s[1] <= 0x39 {
        strip_backrefs(s.skip(2))
    } else {
        seq![s[0]] + strip_backrefs(s.skip(1))
    }
}

/// Remove every backreference (`\0` through `\9`) from a pattern.
///
/// The restricted parser cannot handle backreferences, and for
/// character analysis they can be ignored: a backreference can only
/// constrain a match, never widen the character set, so removing it
/// yields a sound, if looser, approximation. The original pattern is
/// still used for actual line matching.
#[verifier::loop_isolation(false)]
pub fn strip_backreferences(pattern: &[u8]) -> (r: Vec<u8>)
    ensures
        r@ == strip_backrefs(pattern@),
{
    let mut r: Vec<u8> = Vec::new();
    let mut i: usize = 0;
    proof {
        assert(pattern@.skip(0) =~= pattern@);
        assert(r@ + strip_backrefs(pattern@) =~= strip_backrefs(pattern@));
    }
    while i < pattern.len()
        invariant
            i <= pattern@.len(),
            strip_backrefs(pattern@) == r@ + strip_backrefs(pattern@.skip(i as int)),
        decreases pattern@.len() - i,
    {
        let ghost pre = r@;
        if pattern[i] == 0x5C && i + 1 < pattern.len() && 0x30 <= pattern[i + 1]
            && pattern[i + 1] <= 0x39 {
            proof {
                assert(pattern@.skip(i as int)[0] == pattern@[i as int]);
                assert(pattern@.skip(i as int)[1] == pattern@[i as int + 1]);
                assert(pattern@.skip(i as int).skip(2) =~= pattern@.skip(i as int + 2));
            }
            i = i + 2;
        } else {
            r.push(pattern[i]);
            proof {
                assert(pattern@.skip(i as int)[0] == pattern@[i as int]);
                if i + 1 < pattern@.len() {
                    assert(pattern@.skip(i as int)[1] == pattern@[i as int + 1]);
                }
                assert(pattern@.skip(i as int).skip(1) =~= pattern@.skip(i as int + 1));
                assert(strip_backrefs(pattern@.skip(i as int)) == seq![pattern@[i as int]]
                    + strip_backrefs(pattern@.skip(i as int + 1)));
                assert(pre + strip_backrefs(pattern@.skip(i as int)) =~= r@ + strip_backrefs(
                    pattern@.skip(i as int + 1)));
            }
            i = i + 1;
        }
    }
    proof {
        assert(pattern@.skip(i as int) =~= Seq::empty());
        assert(r@ + strip_backrefs(pattern@.skip(i as int)) =~= r@);
    }
    r
}

/// Copy a byte slice into a fresh vector.
#[verifier::loop_isolation(false)]
pub(crate) fn copy_bytes(s: &[u8]) -> (r: Vec<u8>)
    ensures
        r@ == s@,
{
    let mut r: Vec<u8> = Vec::new();
    for i in 0..s.len()
        invariant
            r@ == s@.take(i as int),
    {
        r.push(s[i]);
        proof {
            assert(r@ =~= s@.take(i as int + 1));
        }
    }
    proof {
        assert(s@.take(s@.len() as int) =~= s@);
    }
    r
}

/// Validate one edge's hints and add every byte they can pin down to a
/// sorted accumulator; the accumulator is untouched when a hint is
/// outside the supported grammar.
#[verifier::loop_isolation(false)]
fn add_edge_chars(edge: &Option<Vec<Option<Hint>>>, acc: &mut Vec<u8>) -> (r: Result<
    (),
    PatternError,
>)
    requires
        strictly_sorted(old(acc)@),
    ensures
        r is Ok <==> edge_ok(*edge),
        strictly_sorted(final(acc)@),
        r is Ok ==> final(acc)@.to_set() == old(acc)@.to_set().union(edge_chars(*edge)),
        r is Err ==> final(acc)@ == old(acc)@,
        r matches Err(e) ==> crate::ast::analysis_error(e),
{
    let ghost orig = old(acc)@.to_set();
    match edge {
        Option::None => {
            proof {
                assert(acc@.to_set() =~= orig.union(edge_chars(*edge)));
            }
            Ok(())
        },
        Option::Some(hints) => {
            for k in 0..hints.len()
                invariant
                    acc@ == old(acc)@,
                    forall|m: int| 0 <= m < k ==> entry_ok(#[trigger] hints@[m]),
            {
                match &hints[k] {
                    Option::Some(h) => {
                        let c = check_supported(&h.ast);
                        if c.is_err() {
                            return Err(c.unwrap_err());
                        }
                    },
                    Option::None => {},
                }
            }
            for k in 0..hints.len()
                invariant
                    strictly_sorted(acc@),
                    forall|m: int| 0 <= m < hints@.len() ==> entry_ok(#[trigger] hints@[m]),
                    acc@.to_set() == orig.union(Set::new(|b: u8| exists|j: int|
                        0 <= j < k && entry_chars(#[trigger] hints@[j]).contains(b))),
            {
                match &hints[k] {
                    Option::Some(h) => {
                        add_ast_chars(&h.ast, acc);
                    },
                    Option::None => {},
                }
                proof {
                    assert(acc@.to_set() =~= orig.union(Set::new(|b: u8| exists|j: int|
                        0 <= j < k + 1 && entry_chars(#[trigger] hints@[j]).contains(b)))) by {
                        assert forall|b: u8| acc@.to_set().contains(b)
                            implies orig.union(Set::new(|x: u8| exists|j: int|
                                0 <= j < k + 1
                                && entry_chars(#[trigger] hints@[j]).contains(x))).contains(b) by {
                            if !orig.contains(b) {
                                if entry_chars(hints@[k as int]).contains(b) {
                                    assert(0 <= k < k + 1 && entry_chars(
                                        hints@[k as int]).contains(b));
                                }
                            }
                        }
                    }
                }
            }
            proof {
                assert(acc@.to_set() =~= orig.union(edge_chars(*edge)));
            }
            Ok(())
        },
    }
}

/// Build the global alphabet of a puzzle: the sorted union of the
/// unrestricted analysis of every hint on all four edges. Fails if and
/// only if some hint falls outside the supported grammar.
pub fn get_all_allowed_chars(spec: &PuzzleSpec) -> (r: Result<Vec<u8>, PatternError>)
    ensures
        r is Ok <==> puzzle_patterns_ok(*spec),
        r matches Ok(u) ==> strictly_sorted(u@) && u@.to_set() == universe_chars(*spec),
        r matches Ok(u) ==> forall|k: int|
            0 <= k < u@.len() ==> 0x20 <= #[trigger] u@[k] && u@[k] <= 0x7E,
        r matches Err(e) ==> crate::ast::analysis_error(e),
{
    let mut acc: Vec<u8> = Vec::new();
    let ghost mut gathered = Set::<u8>::empty();
    let r = add_edge_chars(&spec.top_hints, &mut acc);
    if r.is_err() {
        return Err(r.unwrap_err());
    }
    let r = add_edge_chars(&spec.bottom_hints, &mut acc);
    if r.is_err() {
        return Err(r.unwrap_err());
    }
    let r = add_edge_chars(&spec.left_hints, &mut acc);
    if r.is_err() {
        return Err(r.unwrap_err());
    }
    let r = add_edge_chars(&spec.right_hints, &mut acc);
    if r.is_err() {
        return Err(r.unwrap_err());
    }
    proof {
        assert(acc@.to_set() =~= universe_chars(*spec));
        lemma_universe_chars_printable(*spec);
        assert forall|k: int| 0 <= k < acc@.len()
            implies 0x20 <= #[trigger] acc@[k] && acc@[k] <= 0x7E by {
            assert(acc@.to_set().contains(acc@[k]));
        }
    }
    Ok(acc)
}

/// Every byte of an edge of acceptable hints is printable ASCII.
proof fn lemma_edge_chars_printable(edge: Option<Vec<Option<Hint>>>)
    requires
        edge_ok(edge),
    ensures
        forall|b: u8| edge_chars(edge).contains(b) ==> 0x20 <= b && b <= 0x7E,
{
    assert forall|b: u8| edge_chars(edge).contains(b) implies 0x20 <= b && b <= 0x7E by {
        match edge {
            Option::Some(hints) => {
                let k = choose|k: int| 0 <= k < hints@.len()
                    && entry_chars(#[trigger] hints@[k]).contains(b);
                match hints@[k] {
                    Option::Some(h) => {
                        lemma_ast_chars_printable(h.ast);
                        assert(ast_chars(h.ast).contains(b));
                    },
                    Option::None => {},
                }
            },
            Option::None => {},
        }
    }
}

/// Every byte of the universe of an acceptable puzzle is printable
/// ASCII.
pub proof fn lemma_universe_chars_printable(spec: PuzzleSpec)
    requires
        puzzle_patterns_ok(spec),
    ensures
        forall|b: u8| universe_chars(spec).contains(b) ==> 0x20 <= b && b <= 0x7E,
{
    lemma_edge_chars_printable(spec.top_hints);
    lemma_edge_chars_printable(spec.bottom_hints);
    lemma_edge_chars_printable(spec.left_hints);
    lemma_edge_chars_printable(spec.right_hints);
}

/// The restricted analysis of one pattern against a known universe:
/// the whole universe when the pattern could match anything, otherwise
/// its contributed bytes narrowed to the universe. Fails if and only
/// if the pattern falls outside the supported grammar.
pub fn get_allowed_chars(ast: &RegexAst, all_allowed_chars: &[u8]) -> (r: Result<
    Vec<u8>,
    PatternError,
>)
    requires
        strictly_sorted(all_allowed_chars@),
    ensures
        r is Ok <==> ast_ok(*ast),
        r matches Ok(v) ==> strictly_sorted(v@) && v@.to_set() == restricted_chars(
            *ast,
            all_allowed_chars@.to_set(),
        ),
        r matches Err(e) ==> crate::ast::analysis_error(e),
{
    let c = check_supported(ast);
    if c.is_err() {
        return Err(c.unwrap_err());
    }
    if ast_has_wild(ast) {
        Ok(copy_bytes(all_allowed_chars))
    } else {
        let mut acc: Vec<u8> = Vec::new();
        add_ast_chars(ast, &mut acc);
        proof {
            assert(acc@.to_set() =~= ast_chars(*ast));
        }
        Ok(allowed_char_intersection(acc.as_slice(), all_allowed_chars))
    }
}

/// The allowed bytes of one line from its up to two hints: the
/// restricted analysis of the one present hint, the sorted-merge
/// intersection of both analyses when the line has redundant hints,
/// and a configuration error when the line has neither.
pub fn get_both_allowed_chars(
    hint_a: Option<&Hint>,
    hint_b: Option<&Hint>,
    all_allowed_chars: &[u8],
) -> (r: Result<Vec<u8>, SolveError>)
    requires
        strictly_sorted(all_allowed_chars@),
    ensures
        r is Ok <==> line_hints_ok(deref_opt(hint_a), deref_opt(hint_b)),
        r matches Ok(v) ==> strictly_sorted(v@) && v@.to_set() == line_allowed_chars(
            deref_opt(hint_a),
            deref_opt(hint_b),
            all_allowed_chars@.to_set(),
        ),
        hint_a is None && hint_b is None ==> r == Err::<Vec<u8>, SolveError>(
            SolveError::Configuration(ConfigurationError::LineWithoutHint),
        ),
        r is Err && (hint_a is Some || hint_b is Some) ==> (r matches Err(SolveError::Pattern(e))
            && crate::ast::analysis_error(e)),
{
    match (hint_a, hint_b) {
        (Option::None, Option::None) => Err(SolveError::Configuration(
            ConfigurationError::LineWithoutHint,
        )),
        (Option::Some(hint), Option::None) => {
            match get_allowed_chars(&hint.ast, all_allowed_chars) {
                Ok(v) => Ok(v),
                Err(e) => Err(SolveError::Pattern(e)),
            }
        },
        (Option::None, Option::Some(hint)) => {
            match get_allowed_chars(&hint.ast, all_allowed_chars) {
                Ok(v) => Ok(v),
                Err(e) => Err(SolveError::Pattern(e)),
            }
        },
        (Option::Some(ha), Option::Some(hb)) => {
            let ra = match get_allowed_chars(&ha.ast, all_allowed_chars) {
                Ok(v) => v,
                Err(e) => {
                    return Err(SolveError::Pattern(e));
                },
            };
            let rb = match get_allowed_chars(&hb.ast, all_allowed_chars) {
                Ok(v) => v,
                Err(e) => {
                    return Err(SolveError::Pattern(e));
                },
            };
            Ok(allowed_char_intersection(ra.as_slice(), rb.as_slice()))
        },
    }
}

/// Sorted-merge intersection of two sorted deduplicated byte sets.
///
/// The result is the mathematical intersection, again sorted and
/// deduplicated; in particular intersecting a set with itself returns
/// it unchanged.
pub fn allowed_char_intersection(a: &[u8], b: &[u8]) -> (r: Vec<u8>)
    requires
        strictly_sorted(a@),
        strictly_sorted(b@),
    ensures
        strictly_sorted(r@),
        r@.to_set() == a@.to_set().intersect(b@.to_set()),
        a@ == b@ ==> r@ == a@,
{
    let mut r: Vec<u8> = Vec::new();
    let mut i: usize = 0;
    let mut j: usize = 0;
    while i < a.len() && j < b.len()
        invariant
            i <= a@.len(),
            j <= b@.len(),
            strictly_sorted(a@),
            strictly_sorted(b@),
            strictly_sorted(r@),
            r@.to_set() == a@.take(i as int).to_set().intersect(b@.take(j as int).to_set()),
            forall|k: int| 0 <= k < i && j < b@.len()
                ==> a@[k] < b@[j as int] || r@.to_set().contains(a@[k]),
            forall|k: int| 0 <= k < j && i < a@.len()
                ==> b@[k] < a@[i as int] || r@.to_set().contains(b@[k]),
        decreases a@.len() - i + b@.len() - j,
    {
        let ac = a[i];
        let bc = b[j];
        if ac == bc {
            proof {
                // The pushed byte is larger than everything already in `r`.
                assert forall|k: int| 0 <= k < r@.len() implies r@[k] < ac by {
                    assert(r@.to_set().contains(r@[k]));
                    let m = choose|m: int| 0 <= m < i && a@[m] == r@[k];
                    assert(a@[m] < a@[i as int]);
                }
                assert(r@.push(ac).to_set() =~= a@.take(i + 1).to_set().intersect(
                    b@.take(j + 1).to_set())) by {
                    assert forall|e: u8| r@.push(ac).to_set().contains(e)
                        implies a@.take(i + 1).to_set().contains(e)
                            && b@.take(j + 1).to_set().contains(e) by {
                        if e == ac {
                            assert(a@.take(i + 1)[i as int] == ac);
                            assert(b@.take(j + 1)[j as int] == bc);
                        } else {
                            let k = choose|k: int| 0 <= k < r@.len() && r@[k] == e;
                            assert(r@.to_set().contains(e));
                            let m = choose|m: int| 0 <= m < i && a@[m] == e;
                            let n = choose|n: int| 0 <= n < j && b@[n] == e;
                            assert(a@.take(i + 1)[m] == e);
                            assert(b@.take(j + 1)[n] == e);
                        }
                    }
                    assert forall|e: u8|
                        a@.take(i + 1).to_set().contains(e) && b@.take(j + 1).to_set().contains(e)
                        implies r@.push(ac).to_set().contains(e) by {
                        let m = choose|m: int| 0 <= m < i + 1 && #[trigger] a@.take(i + 1)[m] == e;
                        let n = choose|n: int| 0 <= n < j + 1 && #[trigger] b@.take(j + 1)[n] == e;
                        if m == i || n == j {
                            assert(e == ac || e == bc);
                            assert(r@.push(ac)[r@.len() as int] == ac);
                        } else {
                            assert(a@.take(i as int)[m] == e);
                            assert(b@.take(j as int)[n] == e);
                            assert(r@.to_set().contains(e));
                            let k = choose|k: int| 0 <= k < r@.len() && r@[k] == e;
                            assert(r@.push(ac)[k] == e);
                        }
                    }
                }
            }
            r.push(ac);
            i = i + 1;
            j = j + 1;
        } else if ac < bc {
            proof {
                assert(a@.take(i + 1).to_set() =~= a@.take(i as int).to_set().insert(ac)) by {
                    assert forall|e: u8| a@.take(i + 1).to_set().contains(e)
                        implies a@.take(i as int).to_set().insert(ac).contains(e) by {
                        let m = choose|m: int| 0 <= m < i + 1 && #[trigger] a@.take(i + 1)[m] == e;
                        if m < i {
                            assert(a@.take(i as int)[m] == e);
                        }
                    }
                    assert forall|e: u8| a@.take(i as int).to_set().insert(ac).contains(e)
                        implies a@.take(i + 1).to_set().contains(e) by {
                        if e == ac {
                            assert(a@.take(i + 1)[i as int] == e);
                        } else {
                            let m = choose|m: int| 0 <= m < i && a@.take(i as int)[m] == e;
                            assert(a@.take(i + 1)[m] == e);
                        }
                    }
                }
                // `ac` is not in b.take(j), so the set equation is unchanged.
                assert(!b@.take(j as int).to_set().contains(ac)) by {
                    if b@.take(j as int).to_set().contains(ac) {
                        let n = choose|n: int| 0 <= n < j && b@.take(j as int)[n] == ac;
                        assert(b@[n] < b@[j as int]);
                    }
                }
                assert(r@.to_set() =~= a@.take(i + 1).to_set().intersect(
                    b@.take(j as int).to_set()));
            }
            i = i + 1;
        } else {
            proof {
                assert(b@.take(j + 1).to_set() =~= b@.take(j as int).to_set().insert(bc)) by {
                    assert forall|e: u8| b@.take(j + 1).to_set().contains(e)
                        implies b@.take(j as int).to_set().insert(bc).contains(e) by {
                        let n = choose|n: int| 0 <= n < j + 1 && #[trigger] b@.take(j + 1)[n] == e;
                        if n < j {
                            assert(b@.take(j as int)[n] == e);
                        }
                    }
                    assert forall|e: u8| b@.take(j as int).to_set().insert(bc).contains(e)
                        implies b@.take(j + 1).to_set().contains(e) by {
                        if e == bc {
                            assert(b@.take(j + 1)[j as int] == e);
                        } else {
                            let n = choose|n: int| 0 <= n < j && b@.take(j as int)[n] == e;
                            assert(b@.take(j + 1)[n] == e);
                        }
                    }
                }
                assert(!a@.take(i as int).to_set().contains(bc)) by {
                    if a@.take(i as int).to_set().contains(bc) {
                        let m = choose|m: int| 0 <= m < i && a@.take(i as int)[m] == bc;
                        assert(a@[m] < a@[i as int]);
                    }
                }
                assert(r@.to_set() =~= a@.take(i as int).to_set().intersect(
                    b@.take(j + 1).to_set()));
            }
            j = j + 1;
        }
    }
    proof {
        assert(r@.to_set() =~= a@.to_set().intersect(b@.to_set())) by {
            assert forall|e: u8| r@.to_set().contains(e)
                implies a@.to_set().contains(e) && b@.to_set().contains(e) by {
                let m = choose|m: int| 0 <= m < i && a@.take(i as int)[m] == e;
                let n = choose|n: int| 0 <= n < j && b@.take(j as int)[n] == e;
                assert(a@[m] == e);
                assert(b@[n] == e);
            }
            assert forall|e: u8| a@.to_set().contains(e) && b@.to_set().contains(e)
                implies r@.to_set().contains(e) by {
                let m = choose|m: int| 0 <= m < a@.len() && a@[m] == e;
                let n = choose|n: int| 0 <= n < b@.len() && b@[n] == e;
                if m < i && n < j {
                    assert(a@.take(i as int)[m] == e);
                    assert(b@.take(j as int)[n] == e);
                } else if m >= i {
                    // The loop stopped with i == a.len() or j == b.len();
                    // m >= i forces i < a.len(), hence j == b.len(), n < j.
                    assert(b@[n] < a@[i as int] || r@.to_set().contains(b@[n]));
                    assert(a@[i as int] <= a@[m]);
                } else {
                    assert(a@[m] < b@[j as int] || r@.to_set().contains(a@[m]));
                    assert(b@[j as int] <= b@[n]);
                }
            }
        }
        if a@ == b@ {
            assert(a@.to_set().intersect(b@.to_set()) =~= a@.to_set());
            lemma_strictly_sorted_same_set(r@, a@);
        }
    }
    r
}

} // verus!
