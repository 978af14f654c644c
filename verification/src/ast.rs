//! The restricted regex grammar that hints may use, modeled as a closed
//! tagged variant, together with the character-set semantics of each
//! construct.
//!
//! The grammar supports literals, ranges, three named Perl classes
//! (`\d` is the ten digits, `\s` is the space alone, `\w` is
//! deliberately narrowed to the uppercase letters A-Z), unions,
//! concatenations, alternations, groups, repetitions, dot, assertions
//! and flag settings, and bracket expressions built from literals,
//! ranges, Perl classes and unions only. Every other construct is kept
//! as an explicit variant so that an exhaustive walk rejects it rather
//! than silently ignoring unknown syntax.

use vstd::prelude::*;
use crate::errors::PatternError;
use crate::bytes::insert_sorted;
use crate::bytes::strictly_sorted;
use crate::bytes::lemma_strictly_sorted_len;

verus! {

/// The three supported named Perl classes.
#[derive(Debug, Clone, Copy, PartialEq, Eq, Structural)]
pub enum PerlClassKind {
    /// `\d`: the digits 0-9.
    Digit,
    /// `\s`: the space character alone.
    Space,
    /// `\w`: deliberately narrowed to the uppercase letters A-Z.
    Word,
}

/// One item of a bracket expression.
#[derive(Debug, PartialEq, Eq)]
pub enum ClassItem {
    /// An empty item, e.g. the gap in `[a-b-c]`.
    Empty,
    /// A single literal, e.g. the `a` of `[ab]`.
    Literal(char),
    /// A range, e.g. the `b-d` of `[ab-d]`.
    Range(char, char),
    /// A POSIX class such as `[:alnum:]`; not supported.
    Ascii,
    /// A Unicode class; not supported.
    Unicode,
    /// A Perl class such as `\d`. Negation is ignored inside brackets.
    Perl { kind: PerlClassKind, negated: bool },
    /// A bracket expression nested in another; not supported.
    Bracketed,
    /// A union of items, e.g. `[ab-dz]` as `[a]`, `[b-d]` and `[z]`.
    Union(Vec<ClassItem>),
}

/// The contents of a bracket expression.
#[derive(Debug, PartialEq, Eq)]
pub enum ClassSetKind {
    /// A plain item (possibly a union of items).
    Item(ClassItem),
    /// A set binary operator such as `&&`; not supported.
    BinaryOp,
}

/// A node of the restricted regex grammar.
#[derive(Debug, PartialEq, Eq)]
pub enum RegexAst {
    /// The empty regex.
    Empty,
    /// A flag setting such as `(?i)`; contributes no characters.
    Flags,
    /// A single literal character.
    Literal(char),
    /// `.`: could match anything in the universe.
    Dot,
    /// A zero-width assertion such as `^` or `$`.
    Assertion,
    /// A Unicode class such as `\p{Greek}`; not supported.
    ClassUnicode,
    /// A Perl class such as `\d` or its negation `\D`.
    ClassPerl { kind: PerlClassKind, negated: bool },
    /// A bracket expression such as `[a-z]` or `[^a-z]`.
    ClassBracketed { negated: bool, kind: ClassSetKind },
    /// A repetition such as `a?`, `a*`, `a+` or `a{1,3}`.
    Repetition(Box<RegexAst>),
    /// A group such as `(a)`.
    Group(Box<RegexAst>),
    /// An alternation such as `a|b`.
    Alternation(Vec<RegexAst>),
    /// A concatenation such as `abc`.
    Concat(Vec<RegexAst>),
}

/// A literal is acceptable when it lies in printable ASCII, 0x20..=0x7E.
pub open spec fn lit_ok(c: char) -> bool {
    0x20 <= c as u32 && c as u32 <= 0x7E
}

/// The bytes a named Perl class stands for.
pub open spec fn perl_chars(kind: PerlClassKind) -> Set<u8> {
    match kind {
        PerlClassKind::Digit => Set::new(|b: u8| 0x30 <= b && b <= 0x39),
        PerlClassKind::Space => Set::new(|b: u8| b == 0x20),
        PerlClassKind::Word => Set::new(|b: u8| 0x41 <= b && b <= 0x5A),
    }
}

/// Whether a bracket-expression item stays within the supported subset.
pub open spec fn item_ok(item: ClassItem) -> bool
    decreases item,
{
    match item {
        ClassItem::Empty => true,
        ClassItem::Literal(c) => lit_ok(c),
        ClassItem::Range(s, e) => lit_ok(s) && lit_ok(e) && s as u32 <= e as u32,
        ClassItem::Ascii => false,
        ClassItem::Unicode => false,
        ClassItem::Perl { .. } => true,
        ClassItem::Bracketed => false,
        ClassItem::Union(items) => forall|k: int|
            0 <= k < items@.len() ==> item_ok(#[trigger] items@[k]),
    }
}

/// The bytes a bracket-expression item can contribute.
pub open spec fn item_chars(item: ClassItem) -> Set<u8>
    decreases item,
{
    match item {
        ClassItem::Literal(c) => Set::new(|b: u8| b == c as u32),
        ClassItem::Range(s, e) => Set::new(|b: u8| s as u32 <= b && b <= e as u32),
        ClassItem::Perl { kind, .. } => perl_chars(kind),
        ClassItem::Union(items) => Set::new(|b: u8| exists|k: int|
            0 <= k < items@.len() && item_chars(#[trigger] items@[k]).contains(b)),
        _ => Set::empty(),
    }
}

/// Whether a pattern stays within the supported subset: no Unicode or
/// POSIX classes, no class set operators, no nested brackets, every
/// literal printable ASCII, every range ordered. The contents of a
/// negated bracket expression are never walked, so they are not
/// constrained.
pub open spec fn ast_ok(a: RegexAst) -> bool
    decreases a,
{
    match a {
        RegexAst::ClassUnicode => false,
        RegexAst::Literal(c) => lit_ok(c),
        RegexAst::ClassBracketed { negated, kind } => negated || match kind {
            ClassSetKind::Item(item) => item_ok(item),
            ClassSetKind::BinaryOp => false,
        },
        RegexAst::Repetition(inner) => ast_ok(*inner),
        RegexAst::Group(inner) => ast_ok(*inner),
        RegexAst::Alternation(asts) => forall|k: int|
            0 <= k < asts@.len() ==> ast_ok(#[trigger] asts@[k]),
        RegexAst::Concat(asts) => forall|k: int|
            0 <= k < asts@.len() ==> ast_ok(#[trigger] asts@[k]),
        _ => true,
    }
}

/// The bytes a pattern can pin down by itself: every literal, range or
/// positive-class byte reachable anywhere in the tree. Dot and negated
/// classes contribute nothing here; they are accounted for by
/// [`ast_wild`].
pub open spec fn ast_chars(a: RegexAst) -> Set<u8>
    decreases a,
{
    match a {
        RegexAst::Literal(c) => Set::new(|b: u8| b == c as u32),
        RegexAst::ClassPerl { kind, negated } => if negated {
            Set::empty()
        } else {
            perl_chars(kind)
        },
        RegexAst::ClassBracketed { negated, kind } => if negated {
            Set::empty()
        } else {
            match kind {
                ClassSetKind::Item(item) => item_chars(item),
                ClassSetKind::BinaryOp => Set::empty(),
            }
        },
        RegexAst::Repetition(inner) => ast_chars(*inner),
        RegexAst::Group(inner) => ast_chars(*inner),
        RegexAst::Alternation(asts) => Set::new(|b: u8| exists|k: int|
            0 <= k < asts@.len() && ast_chars(#[trigger] asts@[k]).contains(b)),
        RegexAst::Concat(asts) => Set::new(|b: u8| exists|k: int|
            0 <= k < asts@.len() && ast_chars(#[trigger] asts@[k]).contains(b)),
        _ => Set::empty(),
    }
}

/// Whether a pattern contains a construct that could match anything:
/// a dot or a negated class. When it does, a restricted analysis must
/// fall back to the whole universe.
pub open spec fn ast_wild(a: RegexAst) -> bool
    decreases a,
{
    match a {
        RegexAst::Dot => true,
        RegexAst::ClassPerl { negated, .. } => negated,
        RegexAst::ClassBracketed { negated, .. } => negated,
        RegexAst::Repetition(inner) => ast_wild(*inner),
        RegexAst::Group(inner) => ast_wild(*inner),
        RegexAst::Alternation(asts) => exists|k: int|
            0 <= k < asts@.len() && ast_wild(#[trigger] asts@[k]),
        RegexAst::Concat(asts) => exists|k: int|
            0 <= k < asts@.len() && ast_wild(#[trigger] asts@[k]),
        _ => false,
    }
}

/// The bytes a pattern can allow at one position once the global
/// universe is known: the whole universe when the pattern holds a
/// could-match-anything construct (a conservative over-approximation),
/// otherwise its own contributed bytes narrowed to the universe.
pub open spec fn restricted_chars(a: RegexAst, u: Set<u8>) -> Set<u8> {
    if ast_wild(a) {
        u
    } else {
        ast_chars(a).intersect(u)
    }
}

/// Every byte an acceptable pattern can contribute is printable ASCII.
pub proof fn lemma_item_chars_printable(item: ClassItem)
    requires
        item_ok(item),
    ensures
        forall|b: u8| item_chars(item).contains(b) ==> 0x20 <= b && b <= 0x7E,
    decreases item,
{
    assert forall|b: u8| item_chars(item).contains(b)
        implies 0x20 <= b && b <= 0x7E by {
        match item {
            ClassItem::Union(items) => {
                let k = choose|k: int| 0 <= k < items@.len()
                    && item_chars(#[trigger] items@[k]).contains(b);
                lemma_item_chars_printable(items@[k]);
                assert(item_chars(items@[k]).contains(b));
            },
            _ => {},
        }
    }
}

/// Every byte an acceptable pattern can contribute is printable ASCII.
pub proof fn lemma_ast_chars_printable(a: RegexAst)
    requires
        ast_ok(a),
    ensures
        forall|b: u8| ast_chars(a).contains(b) ==> 0x20 <= b && b <= 0x7E,
    decreases a,
{
    assert forall|b: u8| ast_chars(a).contains(b)
        implies 0x20 <= b && b <= 0x7E by {
        match a {
            RegexAst::ClassBracketed { negated, kind } => {
                if !negated {
                    match kind {
                        ClassSetKind::Item(item) => {
                            lemma_item_chars_printable(item);
                            assert(item_chars(item).contains(b));
                        },
                        ClassSetKind::BinaryOp => {},
                    }
                }
            },
            RegexAst::Repetition(inner) => {
                lemma_ast_chars_printable(*inner);
                assert(ast_chars(*inner).contains(b));
            },
            RegexAst::Group(inner) => {
                lemma_ast_chars_printable(*inner);
                assert(ast_chars(*inner).contains(b));
            },
            RegexAst::Alternation(asts) => {
                let k = choose|k: int| 0 <= k < asts@.len()
                    && ast_chars(#[trigger] asts@[k]).contains(b);
                lemma_ast_chars_printable(asts@[k]);
                assert(ast_chars(asts@[k]).contains(b));
            },
            RegexAst::Concat(asts) => {
                let k = choose|k: int| 0 <= k < asts@.len()
                    && ast_chars(#[trigger] asts@[k]).contains(b);
                lemma_ast_chars_printable(asts@[k]);
                assert(ast_chars(asts@[k]).contains(b));
            },
            _ => {},
        }
    }
}

/// The analysis-stage flaws: what a pattern walk alone can reject.
pub open spec fn analysis_error(e: PatternError) -> bool {
    ||| e == PatternError::UnsupportedConstruct
    ||| e == PatternError::NonPrintableLiteral
    ||| e == PatternError::InvalidClassRange
}

/// Reject any bracket-expression item outside the supported subset.
#[verifier::loop_isolation(false)]
fn check_item_supported(item: &ClassItem) -> (r: Result<(), PatternError>)
    ensures
        r is Ok <==> item_ok(*item),
        r matches Err(e) ==> analysis_error(e),
    decreases *item,
{
    match item {
        ClassItem::Empty => Ok(()),
        ClassItem::Literal(c) => check_literal(*c),
        ClassItem::Range(s, e) => {
            let r = check_literal(*s);
            if r.is_err() {
                return r;
            }
            let r = check_literal(*e);
            if r.is_err() {
                return r;
            }
            if (*s as u32) <= (*e as u32) {
                Ok(())
            } else {
                Err(PatternError::InvalidClassRange)
            }
        },
        ClassItem::Ascii => Err(PatternError::UnsupportedConstruct),
        ClassItem::Unicode => Err(PatternError::UnsupportedConstruct),
        ClassItem::Perl { .. } => Ok(()),
        ClassItem::Bracketed => Err(PatternError::UnsupportedConstruct),
        ClassItem::Union(items) => {
            for k in 0..items.len()
                invariant
                    forall|m: int| 0 <= m < k ==> item_ok(#[trigger] items@[m]),
            {
                let r = check_item_supported(&items[k]);
                if r.is_err() {
                    return r;
                }
            }
            Ok(())
        },
    }
}

/// A literal is acceptable only in printable ASCII.
fn check_literal(c: char) -> (r: Result<(), PatternError>)
    ensures
        r is Ok <==> lit_ok(c),
        r matches Err(e) ==> e == PatternError::NonPrintableLiteral,
{
    if (c as u32) < 0x20 || (c as u32) > 0x7E {
        Err(PatternError::NonPrintableLiteral)
    } else {
        Ok(())
    }
}

/// Walk a pattern and reject any construct outside the supported
/// subset; anything else would be an unrecoverable input-format
/// violation if silently ignored.
#[verifier::loop_isolation(false)]
pub fn check_supported(a: &RegexAst) -> (r: Result<(), PatternError>)
    ensures
        r is Ok <==> ast_ok(*a),
        r matches Err(e) ==> analysis_error(e),
    decreases *a,
{
    match a {
        RegexAst::ClassUnicode => Err(PatternError::UnsupportedConstruct),
        RegexAst::Literal(c) => check_literal(*c),
        RegexAst::ClassBracketed { negated, kind } => {
            if *negated {
                Ok(())
            } else {
                match kind {
                    ClassSetKind::Item(item) => check_item_supported(item),
                    ClassSetKind::BinaryOp => Err(PatternError::UnsupportedConstruct),
                }
            }
        },
        RegexAst::Repetition(inner) => check_supported(inner),
        RegexAst::Group(inner) => check_supported(inner),
        RegexAst::Alternation(asts) => {
            for k in 0..asts.len()
                invariant
                    forall|m: int| 0 <= m < k ==> ast_ok(#[trigger] asts@[m]),
            {
                let r = check_supported(&asts[k]);
                if r.is_err() {
                    return r;
                }
            }
            Ok(())
        },
        RegexAst::Concat(asts) => {
            for k in 0..asts.len()
                invariant
                    forall|m: int| 0 <= m < k ==> ast_ok(#[trigger] asts@[m]),
            {
                let r = check_supported(&asts[k]);
                if r.is_err() {
                    return r;
                }
            }
            Ok(())
        },
        _ => Ok(()),
    }
}

/// Add every byte of an inclusive range to a sorted accumulator.
#[verifier::loop_isolation(false)]
fn add_byte_range(lo: u8, hi: u8, acc: &mut Vec<u8>)
    requires
        lo <= hi,
        strictly_sorted(old(acc)@),
    ensures
        strictly_sorted(final(acc)@),
        final(acc)@.to_set() == old(acc)@.to_set().union(
            Set::new(|b: u8| lo <= b && b <= hi)),
{
    let ghost orig = old(acc)@.to_set();
    let n: usize = (hi - lo) as usize + 1;
    for off in 0..n
        invariant
            strictly_sorted(acc@),
            acc@.to_set() == orig.union(
                Set::new(|b: u8| lo <= b && (b as int) < ((lo as int) + (off as int)))),
    {
        proof {
            lemma_strictly_sorted_len(acc@);
        }
        let b = lo + (off as u8);
        insert_sorted(acc, b);
        proof {
            assert(acc@.to_set() =~= orig.union(
                Set::new(|x: u8| lo <= x && (x as int) < ((lo as int) + (off as int) + 1))));
        }
    }
    proof {
        assert(acc@.to_set() =~= orig.union(Set::new(|b: u8| lo <= b && b <= hi)));
    }
}

/// Accumulate the bytes a bracket-expression item can contribute.
#[verifier::loop_isolation(false)]
fn add_item_chars(item: &ClassItem, acc: &mut Vec<u8>)
    requires
        item_ok(*item),
        strictly_sorted(old(acc)@),
    ensures
        strictly_sorted(final(acc)@),
        final(acc)@.to_set() == old(acc)@.to_set().union(item_chars(*item)),
    decreases *item,
{
    let ghost orig = old(acc)@.to_set();
    match item {
        ClassItem::Literal(c) => {
            proof {
                lemma_strictly_sorted_len(acc@);
            }
            insert_sorted(acc, (*c as u32) as u8);
            proof {
                assert(acc@.to_set() =~= orig.union(item_chars(*item)));
            }
        },
        ClassItem::Range(s, e) => {
            add_byte_range((*s as u32) as u8, (*e as u32) as u8, acc);
            proof {
                assert(acc@.to_set() =~= orig.union(item_chars(*item)));
            }
        },
        ClassItem::Perl { kind, .. } => {
            match kind {
                PerlClassKind::Digit => add_byte_range(0x30, 0x39, acc),
                PerlClassKind::Space => add_byte_range(0x20, 0x20, acc),
                PerlClassKind::Word => add_byte_range(0x41, 0x5A, acc),
            }
            proof {
                assert(acc@.to_set() =~= orig.union(item_chars(*item)));
            }
        },
        ClassItem::Union(items) => {
            for k in 0..items.len()
                invariant
                    strictly_sorted(acc@),
                    acc@.to_set() == orig.union(Set::new(|b: u8| exists|j: int|
                        0 <= j < k && item_chars(#[trigger] items@[j]).contains(b))),
            {
                add_item_chars(&items[k], acc);
                proof {
                    assert(acc@.to_set() =~= orig.union(Set::new(|b: u8| exists|j: int|
                        0 <= j < k + 1 && item_chars(#[trigger] items@[j]).contains(b)))) by {
                        assert forall|b: u8| acc@.to_set().contains(b)
                            implies orig.union(Set::new(|x: u8| exists|j: int|
                                0 <= j < k + 1
                                && item_chars(#[trigger] items@[j]).contains(x))).contains(b) by {
                            if !orig.contains(b) {
                                if item_chars(items@[k as int]).contains(b) {
                                    assert(0 <= k < k + 1 && item_chars(items@[k as int]).contains(b));
                                }
                            }
                        }
                    }
                }
            }
            proof {
                assert(acc@.to_set() =~= orig.union(item_chars(*item)));
            }
        },
        _ => {
            proof {
                assert(acc@.to_set() =~= orig.union(item_chars(*item)));
            }
        },
    }
}

/// Accumulate every byte a pattern can pin down: the unrestricted
/// analysis used to build the global universe. Dot and negated classes
/// contribute nothing, since there is no bounded universe yet to fall
/// back to.
#[verifier::loop_isolation(false)]
pub fn add_ast_chars(a: &RegexAst, acc: &mut Vec<u8>)
    requires
        ast_ok(*a),
        strictly_sorted(old(acc)@),
    ensures
        strictly_sorted(final(acc)@),
        final(acc)@.to_set() == old(acc)@.to_set().union(ast_chars(*a)),
    decreases *a,
{
    let ghost orig = old(acc)@.to_set();
    match a {
        RegexAst::Literal(c) => {
            proof {
                lemma_strictly_sorted_len(acc@);
            }
            insert_sorted(acc, (*c as u32) as u8);
            proof {
                assert(acc@.to_set() =~= orig.union(ast_chars(*a)));
            }
        },
        RegexAst::ClassPerl { kind, negated } => {
            if !*negated {
                match kind {
                    PerlClassKind::Digit => add_byte_range(0x30, 0x39, acc),
                    PerlClassKind::Space => add_byte_range(0x20, 0x20, acc),
                    PerlClassKind::Word => add_byte_range(0x41, 0x5A, acc),
                }
            }
            proof {
                assert(acc@.to_set() =~= orig.union(ast_chars(*a)));
            }
        },
        RegexAst::ClassBracketed { negated, kind } => {
            if !*negated {
                match kind {
                    ClassSetKind::Item(item) => {
                        add_item_chars(item, acc);
                    },
                    ClassSetKind::BinaryOp => {},
                }
            }
            proof {
                assert(acc@.to_set() =~= orig.union(ast_chars(*a)));
            }
        },
        RegexAst::Repetition(inner) => {
            add_ast_chars(inner, acc);
        },
        RegexAst::Group(inner) => {
            add_ast_chars(inner, acc);
        },
        RegexAst::Alternation(asts) => {
            for k in 0..asts.len()
                invariant
                    strictly_sorted(acc@),
                    acc@.to_set() == orig.union(Set::new(|b: u8| exists|j: int|
                        0 <= j < k && ast_chars(#[trigger] asts@[j]).contains(b))),
            {
                add_ast_chars(&asts[k], acc);
                proof {
                    assert(acc@.to_set() =~= orig.union(Set::new(|b: u8| exists|j: int|
                        0 <= j < k + 1 && ast_chars(#[trigger] asts@[j]).contains(b)))) by {
                        assert forall|b: u8| acc@.to_set().contains(b)
                            implies orig.union(Set::new(|x: u8| exists|j: int|
                                0 <= j < k + 1
                                && ast_chars(#[trigger] asts@[j]).contains(x))).contains(b) by {
                            if !orig.contains(b) {
                                if ast_chars(asts@[k as int]).contains(b) {
                                    assert(0 <= k < k + 1 && ast_chars(asts@[k as int]).contains(b));
                                }
                            }
                        }
                    }
                }
            }
            proof {
                assert(acc@.to_set() =~= orig.union(ast_chars(*a)));
            }
        },
        RegexAst::Concat(asts) => {
            for k in 0..asts.len()
                invariant
                    strictly_sorted(acc@),
                    acc@.to_set() == orig.union(Set::new(|b: u8| exists|j: int|
                        0 <= j < k && ast_chars(#[trigger] asts@[j]).contains(b))),
            {
                add_ast_chars(&asts[k], acc);
                proof {
                    assert(acc@.to_set() =~= orig.union(Set::new(|b: u8| exists|j: int|
                        0 <= j < k + 1 && ast_chars(#[trigger] asts@[j]).contains(b)))) by {
                        assert forall|b: u8| acc@.to_set().contains(b)
                            implies orig.union(Set::new(|x: u8| exists|j: int|
                                0 <= j < k + 1
                                && ast_chars(#[trigger] asts@[j]).contains(x))).contains(b) by {
                            if !orig.contains(b) {
                                if ast_chars(asts@[k as int]).contains(b) {
                                    assert(0 <= k < k + 1 && ast_chars(asts@[k as int]).contains(b));
                                }
                            }
                        }
                    }
                }
            }
            proof {
                assert(acc@.to_set() =~= orig.union(ast_chars(*a)));
            }
        },
        _ => {
            proof {
                assert(acc@.to_set() =~= orig.union(ast_chars(*a)));
            }
        },
    }
}

/// Decide whether a pattern contains a could-match-anything construct.
#[verifier::loop_isolation(false)]
pub fn ast_has_wild(a: &RegexAst) -> (r: bool)
    ensures
        r == ast_wild(*a),
    decreases *a,
{
    match a {
        RegexAst::Dot => true,
        RegexAst::ClassPerl { negated, .. } => *negated,
        RegexAst::ClassBracketed { negated, .. } => *negated,
        RegexAst::Repetition(inner) => ast_has_wild(inner),
        RegexAst::Group(inner) => ast_has_wild(inner),
        RegexAst::Alternation(asts) => {
            for k in 0..asts.len()
                invariant
                    forall|m: int| 0 <= m < k ==> !ast_wild(#[trigger] asts@[m]),
            {
                if ast_has_wild(&asts[k]) {
                    return true;
                }
            }
            false
        },
        RegexAst::Concat(asts) => {
            for k in 0..asts.len()
                invariant
                    forall|m: int| 0 <= m < k ==> !ast_wild(#[trigger] asts@[m]),
            {
                if ast_has_wild(&asts[k]) {
                    return true;
                }
            }
            false
        },
        _ => false,
    }
}

} // verus!
