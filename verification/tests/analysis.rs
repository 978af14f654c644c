//! Tests for the character analysis: intersection, backreference
//! stripping, the restricted grammar walk and the universe.

use regex_crossword::allowed_char_intersection;
use regex_crossword::get_all_allowed_chars;
use regex_crossword::get_allowed_chars;
use regex_crossword::strip_backreferences;
use regex_crossword::ClassItem;
use regex_crossword::ClassSetKind;
use regex_crossword::Hint;
use regex_crossword::PatternError;
use regex_crossword::PerlClassKind;
use regex_crossword::PuzzleSpec;
use regex_crossword::RegexAst;

fn bracket(items: Vec<ClassItem>) -> RegexAst {
    RegexAst::ClassBracketed {
        negated: false,
        kind: ClassSetKind::Item(ClassItem::Union(items)),
    }
}

fn anchored(inner: RegexAst) -> RegexAst {
    RegexAst::Concat(vec![RegexAst::Assertion, inner, RegexAst::Assertion])
}

fn hint(pattern: &[u8], ast: RegexAst) -> Hint {
    Hint { pattern: pattern.to_vec(), ast }
}

#[test]
fn intersection_of_overlapping_sets() {
    let a: Vec<u8> = vec![b'A', b'C', b'E', b'G'];
    let b: Vec<u8> = vec![b'B', b'C', b'D', b'E'];
    assert_eq!(allowed_char_intersection(&a, &b), vec![b'C', b'E']);
}

#[test]
fn intersection_with_itself_is_identity() {
    let a: Vec<u8> = vec![b'0', b'5', b'9', b'Z'];
    assert_eq!(allowed_char_intersection(&a, &a), a);
}

#[test]
fn intersection_of_disjoint_sets_is_empty() {
    let a: Vec<u8> = vec![b'0', b'1', b'2'];
    let b: Vec<u8> = vec![b'A', b'B'];
    assert_eq!(allowed_char_intersection(&a, &b), Vec::<u8>::new());
}

#[test]
fn stripping_removes_backreferences() {
    assert_eq!(strip_backreferences(b"^(a)\\1$"), b"^(a)$".to_vec());
    assert_eq!(strip_backreferences(b"(AB)\\2\\3C"), b"(AB)C".to_vec());
}

#[test]
fn stripping_leaves_plain_patterns_alone() {
    assert_eq!(strip_backreferences(b"^[AB]{2}$"), b"^[AB]{2}$".to_vec());
    assert_eq!(strip_backreferences(b""), Vec::<u8>::new());
}

#[test]
fn stripping_is_not_escape_aware() {
    // A double backslash followed by a digit still loses its second
    // half: the scan is textual, exactly like the original filter.
    assert_eq!(strip_backreferences(b"a\\\\1b"), b"a\\b".to_vec());
}

#[test]
fn universe_is_sorted_union_of_all_edges() {
    let spec = PuzzleSpec {
        width: 2,
        height: 1,
        top_hints: Some(vec![
            Some(hint(b"B", RegexAst::Literal('B'))),
            Some(hint(b"[CA]", bracket(vec![
                ClassItem::Literal('C'),
                ClassItem::Literal('A'),
            ]))),
        ]),
        bottom_hints: None,
        left_hints: Some(vec![Some(hint(
            b"\\d",
            RegexAst::ClassPerl { kind: PerlClassKind::Digit, negated: false },
        ))]),
        right_hints: None,
    };
    let universe = get_all_allowed_chars(&spec).unwrap();
    assert_eq!(
        universe,
        vec![b'0', b'1', b'2', b'3', b'4', b'5', b'6', b'7', b'8', b'9', b'A', b'B', b'C']
    );
}

#[test]
fn unicode_class_is_rejected() {
    let universe: Vec<u8> = vec![b'A', b'B'];
    let r = get_allowed_chars(&RegexAst::ClassUnicode, &universe);
    assert_eq!(r, Err(PatternError::UnsupportedConstruct));
}

#[test]
fn non_printable_literal_is_rejected() {
    let universe: Vec<u8> = vec![b'A', b'B'];
    let r = get_allowed_chars(&RegexAst::Literal('\u{e9}'), &universe);
    assert_eq!(r, Err(PatternError::NonPrintableLiteral));
    let r = get_allowed_chars(&RegexAst::Literal('\u{7}'), &universe);
    assert_eq!(r, Err(PatternError::NonPrintableLiteral));
}

#[test]
fn dot_falls_back_to_the_whole_universe() {
    let universe: Vec<u8> = vec![b'A', b'B', b'C'];
    let ast = anchored(RegexAst::Concat(vec![RegexAst::Literal('A'), RegexAst::Dot]));
    assert_eq!(get_allowed_chars(&ast, &universe).unwrap(), universe);
}

#[test]
fn negated_class_falls_back_to_the_whole_universe() {
    let universe: Vec<u8> = vec![b'A', b'B', b'C'];
    let ast = RegexAst::ClassPerl { kind: PerlClassKind::Digit, negated: true };
    assert_eq!(get_allowed_chars(&ast, &universe).unwrap(), universe);
}

#[test]
fn positive_constructs_are_narrowed_to_the_universe() {
    let universe: Vec<u8> = vec![b'A', b'B'];
    let ast = bracket(vec![
        ClassItem::Literal('A'),
        ClassItem::Range('X', 'Z'),
    ]);
    assert_eq!(get_allowed_chars(&ast, &universe).unwrap(), vec![b'A']);
}

#[test]
fn perl_word_class_is_narrowed_to_uppercase_letters() {
    let spec = PuzzleSpec {
        width: 1,
        height: 1,
        top_hints: Some(vec![Some(hint(
            b"\\w",
            RegexAst::ClassPerl { kind: PerlClassKind::Word, negated: false },
        ))]),
        bottom_hints: None,
        left_hints: Some(vec![Some(hint(
            b"\\s",
            RegexAst::ClassPerl { kind: PerlClassKind::Space, negated: false },
        ))]),
        right_hints: None,
    };
    let universe = get_all_allowed_chars(&spec).unwrap();
    let mut expected: Vec<u8> = vec![b' '];
    expected.extend(b'A'..=b'Z');
    assert_eq!(universe, expected);
}
