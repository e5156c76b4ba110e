use regex_nfa::compile_pattern;
use regex_nfa::matcher::match_regex;
use regex_nfa::nfa_builder::Automaton;

fn compiled(pattern: &str) -> Automaton {
    match compile_pattern(pattern) {
        Ok(aut) => aut,
        Err(e) => panic!("pattern {:?} rejected: {:?}", pattern, e),
    }
}

fn accepts(pattern: &str, input: &str) -> bool {
    match_regex(&compiled(pattern), input)
}

#[test]
fn literal_matches_only_itself() {
    assert!(accepts("a", "a"));
    assert!(!accepts("a", ""));
    assert!(!accepts("a", "aa"));
    assert!(!accepts("a", "b"));
}

#[test]
fn concatenation_matches_exactly() {
    assert!(accepts("ab", "ab"));
    assert!(!accepts("ab", ""));
    assert!(!accepts("ab", "a"));
    assert!(!accepts("ab", "b"));
    assert!(!accepts("ab", "ba"));
    assert!(!accepts("ab", "abc"));
}

#[test]
fn alternation_matches_either_branch() {
    assert!(accepts("a|b", "a"));
    assert!(accepts("a|b", "b"));
    assert!(!accepts("a|b", ""));
    assert!(!accepts("a|b", "ab"));
}

#[test]
fn alternation_folds_left() {
    assert!(accepts("a|b|c", "a"));
    assert!(accepts("a|b|c", "b"));
    assert!(accepts("a|b|c", "c"));
    assert!(!accepts("a|b|c", "d"));
    assert!(!accepts("a|b|c", "ab"));
}

#[test]
fn star_matches_zero_or_more() {
    assert!(accepts("a*", ""));
    assert!(accepts("a*", "a"));
    assert!(accepts("a*", "aaaa"));
    assert!(!accepts("a*", "b"));
    assert!(!accepts("a*", "ab"));
}

#[test]
fn plus_matches_one_or_more() {
    assert!(accepts("a+", "a"));
    assert!(accepts("a+", "aaaa"));
    assert!(!accepts("a+", ""));
    assert!(!accepts("a+", "b"));
}

#[test]
fn optional_matches_at_most_one() {
    assert!(accepts("a?", ""));
    assert!(accepts("a?", "a"));
    assert!(!accepts("a?", "aa"));
}

#[test]
fn grouping_changes_precedence() {
    assert!(accepts("(ab)*", ""));
    assert!(accepts("(ab)*", "ab"));
    assert!(accepts("(ab)*", "abab"));
    assert!(!accepts("(ab)*", "a"));
    assert!(accepts("ab*", "a"));
    assert!(accepts("ab*", "abbb"));
    assert!(!accepts("ab*", "abab"));
}

#[test]
fn reference_pattern_end_to_end() {
    let aut = compiled("(a|b)*c?d+");
    assert!(match_regex(&aut, "aacd"));
    assert!(match_regex(&aut, "bddd"));
    assert!(match_regex(&aut, "d"));
    assert!(!match_regex(&aut, "abb"));
    assert!(!match_regex(&aut, "ab"));
    assert!(!match_regex(&aut, "ac"));
}

#[test]
fn repeated_matching_is_deterministic() {
    let aut = compiled("(a|b)*c?d+");
    let first = match_regex(&aut, "aacd");
    let second = match_regex(&aut, "aacd");
    let third = match_regex(&aut, "aacd");
    assert_eq!(first, second);
    assert_eq!(second, third);
    assert!(first);
}

#[test]
fn nested_quantifiers_terminate() {
    // stars and pluses wire epsilon cycles into the graph; the closure walk
    // must still come back with an answer
    assert!(accepts("(a*)*", ""));
    assert!(accepts("(a*)*", "aaa"));
    assert!(!accepts("(a*)*", "b"));
    assert!(accepts("((a*)+)*", "aaaa"));
    assert!(accepts("((a|b)*c+)*", "abcac"));
    assert!(!accepts("((a|b)*c+)*", "ab"));
}

#[test]
fn digits_and_unicode_letters_are_literals() {
    assert!(accepts("0|1", "0"));
    assert!(accepts("0|1", "1"));
    assert!(!accepts("0|1", "01"));
    assert!(accepts("é*", "ééé"));
    assert!(!accepts("é*", "e"));
}
