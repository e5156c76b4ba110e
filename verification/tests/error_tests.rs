use regex_nfa::compile_pattern;
use regex_nfa::lexer::{tokenize_regex, LexError};
use regex_nfa::nfa_builder::build_nfa;
use regex_nfa::parser::{build_ast, ParseError, RegexToken};
use regex_nfa::CompileError;

#[test]
fn tokenize_maps_every_character() {
    let tokens = tokenize_regex("a|b*c+d?(e)").unwrap();
    assert_eq!(
        tokens,
        vec![
            RegexToken::Const('a'),
            RegexToken::Alternation,
            RegexToken::Const('b'),
            RegexToken::Star,
            RegexToken::Const('c'),
            RegexToken::Plus,
            RegexToken::Const('d'),
            RegexToken::Optional,
            RegexToken::OpenBracket,
            RegexToken::Const('e'),
            RegexToken::CloseBracket,
        ]
    );
}

#[test]
fn unsupported_character_is_reported_with_position() {
    assert_eq!(
        tokenize_regex("a#b"),
        Err(LexError::UnsupportedCharacter('#', 1))
    );
    assert_eq!(
        tokenize_regex("#"),
        Err(LexError::UnsupportedCharacter('#', 0))
    );
    assert_eq!(
        compile_pattern("a#b").err(),
        Some(CompileError::Lex(LexError::UnsupportedCharacter('#', 1)))
    );
}

#[test]
fn unbalanced_open_group_is_an_error_not_a_crash() {
    assert_eq!(
        compile_pattern("(a").err(),
        Some(CompileError::Parse(ParseError::UnbalancedGroup(2)))
    );
}

#[test]
fn close_bracket_in_base_position_is_unbalanced() {
    assert_eq!(
        compile_pattern("()").err(),
        Some(CompileError::Parse(ParseError::UnbalancedGroup(1)))
    );
    assert_eq!(
        compile_pattern(")a").err(),
        Some(CompileError::Parse(ParseError::UnbalancedGroup(0)))
    );
}

#[test]
fn dangling_operator_is_unexpected() {
    assert_eq!(
        compile_pattern("*a").err(),
        Some(CompileError::Parse(ParseError::UnexpectedToken(0)))
    );
    assert_eq!(
        compile_pattern("a|*").err(),
        Some(CompileError::Parse(ParseError::UnexpectedToken(2)))
    );
}

#[test]
fn leftover_close_bracket_is_trailing_input() {
    assert_eq!(
        compile_pattern("a)").err(),
        Some(CompileError::Parse(ParseError::TrailingInput(1)))
    );
    assert_eq!(
        compile_pattern("a)b").err(),
        Some(CompileError::Parse(ParseError::TrailingInput(1)))
    );
}

#[test]
fn empty_pattern_is_rejected() {
    assert_eq!(
        compile_pattern("").err(),
        Some(CompileError::Parse(ParseError::EmptyExpression(0)))
    );
    assert_eq!(
        compile_pattern("a|").err(),
        Some(CompileError::Parse(ParseError::EmptyExpression(2)))
    );
    // an open bracket with nothing behind it fails inside the group
    assert_eq!(
        compile_pattern("(").err(),
        Some(CompileError::Parse(ParseError::EmptyExpression(1)))
    );
}

#[test]
fn group_left_open_deeper_in_the_pattern() {
    assert_eq!(
        compile_pattern("(a|b").err(),
        Some(CompileError::Parse(ParseError::UnbalancedGroup(4)))
    );
    assert_eq!(
        compile_pattern("a(b").err(),
        Some(CompileError::Parse(ParseError::UnbalancedGroup(3)))
    );
}

#[test]
fn literal_automaton_has_the_expected_shape() {
    let tokens = tokenize_regex("a").unwrap();
    let ast = build_ast(&tokens).unwrap();
    let aut = build_nfa(&ast);
    assert_eq!(aut.fragment.get_start_state(), 0);
    assert_eq!(aut.states.len(), 2);
    assert_eq!(aut.states[0].get_id(), 0);
    assert_eq!(aut.states[1].get_id(), 1);
    assert_eq!(aut.states[0].get_transitions().as_slice(), &[('a', 1)]);
    assert!(aut.states[0].get_e_transitions().is_empty());
    assert!(!aut.states[0].is_accepting());
    assert!(aut.states[1].is_accepting());
}

#[test]
fn concat_automaton_links_fragments_by_epsilon() {
    let tokens = tokenize_regex("ab").unwrap();
    let ast = build_ast(&tokens).unwrap();
    let aut = build_nfa(&ast);
    assert_eq!(aut.states.len(), 4);
    assert_eq!(aut.fragment.get_start_state(), 0);
    assert_eq!(aut.states[0].get_transitions().as_slice(), &[('a', 1)]);
    assert_eq!(aut.states[1].get_e_transitions().as_slice(), &[2]);
    assert_eq!(aut.states[2].get_transitions().as_slice(), &[('b', 3)]);
    assert!(aut.states[3].is_accepting());
    assert!(!aut.states[0].is_accepting());
}
