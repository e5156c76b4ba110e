//! A small regular-expression engine: a pattern is tokenized, parsed by
//! recursive descent, compiled into a nondeterministic finite automaton by
//! Thompson's construction, and run against inputs by epsilon-closure
//! simulation. Matching is a full-string membership test.

use vstd::prelude::*;

pub mod lexer;
pub mod matcher;
pub mod nfa_builder;
pub mod parser;

use crate::lexer::{sp_tokenize, tokenize_regex, LexError};
use crate::nfa_builder::{build_nfa, sp_nfa, wf_aut, Automaton, GAut};
use crate::parser::{build_ast, sp_parse, ParseError};

verus! {

/// Why a pattern failed to compile: either tokenizing or parsing rejected it.
#[derive(Clone, Copy, Debug, PartialEq, Eq, Structural)]
pub enum CompileError {
    Lex(LexError),
    Parse(ParseError),
}

/// What compiling a pattern yields: the automaton of its parsed tree, or the
/// error of the stage that rejected it.
pub open spec fn sp_compile(s: Seq<char>) -> Result<GAut, CompileError> {
    match sp_tokenize(s) {
        Err(e) => Err(CompileError::Lex(e)),
        Ok(tokens) => match sp_parse(tokens) {
            Err(e) => Err(CompileError::Parse(e)),
            Ok(ast) => Ok(sp_nfa(ast)),
        },
    }
}

/// Tokenizes, parses and builds in one step: the automaton for a pattern,
/// or the lexing or parsing error that rejected it.
pub fn compile_pattern(pattern: &str) -> (r: Result<Automaton, CompileError>)
    ensures
        r matches Ok(aut) ==> sp_compile(pattern@) == Ok::<GAut, CompileError>(aut@) && wf_aut(
            aut@,
        ),
        r matches Err(e) ==> sp_compile(pattern@) == Err::<GAut, CompileError>(e),
{
    let tokens = match tokenize_regex(pattern) {
        Ok(t) => t,
        Err(e) => {
            return Err(CompileError::Lex(e));
        },
    };
    let ast = match build_ast(&tokens) {
        Ok(a) => a,
        Err(e) => {
            return Err(CompileError::Parse(e));
        },
    };
    Ok(build_nfa(&ast))
}

} // verus!
