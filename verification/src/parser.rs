//! Parsing: recursive descent over the token sequence, producing the
//! pattern's tree with the grammar's precedence.
//!
//! Grammar, lowest precedence first:
//! `Expr := Term ('|' Term)*`; `Term := Factor+`; `Factor := Base Quantifier?`;
//! `Base := Literal | '(' Expr ')'`; `Quantifier := '*' | '+' | '?'`.
//! Alternation and concatenation fold left-associatively.

use vstd::prelude::*;

verus! {

/// One lexical unit of a pattern.
#[derive(Clone, Copy, Debug, PartialEq, Eq, Structural)]
pub enum RegexToken {
    Const(char),
    Alternation,
    Star,
    Plus,
    Optional,
    OpenBracket,
    CloseBracket,
}

/// The parsed shape of a pattern. Each node owns its children outright.
#[derive(Debug)]
pub enum RegexAST {
    Const(char),
    Concat(Box<RegexAST>, Box<RegexAST>),
    Alternation(Box<RegexAST>, Box<RegexAST>),
    Group(Box<RegexAST>),
    Modifier(Box<RegexAST>, RegexASTModifier),
}

/// A quantifier attached to a base.
#[derive(Clone, Copy, Debug, PartialEq, Eq, Structural)]
pub enum RegexASTModifier {
    Star,
    Plus,
    Optional,
}

/// A grammar violation, carrying the token position at which it was seen.
#[derive(Clone, Copy, Debug, PartialEq, Eq, Structural)]
pub enum ParseError {
    /// A base production saw an operator token.
    UnexpectedToken(usize),
    /// An open bracket ran out of tokens before its close, or a close
    /// bracket stood where a base production was expected.
    UnbalancedGroup(usize),
    /// Tokens remained after a complete expression.
    TrailingInput(usize),
    /// A base production, or the whole pattern, had no tokens to consume.
    /// In particular the empty pattern is rejected, not read as matching
    /// the empty input.
    EmptyExpression(usize),
}

/// The modifier a quantifier token stands for.
pub open spec fn quantifier_of(t: RegexToken) -> Option<RegexASTModifier> {
    match t {
        RegexToken::Star => Some(RegexASTModifier::Star),
        RegexToken::Plus => Some(RegexASTModifier::Plus),
        RegexToken::Optional => Some(RegexASTModifier::Optional),
        _ => None,
    }
}

/// Whether a token can open a base production.
pub open spec fn is_base_start(t: RegexToken) -> bool {
    t is Const || t is OpenBracket
}

/// The base production: a literal, or a bracketed expression.
pub open spec fn sp_base(tokens: Seq<RegexToken>, pos: int) -> Result<(RegexAST, int), ParseError>
    decreases tokens.len() - pos, 1int,
{
    if !(0 <= pos < tokens.len()) {
        Err(ParseError::EmptyExpression(pos as usize))
    } else {
        match tokens[pos] {
            RegexToken::Const(c) => Ok((RegexAST::Const(c), pos + 1)),
            RegexToken::OpenBracket => match sp_expr(tokens, pos + 1) {
                Err(e) => Err(e),
                Ok((inner, p)) => if 0 <= p < tokens.len() && tokens[p] is CloseBracket {
                    Ok((RegexAST::Group(Box::new(inner)), p + 1))
                } else {
                    Err(ParseError::UnbalancedGroup(p as usize))
                },
            },
            RegexToken::CloseBracket => Err(ParseError::UnbalancedGroup(pos as usize)),
            _ => Err(ParseError::UnexpectedToken(pos as usize)),
        }
    }
}

/// The factor production: a base with at most one quantifier.
pub open spec fn sp_factor(tokens: Seq<RegexToken>, pos: int) -> Result<
    (RegexAST, int),
    ParseError,
>
    decreases tokens.len() - pos, 2int,
{
    match sp_base(tokens, pos) {
        Err(e) => Err(e),
        Ok((b, p)) => if 0 <= p < tokens.len() && quantifier_of(tokens[p]) is Some {
            Ok((RegexAST::Modifier(Box::new(b), quantifier_of(tokens[p]).unwrap()), p + 1))
        } else {
            Ok((b, p))
        },
    }
}

/// Folds further factors onto `left`, left-associatively. The bound on the
/// returned cursor only serves termination: a factor always moves the cursor
/// forward, so the fallback branch never runs.
pub open spec fn sp_term_tail(tokens: Seq<RegexToken>, pos: int, left: RegexAST) -> Result<
    (RegexAST, int),
    ParseError,
>
    decreases tokens.len() - pos, 3int,
{
    if 0 <= pos < tokens.len() && is_base_start(tokens[pos]) {
        match sp_factor(tokens, pos) {
            Err(e) => Err(e),
            Ok((f, p)) => if pos < p <= tokens.len() {
                sp_term_tail(tokens, p, RegexAST::Concat(Box::new(left), Box::new(f)))
            } else {
                Ok((left, pos))
            },
        }
    } else {
        Ok((left, pos))
    }
}

/// The term production: one or more factors, concatenated.
pub open spec fn sp_term(tokens: Seq<RegexToken>, pos: int) -> Result<(RegexAST, int), ParseError>
    decreases tokens.len() - pos, 4int,
{
    match sp_factor(tokens, pos) {
        Err(e) => Err(e),
        Ok((f, p)) => if pos <= p <= tokens.len() {
            sp_term_tail(tokens, p, f)
        } else {
            Ok((f, p))
        },
    }
}

/// Folds further `'|' Term` branches onto `left`, left-associatively. The
/// cursor bound only serves termination, as in `sp_term_tail`.
pub open spec fn sp_expr_tail(tokens: Seq<RegexToken>, pos: int, left: RegexAST) -> Result<
    (RegexAST, int),
    ParseError,
>
    decreases tokens.len() - pos, 5int,
{
    if 0 <= pos < tokens.len() && tokens[pos] is Alternation {
        match sp_term(tokens, pos + 1) {
            Err(e) => Err(e),
            Ok((t, p)) => if pos < p <= tokens.len() {
                sp_expr_tail(tokens, p, RegexAST::Alternation(Box::new(left), Box::new(t)))
            } else {
                Ok((left, pos))
            },
        }
    } else {
        Ok((left, pos))
    }
}

/// The expression production: terms separated by alternation bars.
pub open spec fn sp_expr(tokens: Seq<RegexToken>, pos: int) -> Result<(RegexAST, int), ParseError>
    decreases tokens.len() - pos, 6int,
{
    match sp_term(tokens, pos) {
        Err(e) => Err(e),
        Ok((t, p)) => if pos <= p <= tokens.len() {
            sp_expr_tail(tokens, p, t)
        } else {
            Ok((t, p))
        },
    }
}

/// What parsing a whole token sequence yields: the tree of one full
/// expression, or the error, with `TrailingInput` where tokens remain after
/// a complete expression.
pub open spec fn sp_parse(tokens: Seq<RegexToken>) -> Result<RegexAST, ParseError> {
    match sp_expr(tokens, 0) {
        Err(e) => Err(e),
        Ok((ast, p)) => if p == tokens.len() {
            Ok(ast)
        } else {
            Err(ParseError::TrailingInput(p as usize))
        },
    }
}

/// Whether an executable parsing step returned exactly what the
/// specification-level production says.
pub open spec fn step_eq(
    r: Result<(RegexAST, usize), ParseError>,
    s: Result<(RegexAST, int), ParseError>,
) -> bool {
    match r {
        Ok((ast, p)) => s == Ok::<(RegexAST, int), ParseError>((ast, p as int)),
        Err(e) => s == Err::<(RegexAST, int), ParseError>(e),
    }
}

fn parse_base(tokens: &Vec<RegexToken>, pos: usize) -> (r: Result<(RegexAST, usize), ParseError>)
    requires
        pos <= tokens@.len(),
    ensures
        step_eq(r, sp_base(tokens@, pos as int)),
        r matches Ok(t) ==> pos < t.1 <= tokens@.len(),
    decreases tokens@.len() - pos, 1int,
{
    if pos >= tokens.len() {
        return Err(ParseError::EmptyExpression(pos));
    }
    match tokens[pos] {
        RegexToken::Const(c) => Ok((RegexAST::Const(c), pos + 1)),
        RegexToken::OpenBracket => match parse_expr(tokens, pos + 1) {
            Err(e) => Err(e),
            Ok((inner, p)) => {
                if p < tokens.len() && tokens[p] == RegexToken::CloseBracket {
                    Ok((RegexAST::Group(Box::new(inner)), p + 1))
                } else {
                    Err(ParseError::UnbalancedGroup(p))
                }
            },
        },
        RegexToken::CloseBracket => Err(ParseError::UnbalancedGroup(pos)),
        _ => Err(ParseError::UnexpectedToken(pos)),
    }
}

fn parse_factor(tokens: &Vec<RegexToken>, pos: usize) -> (r: Result<(RegexAST, usize), ParseError>)
    requires
        pos <= tokens@.len(),
    ensures
        step_eq(r, sp_factor(tokens@, pos as int)),
        r matches Ok(t) ==> pos < t.1 <= tokens@.len(),
    decreases tokens@.len() - pos, 2int,
{
    match parse_base(tokens, pos) {
        Err(e) => Err(e),
        Ok((b, p)) => {
            if p < tokens.len() {
                match tokens[p] {
                    RegexToken::Star => Ok(
                        (RegexAST::Modifier(Box::new(b), RegexASTModifier::Star), p + 1),
                    ),
                    RegexToken::Plus => Ok(
                        (RegexAST::Modifier(Box::new(b), RegexASTModifier::Plus), p + 1),
                    ),
                    RegexToken::Optional => Ok(
                        (RegexAST::Modifier(Box::new(b), RegexASTModifier::Optional), p + 1),
                    ),
                    _ => Ok((b, p)),
                }
            } else {
                Ok((b, p))
            }
        },
    }
}

fn parse_term_tail(tokens: &Vec<RegexToken>, pos: usize, left: RegexAST) -> (r: Result<
    (RegexAST, usize),
    ParseError,
>)
    requires
        pos <= tokens@.len(),
    ensures
        step_eq(r, sp_term_tail(tokens@, pos as int, left)),
        r matches Ok(t) ==> pos <= t.1 <= tokens@.len(),
    decreases tokens@.len() - pos, 3int,
{
    if pos < tokens.len() && (matches!(tokens[pos], RegexToken::Const(_)) || matches!(
        tokens[pos],
        RegexToken::OpenBracket,
    )) {
        match parse_factor(tokens, pos) {
            Err(e) => Err(e),
            Ok((f, p)) => parse_term_tail(
                tokens,
                p,
                RegexAST::Concat(Box::new(left), Box::new(f)),
            ),
        }
    } else {
        Ok((left, pos))
    }
}

fn parse_term(tokens: &Vec<RegexToken>, pos: usize) -> (r: Result<(RegexAST, usize), ParseError>)
    requires
        pos <= tokens@.len(),
    ensures
        step_eq(r, sp_term(tokens@, pos as int)),
        r matches Ok(t) ==> pos < t.1 <= tokens@.len(),
    decreases tokens@.len() - pos, 4int,
{
    match parse_factor(tokens, pos) {
        Err(e) => Err(e),
        Ok((f, p)) => parse_term_tail(tokens, p, f),
    }
}

fn parse_expr_tail(tokens: &Vec<RegexToken>, pos: usize, left: RegexAST) -> (r: Result<
    (RegexAST, usize),
    ParseError,
>)
    requires
        pos <= tokens@.len(),
    ensures
        step_eq(r, sp_expr_tail(tokens@, pos as int, left)),
        r matches Ok(t) ==> pos <= t.1 <= tokens@.len(),
    decreases tokens@.len() - pos, 5int,
{
    if pos < tokens.len() && matches!(tokens[pos], RegexToken::Alternation) {
        match parse_term(tokens, pos + 1) {
            Err(e) => Err(e),
            Ok((t, p)) => parse_expr_tail(
                tokens,
                p,
                RegexAST::Alternation(Box::new(left), Box::new(t)),
            ),
        }
    } else {
        Ok((left, pos))
    }
}

fn parse_expr(tokens: &Vec<RegexToken>, pos: usize) -> (r: Result<(RegexAST, usize), ParseError>)
    requires
        pos <= tokens@.len(),
    ensures
        step_eq(r, sp_expr(tokens@, pos as int)),
        r matches Ok(t) ==> pos < t.1 <= tokens@.len(),
    decreases tokens@.len() - pos, 6int,
{
    match parse_term(tokens, pos) {
        Err(e) => Err(e),
        Ok((t, p)) => parse_expr_tail(tokens, p, t),
    }
}

/// Parses the whole token sequence into the pattern's tree; fails where the
/// tokens break the grammar, with the offending position.
pub fn build_ast(tokens: &Vec<RegexToken>) -> (r: Result<RegexAST, ParseError>)
    ensures
        r == sp_parse(tokens@),
{
    match parse_expr(tokens, 0) {
        Err(e) => Err(e),
        Ok((ast, p)) => {
            if p == tokens.len() {
                Ok(ast)
            } else {
                Err(ParseError::TrailingInput(p))
            }
        },
    }
}

} // verus!
