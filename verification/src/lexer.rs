//! Tokenizing: one token per pattern character.

use vstd::prelude::*;

use crate::parser::RegexToken;

verus! {

/// A failure of tokenizing: the pattern held a character that is neither an
/// operator nor alphanumeric. Carries the character and its position.
#[derive(Clone, Copy, Debug, PartialEq, Eq, Structural)]
pub enum LexError {
    UnsupportedCharacter(char, usize),
}

/// Whether a character may stand as a literal in a pattern: exactly the
/// characters that `char::is_alphanumeric` accepts, a property of the
/// character alone.
pub uninterp spec fn is_word_char(c: char) -> bool;

/// Relies on `char::is_alphanumeric`: whether the character is a Unicode
/// letter or digit, a function of the character alone.
pub assume_specification[ char::is_alphanumeric ](c: char) -> (r: bool)
    ensures
        r == is_word_char(c),
;

/// The token one pattern character stands for, or `None` where the character
/// is outside the pattern alphabet.
pub open spec fn token_of(c: char) -> Option<RegexToken> {
    if c == '|' {
        Some(RegexToken::Alternation)
    } else if c == '*' {
        Some(RegexToken::Star)
    } else if c == '+' {
        Some(RegexToken::Plus)
    } else if c == '?' {
        Some(RegexToken::Optional)
    } else if c == '(' {
        Some(RegexToken::OpenBracket)
    } else if c == ')' {
        Some(RegexToken::CloseBracket)
    } else if is_word_char(c) {
        Some(RegexToken::Const(c))
    } else {
        None
    }
}

/// Whether every character of the pattern stands for a token.
pub open spec fn all_supported(s: Seq<char>) -> bool {
    forall|i: int| 0 <= i < s.len() ==> (#[trigger] token_of(s[i])) is Some
}

/// The position of the first unsupported character at or after `i`.
pub open spec fn first_unsupported(s: Seq<char>, i: int) -> int
    decreases s.len() - i,
{
    if i < 0 || i >= s.len() {
        i
    } else if token_of(s[i]) is None {
        i
    } else {
        first_unsupported(s, i + 1)
    }
}

/// What tokenizing a pattern yields: one token per character when every
/// character is supported, else the first unsupported character with its
/// position.
pub open spec fn sp_tokenize(s: Seq<char>) -> Result<Seq<RegexToken>, LexError> {
    if all_supported(s) {
        Ok(Seq::new(s.len(), |i: int| token_of(s[i]).unwrap()))
    } else {
        let p = first_unsupported(s, 0);
        Err(LexError::UnsupportedCharacter(s[p], p as usize))
    }
}

proof fn lemma_first_unsupported_at(s: Seq<char>, k: int, i: int)
    requires
        0 <= k <= i < s.len(),
        forall|j: int| 0 <= j < i ==> (#[trigger] token_of(s[j])) is Some,
        token_of(s[i]) is None,
    ensures
        first_unsupported(s, k) == i,
    decreases i - k,
{
    if k < i {
        lemma_first_unsupported_at(s, k + 1, i);
    }
}

/// Turns a pattern into its token sequence, one token per character; fails on
/// the first character that is neither an operator nor alphanumeric.
pub fn tokenize_regex(regex: &str) -> (r: Result<Vec<RegexToken>, LexError>)
    ensures
        r matches Ok(tokens) ==> sp_tokenize(regex@) == Ok::<Seq<RegexToken>, LexError>(tokens@),
        r matches Err(e) ==> sp_tokenize(regex@) == Err::<Seq<RegexToken>, LexError>(e),
        r is Ok <==> all_supported(regex@),
{
    let n = regex.unicode_len();
    let mut result: Vec<RegexToken> = Vec::new();
    let mut i: usize = 0;
    while i < n
        invariant
            n == regex@.len(),
            i <= n,
            result@.len() == i,
            forall|j: int| 0 <= j < i ==> token_of(regex@[j]) == Some(#[trigger] result@[j]),
        decreases n - i,
    {
        let c = regex.get_char(i);
        let token: RegexToken = if c == '|' {
            RegexToken::Alternation
        } else if c == '*' {
            RegexToken::Star
        } else if c == '+' {
            RegexToken::Plus
        } else if c == '?' {
            RegexToken::Optional
        } else if c == '(' {
            RegexToken::OpenBracket
        } else if c == ')' {
            RegexToken::CloseBracket
        } else if c.is_alphanumeric() {
            RegexToken::Const(c)
        } else {
            proof {
                assert forall|j: int| 0 <= j < i implies (#[trigger] token_of(regex@[j]))
                    is Some by {
                    assert(token_of(regex@[j]) == Some(result@[j]));
                }
                lemma_first_unsupported_at(regex@, 0, i as int);
            }
            return Err(LexError::UnsupportedCharacter(c, i));
        };
        result.push(token);
        i += 1;
    }
    proof {
        assert forall|j: int| 0 <= j < regex@.len() implies (#[trigger] token_of(regex@[j]))
            is Some by {
            assert(token_of(regex@[j]) == Some(result@[j]));
        }
        assert(Seq::new(regex@.len(), |j: int| token_of(regex@[j]).unwrap()) =~= result@);
    }
    Ok(result)
}

} // verus!
