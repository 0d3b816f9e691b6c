//! Lexical tokens of the textual regular-expression grammar.
//!
//! The grammar's terminals are ordinary characters, `|`, `*`, parentheses,
//! and end of input.  Parsing token streams into syntax trees happens
//! upstream; the library only classifies the characters.

use vstd::prelude::*;

verus! {

/// One terminal of the regular-expression grammar.
#[derive(Clone, Copy, Debug, PartialEq, Eq, Structural)]
pub enum Token {
    /// An ordinary symbol.
    Character(char),
    /// The `|` operator.
    Alternation,
    /// The `*` operator.
    KleeneStar,
    /// `(`.
    LeftParen,
    /// `)`.
    RightParen,
    /// The end of the pattern.
    EndOfInput,
}

/// The token a single character stands for.
pub open spec fn spec_token_of(c: char) -> Token {
    if c == '|' {
        Token::Alternation
    } else if c == '*' {
        Token::KleeneStar
    } else if c == '(' {
        Token::LeftParen
    } else if c == ')' {
        Token::RightParen
    } else {
        Token::Character(c)
    }
}

/// Classifies every character of a pattern and appends the end-of-input
/// marker.
#[verifier::loop_isolation(false)]
pub fn tokenize(pattern: &Vec<char>) -> (r: Vec<Token>)
    ensures
        r@.len() == pattern@.len() + 1,
        forall|i: int| 0 <= i < pattern@.len() ==> #[trigger] r@[i] == spec_token_of(pattern@[i]),
        r@.last() == Token::EndOfInput,
{
    let n = pattern.len();
    let mut r: Vec<Token> = Vec::new();
    let mut i: usize = 0;
    while i < n
        invariant
            i <= n,
            r@.len() == i,
            forall|k: int| 0 <= k < i ==> #[trigger] r@[k] == spec_token_of(pattern@[k]),
        decreases n - i,
    {
        let c = pattern[i];
        let token = if c == '|' {
            Token::Alternation
        } else if c == '*' {
            Token::KleeneStar
        } else if c == '(' {
            Token::LeftParen
        } else if c == ')' {
            Token::RightParen
        } else {
            Token::Character(c)
        };
        proof {
            assert(token == spec_token_of(pattern@[i as int]));
        }
        r.push(token);
        i = i + 1;
    }
    r.push(Token::EndOfInput);
    r
}

} // verus!
