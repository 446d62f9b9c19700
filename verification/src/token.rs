//! The lexical symbols of a propositional formula.

use vstd::prelude::*;

verus! {

/// One lexical symbol: a connective, a parenthesis, a constant, or a
/// single-character variable. Variables are case-sensitive.
#[derive(Clone, Copy, Debug, PartialEq, Eq, Structural)]
pub enum Token {
    And,
    Or,
    Not,
    If,
    Iff,
    ParOpen,
    ParClose,
    True,
    False,
    Var(char),
}

/// A binary connective: one that takes a left and a right operand.
pub open spec fn is_binop(t: Token) -> bool {
    t == Token::And || t == Token::Or || t == Token::If || t == Token::Iff
}

/// Any connective, binary or the prefix `Not`.
pub open spec fn is_oper(t: Token) -> bool {
    is_binop(t) || t == Token::Not
}

/// A token that stands for a value on its own: a constant or a variable.
pub open spec fn is_value(t: Token) -> bool {
    t == Token::True || t == Token::False || t matches Token::Var(_)
}

impl Token {
    /// The canonical display character used when rendering a tree.
    /// These are display symbols: the tokenizer's accepted input symbols
    /// for the connectives differ (`^`, `v`, `=>`, `<=>`).
    pub open spec fn tos_spec(self) -> char {
        match self {
            Token::And => '&',
            Token::Or => '|',
            Token::Not => '!',
            Token::If => '>',
            Token::Iff => '=',
            Token::ParOpen => '(',
            Token::ParClose => ')',
            Token::True => '1',
            Token::False => '0',
            Token::Var(c) => c,
        }
    }

    /// Display character of this token.
    pub fn tos(&self) -> (c: char)
        ensures
            c == self.tos_spec(),
    {
        match self {
            Token::And => '&',
            Token::Or => '|',
            Token::Not => '!',
            Token::If => '>',
            Token::Iff => '=',
            Token::ParOpen => '(',
            Token::ParClose => ')',
            Token::True => '1',
            Token::False => '0',
            Token::Var(c) => *c,
        }
    }
}

/// Characters that may name a variable: ASCII letters.
/// (`v` and `^` are nevertheless reserved by the tokenizer as the Or and
/// And keywords, so those two letters can never reach `Token::Var`.)
pub open spec fn is_var_char(c: char) -> bool {
    ('A' <= c && c <= 'Z') || ('a' <= c && c <= 'z')
}

/// Whether `c` may name a variable.
pub fn is_var(c: char) -> (r: bool)
    ensures
        r == is_var_char(c),
{
    c >= 'A' && c <= 'Z' || c >= 'a' && c <= 'z'
}

} // verus!
