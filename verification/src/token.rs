//! Lexical units of an arithmetic expression.

use vstd::prelude::*;

verus! {

/// One lexical unit: an integer literal, an operator or a parenthesis.
#[derive(Debug, Clone, Copy, PartialEq, Eq, Structural)]
pub enum Token {
    Number(i32),
    Plus,
    Minus,
    Multiply,
    Divide,
    LeftParen,
    RightParen,
}

impl Token {
    /// `+` and `-`: the operators folded at the lowest precedence level.
    pub open spec fn is_additive(self) -> bool {
        self == Token::Plus || self == Token::Minus
    }

    /// `*` and `/`: the operators folded at the higher precedence level.
    pub open spec fn is_multiplicative(self) -> bool {
        self == Token::Multiply || self == Token::Divide
    }

    /// The four tokens that may label an inner node of a syntax tree.
    pub open spec fn is_operator(self) -> bool {
        self.is_additive() || self.is_multiplicative()
    }
}

/// No literal among the tokens is negative.
pub open spec fn unsigned(tokens: Seq<Token>) -> bool {
    forall|k: int|
        0 <= k < tokens.len() ==> (#[trigger] tokens[k] matches Token::Number(n) ==> n >= 0)
}

} // verus!
