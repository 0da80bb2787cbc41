//! The syntax tree of an arithmetic expression.

use vstd::prelude::*;
use crate::token::Token;

verus! {

/// An expression as a binary tree: literals at the leaves, operators at the
/// inner nodes. Parentheses leave no trace but the shape of the tree.
#[derive(Debug, PartialEq, Eq)]
pub enum AST {
    Num(i32),
    BinOp(Box<AST>, Token, Box<AST>),
}

impl AST {
    /// Every inner node is labelled with one of `+ - * /`.
    pub open spec fn well_formed(self) -> bool
        decreases self,
    {
        match self {
            AST::Num(_) => true,
            AST::BinOp(left, op, right) => {
                &&& op.is_operator()
                &&& left.well_formed()
                &&& right.well_formed()
            },
        }
    }

    /// No literal in the tree is negative. The parser builds such trees
    /// only, since a literal is written without a sign.
    pub open spec fn has_unsigned_literals(self) -> bool
        decreases self,
    {
        match self {
            AST::Num(n) => n >= 0,
            AST::BinOp(left, _, right) => {
                &&& left.has_unsigned_literals()
                &&& right.has_unsigned_literals()
            },
        }
    }

    /// Tells whether every inner node is labelled with an operator.
    pub fn is_well_formed(&self) -> (b: bool)
        ensures
            b == self.well_formed(),
        decreases self,
    {
        match self {
            AST::Num(_) => true,
            AST::BinOp(left, op, right) => {
                let labelled = match op {
                    Token::Plus | Token::Minus | Token::Multiply | Token::Divide => true,
                    _ => false,
                };
                labelled && left.is_well_formed() && right.is_well_formed()
            },
        }
    }
}

} // verus!
