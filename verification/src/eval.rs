//! Evaluation: a syntax tree to its integer value.

use vstd::prelude::*;
use crate::ast::AST;
use crate::token::Token;

verus! {

/// Why evaluation stopped.
#[derive(Debug, Clone, Copy, PartialEq, Eq, Structural)]
pub enum EvalError {
    /// The right operand of a division is zero.
    DivideByZero,
    /// The result of an operation does not fit in an `i32`.
    Overflow,
}

/// The quotient of `a` by `b`, rounded towards zero.
pub open spec fn trunc_div(a: int, b: int) -> int
    recommends
        b != 0,
{
    if a >= 0 {
        if b > 0 {
            a / b
        } else {
            -(a / (-b))
        }
    } else {
        if b > 0 {
            -((-a) / b)
        } else {
            (-a) / (-b)
        }
    }
}

/// The exact result of `op` on two integers.
pub open spec fn combine(op: Token, a: int, b: int) -> int
    recommends
        op.is_operator(),
        op == Token::Divide ==> b != 0,
{
    match op {
        Token::Plus => a + b,
        Token::Minus => a - b,
        Token::Multiply => a * b,
        Token::Divide => trunc_div(a, b),
        _ => arbitrary(),
    }
}

/// The value of a tree over the unbounded integers.
pub open spec fn value(ast: AST) -> int
    recommends
        ast.well_formed(),
    decreases ast,
{
    match ast {
        AST::Num(n) => n as int,
        AST::BinOp(left, op, right) => combine(op, value(*left), value(*right)),
    }
}

/// No division in the tree has a divisor of value zero, and the value of
/// every subtree fits in an `i32`.
pub open spec fn computable(ast: AST) -> bool
    recommends
        ast.well_formed(),
    decreases ast,
{
    match ast {
        AST::Num(_) => true,
        AST::BinOp(left, op, right) => {
            &&& computable(*left)
            &&& computable(*right)
            &&& op == Token::Divide ==> value(*right) != 0
            &&& i32::MIN <= value(ast) <= i32::MAX
        },
    }
}

/// One operation on two `i32` operands.
pub open spec fn apply(op: Token, a: i32, b: i32) -> Result<i32, EvalError>
    recommends
        op.is_operator(),
{
    if op == Token::Divide && b == 0 {
        Err(EvalError::DivideByZero)
    } else if i32::MIN <= combine(op, a as int, b as int) <= i32::MAX {
        Ok(combine(op, a as int, b as int) as i32)
    } else {
        Err(EvalError::Overflow)
    }
}

/// What evaluating a tree gives. The left operand is evaluated before the
/// right one and the first failure ends the evaluation, so an error in the
/// left subtree hides any in the right.
pub open spec fn eval(ast: AST) -> Result<i32, EvalError>
    recommends
        ast.well_formed(),
    decreases ast,
{
    match ast {
        AST::Num(n) => Ok(n),
        AST::BinOp(left, op, right) => match eval(*left) {
            Err(e) => Err(e),
            Ok(a) => match eval(*right) {
                Err(e) => Err(e),
                Ok(b) => apply(op, a, b),
            },
        },
    }
}

/// Evaluation succeeds exactly on the trees in which every intermediate
/// result exists and fits, and then gives the value that the tree has over
/// the unbounded integers, with division rounded towards zero.
pub proof fn lemma_eval_exact(ast: AST)
    requires
        ast.well_formed(),
    ensures
        eval(ast) is Ok <==> computable(ast),
        eval(ast) matches Ok(v) ==> v == value(ast),
    decreases ast,
{
    match ast {
        AST::Num(_) => {},
        AST::BinOp(left, op, right) => {
            lemma_eval_exact(*left);
            lemma_eval_exact(*right);
        },
    }
}

/// Applies `op` to two operands, with a check for division by zero and for
/// a result out of range.
fn apply_op(op: Token, a: i32, b: i32) -> (result: Result<i32, EvalError>)
    requires
        op.is_operator(),
    ensures
        result == apply(op, a, b),
{
    let outcome = match op {
        Token::Plus => a.checked_add(b),
        Token::Minus => a.checked_sub(b),
        Token::Multiply => a.checked_mul(b),
        Token::Divide => {
            if b == 0 {
                return Err(EvalError::DivideByZero);
            }
            a.checked_div(b)
        },
        _ => unreached(),
    };
    match outcome {
        Some(v) => Ok(v),
        None => Err(EvalError::Overflow),
    }
}

/// Computes the value of a tree whose inner nodes all carry an operator.
pub fn evaluate(ast: &AST) -> (result: Result<i32, EvalError>)
    requires
        ast.well_formed(),
    ensures
        result == eval(*ast),
    decreases ast,
{
    match ast {
        AST::Num(n) => Ok(*n),
        AST::BinOp(left, op, right) => {
            let a = match evaluate(left) {
                Ok(v) => v,
                Err(e) => {
                    return Err(e);
                },
            };
            let b = match evaluate(right) {
                Ok(v) => v,
                Err(e) => {
                    return Err(e);
                },
            };
            apply_op(*op, a, b)
        },
    }
}

} // verus!
