use infix_calc::ast::AST;
use infix_calc::eval::{evaluate, EvalError};
use infix_calc::token::Token;

fn num(n: i32) -> AST {
    AST::Num(n)
}

fn bin(left: AST, op: Token, right: AST) -> AST {
    AST::BinOp(Box::new(left), op, Box::new(right))
}

#[test]
fn leaf_evaluates_to_its_literal() {
    assert_eq!(evaluate(&num(0)), Ok(0));
    assert_eq!(evaluate(&num(-9)), Ok(-9));
    assert_eq!(evaluate(&num(i32::MAX)), Ok(i32::MAX));
    assert_eq!(evaluate(&num(i32::MIN)), Ok(i32::MIN));
}

#[test]
fn each_operator_computes() {
    assert_eq!(evaluate(&bin(num(7), Token::Plus, num(5))), Ok(12));
    assert_eq!(evaluate(&bin(num(7), Token::Minus, num(5))), Ok(2));
    assert_eq!(evaluate(&bin(num(5), Token::Minus, num(7))), Ok(-2));
    assert_eq!(evaluate(&bin(num(7), Token::Multiply, num(5))), Ok(35));
    assert_eq!(evaluate(&bin(num(7), Token::Divide, num(5))), Ok(1));
}

#[test]
fn division_rounds_towards_zero() {
    assert_eq!(evaluate(&bin(num(7), Token::Divide, num(2))), Ok(3));
    assert_eq!(evaluate(&bin(num(-7), Token::Divide, num(2))), Ok(-3));
    assert_eq!(evaluate(&bin(num(7), Token::Divide, num(-2))), Ok(-3));
    assert_eq!(evaluate(&bin(num(-7), Token::Divide, num(-2))), Ok(3));
    assert_eq!(evaluate(&bin(num(0), Token::Divide, num(-2))), Ok(0));
    assert_eq!(evaluate(&bin(num(-1), Token::Divide, num(2))), Ok(0));
    assert_eq!(evaluate(&bin(num(i32::MIN), Token::Divide, num(2))), Ok(-1073741824));
}

#[test]
fn division_by_zero_is_an_error() {
    assert_eq!(evaluate(&bin(num(5), Token::Divide, num(0))), Err(EvalError::DivideByZero));
    assert_eq!(evaluate(&bin(num(0), Token::Divide, num(0))), Err(EvalError::DivideByZero));
    let zero = bin(num(3), Token::Minus, num(3));
    assert_eq!(evaluate(&bin(num(5), Token::Divide, zero)), Err(EvalError::DivideByZero));
}

#[test]
fn results_out_of_range_are_an_overflow() {
    assert_eq!(evaluate(&bin(num(i32::MAX), Token::Plus, num(1))), Err(EvalError::Overflow));
    assert_eq!(evaluate(&bin(num(i32::MIN), Token::Minus, num(1))), Err(EvalError::Overflow));
    assert_eq!(evaluate(&bin(num(65536), Token::Multiply, num(32768))), Err(EvalError::Overflow));
    assert_eq!(evaluate(&bin(num(i32::MIN), Token::Divide, num(-1))), Err(EvalError::Overflow));
    assert_eq!(evaluate(&bin(num(i32::MIN), Token::Multiply, num(-1))), Err(EvalError::Overflow));
}

#[test]
fn results_at_the_limits_fit() {
    assert_eq!(evaluate(&bin(num(i32::MAX - 1), Token::Plus, num(1))), Ok(i32::MAX));
    assert_eq!(evaluate(&bin(num(i32::MIN + 1), Token::Minus, num(1))), Ok(i32::MIN));
    assert_eq!(evaluate(&bin(num(65536), Token::Multiply, num(-32768))), Ok(i32::MIN));
    assert_eq!(evaluate(&bin(num(i32::MIN), Token::Divide, num(1))), Ok(i32::MIN));
}

#[test]
fn overflow_inside_is_not_repaired_outside() {
    // (MAX + 1) - 1 has a value that fits, but its left operand has not.
    let inner = bin(num(i32::MAX), Token::Plus, num(1));
    assert_eq!(evaluate(&bin(inner, Token::Minus, num(1))), Err(EvalError::Overflow));
}

#[test]
fn left_operand_fails_first() {
    let by_zero = bin(num(1), Token::Divide, num(0));
    let too_large = bin(num(i32::MAX), Token::Plus, num(1));
    assert_eq!(
        evaluate(&bin(
            bin(num(1), Token::Divide, num(0)),
            Token::Plus,
            bin(num(i32::MAX), Token::Plus, num(1)),
        )),
        Err(EvalError::DivideByZero)
    );
    assert_eq!(evaluate(&bin(too_large, Token::Plus, by_zero)), Err(EvalError::Overflow));
}

#[test]
fn nested_tree_evaluates_bottom_up() {
    // 3 + (((5 * (10 - 2)) / 2) * 2) * 10
    let tree = bin(
        num(3),
        Token::Plus,
        bin(
            bin(
                bin(
                    bin(num(5), Token::Multiply, bin(num(10), Token::Minus, num(2))),
                    Token::Divide,
                    num(2),
                ),
                Token::Multiply,
                num(2),
            ),
            Token::Multiply,
            num(10),
        ),
    );
    assert_eq!(evaluate(&tree), Ok(403));
}

#[test]
fn well_formedness_is_decided() {
    assert!(num(1).is_well_formed());
    assert!(bin(num(1), Token::Plus, num(2)).is_well_formed());
    assert!(bin(num(1), Token::Minus, num(2)).is_well_formed());
    assert!(bin(num(1), Token::Multiply, num(2)).is_well_formed());
    assert!(bin(num(1), Token::Divide, num(2)).is_well_formed());
    assert!(!bin(num(1), Token::LeftParen, num(2)).is_well_formed());
    assert!(!bin(num(1), Token::RightParen, num(2)).is_well_formed());
    assert!(!bin(num(1), Token::Number(0), num(2)).is_well_formed());
    let bad = bin(num(1), Token::LeftParen, num(2));
    assert!(!bin(num(1), Token::Plus, bad).is_well_formed());
    let bad = bin(num(1), Token::Number(3), num(2));
    assert!(!bin(bad, Token::Plus, num(1)).is_well_formed());
}
