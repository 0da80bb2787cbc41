use infix_calc::calc::{calculate, CalcError};
use infix_calc::eval::EvalError;
use infix_calc::lexer::LexError;
use infix_calc::parser::ParseError;

#[test]
fn precedence() {
    assert_eq!(calculate("2 + 3 * 4"), Ok(14));
    assert_eq!(calculate("2 * 3 + 4"), Ok(10));
    assert_eq!(calculate("10 - 4 / 2"), Ok(8));
}

#[test]
fn left_associativity() {
    assert_eq!(calculate("8 - 3 - 2"), Ok(3));
    assert_eq!(calculate("100 / 10 / 2"), Ok(5));
    assert_eq!(calculate("2 - 3 + 4"), Ok(3));
    assert_eq!(calculate("12 / 4 * 3"), Ok(9));
}

#[test]
fn parentheses_override_precedence() {
    assert_eq!(calculate("(2 + 3) * 4"), Ok(20));
    assert_eq!(calculate("8 - (3 - 2)"), Ok(7));
    assert_eq!(calculate("100 / (10 / 2)"), Ok(20));
    assert_eq!(calculate("((((5))))"), Ok(5));
}

#[test]
fn longer_expression() {
    assert_eq!(calculate("3 + 5 * (10 - 2) / 2 * 2 * 10"), Ok(403));
}

#[test]
fn empty_input_is_no_expression() {
    assert_eq!(calculate(""), Err(CalcError::Parse(ParseError::UnexpectedToken)));
    assert_eq!(calculate("   "), Err(CalcError::Parse(ParseError::UnexpectedToken)));
}

#[test]
fn unrecognized_character() {
    assert_eq!(
        calculate("3 & 4"),
        Err(CalcError::Lex(LexError::UnrecognizedChar { character: '&', position: 2 }))
    );
}

#[test]
fn division_by_zero() {
    assert_eq!(calculate("5 / 0"), Err(CalcError::Eval(EvalError::DivideByZero)));
    assert_eq!(calculate("5 / (3 - 3)"), Err(CalcError::Eval(EvalError::DivideByZero)));
    assert_eq!(calculate("0 / 5"), Ok(0));
}

#[test]
fn unbalanced_parenthesis() {
    assert_eq!(calculate("(1 + 2"), Err(CalcError::Parse(ParseError::UnbalancedParen)));
}

#[test]
fn whitespace_between_tokens_is_ignored() {
    assert_eq!(calculate("1+2"), Ok(3));
    assert_eq!(calculate("1 + 2"), Ok(3));
    assert_eq!(calculate("1  +  2"), Ok(3));
    assert_eq!(calculate("  1+2  "), Ok(3));
}

#[test]
fn whitespace_inside_a_literal_splits_it() {
    assert_eq!(calculate("1 2"), Err(CalcError::Parse(ParseError::TrailingTokens)));
}

#[test]
fn trailing_tokens_are_rejected() {
    assert_eq!(calculate("1 + 2)"), Err(CalcError::Parse(ParseError::TrailingTokens)));
    assert_eq!(calculate("1 + 2 3"), Err(CalcError::Parse(ParseError::TrailingTokens)));
}

#[test]
fn no_unary_minus() {
    assert_eq!(calculate("-5"), Err(CalcError::Parse(ParseError::UnexpectedToken)));
    assert_eq!(calculate("3 * -5"), Err(CalcError::Parse(ParseError::UnexpectedToken)));
    assert_eq!(calculate("0 - 5"), Ok(-5));
}

#[test]
fn truncating_division_of_negative_values() {
    assert_eq!(calculate("(0 - 7) / 2"), Ok(-3));
    assert_eq!(calculate("7 / (0 - 2)"), Ok(-3));
    assert_eq!(calculate("(0 - 7) / (0 - 2)"), Ok(3));
}

#[test]
fn literal_overflow() {
    assert_eq!(calculate("2147483647"), Ok(2147483647));
    assert_eq!(calculate("2147483648"), Err(CalcError::Lex(LexError::Overflow { position: 0 })));
}

#[test]
fn arithmetic_overflow() {
    assert_eq!(calculate("2147483647 + 1"), Err(CalcError::Eval(EvalError::Overflow)));
    assert_eq!(calculate("0 - 2147483647 - 1"), Ok(i32::MIN));
    assert_eq!(calculate("0 - 2147483647 - 2"), Err(CalcError::Eval(EvalError::Overflow)));
    assert_eq!(calculate("65536 * 65536"), Err(CalcError::Eval(EvalError::Overflow)));
    assert_eq!(
        calculate("(0 - 2147483647 - 1) / (0 - 1)"),
        Err(CalcError::Eval(EvalError::Overflow))
    );
}

#[test]
fn earliest_stage_reports() {
    // A lexical error hides the parse error before it and the division after.
    assert_eq!(
        calculate("(1 / 0 $"),
        Err(CalcError::Lex(LexError::UnrecognizedChar { character: '$', position: 7 }))
    );
    // A parse error hides the division by zero.
    assert_eq!(calculate("(1 / 0"), Err(CalcError::Parse(ParseError::UnbalancedParen)));
}
