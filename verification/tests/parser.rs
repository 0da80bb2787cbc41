use infix_calc::ast::AST;
use infix_calc::parser::{parse_tokens, ParseError, Parser};
use infix_calc::token::Token;

fn num(n: i32) -> AST {
    AST::Num(n)
}

fn bin(left: AST, op: Token, right: AST) -> AST {
    AST::BinOp(Box::new(left), op, Box::new(right))
}

#[test]
fn no_tokens_is_an_unexpected_token() {
    assert_eq!(parse_tokens(vec![]), Err(ParseError::UnexpectedToken));
    assert_eq!(Parser::new(vec![]).parse(), Err(ParseError::UnexpectedToken));
    assert_eq!(Parser::new(vec![]).expr(), Err(ParseError::UnexpectedToken));
    assert_eq!(Parser::new(vec![]).term(), Err(ParseError::UnexpectedToken));
    assert_eq!(Parser::new(vec![]).factor(), Err(ParseError::UnexpectedToken));
}

#[test]
fn single_literal_is_a_leaf() {
    assert_eq!(parse_tokens(vec![Token::Number(7)]), Ok(num(7)));
}

#[test]
fn multiplication_binds_tighter_than_addition() {
    // 2 + 3 * 4
    let tokens = vec![
        Token::Number(2),
        Token::Plus,
        Token::Number(3),
        Token::Multiply,
        Token::Number(4),
    ];
    assert_eq!(
        parse_tokens(tokens),
        Ok(bin(num(2), Token::Plus, bin(num(3), Token::Multiply, num(4))))
    );
    // 2 * 3 + 4
    let tokens = vec![
        Token::Number(2),
        Token::Multiply,
        Token::Number(3),
        Token::Plus,
        Token::Number(4),
    ];
    assert_eq!(
        parse_tokens(tokens),
        Ok(bin(bin(num(2), Token::Multiply, num(3)), Token::Plus, num(4)))
    );
}

#[test]
fn subtraction_groups_from_the_left() {
    // 8 - 3 - 2
    let tokens = vec![
        Token::Number(8),
        Token::Minus,
        Token::Number(3),
        Token::Minus,
        Token::Number(2),
    ];
    assert_eq!(
        parse_tokens(tokens),
        Ok(bin(bin(num(8), Token::Minus, num(3)), Token::Minus, num(2)))
    );
}

#[test]
fn division_groups_from_the_left() {
    // 100 / 10 / 2
    let tokens = vec![
        Token::Number(100),
        Token::Divide,
        Token::Number(10),
        Token::Divide,
        Token::Number(2),
    ];
    assert_eq!(
        parse_tokens(tokens),
        Ok(bin(bin(num(100), Token::Divide, num(10)), Token::Divide, num(2)))
    );
}

#[test]
fn parentheses_shape_the_tree_and_leave_no_node() {
    // (2 + 3) * 4
    let tokens = vec![
        Token::LeftParen,
        Token::Number(2),
        Token::Plus,
        Token::Number(3),
        Token::RightParen,
        Token::Multiply,
        Token::Number(4),
    ];
    assert_eq!(
        parse_tokens(tokens),
        Ok(bin(bin(num(2), Token::Plus, num(3)), Token::Multiply, num(4)))
    );
    // ((7))
    let tokens = vec![
        Token::LeftParen,
        Token::LeftParen,
        Token::Number(7),
        Token::RightParen,
        Token::RightParen,
    ];
    assert_eq!(parse_tokens(tokens), Ok(num(7)));
}

#[test]
fn parsed_trees_are_well_formed() {
    let tokens = vec![
        Token::LeftParen,
        Token::Number(2),
        Token::Plus,
        Token::Number(3),
        Token::RightParen,
        Token::Divide,
        Token::Number(4),
        Token::Minus,
        Token::Number(1),
    ];
    let ast = parse_tokens(tokens).unwrap();
    assert!(ast.is_well_formed());
}

#[test]
fn missing_operand_is_an_unexpected_token() {
    // 1 +
    assert_eq!(
        parse_tokens(vec![Token::Number(1), Token::Plus]),
        Err(ParseError::UnexpectedToken)
    );
    // 1 + * 2
    assert_eq!(
        parse_tokens(vec![Token::Number(1), Token::Plus, Token::Multiply, Token::Number(2)]),
        Err(ParseError::UnexpectedToken)
    );
    // * 2
    assert_eq!(
        parse_tokens(vec![Token::Multiply, Token::Number(2)]),
        Err(ParseError::UnexpectedToken)
    );
    // - 5
    assert_eq!(
        parse_tokens(vec![Token::Minus, Token::Number(5)]),
        Err(ParseError::UnexpectedToken)
    );
    // )
    assert_eq!(parse_tokens(vec![Token::RightParen]), Err(ParseError::UnexpectedToken));
    // ()
    assert_eq!(
        parse_tokens(vec![Token::LeftParen, Token::RightParen]),
        Err(ParseError::UnexpectedToken)
    );
    // (
    assert_eq!(parse_tokens(vec![Token::LeftParen]), Err(ParseError::UnexpectedToken));
}

#[test]
fn unclosed_parenthesis_is_unbalanced() {
    // (1 + 2
    let tokens = vec![Token::LeftParen, Token::Number(1), Token::Plus, Token::Number(2)];
    assert_eq!(parse_tokens(tokens), Err(ParseError::UnbalancedParen));
    // (1 2)
    let tokens = vec![
        Token::LeftParen,
        Token::Number(1),
        Token::Number(2),
        Token::RightParen,
    ];
    assert_eq!(parse_tokens(tokens), Err(ParseError::UnbalancedParen));
    // ((1)
    let tokens = vec![
        Token::LeftParen,
        Token::LeftParen,
        Token::Number(1),
        Token::RightParen,
    ];
    assert_eq!(parse_tokens(tokens), Err(ParseError::UnbalancedParen));
}

#[test]
fn leftover_tokens_are_trailing() {
    // 1 + 2 )
    let tokens = vec![Token::Number(1), Token::Plus, Token::Number(2), Token::RightParen];
    assert_eq!(parse_tokens(tokens), Err(ParseError::TrailingTokens));
    // 1 2
    assert_eq!(
        parse_tokens(vec![Token::Number(1), Token::Number(2)]),
        Err(ParseError::TrailingTokens)
    );
    // 1 (
    assert_eq!(
        parse_tokens(vec![Token::Number(1), Token::LeftParen]),
        Err(ParseError::TrailingTokens)
    );
}

#[test]
fn parse_leaves_what_follows_the_expression() {
    // 1 + 2 ) 3
    let tokens = vec![
        Token::Number(1),
        Token::Plus,
        Token::Number(2),
        Token::RightParen,
        Token::Number(3),
    ];
    let mut parser = Parser::new(tokens);
    assert_eq!(parser.parse(), Ok(bin(num(1), Token::Plus, num(2))));
    // The cursor rests on `)`, which starts no expression.
    assert_eq!(parser.parse(), Err(ParseError::UnexpectedToken));
}

#[test]
fn each_rule_stops_at_its_own_level() {
    // 2 * 3 + 4
    let tokens = vec![
        Token::Number(2),
        Token::Multiply,
        Token::Number(3),
        Token::Plus,
        Token::Number(4),
    ];
    let mut parser = Parser::new(tokens.clone());
    assert_eq!(parser.factor(), Ok(num(2)));
    assert_eq!(parser.factor(), Err(ParseError::UnexpectedToken));

    let mut parser = Parser::new(tokens.clone());
    assert_eq!(parser.term(), Ok(bin(num(2), Token::Multiply, num(3))));
    assert_eq!(parser.term(), Err(ParseError::UnexpectedToken));

    let mut parser = Parser::new(tokens);
    assert_eq!(
        parser.expr(),
        Ok(bin(bin(num(2), Token::Multiply, num(3)), Token::Plus, num(4)))
    );
    assert_eq!(parser.expr(), Err(ParseError::UnexpectedToken));
}

#[test]
fn right_operand_with_the_same_operator_needs_parentheses() {
    // 8 - (3 - 2)
    let tokens = vec![
        Token::Number(8),
        Token::Minus,
        Token::LeftParen,
        Token::Number(3),
        Token::Minus,
        Token::Number(2),
        Token::RightParen,
    ];
    assert_eq!(
        parse_tokens(tokens),
        Ok(bin(num(8), Token::Minus, bin(num(3), Token::Minus, num(2))))
    );
    // (8 - 3) - 2 is 8 - 3 - 2
    let tokens = vec![
        Token::LeftParen,
        Token::Number(8),
        Token::Minus,
        Token::Number(3),
        Token::RightParen,
        Token::Minus,
        Token::Number(2),
    ];
    assert_eq!(
        parse_tokens(tokens),
        Ok(bin(bin(num(8), Token::Minus, num(3)), Token::Minus, num(2)))
    );
}

#[test]
fn sum_as_an_operand_of_a_product_needs_parentheses() {
    // 2 * (3 + 4)
    let tokens = vec![
        Token::Number(2),
        Token::Multiply,
        Token::LeftParen,
        Token::Number(3),
        Token::Plus,
        Token::Number(4),
        Token::RightParen,
    ];
    assert_eq!(
        parse_tokens(tokens),
        Ok(bin(num(2), Token::Multiply, bin(num(3), Token::Plus, num(4))))
    );
    // (2 * 3) + 4 is 2 * 3 + 4
    let tokens = vec![
        Token::LeftParen,
        Token::Number(2),
        Token::Multiply,
        Token::Number(3),
        Token::RightParen,
        Token::Plus,
        Token::Number(4),
    ];
    assert_eq!(
        parse_tokens(tokens),
        Ok(bin(bin(num(2), Token::Multiply, num(3)), Token::Plus, num(4)))
    );
}
