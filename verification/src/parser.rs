//! Recursive-descent parsing: tokens to a syntax tree.
//!
//! The grammar has three levels, one per precedence:
//!
//! ```text
//! expr   := term (('+' | '-') term)*
//! term   := factor (('*' | '/') factor)*
//! factor := NUMBER | '(' expr ')'
//! ```
//!
//! [`expr_at`], [`term_at`] and [`factor_at`] say what each level reads from a
//! given position of a token sequence, and where it stops.

use vstd::prelude::*;
use crate::ast::AST;
use crate::token::{unsigned, Token};

verus! {

/// Why parsing stopped.
#[derive(Debug, Clone, Copy, PartialEq, Eq, Structural)]
pub enum ParseError {
    /// An operand was expected where another token, or the end of the
    /// input, was found.
    UnexpectedToken,
    /// The expression after a `(` is not followed by `)`.
    UnbalancedParen,
    /// A complete expression is followed by further tokens.
    TrailingTokens,
}

/// The abstract state of a [`Parser`]: all the tokens and the index of the
/// next one to read.
pub struct ParserView {
    pub tokens: Seq<Token>,
    pub pos: int,
}

/// What one grammar rule read: the tree or the error, and where the cursor
/// rests afterwards. After an error it rests on the offending token.
pub struct Parsed {
    pub result: Result<AST, ParseError>,
    pub end: int,
}

/// `factor := NUMBER | '(' expr ')'`
pub open spec fn factor_at(ts: Seq<Token>, pos: int) -> Parsed
    decreases ts.len() - pos, 0int,
{
    if !(0 <= pos < ts.len()) {
        Parsed { result: Err(ParseError::UnexpectedToken), end: pos }
    } else {
        match ts[pos] {
            Token::Number(n) => Parsed { result: Ok(AST::Num(n)), end: pos + 1 },
            Token::LeftParen => {
                let inner = expr_at(ts, pos + 1);
                if inner.result is Err {
                    inner
                } else if 0 <= inner.end < ts.len() && ts[inner.end] == Token::RightParen {
                    Parsed { result: inner.result, end: inner.end + 1 }
                } else {
                    Parsed { result: Err(ParseError::UnbalancedParen), end: inner.end }
                }
            },
            _ => Parsed { result: Err(ParseError::UnexpectedToken), end: pos },
        }
    }
}

/// The rest of a term whose operands so far make up `left`: as long as a
/// `*` or `/` follows, the next factor is folded in from the left.
///
/// The test that the factor moved the cursor forward never fails (see
/// [`lemma_rules_advance`] and [`lemma_rules_unfold`]); it makes the
/// recursion visibly well-founded.
pub open spec fn term_tail(ts: Seq<Token>, left: AST, pos: int) -> Parsed
    decreases ts.len() - pos, 1int,
{
    if 0 <= pos < ts.len() && ts[pos].is_multiplicative() {
        let right = factor_at(ts, pos + 1);
        match right.result {
            Ok(node) if pos < right.end <= ts.len() => term_tail(
                ts,
                AST::BinOp(Box::new(left), ts[pos], Box::new(node)),
                right.end,
            ),
            _ => right,
        }
    } else {
        Parsed { result: Ok(left), end: pos }
    }
}

/// `term := factor (('*' | '/') factor)*`
pub open spec fn term_at(ts: Seq<Token>, pos: int) -> Parsed
    decreases ts.len() - pos, 2int,
{
    let first = factor_at(ts, pos);
    match first.result {
        Ok(node) if pos < first.end <= ts.len() => term_tail(ts, node, first.end),
        _ => first,
    }
}

/// The rest of an expression whose operands so far make up `left`: as long
/// as a `+` or `-` follows, the next term is folded in from the left.
pub open spec fn expr_tail(ts: Seq<Token>, left: AST, pos: int) -> Parsed
    decreases ts.len() - pos, 3int,
{
    if 0 <= pos < ts.len() && ts[pos].is_additive() {
        let right = term_at(ts, pos + 1);
        match right.result {
            Ok(node) if pos < right.end <= ts.len() => expr_tail(
                ts,
                AST::BinOp(Box::new(left), ts[pos], Box::new(node)),
                right.end,
            ),
            _ => right,
        }
    } else {
        Parsed { result: Ok(left), end: pos }
    }
}

/// `expr := term (('+' | '-') term)*`
pub open spec fn expr_at(ts: Seq<Token>, pos: int) -> Parsed
    decreases ts.len() - pos, 4int,
{
    let first = term_at(ts, pos);
    match first.result {
        Ok(node) if pos < first.end <= ts.len() => expr_tail(ts, node, first.end),
        _ => first,
    }
}

/// An operand that was read, joined to `left` by `op`; an error stays as it
/// is.
pub open spec fn folded(left: AST, op: Token, operand: Parsed) -> Parsed {
    match operand.result {
        Ok(node) => Parsed {
            result: Ok(AST::BinOp(Box::new(left), op, Box::new(node))),
            end: operand.end,
        },
        Err(_) => operand,
    }
}

/// The tail of a sum (`additive`) or of a product, from where `first` ended
/// and with its tree; an error stays as it is.
pub open spec fn then_tail(ts: Seq<Token>, first: Parsed, additive: bool) -> Parsed {
    match first.result {
        Ok(node) => if additive {
            expr_tail(ts, node, first.end)
        } else {
            term_tail(ts, node, first.end)
        },
        Err(_) => first,
    }
}

/// What parsing a whole token sequence gives: the tree of its expression,
/// provided that the expression takes up every token.
pub open spec fn parse_complete(ts: Seq<Token>) -> Result<AST, ParseError> {
    let whole = expr_at(ts, 0);
    if whole.result is Ok && whole.end != ts.len() {
        Err(ParseError::TrailingTokens)
    } else {
        whole.result
    }
}

/// No rule moves the cursor back or past the end, and a rule that yields a
/// tree has read at least one token. A tail that yields a tree may have read
/// nothing.
pub proof fn lemma_rules_advance(ts: Seq<Token>, pos: int)
    requires
        0 <= pos <= ts.len(),
    ensures
        pos <= factor_at(ts, pos).end <= ts.len(),
        factor_at(ts, pos).result is Ok ==> pos < factor_at(ts, pos).end,
        pos <= term_at(ts, pos).end <= ts.len(),
        term_at(ts, pos).result is Ok ==> pos < term_at(ts, pos).end,
        pos <= expr_at(ts, pos).end <= ts.len(),
        expr_at(ts, pos).result is Ok ==> pos < expr_at(ts, pos).end,
        forall|left: AST| pos <= (#[trigger] term_tail(ts, left, pos)).end <= ts.len(),
        forall|left: AST| pos <= (#[trigger] expr_tail(ts, left, pos)).end <= ts.len(),
{
    lemma_factor_advances(ts, pos);
    lemma_term_advances(ts, pos);
    lemma_expr_advances(ts, pos);
    assert forall|left: AST| pos <= (#[trigger] term_tail(ts, left, pos)).end <= ts.len() by {
        lemma_term_tail_advances(ts, left, pos);
    }
    assert forall|left: AST| pos <= (#[trigger] expr_tail(ts, left, pos)).end <= ts.len() by {
        lemma_expr_tail_advances(ts, left, pos);
    }
}

/// The folding rules without their test of progress: a rule goes on from
/// where its first operand ends, and a tail that finds its operator reads
/// the next operand and goes on from where that ends. An operand that cannot
/// be read ends the rule with its error.
pub proof fn lemma_rules_unfold(ts: Seq<Token>, left: AST, pos: int)
    requires
        0 <= pos <= ts.len(),
    ensures
        term_at(ts, pos) == then_tail(ts, factor_at(ts, pos), false),
        expr_at(ts, pos) == then_tail(ts, term_at(ts, pos), true),
        pos < ts.len() && ts[pos].is_multiplicative() ==> term_tail(ts, left, pos) == then_tail(
            ts,
            folded(left, ts[pos], factor_at(ts, pos + 1)),
            false,
        ),
        pos < ts.len() && ts[pos].is_additive() ==> expr_tail(ts, left, pos) == then_tail(
            ts,
            folded(left, ts[pos], term_at(ts, pos + 1)),
            true,
        ),
{
    lemma_rules_advance(ts, pos);
    if pos < ts.len() {
        lemma_rules_advance(ts, pos + 1);
    }
}

proof fn lemma_factor_advances(ts: Seq<Token>, pos: int)
    requires
        0 <= pos <= ts.len(),
    ensures
        pos <= factor_at(ts, pos).end <= ts.len(),
        factor_at(ts, pos).result is Ok ==> pos < factor_at(ts, pos).end,
    decreases ts.len() - pos, 0int,
{
    if pos < ts.len() && ts[pos] == Token::LeftParen {
        lemma_expr_advances(ts, pos + 1);
    }
}

proof fn lemma_term_tail_advances(ts: Seq<Token>, left: AST, pos: int)
    requires
        0 <= pos <= ts.len(),
    ensures
        pos <= term_tail(ts, left, pos).end <= ts.len(),
    decreases ts.len() - pos, 1int,
{
    if pos < ts.len() && ts[pos].is_multiplicative() {
        lemma_factor_advances(ts, pos + 1);
        let right = factor_at(ts, pos + 1);
        if let Ok(node) = right.result {
            lemma_term_tail_advances(
                ts,
                AST::BinOp(Box::new(left), ts[pos], Box::new(node)),
                right.end,
            );
        }
    }
}

proof fn lemma_term_advances(ts: Seq<Token>, pos: int)
    requires
        0 <= pos <= ts.len(),
    ensures
        pos <= term_at(ts, pos).end <= ts.len(),
        term_at(ts, pos).result is Ok ==> pos < term_at(ts, pos).end,
    decreases ts.len() - pos, 2int,
{
    lemma_factor_advances(ts, pos);
    let first = factor_at(ts, pos);
    if let Ok(node) = first.result {
        lemma_term_tail_advances(ts, node, first.end);
    }
}

proof fn lemma_expr_tail_advances(ts: Seq<Token>, left: AST, pos: int)
    requires
        0 <= pos <= ts.len(),
    ensures
        pos <= expr_tail(ts, left, pos).end <= ts.len(),
    decreases ts.len() - pos, 3int,
{
    if pos < ts.len() && ts[pos].is_additive() {
        lemma_term_advances(ts, pos + 1);
        let right = term_at(ts, pos + 1);
        if let Ok(node) = right.result {
            lemma_expr_tail_advances(
                ts,
                AST::BinOp(Box::new(left), ts[pos], Box::new(node)),
                right.end,
            );
        }
    }
}

proof fn lemma_expr_advances(ts: Seq<Token>, pos: int)
    requires
        0 <= pos <= ts.len(),
    ensures
        pos <= expr_at(ts, pos).end <= ts.len(),
        expr_at(ts, pos).result is Ok ==> pos < expr_at(ts, pos).end,
    decreases ts.len() - pos, 4int,
{
    lemma_term_advances(ts, pos);
    let first = term_at(ts, pos);
    if let Ok(node) = first.result {
        lemma_expr_tail_advances(ts, node, first.end);
    }
}

/// What holds of a tree that a rule yields: its inner nodes carry operators,
/// and it has no negative literal unless the tokens have one.
pub open spec fn shaped(ts: Seq<Token>, parsed: Parsed) -> bool {
    parsed.result matches Ok(ast) ==> {
        &&& ast.well_formed()
        &&& unsigned(ts) ==> ast.has_unsigned_literals()
    }
}

/// Every tree that a rule yields carries operators, and nothing else, at its
/// inner nodes, and its literals are literals of the tokens.
pub proof fn lemma_parsed_shape(ts: Seq<Token>, pos: int)
    requires
        0 <= pos <= ts.len(),
    ensures
        shaped(ts, factor_at(ts, pos)),
        shaped(ts, term_at(ts, pos)),
        shaped(ts, expr_at(ts, pos)),
{
    lemma_factor_shape(ts, pos);
    lemma_term_shape(ts, pos);
    lemma_expr_shape(ts, pos);
}

proof fn lemma_factor_shape(ts: Seq<Token>, pos: int)
    requires
        0 <= pos <= ts.len(),
    ensures
        shaped(ts, factor_at(ts, pos)),
    decreases ts.len() - pos, 0int,
{
    if pos < ts.len() && ts[pos] == Token::LeftParen {
        lemma_expr_shape(ts, pos + 1);
    }
}

proof fn lemma_term_tail_shape(ts: Seq<Token>, left: AST, pos: int)
    requires
        0 <= pos <= ts.len(),
        shaped(ts, Parsed { result: Ok(left), end: pos }),
    ensures
        shaped(ts, term_tail(ts, left, pos)),
    decreases ts.len() - pos, 1int,
{
    if pos < ts.len() && ts[pos].is_multiplicative() {
        lemma_factor_shape(ts, pos + 1);
        let right = factor_at(ts, pos + 1);
        if let Ok(node) = right.result {
            if pos < right.end <= ts.len() {
                lemma_term_tail_shape(
                    ts,
                    AST::BinOp(Box::new(left), ts[pos], Box::new(node)),
                    right.end,
                );
            }
        }
    }
}

proof fn lemma_term_shape(ts: Seq<Token>, pos: int)
    requires
        0 <= pos <= ts.len(),
    ensures
        shaped(ts, term_at(ts, pos)),
    decreases ts.len() - pos, 2int,
{
    lemma_factor_shape(ts, pos);
    let first = factor_at(ts, pos);
    if let Ok(node) = first.result {
        if pos < first.end <= ts.len() {
            lemma_term_tail_shape(ts, node, first.end);
        }
    }
}

proof fn lemma_expr_tail_shape(ts: Seq<Token>, left: AST, pos: int)
    requires
        0 <= pos <= ts.len(),
        shaped(ts, Parsed { result: Ok(left), end: pos }),
    ensures
        shaped(ts, expr_tail(ts, left, pos)),
    decreases ts.len() - pos, 3int,
{
    if pos < ts.len() && ts[pos].is_additive() {
        lemma_term_shape(ts, pos + 1);
        let right = term_at(ts, pos + 1);
        if let Ok(node) = right.result {
            if pos < right.end <= ts.len() {
                lemma_expr_tail_shape(
                    ts,
                    AST::BinOp(Box::new(left), ts[pos], Box::new(node)),
                    right.end,
                );
            }
        }
    }
}

proof fn lemma_expr_shape(ts: Seq<Token>, pos: int)
    requires
        0 <= pos <= ts.len(),
    ensures
        shaped(ts, expr_at(ts, pos)),
    decreases ts.len() - pos, 4int,
{
    lemma_term_shape(ts, pos);
    let first = term_at(ts, pos);
    if let Ok(node) = first.result {
        if pos < first.end <= ts.len() {
            lemma_expr_tail_shape(ts, node, first.end);
        }
    }
}

/// A recursive-descent parser over a fixed sequence of tokens, with one
/// token of lookahead.
pub struct Parser {
    tokens: Vec<Token>,
    pos: usize,
}

impl View for Parser {
    type V = ParserView;

    closed spec fn view(&self) -> ParserView {
        ParserView { tokens: self.tokens@, pos: self.pos as int }
    }
}

impl Parser {
    #[verifier::type_invariant]
    spec fn cursor_in_bounds(&self) -> bool {
        self.pos <= self.tokens.len()
    }

    /// A parser at the first of `tokens`.
    pub fn new(tokens: Vec<Token>) -> (parser: Parser)
        ensures
            parser@.tokens == tokens@,
            parser@.pos == 0,
    {
        Parser { tokens, pos: 0 }
    }

    /// The token under the cursor, which stays where it is.
    fn peek(&self) -> (token: Option<Token>)
        ensures
            0 <= self@.pos <= self@.tokens.len() <= usize::MAX,
            token == if self@.pos < self@.tokens.len() {
                Some(self@.tokens[self@.pos])
            } else {
                None
            },
    {
        proof {
            use_type_invariant(self);
        }
        if self.pos < self.tokens.len() {
            Some(self.tokens[self.pos])
        } else {
            None
        }
    }

    /// Parses one expression from the cursor on. Tokens that follow the
    /// expression are left unread.
    pub fn parse(&mut self) -> (result: Result<AST, ParseError>)
        ensures
            result == expr_at(old(self)@.tokens, old(self)@.pos).result,
            final(self)@.pos == expr_at(old(self)@.tokens, old(self)@.pos).end,
            final(self)@.tokens == old(self)@.tokens,
            0 <= old(self)@.pos <= final(self)@.pos <= final(self)@.tokens.len(),
            result matches Ok(ast) ==> ast.well_formed() && old(self)@.pos < final(self)@.pos,
    {
        self.expr()
    }

    /// Parses a sum: terms joined by `+` and `-`, grouped from the left.
    pub fn expr(&mut self) -> (result: Result<AST, ParseError>)
        ensures
            result == expr_at(old(self)@.tokens, old(self)@.pos).result,
            final(self)@.pos == expr_at(old(self)@.tokens, old(self)@.pos).end,
            final(self)@.tokens == old(self)@.tokens,
            0 <= old(self)@.pos <= final(self)@.pos <= final(self)@.tokens.len(),
            result matches Ok(ast) ==> ast.well_formed() && old(self)@.pos < final(self)@.pos,
        decreases old(self)@.tokens.len() - old(self)@.pos, 2int,
    {
        let ghost ts = self@.tokens;
        let ghost start = self@.pos;
        proof {
            use_type_invariant(&*self);
        }
        let mut node = match self.term() {
            Ok(first) => first,
            Err(e) => {
                return Err(e);
            },
        };
        loop
            invariant
                self@.tokens == ts,
                0 <= start < self@.pos <= ts.len(),
                start == old(self)@.pos,
                ts == old(self)@.tokens,
                node.well_formed(),
                expr_tail(ts, node, self@.pos) == expr_at(ts, start),
            decreases ts.len() - self@.pos,
        {
            let op = match self.peek() {
                Some(Token::Plus) => Token::Plus,
                Some(Token::Minus) => Token::Minus,
                _ => {
                    return Ok(node);
                },
            };
            self.pos += 1;
            match self.term() {
                Ok(right) => {
                    node = AST::BinOp(Box::new(node), op, Box::new(right));
                },
                Err(e) => {
                    return Err(e);
                },
            }
        }
    }

    /// Parses a product: factors joined by `*` and `/`, grouped from the
    /// left.
    pub fn term(&mut self) -> (result: Result<AST, ParseError>)
        ensures
            result == term_at(old(self)@.tokens, old(self)@.pos).result,
            final(self)@.pos == term_at(old(self)@.tokens, old(self)@.pos).end,
            final(self)@.tokens == old(self)@.tokens,
            0 <= old(self)@.pos <= final(self)@.pos <= final(self)@.tokens.len(),
            result matches Ok(ast) ==> ast.well_formed() && old(self)@.pos < final(self)@.pos,
        decreases old(self)@.tokens.len() - old(self)@.pos, 1int,
    {
        let ghost ts = self@.tokens;
        let ghost start = self@.pos;
        proof {
            use_type_invariant(&*self);
        }
        let mut node = match self.factor() {
            Ok(first) => first,
            Err(e) => {
                return Err(e);
            },
        };
        loop
            invariant
                self@.tokens == ts,
                0 <= start < self@.pos <= ts.len(),
                start == old(self)@.pos,
                ts == old(self)@.tokens,
                node.well_formed(),
                term_tail(ts, node, self@.pos) == term_at(ts, start),
            decreases ts.len() - self@.pos,
        {
            let op = match self.peek() {
                Some(Token::Multiply) => Token::Multiply,
                Some(Token::Divide) => Token::Divide,
                _ => {
                    return Ok(node);
                },
            };
            self.pos += 1;
            match self.factor() {
                Ok(right) => {
                    node = AST::BinOp(Box::new(node), op, Box::new(right));
                },
                Err(e) => {
                    return Err(e);
                },
            }
        }
    }

    /// Parses an operand: a literal, or an expression in parentheses.
    pub fn factor(&mut self) -> (result: Result<AST, ParseError>)
        ensures
            result == factor_at(old(self)@.tokens, old(self)@.pos).result,
            final(self)@.pos == factor_at(old(self)@.tokens, old(self)@.pos).end,
            final(self)@.tokens == old(self)@.tokens,
            0 <= old(self)@.pos <= final(self)@.pos <= final(self)@.tokens.len(),
            result matches Ok(ast) ==> ast.well_formed() && old(self)@.pos < final(self)@.pos,
        decreases old(self)@.tokens.len() - old(self)@.pos, 0int,
    {
        match self.peek() {
            Some(Token::Number(n)) => {
                self.pos += 1;
                Ok(AST::Num(n))
            },
            Some(Token::LeftParen) => {
                self.pos += 1;
                let node = match self.expr() {
                    Ok(inner) => inner,
                    Err(e) => {
                        return Err(e);
                    },
                };
                match self.peek() {
                    Some(Token::RightParen) => {
                        self.pos += 1;
                        Ok(node)
                    },
                    _ => Err(ParseError::UnbalancedParen),
                }
            },
            _ => Err(ParseError::UnexpectedToken),
        }
    }
}

/// Parses `tokens` as one expression that takes up all of them.
pub fn parse_tokens(tokens: Vec<Token>) -> (result: Result<AST, ParseError>)
    ensures
        result == parse_complete(tokens@),
        result matches Ok(ast) ==> ast.well_formed(),
{
    let mut parser = Parser::new(tokens);
    match parser.parse() {
        Ok(ast) => {
            if parser.pos < parser.tokens.len() {
                Err(ParseError::TrailingTokens)
            } else {
                Ok(ast)
            }
        },
        Err(e) => Err(e),
    }
}

} // verus!
