//! The grammar read backwards: how a tree is written down.
//!
//! [`notation`] writes a tree with the fewest parentheses that the
//! precedence of `*` and `/` over `+` and `-`, and grouping from the left,
//! allow. [`lemma_parse_notation`] shows that the parser reads every tree
//! back from what it is written as.

use vstd::prelude::*;
use crate::ast::AST;
use crate::parser::{
    expr_at, expr_tail, factor_at, parse_complete, term_at, term_tail, ParseError, Parsed,
};
use crate::seq_facts::lemma_split_window;
use crate::token::{unsigned, Token};

verus! {

/// How tightly the top of a tree binds: 0 for a sum or difference, 1 for a
/// product or quotient, 2 for a literal.
pub open spec fn strength(ast: AST) -> nat {
    match ast {
        AST::Num(_) => 2,
        AST::BinOp(_, op, _) => if op.is_multiplicative() {
            1
        } else {
            0
        },
    }
}

/// The tokens that write `ast` in a place that takes operands of binding
/// strength `level` or more: anywhere (0), as an operand of `*` or `/` (1),
/// or as a right operand of `*` or `/` (2).
///
/// A tree that binds too loosely for its place is put in parentheses. The
/// left operand of an operator is written at the operator's own strength
/// and the right operand one above it, so a right operand with the same
/// operator at its top is put in parentheses and a left one is not.
pub open spec fn notation(ast: AST, level: nat) -> Seq<Token>
    decreases ast, level,
{
    match ast {
        AST::Num(n) => seq![Token::Number(n)],
        AST::BinOp(left, op, right) => if strength(ast) < level {
            seq![Token::LeftParen] + notation(ast, 0) + seq![Token::RightParen]
        } else {
            notation(*left, strength(ast)) + seq![op] + notation(*right, strength(ast) + 1)
        },
    }
}

/// Whether a `*` or `/` stands at `pos`.
spec fn multiplicative_at(ts: Seq<Token>, pos: int) -> bool {
    0 <= pos < ts.len() && ts[pos].is_multiplicative()
}

/// Where `ts` holds the notation of a tree at `pos`, the rule of the
/// notation's level reads exactly that tree there and goes on from its end.
proof fn lemma_rule_reads_notation(ts: Seq<Token>, pos: int, ast: AST, level: nat)
    requires
        ast.well_formed(),
        level <= 2,
        0 <= pos,
        pos + notation(ast, level).len() <= ts.len(),
        ts.subrange(pos, pos + notation(ast, level).len()) == notation(ast, level),
        level == 0 ==> !multiplicative_at(ts, pos + notation(ast, level).len()),
    ensures
        level == 2 ==> factor_at(ts, pos) == (Parsed {
            result: Ok(ast),
            end: pos + notation(ast, level).len(),
        }),
        level == 1 ==> term_at(ts, pos) == term_tail(ts, ast, pos + notation(ast, level).len()),
        level == 0 ==> expr_at(ts, pos) == expr_tail(ts, ast, pos + notation(ast, level).len()),
    decreases ast, level,
{
    let text = notation(ast, level);
    let end = pos + text.len();
    assert(ts.subrange(pos, end)[0] == ts[pos]);
    match ast {
        AST::Num(n) => {
            assert(ts[pos] == Token::Number(n));
        },
        AST::BinOp(left, op, right) => {
            if strength(ast) < level {
                let inner = notation(ast, 0);
                assert(text == seq![Token::LeftParen] + (inner + seq![Token::RightParen]));
                lemma_split_window(
                    ts,
                    pos,
                    seq![Token::LeftParen],
                    inner + seq![Token::RightParen],
                );
                lemma_split_window(ts, pos + 1, inner, seq![Token::RightParen]);
                let close = pos + 1 + inner.len();
                assert(ts.subrange(close, close + 1)[0] == ts[close]);
                assert(ts[close] == Token::RightParen);
                lemma_rule_reads_notation(ts, pos + 1, ast, 0);
                assert(expr_at(ts, pos + 1) == Parsed { result: Ok(ast), end: close });
                assert(factor_at(ts, pos) == Parsed { result: Ok(ast), end: end });
            } else {
                let s = strength(ast);
                let first = notation(*left, s);
                let second = notation(*right, s + 1);
                assert(text == first + (seq![op] + second));
                lemma_split_window(ts, pos, first, seq![op] + second);
                lemma_split_window(ts, pos + first.len(), seq![op], second);
                let mid = pos + first.len();
                assert(ts.subrange(mid, mid + 1)[0] == ts[mid]);
                assert(ts[mid] == op);
                lemma_rule_reads_notation(ts, pos, *left, s);
                lemma_rule_reads_notation(ts, mid + 1, *right, s + 1);
                if s == 1 {
                    assert(term_at(ts, pos) == term_tail(ts, *left, mid));
                    assert(factor_at(ts, mid + 1) == Parsed { result: Ok(*right), end: end });
                    assert(term_tail(ts, *left, mid) == term_tail(ts, ast, end));
                } else {
                    assert(expr_at(ts, pos) == expr_tail(ts, *left, mid));
                    assert(term_at(ts, mid + 1) == term_tail(ts, *right, end));
                    assert(term_tail(ts, *right, end) == Parsed { result: Ok(*right), end: end });
                    assert(expr_tail(ts, *left, mid) == expr_tail(ts, ast, end));
                }
            }
        },
    }
}

proof fn lemma_unsigned_concat(a: Seq<Token>, b: Seq<Token>)
    requires
        unsigned(a),
        unsigned(b),
    ensures
        unsigned(a + b),
{
    let ab = a + b;
    assert forall|k: int| 0 <= k < ab.len() implies (#[trigger] ab[k] matches Token::Number(n)
        ==> n >= 0) by {
        if k < a.len() {
            assert(ab[k] == a[k]);
        } else {
            assert(ab[k] == b[k - a.len()]);
        }
    }
}

/// The notation of a well-formed tree without a negative literal has none
/// either.
pub proof fn lemma_notation_unsigned(ast: AST, level: nat)
    requires
        ast.well_formed(),
        ast.has_unsigned_literals(),
    ensures
        unsigned(notation(ast, level)),
    decreases ast, level,
{
    match ast {
        AST::Num(n) => {
            assert(notation(ast, level)[0] == Token::Number(n));
        },
        AST::BinOp(left, op, right) => {
            if strength(ast) < level {
                lemma_notation_unsigned(ast, 0);
                lemma_unsigned_concat(seq![Token::LeftParen], notation(ast, 0));
                lemma_unsigned_concat(
                    seq![Token::LeftParen] + notation(ast, 0),
                    seq![Token::RightParen],
                );
            } else {
                let first = notation(*left, strength(ast));
                let second = notation(*right, strength(ast) + 1);
                lemma_notation_unsigned(*left, strength(ast));
                lemma_notation_unsigned(*right, strength(ast) + 1);
                lemma_unsigned_concat(first, seq![op]);
                lemma_unsigned_concat(first + seq![op], second);
            }
        },
    }
}

/// Parsing the notation of a tree gives the tree back. So every well-formed
/// tree is the tree of some input, and the grouping that the parser chooses
/// where parentheses are left out, the tighter operator first and equal ones
/// from the left, is the one that the notation leaves them out for.
pub proof fn lemma_parse_notation(ast: AST)
    requires
        ast.well_formed(),
    ensures
        parse_complete(notation(ast, 0)) == Ok::<AST, ParseError>(ast),
{
    let ts = notation(ast, 0);
    assert(ts.subrange(0, ts.len() as int) =~= ts);
    lemma_rule_reads_notation(ts, 0, ast, 0);
}

} // verus!
