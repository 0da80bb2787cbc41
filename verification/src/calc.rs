//! The whole pipeline: a string to the value of the expression it holds.

use vstd::prelude::*;
use crate::ast::AST;
use crate::eval::{computable, eval, evaluate, lemma_eval_exact, value, EvalError};
use crate::lexer::{lemma_lex_unsigned, lex, tokenize, LexError};
use crate::notation::{lemma_notation_unsigned, lemma_parse_notation, notation};
use crate::parser::{lemma_parsed_shape, parse_complete, parse_tokens, ParseError};
use crate::spelling::{lemma_lex_spelling, spelling};

verus! {

/// Why an input has no value, by the stage that stopped.
#[derive(Debug, Clone, Copy, PartialEq, Eq, Structural)]
pub enum CalcError {
    Lex(LexError),
    Parse(ParseError),
    Eval(EvalError),
}

/// The tree of the expression that `s` holds.
pub open spec fn syntax_tree(s: Seq<char>) -> Result<AST, CalcError> {
    match lex(s) {
        Err(e) => Err(CalcError::Lex(e)),
        Ok(tokens) => match parse_complete(tokens) {
            Err(e) => Err(CalcError::Parse(e)),
            Ok(ast) => Ok(ast),
        },
    }
}

/// The value of the expression that `s` holds, or the error of the first
/// stage that fails: scanning, then parsing, then evaluation.
pub open spec fn outcome(s: Seq<char>) -> Result<i32, CalcError> {
    match syntax_tree(s) {
        Err(e) => Err(e),
        Ok(ast) => match eval(ast) {
            Err(e) => Err(CalcError::Eval(e)),
            Ok(v) => Ok(v),
        },
    }
}

/// The tree of an input carries operators, and nothing else, at its inner
/// nodes, and has no negative literal.
pub proof fn lemma_syntax_tree_shape(s: Seq<char>)
    ensures
        syntax_tree(s) matches Ok(ast) ==> ast.well_formed() && ast.has_unsigned_literals(),
{
    if let Ok(tokens) = lex(s) {
        lemma_lex_unsigned(s);
        lemma_parsed_shape(tokens, 0);
    }
}

/// For an input that scans and parses, the pipeline yields a value exactly
/// when every intermediate result of the expression exists and fits in an
/// `i32`, and that value is the one the expression has over the unbounded
/// integers, with division rounded towards zero.
pub proof fn lemma_outcome_exact(s: Seq<char>)
    requires
        syntax_tree(s) is Ok,
    ensures
        outcome(s) is Ok <==> computable(syntax_tree(s)->Ok_0),
        outcome(s) matches Ok(v) ==> v == value(syntax_tree(s)->Ok_0),
{
    lemma_syntax_tree_shape(s);
    lemma_eval_exact(syntax_tree(s)->Ok_0);
}

/// Every well-formed tree without a negative literal can be typed in: its
/// notation, spelled out, is an input that has this tree, and the pipeline
/// gives that input the result of evaluating the tree.
pub proof fn lemma_written_tree(ast: AST)
    requires
        ast.well_formed(),
        ast.has_unsigned_literals(),
    ensures
        syntax_tree(spelling(notation(ast, 0))) == Ok::<AST, CalcError>(ast),
        outcome(spelling(notation(ast, 0))) == match eval(ast) {
            Ok(v) => Ok::<i32, CalcError>(v),
            Err(e) => Err::<i32, CalcError>(CalcError::Eval(e)),
        },
{
    lemma_notation_unsigned(ast, 0);
    lemma_lex_spelling(notation(ast, 0));
    lemma_parse_notation(ast);
}

/// Scans, parses and evaluates `input`.
pub fn calculate(input: &str) -> (result: Result<i32, CalcError>)
    ensures
        result == outcome(input@),
{
    let tokens = match tokenize(input) {
        Ok(tokens) => tokens,
        Err(e) => {
            return Err(CalcError::Lex(e));
        },
    };
    let ast = match parse_tokens(tokens) {
        Ok(ast) => ast,
        Err(e) => {
            return Err(CalcError::Parse(e));
        },
    };
    match evaluate(&ast) {
        Ok(v) => Ok(v),
        Err(e) => Err(CalcError::Eval(e)),
    }
}

} // verus!
