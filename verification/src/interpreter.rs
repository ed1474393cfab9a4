//! The evaluator and the entry point.
//!
//! `evaluate` scans, parses and reduces an expression in one call, and
//! returns exactly `spec_evaluate` of its input: the result is a function of
//! the text alone, so repeated calls on identical input yield identical
//! results. Evaluation itself cannot fail; arithmetic wraps around on
//! overflow at the width of `isize`.

use vstd::prelude::*;

verus! {

use vstd::wrapping::isize_specs;
use crate::tokenizer::Operator;
use crate::tokenizer::Token;
use crate::tokenizer::digits_int;
use crate::tokenizer::is_digit;
use crate::tokenizer::lemma_space_insertion;
use crate::tokenizer::lemma_tokens_append_rparen;
use crate::tokenizer::lemma_tokens_of_digits;
use crate::tokenizer::lemma_wrapped_num_exact;
use crate::tokenizer::spec_tokens;
use crate::tokenizer::tokenize;
use crate::tokenizer::wrapped_num;
use crate::parser::AST;
use crate::parser::ParseError;
use crate::parser::lemma_paren_roundtrip;
use crate::parser::parse;
use crate::parser::spec_parse;
use crate::parser::spec_parse_expression;
use crate::parser::spec_parse_loop;
use crate::parser::spec_parse_prefix;

/// The value of an expression tree: each leaf is its value read at the width
/// of `isize`, each operator is applied with wrapping arithmetic.
pub open spec fn spec_eval(ast: AST) -> isize
    decreases ast,
{
    match ast {
        AST::Value(n) => n as isize,
        AST::Operator(op, left, right) => {
            let a = spec_eval(*left);
            let b = spec_eval(*right);
            match op {
                Operator::Add => isize_specs::wrapping_add(a, b),
                Operator::Substract => isize_specs::wrapping_sub(a, b),
                Operator::Multiply => isize_specs::wrapping_mul(a, b),
            }
        },
    }
}

/// What `evaluate` returns: the value of the tree that the text parses to,
/// or the first error met while scanning and parsing it.
pub open spec fn spec_evaluate(s: Seq<char>) -> Result<isize, ParseError> {
    match spec_parse(spec_tokens(s)) {
        Ok(ast) => Ok(spec_eval(ast)),
        Err(e) => Err(e),
    }
}

/// A text consisting of one integer literal alone evaluates to that
/// literal's value, whenever the value fits in `isize`.
pub proof fn lemma_literal_value(s: Seq<char>)
    requires
        s.len() > 0,
        forall|i: int| 0 <= i < s.len() ==> is_digit(s[i]),
        digits_int(s) <= isize::MAX as int,
    ensures
        spec_evaluate(s) == Ok::<isize, ParseError>(digits_int(s) as isize),
{
    lemma_tokens_of_digits(s);
    lemma_wrapped_num_exact(s);
    let n = wrapped_num(s);
    let toks = seq![Token::Number(n)];
    assert(spec_tokens(s) == toks);
    assert(toks.drop_first().len() == 0);
    assert(spec_parse_prefix(Token::Number(n), toks.drop_first()) == Ok::<
        (AST, Seq<Token>),
        ParseError,
    >((AST::Value(n), toks.drop_first())));
    assert(spec_parse_loop(AST::Value(n), toks.drop_first(), 0) == Ok::<
        (AST, Seq<Token>),
        ParseError,
    >((AST::Value(n), toks.drop_first())));
    assert(spec_parse_expression(toks, 0) == Ok::<(AST, Seq<Token>), ParseError>(
        (AST::Value(n), toks.drop_first()),
    ));
    assert(spec_parse(toks) == Ok::<AST, ParseError>(AST::Value(n)));
    assert(spec_eval(AST::Value(n)) == n as isize);
}

/// Whitespace between tokens is insignificant: inserting a space anywhere
/// but inside a run of digits leaves the result of `evaluate` unchanged,
/// and so, read the other way, does removing one.
pub proof fn lemma_space_insensitive(s: Seq<char>, i: int)
    requires
        0 <= i <= s.len(),
        !(0 < i < s.len() && is_digit(s[i - 1]) && is_digit(s[i])),
    ensures
        spec_evaluate(s.insert(i, ' ')) == spec_evaluate(s),
{
    lemma_space_insertion(s, i);
}

/// Parenthesis nesting round-trips: wrapping a text that evaluates
/// successfully in one more pair of parentheses leaves the result
/// unchanged.
pub proof fn lemma_paren_insensitive(s: Seq<char>)
    requires
        spec_evaluate(s) is Ok,
    ensures
        spec_evaluate(seq!['('] + s + seq![')']) == spec_evaluate(s),
{
    let w = seq!['('] + s + seq![')'];
    assert(w[0] == '(');
    assert(w.drop_first() =~= s + seq![')']);
    lemma_tokens_append_rparen(s);
    assert(spec_tokens(w) =~= seq![Token::LeftParen] + spec_tokens(s) + seq![Token::RightParen]);
    match spec_parse(spec_tokens(s)) {
        Ok(a) => {
            lemma_paren_roundtrip(spec_tokens(s), a);
        },
        Err(e) => {},
    }
}

/// A prefix minus negates its operand: the tree built for it — a
/// subtraction from zero — evaluates to the wrapping negation of the
/// operand, and to the exact negation whenever that fits in `isize`.
pub proof fn lemma_prefix_minus_negates(e: AST)
    ensures
        spec_eval(AST::Operator(Operator::Substract, Box::new(AST::Value(0)), Box::new(e)))
            == isize_specs::wrapping_sub(0, spec_eval(e)),
        spec_eval(e) != isize::MIN ==> spec_eval(
            AST::Operator(Operator::Substract, Box::new(AST::Value(0)), Box::new(e)),
        ) as int == -(spec_eval(e) as int),
{
    assert(spec_eval(AST::Value(0)) == 0isize);
    assert(spec_eval(AST::Operator(Operator::Substract, Box::new(AST::Value(0)), Box::new(e)))
        == isize_specs::wrapping_sub(spec_eval(AST::Value(0)), spec_eval(e)));
}

fn evaluate_ast(ast: &AST) -> (r: isize)
    ensures
        r == spec_eval(*ast),
    decreases *ast,
{
    match ast {
        AST::Value(n) => #[verifier::truncate] (*n as isize),
        AST::Operator(Operator::Add, left, right) => {
            let a = evaluate_ast(left);
            let b = evaluate_ast(right);
            a.wrapping_add(b)
        },
        AST::Operator(Operator::Substract, left, right) => {
            let a = evaluate_ast(left);
            let b = evaluate_ast(right);
            a.wrapping_sub(b)
        },
        AST::Operator(Operator::Multiply, left, right) => {
            let a = evaluate_ast(left);
            let b = evaluate_ast(right);
            a.wrapping_mul(b)
        },
    }
}

/// Evaluate the expression `expr`: scan, parse, reduce. Returns exactly
/// `spec_evaluate(expr@)`.
pub fn evaluate(expr: &str) -> (r: Result<isize, ParseError>)
    ensures
        r == spec_evaluate(expr@),
{
    let mut tokens = tokenize(expr);
    let ast = match parse(&mut tokens) {
        Ok(a) => a,
        Err(e) => return Err(e),
    };
    Ok(evaluate_ast(&ast))
}

} // verus!
