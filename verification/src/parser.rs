//! The parser.
//!
//! Precedence climbing over the token stream: every token has a binding
//! power, `parse_expression` reads one token as a prefix and then folds in
//! infix operators whose binding power exceeds the threshold it was called
//! with. A chain of operators of equal power therefore folds left to right,
//! and multiplication, whose power is higher, binds tighter than addition
//! and subtraction. A prefix minus becomes a subtraction from zero.
//!
//! The spec functions `spec_parse_expression`, `spec_parse_prefix`,
//! `spec_parse_infix` and `spec_parse_loop` give the algorithm as a function
//! of the token sequence alone; `parse` returns exactly `spec_parse` of its
//! input, so parsing identical text always yields the identical tree.

use vstd::prelude::*;

verus! {

use crate::tokenizer::Operator;
use crate::tokenizer::Token;
use crate::tokenizer::Tokens;

/// An algebraic expression tree: a non-negative value at each leaf, a binary
/// operator with two owned children at each inner node. A prefix minus is
/// represented as a subtraction with `Value(0)` on the left.
#[derive(PartialEq, Eq, Debug)]
pub enum AST {
    Value(usize),
    Operator(Operator, Box<AST>, Box<AST>),
}

#[derive(PartialEq, Eq, Structural, Debug, Copy, Clone)]
pub enum ParseError {
    UnmatchedLeftParenthesis,
    UnmatchedRightParenthesis,
    NothingToParse,
    InvalidPrefix,
    InvalidInfix,
    InvalidToken,
    InvalidExpression,
}

/// How strongly a token binds to its neighbours; only the relative order of
/// the values matters.
pub open spec fn spec_bp(token: Token) -> int {
    match token {
        Token::Number(_) => 0,
        Token::LeftParen => 5,
        Token::RightParen => 5,
        Token::Operator(Operator::Add) => 15,
        Token::Operator(Operator::Substract) => 15,
        Token::Operator(Operator::Multiply) => 20,
        Token::InvalidToken => 0,
    }
}

/// The binding power of the front token, or 0 at the end of the stream.
pub open spec fn spec_next_bp(toks: Seq<Token>) -> int {
    if toks.len() == 0 {
        0
    } else {
        spec_bp(toks[0])
    }
}

/// What parsing `t` in prefix position, with the tokens `toks` after it,
/// yields: the tree and the tokens left, or the first error.
pub open spec fn spec_parse_prefix(t: Token, toks: Seq<Token>) -> Result<
    (AST, Seq<Token>),
    ParseError,
>
    decreases toks.len(), 1nat,
{
    match t {
        Token::Number(n) => Ok((AST::Value(n), toks)),
        Token::LeftParen => match spec_parse_expression(toks, 5) {
            Ok((expr, rest)) => if rest.len() > 0 && rest[0] == Token::RightParen {
                Ok((expr, rest.drop_first()))
            } else {
                Err(ParseError::UnmatchedLeftParenthesis)
            },
            Err(e) => Err(e),
        },
        Token::Operator(Operator::Substract) => match spec_parse_expression(toks, 15) {
            Ok((expr, rest)) => Ok(
                (AST::Operator(Operator::Substract, Box::new(AST::Value(0)), Box::new(expr)), rest),
            ),
            Err(e) => Err(e),
        },
        _ => Err(ParseError::InvalidPrefix),
    }
}

/// What parsing `t` in infix position yields, `left` being the tree built so
/// far and `toks` the tokens after `t`.
pub open spec fn spec_parse_infix(left: AST, t: Token, toks: Seq<Token>) -> Result<
    (AST, Seq<Token>),
    ParseError,
>
    decreases toks.len(), 1nat,
{
    match t {
        Token::Operator(op) => match spec_parse_expression(toks, spec_bp(t)) {
            Ok((right, rest)) => Ok(
                (AST::Operator(op, Box::new(left), Box::new(right)), rest),
            ),
            Err(e) => Err(e),
        },
        Token::RightParen => Err(ParseError::UnmatchedRightParenthesis),
        _ => Err(ParseError::InvalidInfix),
    }
}

/// The infix loop: while the front token binds more strongly than `bp`,
/// consume it as an infix operator and fold `expr` into a new node.
pub open spec fn spec_parse_loop(expr: AST, toks: Seq<Token>, bp: int) -> Result<
    (AST, Seq<Token>),
    ParseError,
>
    decreases toks.len(), 2nat,
{
    if toks.len() > 0 && spec_bp(toks[0]) > bp {
        match spec_parse_infix(expr, toks[0], toks.drop_first()) {
            Ok((expr2, rest)) => if rest.len() < toks.len() {
                spec_parse_loop(expr2, rest, bp)
            } else {
                // never reached: parsing consumes at least one token
                // (lemma_parse_progress); the test keeps the recursion
                // well founded
                Err(ParseError::InvalidExpression)
            },
            Err(e) => Err(e),
        }
    } else {
        Ok((expr, toks))
    }
}

/// What parsing a whole subexpression from `toks` at threshold `bp` yields:
/// one token read as a prefix, then the infix loop.
pub open spec fn spec_parse_expression(toks: Seq<Token>, bp: int) -> Result<
    (AST, Seq<Token>),
    ParseError,
>
    decreases toks.len(), 0nat,
{
    if toks.len() == 0 {
        Err(ParseError::NothingToParse)
    } else if toks[0] == Token::InvalidToken {
        Err(ParseError::InvalidToken)
    } else {
        match spec_parse_prefix(toks[0], toks.drop_first()) {
            Ok((expr, rest)) => if rest.len() < toks.len() {
                spec_parse_loop(expr, rest, bp)
            } else {
                // never reached, as in spec_parse_loop
                Err(ParseError::InvalidExpression)
            },
            Err(e) => Err(e),
        }
    }
}

/// What parsing the whole stream yields: a complete expression with no
/// token left over, or the first error.
pub open spec fn spec_parse(toks: Seq<Token>) -> Result<AST, ParseError> {
    match spec_parse_expression(toks, 0) {
        Ok((expr, rest)) => if rest.len() == 0 {
            Ok(expr)
        } else {
            Err(ParseError::InvalidExpression)
        },
        Err(e) => Err(e),
    }
}

/// A successful parse of a subexpression consumes at least one token, so
/// the guarded branches of the definitions above are never reached.
pub proof fn lemma_parse_progress(toks: Seq<Token>, bp: int)
    ensures
        spec_parse_expression(toks, bp) matches Ok(r) ==> r.1.len() < toks.len(),
    decreases toks.len(), 0nat,
{
    if toks.len() > 0 && toks[0] != Token::InvalidToken {
        lemma_prefix_progress(toks[0], toks.drop_first());
        match spec_parse_prefix(toks[0], toks.drop_first()) {
            Ok((expr, rest)) => {
                if rest.len() < toks.len() {
                    lemma_loop_progress(expr, rest, bp);
                }
            },
            Err(e) => {},
        }
    }
}

proof fn lemma_prefix_progress(t: Token, toks: Seq<Token>)
    ensures
        spec_parse_prefix(t, toks) matches Ok(r) ==> r.1.len() <= toks.len(),
    decreases toks.len(), 1nat,
{
    match t {
        Token::LeftParen => lemma_parse_progress(toks, 5),
        Token::Operator(Operator::Substract) => lemma_parse_progress(toks, 15),
        _ => {},
    }
}

proof fn lemma_infix_progress(left: AST, t: Token, toks: Seq<Token>)
    ensures
        spec_parse_infix(left, t, toks) matches Ok(r) ==> r.1.len() < toks.len(),
    decreases toks.len(), 1nat,
{
    match t {
        Token::Operator(op) => lemma_parse_progress(toks, spec_bp(t)),
        _ => {},
    }
}

proof fn lemma_loop_progress(expr: AST, toks: Seq<Token>, bp: int)
    ensures
        spec_parse_loop(expr, toks, bp) matches Ok(r) ==> r.1.len() <= toks.len(),
    decreases toks.len(), 2nat,
{
    if toks.len() > 0 && spec_bp(toks[0]) > bp {
        lemma_infix_progress(expr, toks[0], toks.drop_first());
        match spec_parse_infix(expr, toks[0], toks.drop_first()) {
            Ok((expr2, rest)) => {
                if rest.len() < toks.len() {
                    lemma_loop_progress(expr2, rest, bp);
                }
            },
            Err(e) => {},
        }
    }
}

proof fn lemma_loop_raise(expr: AST, toks: Seq<Token>)
    requires
        spec_parse_loop(expr, toks, 0) is Ok,
    ensures
        spec_parse_loop(expr, toks, 5) == spec_parse_loop(expr, toks, 0),
    decreases toks.len(),
{
    if toks.len() > 0 && spec_bp(toks[0]) > 0 {
        match toks[0] {
            Token::Operator(op) => {
                match spec_parse_infix(expr, toks[0], toks.drop_first()) {
                    Ok((e2, rest)) => {
                        if rest.len() < toks.len() {
                            lemma_loop_raise(e2, rest);
                        }
                    },
                    Err(e) => {},
                }
            },
            _ => {
                // a parenthesis in infix position makes the loop at
                // threshold 0 fail, against the premise
            },
        }
    }
}

proof fn lemma_expression_raise(toks: Seq<Token>)
    requires
        spec_parse_expression(toks, 0) is Ok,
    ensures
        spec_parse_expression(toks, 5) == spec_parse_expression(toks, 0),
{
    if toks.len() > 0 && toks[0] != Token::InvalidToken {
        match spec_parse_prefix(toks[0], toks.drop_first()) {
            Ok((expr, rest)) => {
                if rest.len() < toks.len() {
                    lemma_loop_raise(expr, rest);
                }
            },
            Err(e) => {},
        }
    }
}

proof fn lemma_expression_extend(toks: Seq<Token>, bp: int, ext: Seq<Token>, a: AST, rest: Seq<
    Token,
>)
    requires
        bp >= 5,
        ext.len() > 0,
        spec_bp(ext[0]) <= 5,
        spec_parse_expression(toks, bp) == Ok::<(AST, Seq<Token>), ParseError>((a, rest)),
    ensures
        spec_parse_expression(toks + ext, bp) == Ok::<(AST, Seq<Token>), ParseError>(
            (a, rest + ext),
        ),
    decreases toks.len(), 0nat,
{
    assert((toks + ext)[0] == toks[0]);
    assert((toks + ext).drop_first() =~= toks.drop_first() + ext);
    match spec_parse_prefix(toks[0], toks.drop_first()) {
        Ok((e1, r1)) => {
            if r1.len() < toks.len() {
                lemma_prefix_extend(toks[0], toks.drop_first(), ext, e1, r1);
                lemma_loop_extend(e1, r1, bp, ext, a, rest);
            }
        },
        Err(e) => {},
    }
}

proof fn lemma_prefix_extend(t: Token, toks: Seq<Token>, ext: Seq<Token>, a: AST, rest: Seq<
    Token,
>)
    requires
        ext.len() > 0,
        spec_bp(ext[0]) <= 5,
        spec_parse_prefix(t, toks) == Ok::<(AST, Seq<Token>), ParseError>((a, rest)),
    ensures
        spec_parse_prefix(t, toks + ext) == Ok::<(AST, Seq<Token>), ParseError>((a, rest + ext)),
    decreases toks.len(), 1nat,
{
    match t {
        Token::Number(n) => {},
        Token::LeftParen => {
            match spec_parse_expression(toks, 5) {
                Ok((e1, r1)) => {
                    lemma_expression_extend(toks, 5, ext, e1, r1);
                    assert(r1.len() > 0 && r1[0] == Token::RightParen);
                    assert((r1 + ext)[0] == r1[0]);
                    assert((r1 + ext).drop_first() =~= r1.drop_first() + ext);
                },
                Err(e) => {},
            }
        },
        Token::Operator(Operator::Substract) => {
            match spec_parse_expression(toks, 15) {
                Ok((e1, r1)) => {
                    lemma_expression_extend(toks, 15, ext, e1, r1);
                },
                Err(e) => {},
            }
        },
        _ => {},
    }
}

proof fn lemma_infix_extend(left: AST, t: Token, toks: Seq<Token>, ext: Seq<Token>, a: AST, rest: Seq<
    Token,
>)
    requires
        ext.len() > 0,
        spec_bp(ext[0]) <= 5,
        spec_parse_infix(left, t, toks) == Ok::<(AST, Seq<Token>), ParseError>((a, rest)),
    ensures
        spec_parse_infix(left, t, toks + ext) == Ok::<(AST, Seq<Token>), ParseError>(
            (a, rest + ext),
        ),
    decreases toks.len(), 1nat,
{
    match t {
        Token::Operator(op) => {
            match spec_parse_expression(toks, spec_bp(t)) {
                Ok((e1, r1)) => {
                    lemma_expression_extend(toks, spec_bp(t), ext, e1, r1);
                },
                Err(e) => {},
            }
        },
        _ => {},
    }
}

proof fn lemma_loop_extend(expr: AST, toks: Seq<Token>, bp: int, ext: Seq<Token>, a: AST, rest: Seq<
    Token,
>)
    requires
        bp >= 5,
        ext.len() > 0,
        spec_bp(ext[0]) <= 5,
        spec_parse_loop(expr, toks, bp) == Ok::<(AST, Seq<Token>), ParseError>((a, rest)),
    ensures
        spec_parse_loop(expr, toks + ext, bp) == Ok::<(AST, Seq<Token>), ParseError>(
            (a, rest + ext),
        ),
    decreases toks.len(), 2nat,
{
    if toks.len() == 0 {
        assert(toks + ext =~= ext);
        assert(rest + ext =~= ext);
    } else {
        assert((toks + ext)[0] == toks[0]);
        if spec_bp(toks[0]) > bp {
            assert((toks + ext).drop_first() =~= toks.drop_first() + ext);
            match spec_parse_infix(expr, toks[0], toks.drop_first()) {
                Ok((e2, r2)) => {
                    if r2.len() < toks.len() {
                        lemma_infix_extend(expr, toks[0], toks.drop_first(), ext, e2, r2);
                        lemma_loop_extend(e2, r2, bp, ext, a, rest);
                    }
                },
                Err(e) => {},
            }
        }
    }
}

/// Parenthesis nesting round-trips: wrapping a text that parses as one
/// whole expression in a pair of parentheses parses to the same tree.
pub proof fn lemma_paren_roundtrip(toks: Seq<Token>, a: AST)
    requires
        spec_parse(toks) == Ok::<AST, ParseError>(a),
    ensures
        spec_parse(seq![Token::LeftParen] + toks + seq![Token::RightParen]) == Ok::<
            AST,
            ParseError,
        >(a),
{
    let rp = seq![Token::RightParen];
    let w = seq![Token::LeftParen] + toks + rp;
    match spec_parse_expression(toks, 0) {
        Ok((a0, r0)) => {
            assert(a0 == a && r0.len() == 0);
            lemma_expression_raise(toks);
            lemma_expression_extend(toks, 5, rp, a, r0);
            assert(r0 + rp =~= rp);
            assert(spec_parse_expression(toks + rp, 5) == Ok::<(AST, Seq<Token>), ParseError>(
                (a, rp),
            ));
            assert(w[0] == Token::LeftParen);
            assert(w.drop_first() =~= toks + rp);
            assert(rp.drop_first() =~= Seq::<Token>::empty());
            assert(spec_parse_prefix(Token::LeftParen, w.drop_first()) == Ok::<
                (AST, Seq<Token>),
                ParseError,
            >((a, rp.drop_first())));
            assert(spec_parse_loop(a, rp.drop_first(), 0) == Ok::<(AST, Seq<Token>), ParseError>(
                (a, rp.drop_first()),
            ));
            assert(spec_parse_expression(w, 0) == Ok::<(AST, Seq<Token>), ParseError>(
                (a, rp.drop_first()),
            ));
        },
        Err(e) => {},
    }
}

/// Binary operators are left-associative: a chain of two operators of equal
/// binding power parses with the left pair folded first.
pub proof fn lemma_left_associative(a: usize, o1: Operator, b: usize, o2: Operator, c: usize)
    requires
        spec_bp(Token::Operator(o1)) == spec_bp(Token::Operator(o2)),
    ensures
        spec_parse(
            seq![
                Token::Number(a),
                Token::Operator(o1),
                Token::Number(b),
                Token::Operator(o2),
                Token::Number(c),
            ],
        ) == Ok::<AST, ParseError>(
            AST::Operator(
                o2,
                Box::new(AST::Operator(o1, Box::new(AST::Value(a)), Box::new(AST::Value(b)))),
                Box::new(AST::Value(c)),
            ),
        ),
{
    let toks = seq![
        Token::Number(a),
        Token::Operator(o1),
        Token::Number(b),
        Token::Operator(o2),
        Token::Number(c),
    ];
    let bp1 = spec_bp(Token::Operator(o1));
    let rest1 = toks.drop_first();
    let rest2 = rest1.drop_first();
    let rest3 = rest2.drop_first();
    let rest4 = rest3.drop_first();
    let rest5 = rest4.drop_first();
    assert(rest5.len() == 0);
    let left = AST::Operator(o1, Box::new(AST::Value(a)), Box::new(AST::Value(b)));
    // the inner subexpression "b", parsed at o1's own power, stops before o2
    assert(spec_parse_loop(AST::Value(b), rest3, bp1) == Ok::<(AST, Seq<Token>), ParseError>(
        (AST::Value(b), rest3),
    ));
    assert(spec_parse_expression(rest2, bp1) == Ok::<(AST, Seq<Token>), ParseError>(
        (AST::Value(b), rest3),
    ));
    assert(spec_parse_infix(AST::Value(a), Token::Operator(o1), rest2) == Ok::<
        (AST, Seq<Token>),
        ParseError,
    >((left, rest3)));
    // the subexpression "c" ends the stream
    assert(spec_parse_loop(AST::Value(c), rest5, bp1) == Ok::<(AST, Seq<Token>), ParseError>(
        (AST::Value(c), rest5),
    ));
    assert(spec_parse_expression(rest4, bp1) == Ok::<(AST, Seq<Token>), ParseError>(
        (AST::Value(c), rest5),
    ));
    let whole = AST::Operator(o2, Box::new(left), Box::new(AST::Value(c)));
    assert(spec_parse_infix(left, Token::Operator(o2), rest4) == Ok::<
        (AST, Seq<Token>),
        ParseError,
    >((whole, rest5)));
    // the outer loop folds o1 first, then o2, then stops at the end
    assert(spec_parse_loop(whole, rest5, 0) == Ok::<(AST, Seq<Token>), ParseError>(
        (whole, rest5),
    ));
    assert(spec_parse_loop(left, rest3, 0) == Ok::<(AST, Seq<Token>), ParseError>(
        (whole, rest5),
    ));
    assert(spec_parse_loop(AST::Value(a), rest1, 0) == Ok::<(AST, Seq<Token>), ParseError>(
        (whole, rest5),
    ));
    assert(spec_parse_expression(toks, 0) == Ok::<(AST, Seq<Token>), ParseError>(
        (whole, rest5),
    ));
}

/// Multiplication binds tighter than addition and subtraction: around an
/// operator of lower binding power, the multiplication on either side is
/// folded into an operand of its own.
pub proof fn lemma_precedence(a: usize, o1: Operator, b: usize, c: usize)
    requires
        spec_bp(Token::Operator(o1)) < spec_bp(Token::Operator(Operator::Multiply)),
    ensures
        spec_parse(
            seq![
                Token::Number(a),
                Token::Operator(o1),
                Token::Number(b),
                Token::Operator(Operator::Multiply),
                Token::Number(c),
            ],
        ) == Ok::<AST, ParseError>(
            AST::Operator(
                o1,
                Box::new(AST::Value(a)),
                Box::new(
                    AST::Operator(
                        Operator::Multiply,
                        Box::new(AST::Value(b)),
                        Box::new(AST::Value(c)),
                    ),
                ),
            ),
        ),
{
    let toks = seq![
        Token::Number(a),
        Token::Operator(o1),
        Token::Number(b),
        Token::Operator(Operator::Multiply),
        Token::Number(c),
    ];
    let bp1 = spec_bp(Token::Operator(o1));
    let mul = Token::Operator(Operator::Multiply);
    let rest1 = toks.drop_first();
    let rest2 = rest1.drop_first();
    let rest3 = rest2.drop_first();
    let rest4 = rest3.drop_first();
    let rest5 = rest4.drop_first();
    assert(rest5.len() == 0);
    // "c", parsed at the power of the multiplication, ends the stream
    assert(spec_parse_loop(AST::Value(c), rest5, spec_bp(mul)) == Ok::<
        (AST, Seq<Token>),
        ParseError,
    >((AST::Value(c), rest5)));
    assert(spec_parse_expression(rest4, spec_bp(mul)) == Ok::<(AST, Seq<Token>), ParseError>(
        (AST::Value(c), rest5),
    ));
    let prod = AST::Operator(Operator::Multiply, Box::new(AST::Value(b)), Box::new(AST::Value(c)));
    assert(spec_parse_infix(AST::Value(b), mul, rest4) == Ok::<(AST, Seq<Token>), ParseError>(
        (prod, rest5),
    ));
    // "b * c", parsed at o1's power, takes the multiplication with it
    assert(spec_parse_loop(prod, rest5, bp1) == Ok::<(AST, Seq<Token>), ParseError>(
        (prod, rest5),
    ));
    assert(spec_parse_loop(AST::Value(b), rest3, bp1) == Ok::<(AST, Seq<Token>), ParseError>(
        (prod, rest5),
    ));
    assert(spec_parse_expression(rest2, bp1) == Ok::<(AST, Seq<Token>), ParseError>(
        (prod, rest5),
    ));
    let whole = AST::Operator(o1, Box::new(AST::Value(a)), Box::new(prod));
    assert(spec_parse_infix(AST::Value(a), Token::Operator(o1), rest2) == Ok::<
        (AST, Seq<Token>),
        ParseError,
    >((whole, rest5)));
    assert(spec_parse_loop(whole, rest5, 0) == Ok::<(AST, Seq<Token>), ParseError>(
        (whole, rest5),
    ));
    assert(spec_parse_loop(AST::Value(a), rest1, 0) == Ok::<(AST, Seq<Token>), ParseError>(
        (whole, rest5),
    ));
    assert(spec_parse_expression(toks, 0) == Ok::<(AST, Seq<Token>), ParseError>(
        (whole, rest5),
    ));
}

/// The binding power of a token, as executable code.
fn binding_power(token: &Token) -> (r: usize)
    ensures
        r as int == spec_bp(*token),
{
    match *token {
        Token::Number(_) => 0,
        Token::LeftParen => 5,
        Token::RightParen => 5,
        Token::Operator(Operator::Add) => 15,
        Token::Operator(Operator::Substract) => 15,
        Token::Operator(Operator::Multiply) => 20,
        Token::InvalidToken => 0,
    }
}

/// The binding power of the token `peek` shows, or 0 at the end.
fn next_token_bp(tokens: &Tokens) -> (r: usize)
    requires
        tokens.wf(),
    ensures
        r as int == spec_next_bp(tokens.tokens()),
{
    match tokens.peek() {
        Some(token) => binding_power(&token),
        None => 0,
    }
}

/// Parses the token `current` in prefix position: a number, a
/// parenthesized subexpression, or a prefix minus.
fn parse_prefix(current: Token, tokens: &mut Tokens) -> (r: Result<AST, ParseError>)
    requires
        old(tokens).wf(),
    ensures
        final(tokens).wf(),
        final(tokens).tokens().len() <= old(tokens).tokens().len(),
        match spec_parse_prefix(current, old(tokens).tokens()) {
            Ok((e0, rest0)) => r == Ok::<AST, ParseError>(e0) && final(tokens).tokens() == rest0,
            Err(e) => r == Err::<AST, ParseError>(e),
        },
        match current {
            Token::LeftParen => true,
            Token::Operator(Operator::Substract) => true,
            _ => final(tokens).tokens() == old(tokens).tokens(),
        },
    decreases tokens.tokens().len(), 1nat,
{
    match current {
        Token::Number(n) => Ok(AST::Value(n)),
        Token::LeftParen => {
            let expr = match parse_expression(tokens, 5) {
                Ok(e) => e,
                Err(e) => return Err(e),
            };
            match tokens.next() {
                Some(Token::RightParen) => Ok(expr),
                _ => Err(ParseError::UnmatchedLeftParenthesis),
            }
        },
        Token::Operator(Operator::Substract) => {
            let left = Box::new(AST::Value(0));
            let right = match parse_expression(tokens, 15) {
                Ok(e) => e,
                Err(e) => return Err(e),
            };
            Ok(AST::Operator(Operator::Substract, left, Box::new(right)))
        },
        _ => Err(ParseError::InvalidPrefix),
    }
}

/// Parses the token `current` in infix position: a binary operator applied
/// to `left` and to the subexpression that follows.
fn parse_infix(left: AST, current: Token, tokens: &mut Tokens) -> (r: Result<AST, ParseError>)
    requires
        old(tokens).wf(),
    ensures
        final(tokens).wf(),
        final(tokens).tokens().len() <= old(tokens).tokens().len(),
        match spec_parse_infix(left, current, old(tokens).tokens()) {
            Ok((e0, rest0)) => r == Ok::<AST, ParseError>(e0) && final(tokens).tokens() == rest0,
            Err(e) => r == Err::<AST, ParseError>(e),
        },
        match current {
            Token::Operator(_) => true,
            _ => final(tokens).tokens() == old(tokens).tokens(),
        },
    decreases tokens.tokens().len(), 1nat,
{
    match current {
        Token::Operator(op) => {
            let bp = binding_power(&current);
            let right = match parse_expression(tokens, bp) {
                Ok(e) => e,
                Err(e) => return Err(e),
            };
            Ok(AST::Operator(op, Box::new(left), Box::new(right)))
        },
        Token::RightParen => Err(ParseError::UnmatchedRightParenthesis),
        _ => Err(ParseError::InvalidInfix),
    }
}

/// Parses one subexpression: one prefix token, then every infix operator
/// that binds more strongly than `bp`.
fn parse_expression(tokens: &mut Tokens, bp: usize) -> (r: Result<AST, ParseError>)
    requires
        old(tokens).wf(),
    ensures
        final(tokens).wf(),
        final(tokens).tokens().len() <= old(tokens).tokens().len(),
        r is Ok ==> final(tokens).tokens().len() < old(tokens).tokens().len(),
        match spec_parse_expression(old(tokens).tokens(), bp as int) {
            Ok((e0, rest0)) => r == Ok::<AST, ParseError>(e0) && final(tokens).tokens() == rest0,
            Err(e) => r == Err::<AST, ParseError>(e),
        },
        old(tokens).tokens().len() > 0 && old(tokens).tokens()[0] == Token::InvalidToken
            ==> final(tokens).tokens() == old(tokens).tokens().drop_first(),
    decreases tokens.tokens().len(), 0nat,
{
    let ghost toks0 = tokens.tokens();
    match tokens.next() {
        None => Err(ParseError::NothingToParse),
        Some(Token::InvalidToken) => Err(ParseError::InvalidToken),
        Some(token) => {
            let mut expr = match parse_prefix(token, tokens) {
                Ok(e) => e,
                Err(e) => return Err(e),
            };
            loop
                invariant
                    toks0 == old(tokens).tokens(),
                    toks0.len() > 0 && toks0[0] != Token::InvalidToken,
                    tokens.wf(),
                    tokens.tokens().len() < toks0.len(),
                    spec_parse_loop(expr, tokens.tokens(), bp as int) == spec_parse_expression(
                        toks0,
                        bp as int,
                    ),
                ensures
                    toks0 == old(tokens).tokens(),
                    tokens.wf(),
                    tokens.tokens().len() < toks0.len(),
                    spec_parse_loop(expr, tokens.tokens(), bp as int) == spec_parse_expression(
                        toks0,
                        bp as int,
                    ),
                    spec_next_bp(tokens.tokens()) <= bp as int,
                decreases tokens.tokens().len(),
            {
                let next_bp = next_token_bp(tokens);
                if next_bp <= bp {
                    break ;
                }
                let next_token = tokens.next().unwrap();
                expr = match parse_infix(expr, next_token, tokens) {
                    Ok(e) => e,
                    Err(e) => return Err(e),
                };
            }
            Ok(expr)
        },
    }
}

/// Parses the whole token stream: `parse` returns exactly
/// `spec_parse(tokens.tokens())` — a complete tree when the stream is one
/// well-formed expression, and the predicted error otherwise. On success
/// the stream is exhausted: a further `next` yields `None`.
pub fn parse(tokens: &mut Tokens) -> (r: Result<AST, ParseError>)
    requires
        old(tokens).wf(),
    ensures
        final(tokens).wf(),
        r == spec_parse(old(tokens).tokens()),
        r is Ok ==> final(tokens).tokens().len() == 0,
{
    let result = match parse_expression(tokens, 0) {
        Ok(e) => e,
        Err(e) => return Err(e),
    };
    match tokens.next() {
        Some(_) => Err(ParseError::InvalidExpression),
        None => Ok(result),
    }
}

} // verus!
