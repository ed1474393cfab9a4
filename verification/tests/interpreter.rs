use calculator::interpreter::evaluate;
use calculator::parser::ParseError;

#[test]
fn basic_eval_test() {
    assert_eq!(evaluate("42"), Ok(42));
    assert_eq!(evaluate("1 + 1"), Ok(2));
    assert_eq!(evaluate("2 * 3 + 1"), Ok(7));
    assert_eq!(evaluate("1 + 2 * 3"), Ok(7));
    assert_eq!(evaluate("6 * 10 + 2 - 7 * 3"), Ok(41));
}

#[test]
fn eval_with_parenthesis() {
    assert_eq!(evaluate("((42))"), Ok(42));
    assert_eq!(evaluate("(1 + 2) * 3"), Ok(9));
    assert_eq!(evaluate("(2 * 3) - (14 + 3*2) * ((4))"), Ok(-74));
}

#[test]
fn eval_with_prefix_minus() {
    assert_eq!(evaluate("-4"), Ok(-4));
    assert_eq!(evaluate("-4 + 4"), Ok(0));
    assert_eq!(evaluate("1 + -4 * 2"), Ok(-7));
    assert_eq!(evaluate("3*-4 "), Ok(-12));
}

#[test]
fn eval_single_literal() {
    assert_eq!(evaluate("0"), Ok(0));
    assert_eq!(evaluate("7"), Ok(7));
    assert_eq!(evaluate("007"), Ok(7));
    assert_eq!(evaluate("123456789"), Ok(123456789));
}

#[test]
fn eval_with_trailing_space_parenthesis() {
    assert_eq!(evaluate("(2 * 3) - (14 + 3*2) * ((4)) "), Ok(-74));
}

#[test]
fn eval_whitespace_is_insignificant() {
    assert_eq!(evaluate("1+2*3"), Ok(7));
    assert_eq!(evaluate(" 1 + 2 * 3 "), Ok(7));
    assert_eq!(evaluate("  1  +2*   3"), Ok(7));
    assert_eq!(evaluate("(1+2)*3"), evaluate("( 1 + 2 ) * 3"));
}

#[test]
fn eval_error_kinds() {
    assert_eq!(evaluate("1 1"), Err(ParseError::InvalidExpression));
    assert_eq!(evaluate("(1"), Err(ParseError::UnmatchedLeftParenthesis));
    assert_eq!(evaluate("1 )"), Err(ParseError::UnmatchedRightParenthesis));
    assert_eq!(evaluate("+ 1"), Err(ParseError::InvalidPrefix));
    assert_eq!(evaluate("= 1"), Err(ParseError::InvalidToken));
    assert_eq!(evaluate(""), Err(ParseError::NothingToParse));
    assert_eq!(evaluate("1 (2)"), Err(ParseError::InvalidInfix));
}

#[test]
fn eval_repeated_calls_agree() {
    let text = "6 * 10 + 2 - 7 * 3";
    let first = evaluate(text);
    let second = evaluate(text);
    assert_eq!(first, Ok(41));
    assert_eq!(first, second);

    let bad = "(1";
    assert_eq!(evaluate(bad), evaluate(bad));
}

#[test]
fn eval_wraps_on_overflow() {
    // one word width: a literal of 2^64 wraps to 0 on a 64-bit machine
    if usize::BITS == 64 {
        assert_eq!(evaluate("18446744073709551616"), Ok(0));
        assert_eq!(evaluate("18446744073709551615 + 1"), Ok(0));
    }
}
