use calculator::parser::parse;
use calculator::parser::ParseError;
use calculator::parser::AST;
use calculator::tokenizer::tokenize;
use calculator::tokenizer::Operator;

fn parse_expr(expr: &str) -> Result<AST, ParseError> {
    let mut tokens = tokenize(expr);
    parse(&mut tokens)
}

#[test]
fn basic_value() {
    assert_eq!(parse_expr("42"), Ok(AST::Value(42)));
}

#[test]
fn basic_binary_operation() {
    let left = Box::new(AST::Value(1));
    let right = Box::new(AST::Value(2));
    let result = AST::Operator(Operator::Add, left, right);
    assert_eq!(parse_expr("1 + 2"), Ok(result));
}

#[test]
fn invalid_expression() {
    assert_eq!(parse_expr("1 1"), Err(ParseError::InvalidExpression));
}

#[test]
fn missing_right_parenthesis() {
    assert_eq!(parse_expr("(1"), Err(ParseError::UnmatchedLeftParenthesis));
}

#[test]
fn missing_left_parenthesis() {
    assert_eq!(parse_expr("1 )"), Err(ParseError::UnmatchedRightParenthesis))
}

#[test]
fn invalid_prefix_expression() {
    assert_eq!(parse_expr("+ 1"), Err(ParseError::InvalidPrefix));
}

#[test]
fn invalid_token_expression() {
    assert_eq!(parse_expr("= 1"), Err(ParseError::InvalidToken));
}

#[test]
fn invalid_infix_expression() {
    assert_eq!(parse_expr("1 (2)"), Err(ParseError::InvalidInfix));
}

#[test]
fn nothing_to_parse() {
    assert_eq!(parse_expr(""), Err(ParseError::NothingToParse));
    assert_eq!(parse_expr("  "), Err(ParseError::NothingToParse));
}

#[test]
fn parse_exhausts_stream() {
    let mut tokens = tokenize("1 + 2 * (3 - 4)");
    let result = parse(&mut tokens);
    assert!(result.is_ok());
    assert_eq!(tokens.next(), None);
}

#[test]
fn left_associative_tree() {
    let one = Box::new(AST::Value(1));
    let two = Box::new(AST::Value(2));
    let three = Box::new(AST::Value(3));
    let inner = Box::new(AST::Operator(Operator::Substract, one, two));
    let expected = AST::Operator(Operator::Substract, inner, three);
    assert_eq!(parse_expr("1 - 2 - 3"), Ok(expected));
}

#[test]
fn prefix_minus_tree() {
    let zero = Box::new(AST::Value(0));
    let four = Box::new(AST::Value(4));
    let expected = AST::Operator(Operator::Substract, zero, four);
    assert_eq!(parse_expr("-4"), Ok(expected));
}
