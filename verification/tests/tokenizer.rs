use calculator::tokenizer::tokenize;
use calculator::tokenizer::Operator;
use calculator::tokenizer::Token;

#[test]
fn tokenizer_test() {
    let mut tokens = tokenize(" 123 +  (12 * 54 - 2)");

    assert_eq!(Some(Token::Number(123)), tokens.next());
    assert_eq!(Some(Token::Operator(Operator::Add)), tokens.next());
    assert_eq!(Some(Token::LeftParen), tokens.next());
    assert_eq!(Some(Token::Number(12)), tokens.next());
    assert_eq!(Some(Token::Operator(Operator::Multiply)), tokens.next());
    assert_eq!(Some(Token::Number(54)), tokens.next());
    assert_eq!(Some(Token::Operator(Operator::Substract)), tokens.next());
    assert_eq!(Some(Token::Number(2)), tokens.next());
    assert_eq!(Some(Token::RightParen), tokens.next());
    assert_eq!(None, tokens.next());
}

#[test]
fn tokenizer_peek_does_not_consume() {
    let mut tokens = tokenize("7 * 8");

    assert_eq!(Some(Token::Number(7)), tokens.peek());
    assert_eq!(Some(Token::Number(7)), tokens.peek());
    assert_eq!(Some(Token::Number(7)), tokens.next());
    assert_eq!(Some(Token::Operator(Operator::Multiply)), tokens.next());
    assert_eq!(Some(Token::Number(8)), tokens.next());
    assert_eq!(None, tokens.peek());
    assert_eq!(None, tokens.next());
}

#[test]
fn tokenizer_invalid_characters() {
    let mut tokens = tokenize("1a%2");

    assert_eq!(Some(Token::Number(1)), tokens.next());
    assert_eq!(Some(Token::InvalidToken), tokens.next());
    assert_eq!(Some(Token::InvalidToken), tokens.next());
    assert_eq!(Some(Token::Number(2)), tokens.next());
    assert_eq!(None, tokens.next());
}

#[test]
fn tokenizer_empty_input() {
    let mut tokens = tokenize("");
    assert_eq!(None, tokens.next());

    let mut blanks = tokenize("   ");
    assert_eq!(None, blanks.next());
}
