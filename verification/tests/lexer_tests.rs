use kalkulator::lexer::Operator;
use kalkulator::lexer::Token;
use kalkulator::lexer::Tokens;

#[test]
fn valid_operators() {
    let string = "+-*/";
    let chars: Vec<char> = string.chars().collect();
    let mut tokenizer = Tokens::new(chars);
    tokenizer.tokenize();
    assert_eq!(tokenizer.tokens, operator_tokens());
}

#[test]
fn lexer_valid_parens() {
    let string = "()";
    let chars: Vec<char> = string.chars().collect();
    let mut tokenizer = Tokens::new(chars);
    tokenizer.tokenize();
    assert_eq!(tokenizer.tokens, paren_tokens());
}

#[test]
fn valid_number() {
    let string = "405";
    let chars: Vec<char> = string.chars().collect();
    let mut tokenizer = Tokens::new(chars);
    tokenizer.tokenize();
    assert_eq!(tokenizer.tokens, number_token());
}

#[test]
fn valid_ident() {
    let string = "foo";
    let chars: Vec<char> = string.chars().collect();
    let mut tokenizer = Tokens::new(chars);
    tokenizer.tokenize();
    assert_eq!(tokenizer.tokens, ident_token());
}

#[test]
fn invalid_num() {
    let string = "1invalid";
    let chars: Vec<char> = string.chars().collect();
    let mut tokenizer = Tokens::new(chars);
    tokenizer.tokenize();
    assert_eq!(tokenizer.tokens, vec![Token::Error(String::from("1i"))]);
}

#[test]
fn invalid_ident() {
    let string = "b1nvalid";
    let chars: Vec<char> = string.chars().collect();
    let mut tokenizer = Tokens::new(chars);
    tokenizer.tokenize();
    assert_eq!(tokenizer.tokens, vec![Token::Error(String::from("b1"))]);
}

#[test]
fn valid_no_spaces() {
    let string = "x=3-(42/bar)";
    let chars: Vec<char> = string.chars().collect();
    let mut tokenizer = Tokens::new(chars);
    tokenizer.tokenize();
    assert_eq!(tokenizer.tokens, no_spaces_tokens());
}

fn operator_tokens() -> Vec<Token> {
    vec![
        Token::Op(Operator::Plus),
        Token::Op(Operator::Minus),
        Token::Op(Operator::Times),
        Token::Op(Operator::Divide),
        Token::End,
    ]
}

fn paren_tokens() -> Vec<Token> {
    vec![Token::LParen, Token::RParen, Token::End]
}

fn number_token() -> Vec<Token> {
    vec![Token::Num(405), Token::End]
}

fn ident_token() -> Vec<Token> {
    vec![Token::Ident(String::from("foo")), Token::End]
}

fn no_spaces_tokens() -> Vec<Token> {
    vec![
        Token::Ident(String::from("x")),
        Token::Assign,
        Token::Num(3),
        Token::Op(Operator::Minus),
        Token::LParen,
        Token::Num(42),
        Token::Op(Operator::Divide),
        Token::Ident(String::from("bar")),
        Token::RParen,
        Token::End,
    ]
}
