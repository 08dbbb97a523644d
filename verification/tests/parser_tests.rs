use kalkulator::lexer::Operator;
use kalkulator::lexer::Token;
use kalkulator::parser::ParseTree;
use kalkulator::parser::Parser;
use kalkulator::parser::ProdOp;
use kalkulator::parser::SumOp;

#[test]
fn valid_assign() {
    let valid_tokens = valid_assign_tokens();
    let mut valid_parser = Parser::new();
    valid_parser.parse(valid_tokens);
    assert_eq!(valid_parser.tree.unwrap(), valid_assign_tree());
}

#[test]
fn invalid_assign() {
    let invalid_tokens = invalid_assign_tokens();
    let mut invalid_parser = Parser::new();
    invalid_parser.parse(invalid_tokens);
    assert!(invalid_parser.tree.is_err(), "Only variables can be assigned to");
}

#[test]
fn parser_valid_sum() {
    let valid_tokens = valid_expression_tokens(Operator::Plus);
    let mut valid_parser = Parser::new();
    valid_parser.parse(valid_tokens);
    assert_eq!(valid_parser.tree.unwrap(), valid_expression_tree(SumOp::Plus));
}

#[test]
fn invalid_sum() {
    let invalid_tokens = invalid_expression_tokens(Operator::Plus);
    let mut invalid_parser = Parser::new();
    invalid_parser.parse(invalid_tokens);
    assert!(invalid_parser.tree.is_err(), "Unexpected end of input");
}

#[test]
fn valid_product() {
    let valid_tokens = valid_expression_tokens(Operator::Times);
    let mut valid_parser = Parser::new();
    valid_parser.parse(valid_tokens);
    assert_eq!(valid_parser.tree.unwrap(), valid_term_tree(ProdOp::Times));
}

#[test]
fn invalid_product() {
    let invalid_tokens = invalid_expression_tokens(Operator::Times);
    let mut invalid_parser = Parser::new();
    invalid_parser.parse(invalid_tokens);
    assert!(invalid_parser.tree.is_err(), "Unexpected end of input");
}

#[test]
fn order_of_ops() {
    let mut order_tokens = invalid_expression_tokens(Operator::Minus);
    order_tokens.append(&mut valid_expression_tokens(Operator::Divide));
    let mut valid_parser = Parser::new();
    valid_parser.parse(order_tokens);
    assert_eq!(valid_parser.tree.unwrap(), order_tree());
}

#[test]
fn valid_unary_ops() {
    let valid_tokens = unary_tokens();
    let mut valid_parser = Parser::new();
    valid_parser.parse(valid_tokens);
    assert_eq!(
        valid_parser.tree.unwrap(),
        Box::new(ParseTree::Unary(SumOp::Minus, Box::new(ParseTree::Num(1))))
    );
}

#[test]
fn parser_valid_parens() {
    let valid_tokens = valid_parens_tokens();
    let mut valid_parser = Parser::new();
    valid_parser.parse(valid_tokens);
    assert_eq!(valid_parser.tree.unwrap(), valid_parens_tree());
}

#[test]
fn invalid_parens() {
    let invalid_tokens = invalid_parens_tokens();
    let mut invalid_parser = Parser::new();
    invalid_parser.parse(invalid_tokens);
    assert!(invalid_parser.tree.is_err(), "Missing right parenthesis");
}

#[test]
fn catch_err_tokens() {
    let invalid_tokens = error_tokens();
    let mut invalid_parser = Parser::new();
    invalid_parser.parse(invalid_tokens);
    assert!(invalid_parser.tree.is_err(), "Unexpected end of input");
}

fn valid_assign_tokens() -> Vec<Token> {
    vec![Token::Ident(String::from("x")), Token::Assign, Token::Num(1)]
}

fn invalid_assign_tokens() -> Vec<Token> {
    vec![Token::Num(3), Token::Assign, Token::Ident(String::from("x"))]
}

fn valid_assign_tree() -> Box<ParseTree> {
    Box::new(ParseTree::Assign(String::from("x"), Box::new(ParseTree::Num(1))))
}

fn valid_expression_tokens(op: Operator) -> Vec<Token> {
    vec![Token::Num(1), Token::Op(op), Token::Num(2)]
}

fn invalid_expression_tokens(op: Operator) -> Vec<Token> {
    vec![Token::Num(3), Token::Op(op)]
}

fn valid_expression_tree(op: SumOp) -> Box<ParseTree> {
    Box::new(ParseTree::Sum(op, Box::new(ParseTree::Num(1)), Box::new(ParseTree::Num(2))))
}

fn valid_term_tree(op: ProdOp) -> Box<ParseTree> {
    Box::new(ParseTree::Prod(op, Box::new(ParseTree::Num(1)), Box::new(ParseTree::Num(2))))
}

fn order_tree() -> Box<ParseTree> {
    Box::new(ParseTree::Sum(
        SumOp::Minus,
        Box::new(ParseTree::Num(3)),
        Box::new(ParseTree::Prod(
            ProdOp::Divide,
            Box::new(ParseTree::Num(1)),
            Box::new(ParseTree::Num(2)),
        )),
    ))
}

fn unary_tokens() -> Vec<Token> {
    vec![Token::Op(Operator::Minus), Token::Num(1)]
}

fn valid_parens_tokens() -> Vec<Token> {
    vec![
        Token::Num(3),
        Token::Op(Operator::Times),
        Token::LParen,
        Token::Num(1),
        Token::Op(Operator::Plus),
        Token::Num(2),
        Token::RParen,
    ]
}

fn invalid_parens_tokens() -> Vec<Token> {
    vec![Token::LParen, Token::Num(1), Token::Op(Operator::Plus), Token::Num(2)]
}

fn valid_parens_tree() -> Box<ParseTree> {
    Box::new(ParseTree::Prod(
        ProdOp::Times,
        Box::new(ParseTree::Num(3)),
        Box::new(ParseTree::Sum(
            SumOp::Plus,
            Box::new(ParseTree::Num(1)),
            Box::new(ParseTree::Num(2)),
        )),
    ))
}

fn error_tokens() -> Vec<Token> {
    vec![Token::Num(3), Token::Error(String::from("$")), Token::Ident(String::from("x"))]
}
