//! End-to-end checks of the lexer, parser and evaluator together: one line of
//! text in, a value or a descriptive error out, with the environment threaded
//! between lines.

use kalkulator::env::Env;
use kalkulator::evaluator::evaluate;
use kalkulator::evaluator::evaluate_tree;
use kalkulator::evaluator::Error;
use kalkulator::evaluator::EvalError;
use kalkulator::lexer::Token;
use kalkulator::lexer::Tokens;
use kalkulator::parser::ParseError;
use kalkulator::parser::ParseTree;
use kalkulator::parser::Parser;
use kalkulator::parser::ProdOp;
use kalkulator::parser::SumOp;

fn run(line: &str, env: Env) -> (Result<i32, Error>, Env) {
    let mut tokenizer = Tokens::new(line.chars().collect());
    tokenizer.tokenize();
    let mut parser = Parser::new();
    parser.parse(tokenizer.tokens);
    evaluate(parser.tree, env)
}

fn value_of(line: &str) -> i32 {
    run(line, Env::new()).0.unwrap()
}

#[test]
fn sum_of_literals() {
    assert_eq!(value_of("1 + 2"), 3);
    assert_eq!(value_of("40 + 2"), 42);
}

#[test]
fn difference_of_literals() {
    assert_eq!(value_of("1 - 2"), -1);
    assert_eq!(value_of("44 - 2"), 42);
}

#[test]
fn product_of_literals() {
    assert_eq!(value_of("6 * 7"), 42);
    assert_eq!(value_of("0 * 7"), 0);
}

#[test]
fn quotient_truncates_toward_zero() {
    assert_eq!(value_of("7 / 2"), 3);
    assert_eq!(value_of("-7 / 2"), -3);
    assert_eq!(value_of("7 / (0 - 2)"), -3);
    assert_eq!(value_of("84 / 2"), 42);
}

#[test]
fn division_by_zero_fails() {
    let (result, _) = run("1 / 0", Env::new());
    assert_eq!(result, Err(Error::Eval(EvalError::DivisionByZero)));
}

#[test]
fn product_binds_tighter_than_sum() {
    assert_eq!(value_of("1 - 3 * 2"), -5);
}

#[test]
fn precedence_shapes_the_tree() {
    let mut tokenizer = Tokens::new("1 - 3 * 2".chars().collect());
    tokenizer.tokenize();
    let mut parser = Parser::new();
    parser.parse(tokenizer.tokens);
    let expected = Box::new(ParseTree::Sum(
        SumOp::Minus,
        Box::new(ParseTree::Num(1)),
        Box::new(ParseTree::Prod(
            ProdOp::Times,
            Box::new(ParseTree::Num(3)),
            Box::new(ParseTree::Num(2)),
        )),
    ));
    assert_eq!(parser.tree.unwrap(), expected);
}

#[test]
fn parentheses_group_first() {
    assert_eq!(value_of("3 * (1 + 2)"), 9);
}

#[test]
fn unary_minus_evaluates() {
    assert_eq!(value_of("- -1 + 1"), 2);
    assert_eq!(value_of("-1 + 1"), 0);
    assert_eq!(value_of("- - 1"), 1);
}

#[test]
fn assignment_yields_and_recalls() {
    let (result, env) = run("x = 1 + 2", Env::new());
    assert_eq!(result.unwrap(), 3);
    let (recalled, _) = run("x", env);
    assert_eq!(recalled.unwrap(), 3);
}

#[test]
fn assignment_overwrites() {
    let (_, env) = run("x = 1", Env::new());
    let (_, env) = run("x = 2", env);
    let (recalled, _) = run("x", env);
    assert_eq!(recalled.unwrap(), 2);
}

#[test]
fn chained_assignment_is_right_associative() {
    let (result, env) = run("x = y = 4", Env::new());
    assert_eq!(result.unwrap(), 4);
    let (x, env) = run("x", env);
    assert_eq!(x.unwrap(), 4);
    let (y, _) = run("y", env);
    assert_eq!(y.unwrap(), 4);
}

#[test]
fn subtraction_chain_is_right_associative() {
    assert_eq!(value_of("1 - 2 - 3"), 2);
}

#[test]
fn undefined_variable_fails_and_keeps_env() {
    let (result, env) = run("1 + y", Env::new());
    assert_eq!(result, Err(Error::Eval(EvalError::UndefinedVariable)));
    let (again, _) = run("y", env);
    assert_eq!(again, Err(Error::Eval(EvalError::UndefinedVariable)));
}

#[test]
fn assignment_to_number_fails_at_parse_time() {
    let (result, _) = run("3 = x", Env::new());
    assert_eq!(result, Err(Error::Parse(ParseError::AssignTarget)));
}

#[test]
fn digits_followed_by_letters_are_malformed() {
    let mut tokenizer = Tokens::new("1abc".chars().collect());
    tokenizer.tokenize();
    assert_eq!(tokenizer.tokens, vec![Token::Error(String::from("1a"))]);
    let (result, _) = run("1abc", Env::new());
    assert_eq!(result, Err(Error::Parse(ParseError::ErrorToken(String::from("1a")))));
}

#[test]
fn reevaluation_without_assignment_is_stable() {
    let (_, env) = run("x = 5", Env::new());
    let first_tree = ParseTree::Sum(
        SumOp::Plus,
        Box::new(ParseTree::Var(String::from("x"))),
        Box::new(ParseTree::Num(2)),
    );
    let second_tree = ParseTree::Sum(
        SumOp::Plus,
        Box::new(ParseTree::Var(String::from("x"))),
        Box::new(ParseTree::Num(2)),
    );
    let (first, env) = evaluate_tree(first_tree, env);
    let (second, env) = evaluate_tree(second_tree, env);
    assert_eq!(first.unwrap(), 7);
    assert_eq!(second.unwrap(), 7);
    let (x, _) = run("x", env);
    assert_eq!(x.unwrap(), 5);
}

#[test]
fn trailing_tokens_are_silently_dropped() {
    // The grammar does not reject trailing tokens after a complete
    // expression; the first expression alone is the result.
    assert_eq!(value_of("1 2"), 1);
}

#[test]
fn addition_overflow_fails() {
    let (result, _) = run("2000000000 + 2000000000", Env::new());
    assert_eq!(result, Err(Error::Eval(EvalError::Overflow)));
}

#[test]
fn literal_too_large_fails_at_lex_time() {
    let mut tokenizer = Tokens::new("9999999999".chars().collect());
    tokenizer.tokenize();
    assert_eq!(tokenizer.tokens, vec![Token::Error(String::from("9999999999"))]);
}

#[test]
fn negation_of_smallest_value_overflows() {
    let (result, env) = run("x = -2147483647 - 1", Env::new());
    assert_eq!(result.unwrap(), -2147483648);
    let (negated, env) = run("- x", env);
    assert_eq!(negated, Err(Error::Eval(EvalError::Overflow)));
    let (divided, _) = run("x / -1", env);
    assert_eq!(divided, Err(Error::Eval(EvalError::Overflow)));
}

#[test]
fn missing_operand_fails() {
    let (result, _) = run("1 +", Env::new());
    assert_eq!(result, Err(Error::Parse(ParseError::UnexpectedEnd)));
}

#[test]
fn stray_star_is_an_invalid_unary() {
    let (result, _) = run("* 3", Env::new());
    assert_eq!(result, Err(Error::Parse(ParseError::InvalidUnary)));
}

#[test]
fn unclosed_parenthesis_fails() {
    let (result, _) = run("(1 + 2", Env::new());
    assert_eq!(result, Err(Error::Parse(ParseError::MissingRParen)));
}

#[test]
fn stray_character_is_carried_in_the_error() {
    let (result, _) = run("1 $ 2", Env::new());
    assert_eq!(result, Err(Error::Parse(ParseError::ErrorToken(String::from("$")))));
}

#[test]
fn fresh_parser_has_nothing_to_parse() {
    let parser = Parser::new();
    assert_eq!(parser.tree, Err(ParseError::NothingToParse));
}

#[test]
fn paren_after_digits_is_malformed() {
    // A digit run may only end at whitespace, an operator, `=` or `)`;
    // an opening parenthesis directly after digits is malformed.
    let mut tokenizer = Tokens::new("1(abc".chars().collect());
    tokenizer.tokenize();
    assert_eq!(tokenizer.tokens, vec![Token::Error(String::from("1("))]);
}

#[test]
fn errors_render_their_messages() {
    let (undefined, _) = run("1 + y", Env::new());
    assert_eq!(undefined.unwrap_err().message(), String::from("Undefined variable"));
    let (target, _) = run("3 = x", Env::new());
    assert_eq!(
        target.unwrap_err().message(),
        String::from("Only variables can be assigned to")
    );
    let (division, _) = run("1 / 0", Env::new());
    assert_eq!(division.unwrap_err().message(), String::from("Division by zero"));
    let (token, _) = run("1 $ 2", Env::new());
    assert_eq!(token.unwrap_err().message(), String::from("Parse error on token: $"));
    let (unexpected, _) = run("1 +", Env::new());
    assert_eq!(unexpected.unwrap_err().message(), String::from("Unexpected end of input"));
    let (unary, _) = run("* 3", Env::new());
    assert_eq!(unary.unwrap_err().message(), String::from("Invalid unary operator"));
    let (paren, _) = run("(1 + 2", Env::new());
    assert_eq!(paren.unwrap_err().message(), String::from("Missing right parenthesis"));
}

#[test]
fn identifiers_survive_the_round_trip() {
    let (result, env) = run("value = 12", Env::new());
    assert_eq!(result.unwrap(), 12);
    let (recalled, _) = run("value * value", env);
    assert_eq!(recalled.unwrap(), 144);
}
