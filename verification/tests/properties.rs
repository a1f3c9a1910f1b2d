use pratt_parser::parser::parse;
use pratt_parser::program::{Expression, Ident, Program, Statement};
use pratt_parser::token::Token;

fn ident(name: &str) -> Token {
    Token::Ident(name.to_string())
}

fn var(name: &str) -> Expression {
    Expression::Identifier(Ident(name.to_string()))
}

fn lit(value: i64) -> Expression {
    Expression::IntLiteral(value)
}

fn infix(left: Expression, op: Token, right: Expression) -> Expression {
    Expression::InfixExpression(Box::new(left), op, Box::new(right))
}

fn prefix(op: Token, right: Expression) -> Expression {
    Expression::PrefixExpression(op, Box::new(right))
}

fn program_of(statements: Vec<Statement>) -> Program {
    Program { statements }
}

fn single(expr: Expression) -> Program {
    program_of(vec![Statement::ExpressionStatement(expr)])
}

fn message_of(tokens: Vec<Token>) -> String {
    match parse(tokens) {
        Ok(program) => panic!("parsed as {:?}", program),
        Err(e) => e.to_string(),
    }
}

#[test]
fn let_statement_binds_identifier_to_literal() {
    // let x = 5;
    let tokens = vec![Token::Let, ident("x"), Token::Assign, Token::Int(5), Token::Semicolon];
    let expected = program_of(vec![Statement::LetStatement(Ident("x".to_string()), lit(5))]);
    assert_eq!(parse(tokens).unwrap(), expected);
}

#[test]
fn multiplication_binds_tighter_than_addition() {
    // 1 + 2 * 3
    let tokens = vec![Token::Int(1), Token::Plus, Token::Int(2), Token::Asterisk, Token::Int(3)];
    let expected = single(infix(lit(1), Token::Plus, infix(lit(2), Token::Asterisk, lit(3))));
    assert_eq!(parse(tokens).unwrap(), expected);
}

#[test]
fn subtraction_is_left_associative() {
    // 1 - 2 - 3
    let tokens = vec![Token::Int(1), Token::Minus, Token::Int(2), Token::Minus, Token::Int(3)];
    let expected = single(infix(infix(lit(1), Token::Minus, lit(2)), Token::Minus, lit(3)));
    assert_eq!(parse(tokens).unwrap(), expected);
    let right_nested = single(infix(lit(1), Token::Minus, infix(lit(2), Token::Minus, lit(3))));
    let tokens = vec![Token::Int(1), Token::Minus, Token::Int(2), Token::Minus, Token::Int(3)];
    assert_ne!(parse(tokens).unwrap(), right_nested);
}

#[test]
fn grouping_overrides_precedence() {
    // (1 + 2) * 3
    let tokens = vec![
        Token::LParen,
        Token::Int(1),
        Token::Plus,
        Token::Int(2),
        Token::RParen,
        Token::Asterisk,
        Token::Int(3),
    ];
    let expected = single(infix(infix(lit(1), Token::Plus, lit(2)), Token::Asterisk, lit(3)));
    assert_eq!(parse(tokens).unwrap(), expected);
}

#[test]
fn unary_minus_binds_tighter_than_multiplication() {
    // -a * b
    let tokens = vec![Token::Minus, ident("a"), Token::Asterisk, ident("b")];
    let expected = single(infix(prefix(Token::Minus, var("a")), Token::Asterisk, var("b")));
    assert_eq!(parse(tokens).unwrap(), expected);
}

#[test]
fn bang_applies_to_negation() {
    // !-a
    let tokens = vec![Token::Bang, Token::Minus, ident("a")];
    let expected = single(prefix(Token::Bang, prefix(Token::Minus, var("a"))));
    assert_eq!(parse(tokens).unwrap(), expected);
}

#[test]
fn call_and_index_chain() {
    // f(1, 2)[0]
    let tokens = vec![
        ident("f"),
        Token::LParen,
        Token::Int(1),
        Token::Comma,
        Token::Int(2),
        Token::RParen,
        Token::LBracket,
        Token::Int(0),
        Token::RBracket,
    ];
    let call = Expression::CallExpression(Box::new(var("f")), vec![lit(1), lit(2)]);
    let expected = single(Expression::IndexExpression(Box::new(call), Box::new(lit(0))));
    assert_eq!(parse(tokens).unwrap(), expected);
}

#[test]
fn empty_array_literal() {
    // []
    let tokens = vec![Token::LBracket, Token::RBracket];
    assert_eq!(parse(tokens).unwrap(), single(Expression::ArrayLiteral(vec![])));
}

#[test]
fn empty_hash_literal() {
    // {}
    let tokens = vec![Token::LBrace, Token::RBrace];
    assert_eq!(parse(tokens).unwrap(), single(Expression::HashLiteral(vec![])));
}

#[test]
fn let_without_equal_sign_fails() {
    // let x 5;
    let tokens = vec![Token::Let, ident("x"), Token::Int(5), Token::Semicolon];
    assert!(parse(tokens).is_err());
    let tokens = vec![Token::Let, ident("x"), Token::Int(5), Token::Semicolon];
    assert_eq!(message_of(tokens), "no equal sign!");
}

#[test]
fn return_semicolon_is_optional() {
    // return 5;   and   return 5
    let with = parse(vec![Token::Return, Token::Int(5), Token::Semicolon]).unwrap();
    let without = parse(vec![Token::Return, Token::Int(5)]).unwrap();
    assert_eq!(with, without);
    assert_eq!(with, program_of(vec![Statement::ReturnStatement(lit(5))]));
}

#[test]
fn unterminated_block_fails() {
    // function () {
    let tokens = vec![Token::Function, Token::LParen, Token::RParen, Token::LBrace];
    assert!(parse(tokens).is_err());
    let tokens = vec![Token::Function, Token::LParen, Token::RParen, Token::LBrace];
    assert_eq!(message_of(tokens), "no prefix parse function for EOF");
}
