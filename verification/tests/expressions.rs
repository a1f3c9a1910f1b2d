use pratt_parser::parser::parse;
use pratt_parser::program::{Expression, Ident, Precedence, Program, Statement};
use pratt_parser::token::Token;

fn name_token(name: &str) -> Token {
    Token::Ident(name.to_string())
}

fn named(name: &str) -> Expression {
    Expression::Identifier(Ident(name.to_string()))
}

fn num(value: i64) -> Expression {
    Expression::IntLiteral(value)
}

fn binary(left: Expression, op: Token, right: Expression) -> Expression {
    Expression::InfixExpression(Box::new(left), op, Box::new(right))
}

fn unary(op: Token, right: Expression) -> Expression {
    Expression::PrefixExpression(op, Box::new(right))
}

fn statements(statements: Vec<Statement>) -> Program {
    Program { statements }
}

fn only(expr: Expression) -> Program {
    statements(vec![Statement::ExpressionStatement(expr)])
}

#[test]
fn empty_input_is_empty_program() {
    assert_eq!(parse(vec![]).unwrap(), statements(vec![]));
    assert_eq!(Program::default(), statements(vec![]));
}

#[test]
fn literals() {
    assert_eq!(parse(vec![Token::Int(-7)]).unwrap(), only(num(-7)));
    assert_eq!(parse(vec![Token::Bool(true)]).unwrap(), only(Expression::BoolLiteral(true)));
    assert_eq!(
        parse(vec![Token::String("hi there".to_string())]).unwrap(),
        only(Expression::StringLiteral("hi there".to_string()))
    );
    assert_eq!(parse(vec![name_token("x")]).unwrap(), only(named("x")));
}

#[test]
fn statements_in_source_order() {
    // let a = 1; return a; a
    let tokens = vec![
        Token::Let,
        name_token("a"),
        Token::Assign,
        Token::Int(1),
        Token::Semicolon,
        Token::Return,
        name_token("a"),
        Token::Semicolon,
        name_token("a"),
    ];
    let expected = statements(vec![
        Statement::LetStatement(Ident("a".to_string()), num(1)),
        Statement::ReturnStatement(named("a")),
        Statement::ExpressionStatement(named("a")),
    ]);
    assert_eq!(parse(tokens).unwrap(), expected);
}

#[test]
fn let_semicolon_is_optional() {
    let with = parse(vec![
        Token::Let,
        name_token("x"),
        Token::Assign,
        Token::Int(5),
        Token::Semicolon,
    ]);
    let without = parse(vec![Token::Let, name_token("x"), Token::Assign, Token::Int(5)]);
    assert_eq!(with.unwrap(), without.unwrap());
}

#[test]
fn expression_semicolon_is_optional() {
    let with = parse(vec![Token::Int(5), Token::Semicolon]);
    let without = parse(vec![Token::Int(5)]);
    assert_eq!(with.unwrap(), without.unwrap());
}

#[test]
fn semicolon_ends_an_expression() {
    // 1; 2
    let tokens = vec![Token::Int(1), Token::Semicolon, Token::Int(2)];
    let expected = statements(vec![
        Statement::ExpressionStatement(num(1)),
        Statement::ExpressionStatement(num(2)),
    ]);
    assert_eq!(parse(tokens).unwrap(), expected);
}

#[test]
fn statements_need_no_separator() {
    // 1 2
    let tokens = vec![Token::Int(1), Token::Int(2)];
    let expected = statements(vec![
        Statement::ExpressionStatement(num(1)),
        Statement::ExpressionStatement(num(2)),
    ]);
    assert_eq!(parse(tokens).unwrap(), expected);
}

#[test]
fn comparison_binds_tighter_than_equality() {
    // 1 < 2 == true
    let tokens =
        vec![Token::Int(1), Token::LT, Token::Int(2), Token::Eq, Token::Bool(true)];
    let expected = only(binary(
        binary(num(1), Token::LT, num(2)),
        Token::Eq,
        Expression::BoolLiteral(true),
    ));
    assert_eq!(parse(tokens).unwrap(), expected);
}

#[test]
fn addition_on_the_right_of_equality() {
    // a != b + c / d
    let tokens = vec![
        name_token("a"),
        Token::NotEq,
        name_token("b"),
        Token::Plus,
        name_token("c"),
        Token::Slash,
        name_token("d"),
    ];
    let expected = only(binary(
        named("a"),
        Token::NotEq,
        binary(named("b"), Token::Plus, binary(named("c"), Token::Slash, named("d"))),
    ));
    assert_eq!(parse(tokens).unwrap(), expected);
}

#[test]
fn equal_levels_group_to_the_left() {
    // a * b / c > d
    let tokens = vec![
        name_token("a"),
        Token::Asterisk,
        name_token("b"),
        Token::Slash,
        name_token("c"),
        Token::GT,
        name_token("d"),
    ];
    let expected = only(binary(
        binary(binary(named("a"), Token::Asterisk, named("b")), Token::Slash, named("c")),
        Token::GT,
        named("d"),
    ));
    assert_eq!(parse(tokens).unwrap(), expected);
}

#[test]
fn nested_groups() {
    // ((1))
    let tokens =
        vec![Token::LParen, Token::LParen, Token::Int(1), Token::RParen, Token::RParen];
    assert_eq!(parse(tokens).unwrap(), only(num(1)));
}

#[test]
fn group_on_the_right() {
    // 1 * (2 + 3)
    let tokens = vec![
        Token::Int(1),
        Token::Asterisk,
        Token::LParen,
        Token::Int(2),
        Token::Plus,
        Token::Int(3),
        Token::RParen,
    ];
    let expected = only(binary(num(1), Token::Asterisk, binary(num(2), Token::Plus, num(3))));
    assert_eq!(parse(tokens).unwrap(), expected);
}

#[test]
fn bang_applies_to_a_call() {
    // !f(x)
    let tokens = vec![Token::Bang, name_token("f"), Token::LParen, name_token("x"), Token::RParen];
    let call = Expression::CallExpression(Box::new(named("f")), vec![named("x")]);
    assert_eq!(parse(tokens).unwrap(), only(unary(Token::Bang, call)));
}

#[test]
fn minus_binds_tighter_than_a_call() {
    // -f(x)
    let tokens = vec![Token::Minus, name_token("f"), Token::LParen, name_token("x"), Token::RParen];
    let callee = unary(Token::Minus, named("f"));
    let expected = only(Expression::CallExpression(Box::new(callee), vec![named("x")]));
    assert_eq!(parse(tokens).unwrap(), expected);
}

#[test]
fn minus_of_a_group() {
    // -(1 + 2)
    let tokens = vec![
        Token::Minus,
        Token::LParen,
        Token::Int(1),
        Token::Plus,
        Token::Int(2),
        Token::RParen,
    ];
    let expected = only(unary(Token::Minus, binary(num(1), Token::Plus, num(2))));
    assert_eq!(parse(tokens).unwrap(), expected);
}

#[test]
fn minus_as_right_operand() {
    // 1 + -2
    let tokens = vec![Token::Int(1), Token::Plus, Token::Minus, Token::Int(2)];
    let expected = only(binary(num(1), Token::Plus, unary(Token::Minus, num(2))));
    assert_eq!(parse(tokens).unwrap(), expected);
}

#[test]
fn call_without_arguments() {
    // f()
    let tokens = vec![name_token("f"), Token::LParen, Token::RParen];
    let expected = only(Expression::CallExpression(Box::new(named("f")), vec![]));
    assert_eq!(parse(tokens).unwrap(), expected);
}

#[test]
fn call_arguments_are_expressions() {
    // f(1 + 2, g(3))
    let tokens = vec![
        name_token("f"),
        Token::LParen,
        Token::Int(1),
        Token::Plus,
        Token::Int(2),
        Token::Comma,
        name_token("g"),
        Token::LParen,
        Token::Int(3),
        Token::RParen,
        Token::RParen,
    ];
    let inner = Expression::CallExpression(Box::new(named("g")), vec![num(3)]);
    let expected = only(Expression::CallExpression(
        Box::new(named("f")),
        vec![binary(num(1), Token::Plus, num(2)), inner],
    ));
    assert_eq!(parse(tokens).unwrap(), expected);
}

#[test]
fn index_binds_tighter_than_multiplication() {
    // a * b[0]
    let tokens = vec![
        name_token("a"),
        Token::Asterisk,
        name_token("b"),
        Token::LBracket,
        Token::Int(0),
        Token::RBracket,
    ];
    let index = Expression::IndexExpression(Box::new(named("b")), Box::new(num(0)));
    assert_eq!(parse(tokens).unwrap(), only(binary(named("a"), Token::Asterisk, index)));
}

#[test]
fn array_elements_in_order() {
    // [1, 2 * 3, x]
    let tokens = vec![
        Token::LBracket,
        Token::Int(1),
        Token::Comma,
        Token::Int(2),
        Token::Asterisk,
        Token::Int(3),
        Token::Comma,
        name_token("x"),
        Token::RBracket,
    ];
    let expected = only(Expression::ArrayLiteral(vec![
        num(1),
        binary(num(2), Token::Asterisk, num(3)),
        named("x"),
    ]));
    assert_eq!(parse(tokens).unwrap(), expected);
}

#[test]
fn hash_with_one_pair() {
    // {"a": 1 + 2}
    let tokens = vec![
        Token::LBrace,
        Token::String("a".to_string()),
        Token::Colon,
        Token::Int(1),
        Token::Plus,
        Token::Int(2),
        Token::RBrace,
    ];
    let expected = only(Expression::HashLiteral(vec![(
        Expression::StringLiteral("a".to_string()),
        binary(num(1), Token::Plus, num(2)),
    )]));
    assert_eq!(parse(tokens).unwrap(), expected);
}

#[test]
fn conditional_has_empty_alternative() {
    // if (x < y) { x }
    let tokens = vec![
        Token::If,
        Token::LParen,
        name_token("x"),
        Token::LT,
        name_token("y"),
        Token::RParen,
        Token::LBrace,
        name_token("x"),
        Token::RBrace,
    ];
    let expected = only(Expression::IfExpression(
        Box::new(binary(named("x"), Token::LT, named("y"))),
        vec![Statement::ExpressionStatement(named("x"))],
        vec![],
    ));
    assert_eq!(parse(tokens).unwrap(), expected);
}

#[test]
fn function_literal_with_parameters() {
    // function (a, b) { return a + b; }
    let tokens = vec![
        Token::Function,
        Token::LParen,
        name_token("a"),
        Token::Comma,
        name_token("b"),
        Token::RParen,
        Token::LBrace,
        Token::Return,
        name_token("a"),
        Token::Plus,
        name_token("b"),
        Token::Semicolon,
        Token::RBrace,
    ];
    let expected = only(Expression::FunctionExpression(
        vec![Ident("a".to_string()), Ident("b".to_string())],
        vec![Statement::ReturnStatement(binary(named("a"), Token::Plus, named("b")))],
    ));
    assert_eq!(parse(tokens).unwrap(), expected);
}

#[test]
fn function_literal_without_parameters() {
    // function () {}
    let tokens =
        vec![Token::Function, Token::LParen, Token::RParen, Token::LBrace, Token::RBrace];
    let expected = only(Expression::FunctionExpression(vec![], vec![]));
    assert_eq!(parse(tokens).unwrap(), expected);
}

#[test]
fn function_parameters_pass_over_other_tokens() {
    // function (1, x) {}
    let tokens = vec![
        Token::Function,
        Token::LParen,
        Token::Int(1),
        Token::Comma,
        name_token("x"),
        Token::RParen,
        Token::LBrace,
        Token::RBrace,
    ];
    let expected = only(Expression::FunctionExpression(vec![Ident("x".to_string())], vec![]));
    assert_eq!(parse(tokens).unwrap(), expected);
}

#[test]
fn function_literal_is_called() {
    // function (x) { x } (1)
    let tokens = vec![
        Token::Function,
        Token::LParen,
        name_token("x"),
        Token::RParen,
        Token::LBrace,
        name_token("x"),
        Token::RBrace,
        Token::LParen,
        Token::Int(1),
        Token::RParen,
    ];
    let function = Expression::FunctionExpression(
        vec![Ident("x".to_string())],
        vec![Statement::ExpressionStatement(named("x"))],
    );
    let expected = only(Expression::CallExpression(Box::new(function), vec![num(1)]));
    assert_eq!(parse(tokens).unwrap(), expected);
}

#[test]
fn blocks_nest() {
    // if (a) { if (b) { c } d }
    let tokens = vec![
        Token::If,
        Token::LParen,
        name_token("a"),
        Token::RParen,
        Token::LBrace,
        Token::If,
        Token::LParen,
        name_token("b"),
        Token::RParen,
        Token::LBrace,
        name_token("c"),
        Token::RBrace,
        name_token("d"),
        Token::RBrace,
    ];
    let inner = Expression::IfExpression(
        Box::new(named("b")),
        vec![Statement::ExpressionStatement(named("c"))],
        vec![],
    );
    let expected = only(Expression::IfExpression(
        Box::new(named("a")),
        vec![Statement::ExpressionStatement(inner), Statement::ExpressionStatement(named("d"))],
        vec![],
    ));
    assert_eq!(parse(tokens).unwrap(), expected);
}

#[test]
fn precedence_levels_are_strictly_ordered() {
    let scale = [
        Precedence::Lowest,
        Precedence::Equality,
        Precedence::Relational,
        Precedence::Additive,
        Precedence::Multiplicative,
        Precedence::Prefix,
        Precedence::Call,
    ];
    for (i, level) in scale.iter().enumerate() {
        assert_eq!(level.rank() as usize, i);
    }
    assert_eq!(Precedence::Prefix.tighter(), Precedence::Call);
    assert_eq!(Precedence::Lowest.tighter(), Precedence::Equality);
    assert_eq!(Precedence::Call.tighter(), Precedence::Call);
}

#[test]
fn precedence_of_tokens() {
    assert_eq!(Precedence::from_token(&Token::Eq), Precedence::Equality);
    assert_eq!(Precedence::from_token(&Token::NotEq), Precedence::Equality);
    assert_eq!(Precedence::from_token(&Token::LT), Precedence::Relational);
    assert_eq!(Precedence::from_token(&Token::GT), Precedence::Relational);
    assert_eq!(Precedence::from_token(&Token::Plus), Precedence::Additive);
    assert_eq!(Precedence::from_token(&Token::Minus), Precedence::Additive);
    assert_eq!(Precedence::from_token(&Token::Slash), Precedence::Multiplicative);
    assert_eq!(Precedence::from_token(&Token::Asterisk), Precedence::Multiplicative);
    assert_eq!(Precedence::from_token(&Token::LParen), Precedence::Call);
    assert_eq!(Precedence::from_token(&Token::LBracket), Precedence::Call);
    assert_eq!(Precedence::from_token(&Token::Semicolon), Precedence::Lowest);
    assert_eq!(Precedence::from_token(&Token::EOF), Precedence::Lowest);
    assert_eq!(Precedence::from_token(&Token::Bang), Precedence::Lowest);
    assert_eq!(Precedence::from_token(&name_token("x")), Precedence::Lowest);
}
