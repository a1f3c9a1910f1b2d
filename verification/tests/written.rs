use pratt_parser::parser::parse;
use pratt_parser::program::{Expression, Ident, Program, Statement};
use pratt_parser::token::Token;

fn grouped(mut inner: Vec<Token>) -> Vec<Token> {
    let mut out = vec![Token::LParen];
    out.append(&mut inner);
    out.push(Token::RParen);
    out
}

fn list_tokens(items: &[Expression]) -> Vec<Token> {
    let mut out = vec![];
    for (i, item) in items.iter().enumerate() {
        if i > 0 {
            out.push(Token::Comma);
        }
        out.append(&mut expression_tokens(item));
    }
    out
}

fn block_tokens(statements: &[Statement]) -> Vec<Token> {
    let mut out = vec![];
    for statement in statements {
        out.append(&mut statement_tokens(statement));
    }
    out
}

fn expression_tokens(e: &Expression) -> Vec<Token> {
    match e {
        Expression::Identifier(Ident(name)) => vec![Token::Ident(name.clone())],
        Expression::IntLiteral(value) => vec![Token::Int(*value)],
        Expression::BoolLiteral(value) => vec![Token::Bool(*value)],
        Expression::StringLiteral(text) => vec![Token::String(text.clone())],
        Expression::PrefixExpression(op, right) => {
            let mut out = vec![op.clone()];
            out.append(&mut grouped(expression_tokens(right)));
            out
        }
        Expression::InfixExpression(left, op, right) => {
            let mut out = grouped(expression_tokens(left));
            out.push(op.clone());
            out.append(&mut grouped(expression_tokens(right)));
            out
        }
        Expression::IfExpression(cond, cons, _) => {
            let mut out = vec![Token::If];
            out.append(&mut grouped(expression_tokens(cond)));
            out.push(Token::LBrace);
            out.append(&mut block_tokens(cons));
            out.push(Token::RBrace);
            out
        }
        Expression::FunctionExpression(params, body) => {
            let mut names = vec![];
            for (i, Ident(name)) in params.iter().enumerate() {
                if i > 0 {
                    names.push(Token::Comma);
                }
                names.push(Token::Ident(name.clone()));
            }
            let mut out = vec![Token::Function];
            out.append(&mut grouped(names));
            out.push(Token::LBrace);
            out.append(&mut block_tokens(body));
            out.push(Token::RBrace);
            out
        }
        Expression::CallExpression(callee, args) => {
            let mut out = grouped(expression_tokens(callee));
            out.append(&mut grouped(list_tokens(args)));
            out
        }
        Expression::ArrayLiteral(items) => {
            let mut out = vec![Token::LBracket];
            out.append(&mut list_tokens(items));
            out.push(Token::RBracket);
            out
        }
        Expression::IndexExpression(container, index) => {
            let mut out = grouped(expression_tokens(container));
            out.push(Token::LBracket);
            out.append(&mut expression_tokens(index));
            out.push(Token::RBracket);
            out
        }
        Expression::HashLiteral(pairs) => {
            let mut out = vec![Token::LBrace];
            if let Some((key, value)) = pairs.first() {
                out.append(&mut expression_tokens(key));
                out.push(Token::Colon);
                out.append(&mut expression_tokens(value));
            }
            out.push(Token::RBrace);
            out
        }
    }
}

fn statement_tokens(s: &Statement) -> Vec<Token> {
    let mut out = vec![];
    match s {
        Statement::LetStatement(Ident(name), value) => {
            out.push(Token::Let);
            out.push(Token::Ident(name.clone()));
            out.push(Token::Assign);
            out.append(&mut expression_tokens(value));
        }
        Statement::ReturnStatement(value) => {
            out.push(Token::Return);
            out.append(&mut expression_tokens(value));
        }
        Statement::ExpressionStatement(value) => {
            out.append(&mut expression_tokens(value));
        }
    }
    out.push(Token::Semicolon);
    out
}

fn read_back(program: Program) {
    let tokens = block_tokens(&program.statements);
    assert_eq!(parse(tokens).unwrap(), program);
}

fn name(text: &str) -> Expression {
    Expression::Identifier(Ident(text.to_string()))
}

fn operator(left: Expression, op: Token, right: Expression) -> Expression {
    Expression::InfixExpression(Box::new(left), op, Box::new(right))
}

#[test]
fn written_tokens_are_as_expected() {
    // (1) + ((2) * (3));
    let tree = operator(
        Expression::IntLiteral(1),
        Token::Plus,
        operator(Expression::IntLiteral(2), Token::Asterisk, Expression::IntLiteral(3)),
    );
    let expected = vec![
        Token::LParen,
        Token::Int(1),
        Token::RParen,
        Token::Plus,
        Token::LParen,
        Token::LParen,
        Token::Int(2),
        Token::RParen,
        Token::Asterisk,
        Token::LParen,
        Token::Int(3),
        Token::RParen,
        Token::RParen,
        Token::Semicolon,
    ];
    assert_eq!(statement_tokens(&Statement::ExpressionStatement(tree)), expected);
}

#[test]
fn operators_are_read_back() {
    let right_nested = operator(
        name("a"),
        Token::Minus,
        operator(name("b"), Token::Minus, name("c")),
    );
    let loose_inside_tight = operator(
        operator(name("a"), Token::Eq, name("b")),
        Token::Asterisk,
        operator(name("c"), Token::LT, name("d")),
    );
    read_back(Program {
        statements: vec![
            Statement::ExpressionStatement(right_nested),
            Statement::ExpressionStatement(loose_inside_tight),
        ],
    });
}

#[test]
fn unary_operators_are_read_back() {
    let negated_twice = Expression::PrefixExpression(
        Token::Minus,
        Box::new(Expression::PrefixExpression(Token::Minus, Box::new(name("a")))),
    );
    let negated_sum = Expression::PrefixExpression(
        Token::Bang,
        Box::new(operator(name("a"), Token::Plus, name("b"))),
    );
    read_back(Program {
        statements: vec![
            Statement::ReturnStatement(negated_twice),
            Statement::ExpressionStatement(negated_sum),
        ],
    });
}

#[test]
fn calls_and_indexing_are_read_back() {
    let call = Expression::CallExpression(
        Box::new(Expression::PrefixExpression(Token::Minus, Box::new(name("f")))),
        vec![
            operator(name("x"), Token::Slash, name("y")),
            Expression::ArrayLiteral(vec![]),
            Expression::StringLiteral("s".to_string()),
        ],
    );
    let indexed = Expression::IndexExpression(
        Box::new(call),
        Box::new(operator(name("i"), Token::Plus, Expression::IntLiteral(1))),
    );
    read_back(Program {
        statements: vec![Statement::LetStatement(Ident("v".to_string()), indexed)],
    });
}

#[test]
fn aggregates_are_read_back() {
    let array = Expression::ArrayLiteral(vec![
        Expression::BoolLiteral(false),
        Expression::HashLiteral(vec![]),
        Expression::HashLiteral(vec![(name("k"), operator(name("a"), Token::GT, name("b")))]),
    ]);
    read_back(Program { statements: vec![Statement::ExpressionStatement(array)] });
}

#[test]
fn blocks_are_read_back() {
    let inner = Expression::IfExpression(
        Box::new(operator(name("a"), Token::NotEq, name("b"))),
        vec![
            Statement::LetStatement(Ident("c".to_string()), name("a")),
            Statement::ReturnStatement(name("c")),
        ],
        vec![],
    );
    let function = Expression::FunctionExpression(
        vec![Ident("a".to_string()), Ident("b".to_string()), Ident("c".to_string())],
        vec![Statement::ExpressionStatement(inner), Statement::ExpressionStatement(name("b"))],
    );
    let called = Expression::CallExpression(Box::new(function), vec![]);
    read_back(Program {
        statements: vec![
            Statement::ExpressionStatement(called),
            Statement::ExpressionStatement(Expression::FunctionExpression(vec![], vec![])),
        ],
    });
}

#[test]
fn empty_program_is_read_back() {
    read_back(Program { statements: vec![] });
}
