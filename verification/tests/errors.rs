use pratt_parser::parser::{parse, ParseError};
use pratt_parser::token::Token;

fn ident(name: &str) -> Token {
    Token::Ident(name.to_string())
}

fn failure(tokens: Vec<Token>) -> String {
    match parse(tokens) {
        Ok(program) => panic!("parsed as {:?}", program),
        Err(e) => e.to_string(),
    }
}

#[test]
fn let_needs_an_identifier() {
    // let 5 = 3
    let tokens = vec![Token::Let, Token::Int(5), Token::Assign, Token::Int(3)];
    assert_eq!(failure(tokens), "not a ident token");
}

#[test]
fn let_at_end_of_input() {
    assert_eq!(failure(vec![Token::Let]), "not a ident token");
}

#[test]
fn let_without_value() {
    // let x =
    let tokens = vec![Token::Let, ident("x"), Token::Assign];
    assert_eq!(failure(tokens), "no prefix parse function for EOF");
}

#[test]
fn doubled_minus_needs_grouping() {
    // --a
    let tokens = vec![Token::Minus, Token::Minus, ident("a")];
    assert_eq!(failure(tokens), "'(' expected after prefix '-'");
}

#[test]
fn bang_under_minus_needs_grouping() {
    // -!a
    let tokens = vec![Token::Minus, Token::Bang, ident("a")];
    assert_eq!(failure(tokens), "'(' expected after prefix '!'");
}

#[test]
fn no_prefix_rule_names_the_token() {
    assert_eq!(failure(vec![Token::Semicolon]), "no prefix parse function for Semicolon");
    assert_eq!(failure(vec![Token::Plus, Token::Int(1)]), "no prefix parse function for Plus");
    assert_eq!(failure(vec![Token::RParen]), "no prefix parse function for RParen");
    assert_eq!(failure(vec![Token::Assign]), "no prefix parse function for Assign");
    assert_eq!(failure(vec![Token::Else]), "no prefix parse function for Else");
    assert_eq!(
        failure(vec![Token::Int(1), Token::Plus, Token::Asterisk]),
        "no prefix parse function for Asterisk"
    );
}

#[test]
fn missing_right_operand() {
    // 1 +
    assert_eq!(failure(vec![Token::Int(1), Token::Plus]), "no prefix parse function for EOF");
}

#[test]
fn unclosed_group() {
    // (1
    assert_eq!(failure(vec![Token::LParen, Token::Int(1)]), "Right parentheses expected");
}

#[test]
fn if_needs_parenthesis() {
    // if x
    assert_eq!(failure(vec![Token::If, ident("x")]), "'(' expected after 'if'.");
}

#[test]
fn if_condition_needs_closing_parenthesis() {
    // if (x {
    let tokens = vec![Token::If, Token::LParen, ident("x"), Token::LBrace];
    assert_eq!(failure(tokens), "')' expected after if condition expression");
}

#[test]
fn if_needs_block() {
    // if (x) y
    let tokens = vec![Token::If, Token::LParen, ident("x"), Token::RParen, ident("y")];
    assert_eq!(failure(tokens), "'{' expected for block.");
}

#[test]
fn else_branch_is_not_read() {
    // if (x) { y } else { z }
    let tokens = vec![
        Token::If,
        Token::LParen,
        ident("x"),
        Token::RParen,
        Token::LBrace,
        ident("y"),
        Token::RBrace,
        Token::Else,
        Token::LBrace,
        ident("z"),
        Token::RBrace,
    ];
    assert_eq!(failure(tokens), "no prefix parse function for Else");
}

#[test]
fn function_needs_parenthesis() {
    // function x
    assert_eq!(
        failure(vec![Token::Function, ident("x")]),
        "'(' expected for function expression"
    );
}

#[test]
fn function_needs_body() {
    // function () x
    let tokens = vec![Token::Function, Token::LParen, Token::RParen, ident("x")];
    assert_eq!(failure(tokens), "'{' expected for function body.");
}

#[test]
fn function_parameters_need_commas() {
    // function (x y) {}
    let tokens = vec![
        Token::Function,
        Token::LParen,
        ident("x"),
        ident("y"),
        Token::RParen,
        Token::LBrace,
        Token::RBrace,
    ];
    assert_eq!(failure(tokens), "')' expected for function parameters expression.");
}

#[test]
fn function_parameters_allow_no_trailing_comma() {
    // function (x,) {}
    let tokens = vec![
        Token::Function,
        Token::LParen,
        ident("x"),
        Token::Comma,
        Token::RParen,
        Token::LBrace,
        Token::RBrace,
    ];
    assert_eq!(failure(tokens), "')' expected for function parameters expression.");
}

#[test]
fn unclosed_array() {
    // [1, 2
    let tokens = vec![Token::LBracket, Token::Int(1), Token::Comma, Token::Int(2)];
    assert_eq!(failure(tokens), "']' expected for array definition.");
}

#[test]
fn array_allows_no_trailing_comma() {
    // [1,]
    let tokens = vec![Token::LBracket, Token::Int(1), Token::Comma, Token::RBracket];
    assert_eq!(failure(tokens), "no prefix parse function for RBracket");
}

#[test]
fn hash_pair_needs_colon() {
    // {a 1}
    let tokens = vec![Token::LBrace, ident("a"), Token::Int(1), Token::RBrace];
    assert_eq!(failure(tokens), "':' expected in Hash element.");
}

#[test]
fn hash_pair_needs_separator() {
    // {a: 1 b}
    let tokens =
        vec![Token::LBrace, ident("a"), Token::Colon, Token::Int(1), ident("b"), Token::RBrace];
    assert_eq!(failure(tokens), "'}' or ',' expected in Hash element.");
}

#[test]
fn unclosed_hash() {
    // {a: 1
    let tokens = vec![Token::LBrace, ident("a"), Token::Colon, Token::Int(1)];
    assert_eq!(failure(tokens), "'}' or ',' expected in Hash element.");
}

#[test]
fn hash_comma_starts_no_key() {
    // {a: 1, b: 2}
    let tokens = vec![
        Token::LBrace,
        ident("a"),
        Token::Colon,
        Token::Int(1),
        Token::Comma,
        ident("b"),
        Token::Colon,
        Token::Int(2),
        Token::RBrace,
    ];
    assert_eq!(failure(tokens), "no prefix parse function for Comma");
}

#[test]
fn unclosed_call() {
    // f(1
    assert_eq!(
        failure(vec![ident("f"), Token::LParen, Token::Int(1)]),
        "')' expected for function call."
    );
}

#[test]
fn unclosed_index() {
    // a[1
    assert_eq!(
        failure(vec![ident("a"), Token::LBracket, Token::Int(1)]),
        "']' expected for index end."
    );
}

#[test]
fn unterminated_block_in_conditional() {
    // if (x) { y
    let tokens =
        vec![Token::If, Token::LParen, ident("x"), Token::RParen, Token::LBrace, ident("y")];
    assert_eq!(failure(tokens), "no prefix parse function for EOF");
}

#[test]
fn first_error_is_reported() {
    // let x 5; let 7
    let tokens = vec![
        Token::Let,
        ident("x"),
        Token::Int(5),
        Token::Semicolon,
        Token::Let,
        Token::Int(7),
    ];
    assert_eq!(failure(tokens), "no equal sign!");
}

#[test]
fn error_from_text() {
    let from_str = ParseError::from("broken");
    assert_eq!(from_str.to_string(), "broken");
    let from_string = ParseError::from(String::from("also broken"));
    assert_eq!(from_string.to_string(), "also broken");
    let made = ParseError::new("made");
    assert_eq!(made.to_string(), "made");
    let converted: ParseError = "converted".into();
    assert_eq!(converted.to_string(), "converted");
}
