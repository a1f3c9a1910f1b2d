use pratt_parser::lexer::Lexer;
use pratt_parser::parser::{parse, Parser};
use pratt_parser::program::{Expression, Program, Statement};
use pratt_parser::token::Token;

fn word(name: &str) -> Token {
    Token::Ident(name.to_string())
}

#[test]
fn lexer_hands_out_tokens_then_end_of_input() {
    let mut lexer = Lexer::new(vec![Token::Int(1), Token::Plus]);
    assert_eq!(lexer.next_token(), Token::Int(1));
    assert_eq!(lexer.next_token(), Token::Plus);
    assert_eq!(lexer.next_token(), Token::EOF);
    assert_eq!(lexer.next_token(), Token::EOF);
}

#[test]
fn lexer_stops_at_first_end_of_input() {
    let mut lexer = Lexer::new(vec![Token::Int(1), Token::EOF, Token::Int(2)]);
    assert_eq!(lexer.next_token(), Token::Int(1));
    assert_eq!(lexer.next_token(), Token::EOF);
    assert_eq!(lexer.next_token(), Token::EOF);
    assert_eq!(lexer.next_token(), Token::EOF);
}

#[test]
fn tokens_after_end_of_input_are_not_read() {
    let parsed = parse(vec![Token::Int(1), Token::EOF, Token::Plus]).unwrap();
    let expected =
        Program { statements: vec![Statement::ExpressionStatement(Expression::IntLiteral(1))] };
    assert_eq!(parsed, expected);
}

#[test]
fn new_parser_is_primed() {
    let parser = Parser::new(Lexer::new(vec![Token::Let, word("x"), Token::Assign]));
    assert_eq!(*parser.current(), Token::Let);
    assert_eq!(*parser.peek(), word("x"));
}

#[test]
fn new_parser_on_empty_input() {
    let parser = Parser::new(Lexer::new(vec![]));
    assert_eq!(*parser.current(), Token::EOF);
    assert_eq!(*parser.peek(), Token::EOF);
}

#[test]
fn new_parser_starts_where_the_lexer_stands() {
    let mut lexer = Lexer::new(vec![Token::Int(1), Token::Int(2), Token::Int(3)]);
    lexer.next_token();
    let parser = Parser::new(lexer);
    assert_eq!(*parser.current(), Token::Int(2));
    assert_eq!(*parser.peek(), Token::Int(3));
}

#[test]
fn next_token_shifts_by_one() {
    let mut parser = Parser::new(Lexer::new(vec![Token::Int(1), Token::Int(2), Token::Int(3)]));
    parser.next_token();
    assert_eq!(*parser.current(), Token::Int(2));
    assert_eq!(*parser.peek(), Token::Int(3));
    parser.next_token();
    assert_eq!(*parser.current(), Token::Int(3));
    assert_eq!(*parser.peek(), Token::EOF);
    parser.next_token();
    assert_eq!(*parser.current(), Token::EOF);
    assert_eq!(*parser.peek(), Token::EOF);
    parser.next_token();
    assert_eq!(*parser.current(), Token::EOF);
    assert_eq!(*parser.peek(), Token::EOF);
}

#[test]
fn expect_peek_advances_on_match() {
    let mut parser = Parser::new(Lexer::new(vec![word("x"), Token::Assign, Token::Int(1)]));
    assert!(parser.expect_peek(Token::Assign));
    assert_eq!(*parser.current(), Token::Assign);
    assert_eq!(*parser.peek(), Token::Int(1));
}

#[test]
fn expect_peek_consumes_nothing_on_mismatch() {
    let mut parser = Parser::new(Lexer::new(vec![word("x"), Token::Assign, Token::Int(1)]));
    assert!(!parser.expect_peek(Token::Semicolon));
    assert_eq!(*parser.current(), word("x"));
    assert_eq!(*parser.peek(), Token::Assign);
    assert!(!parser.expect_peek(Token::Int(1)));
    assert_eq!(*parser.current(), word("x"));
    assert!(parser.expect_peek(Token::Assign));
}

#[test]
fn expect_peek_compares_text_and_value() {
    let mut parser = Parser::new(Lexer::new(vec![Token::Let, word("x"), Token::Int(5)]));
    assert!(!parser.expect_peek(word("y")));
    assert!(parser.expect_peek(word("x")));
    assert!(!parser.expect_peek(Token::Int(6)));
    assert!(parser.expect_peek(Token::Int(5)));
}

#[test]
fn expect_peek_at_end_of_input() {
    let mut parser = Parser::new(Lexer::new(vec![Token::Int(1)]));
    assert!(!parser.expect_peek(Token::RParen));
    assert!(parser.expect_peek(Token::EOF));
    assert_eq!(*parser.current(), Token::EOF);
}

#[test]
fn parse_program_reads_to_end_of_input() {
    let mut parser = Parser::new(Lexer::new(vec![Token::Int(1), Token::Semicolon, Token::Int(2)]));
    let program = parser.parse_program().unwrap();
    assert_eq!(program.statements.len(), 2);
    assert_eq!(*parser.current(), Token::EOF);
}

#[test]
fn parse_program_from_the_middle() {
    let mut parser = Parser::new(Lexer::new(vec![Token::RParen, Token::Int(2)]));
    parser.next_token();
    let program = parser.parse_program().unwrap();
    let expected =
        Program { statements: vec![Statement::ExpressionStatement(Expression::IntLiteral(2))] };
    assert_eq!(program, expected);
}

#[test]
fn parse_program_stops_at_the_error() {
    // 1 ) 2
    let mut parser = Parser::new(Lexer::new(vec![Token::Int(1), Token::RParen, Token::Int(2)]));
    let error = parser.parse_program().unwrap_err();
    assert_eq!(error.to_string(), "no prefix parse function for RParen");
    assert_eq!(*parser.current(), Token::RParen);
    assert_eq!(*parser.peek(), Token::Int(2));
}

#[test]
fn token_equality_and_names() {
    assert_eq!(word("a"), word("a"));
    assert_ne!(word("a"), word("b"));
    assert_ne!(word("a"), Token::String("a".to_string()));
    assert_eq!(Token::Int(3), Token::Int(3));
    assert_ne!(Token::Int(3), Token::Int(4));
    assert_ne!(Token::Bool(true), Token::Bool(false));
    assert_ne!(Token::LParen, Token::RParen);
    assert_eq!(Token::Function.clone(), Token::Function);
    assert_eq!(word("a").clone(), word("a"));
    assert!(Token::EOF.is_eof());
    assert!(!Token::Semicolon.is_eof());
    assert_eq!(Token::NotEq.name(), "NotEq");
    assert_eq!(word("a").name(), "Ident");
    assert_eq!(Token::EOF.name(), "EOF");
}
