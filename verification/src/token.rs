//! Lexical tokens and their mathematical view.

use vstd::prelude::*;

verus! {

/// One lexical unit of the language.
#[derive(Debug)]
pub enum Token {
    /// An identifier, with its name.
    Ident(String),
    /// An integer literal, with its value.
    Int(i64),
    /// `true` or `false`.
    Bool(bool),
    /// A string literal, with its contents.
    String(String),
    /// `=`
    Assign,
    /// `+`
    Plus,
    /// `-`
    Minus,
    /// `/`
    Slash,
    /// `*`
    Asterisk,
    /// `!`
    Bang,
    /// `==`
    Eq,
    /// `!=`
    NotEq,
    /// `<`
    LT,
    /// `>`
    GT,
    /// `,`
    Comma,
    /// `:`
    Colon,
    /// `;`
    Semicolon,
    /// `(`
    LParen,
    /// `)`
    RParen,
    /// `[`
    LBracket,
    /// `]`
    RBracket,
    /// `{`
    LBrace,
    /// `}`
    RBrace,
    /// The keyword `let`.
    Let,
    /// The keyword `return`.
    Return,
    /// The keyword `function`.
    Function,
    /// The keyword `if`.
    If,
    /// The keyword `else`.
    Else,
    /// The end-of-input marker.
    EOF,
}

/// What a [`Token`] stands for in specifications: the same variants, with
/// text as a sequence of characters.
pub ghost enum TokenView {
    Ident(Seq<char>),
    Int(i64),
    Bool(bool),
    String(Seq<char>),
    Assign,
    Plus,
    Minus,
    Slash,
    Asterisk,
    Bang,
    Eq,
    NotEq,
    LT,
    GT,
    Comma,
    Colon,
    Semicolon,
    LParen,
    RParen,
    LBracket,
    RBracket,
    LBrace,
    RBrace,
    Let,
    Return,
    Function,
    If,
    Else,
    EOF,
}

impl View for Token {
    type V = TokenView;

    open spec fn view(&self) -> TokenView {
        match self {
            Token::Ident(name) => TokenView::Ident(name@),
            Token::Int(value) => TokenView::Int(*value),
            Token::Bool(value) => TokenView::Bool(*value),
            Token::String(text) => TokenView::String(text@),
            Token::Assign => TokenView::Assign,
            Token::Plus => TokenView::Plus,
            Token::Minus => TokenView::Minus,
            Token::Slash => TokenView::Slash,
            Token::Asterisk => TokenView::Asterisk,
            Token::Bang => TokenView::Bang,
            Token::Eq => TokenView::Eq,
            Token::NotEq => TokenView::NotEq,
            Token::LT => TokenView::LT,
            Token::GT => TokenView::GT,
            Token::Comma => TokenView::Comma,
            Token::Colon => TokenView::Colon,
            Token::Semicolon => TokenView::Semicolon,
            Token::LParen => TokenView::LParen,
            Token::RParen => TokenView::RParen,
            Token::LBracket => TokenView::LBracket,
            Token::RBracket => TokenView::RBracket,
            Token::LBrace => TokenView::LBrace,
            Token::RBrace => TokenView::RBrace,
            Token::Let => TokenView::Let,
            Token::Return => TokenView::Return,
            Token::Function => TokenView::Function,
            Token::If => TokenView::If,
            Token::Else => TokenView::Else,
            Token::EOF => TokenView::EOF,
        }
    }
}

impl Clone for Token {
    fn clone(&self) -> (copy: Token)
        ensures
            copy == *self,
    {
        match self {
            Token::Ident(name) => Token::Ident(name.clone()),
            Token::Int(value) => Token::Int(*value),
            Token::Bool(value) => Token::Bool(*value),
            Token::String(text) => Token::String(text.clone()),
            Token::Assign => Token::Assign,
            Token::Plus => Token::Plus,
            Token::Minus => Token::Minus,
            Token::Slash => Token::Slash,
            Token::Asterisk => Token::Asterisk,
            Token::Bang => Token::Bang,
            Token::Eq => Token::Eq,
            Token::NotEq => Token::NotEq,
            Token::LT => Token::LT,
            Token::GT => Token::GT,
            Token::Comma => Token::Comma,
            Token::Colon => Token::Colon,
            Token::Semicolon => Token::Semicolon,
            Token::LParen => Token::LParen,
            Token::RParen => Token::RParen,
            Token::LBracket => Token::LBracket,
            Token::RBracket => Token::RBracket,
            Token::LBrace => Token::LBrace,
            Token::RBrace => Token::RBrace,
            Token::Let => Token::Let,
            Token::Return => Token::Return,
            Token::Function => Token::Function,
            Token::If => Token::If,
            Token::Else => Token::Else,
            Token::EOF => Token::EOF,
        }
    }
}

impl PartialEq for Token {
    /// Two tokens are equal when they are of the same kind and carry the
    /// same text or value.
    fn eq(&self, other: &Token) -> (equal: bool) {
        match (self, other) {
            (Token::Ident(a), Token::Ident(b)) => *a == *b,
            (Token::Int(a), Token::Int(b)) => *a == *b,
            (Token::Bool(a), Token::Bool(b)) => *a == *b,
            (Token::String(a), Token::String(b)) => *a == *b,
            (Token::Assign, Token::Assign) => true,
            (Token::Plus, Token::Plus) => true,
            (Token::Minus, Token::Minus) => true,
            (Token::Slash, Token::Slash) => true,
            (Token::Asterisk, Token::Asterisk) => true,
            (Token::Bang, Token::Bang) => true,
            (Token::Eq, Token::Eq) => true,
            (Token::NotEq, Token::NotEq) => true,
            (Token::LT, Token::LT) => true,
            (Token::GT, Token::GT) => true,
            (Token::Comma, Token::Comma) => true,
            (Token::Colon, Token::Colon) => true,
            (Token::Semicolon, Token::Semicolon) => true,
            (Token::LParen, Token::LParen) => true,
            (Token::RParen, Token::RParen) => true,
            (Token::LBracket, Token::LBracket) => true,
            (Token::RBracket, Token::RBracket) => true,
            (Token::LBrace, Token::LBrace) => true,
            (Token::RBrace, Token::RBrace) => true,
            (Token::Let, Token::Let) => true,
            (Token::Return, Token::Return) => true,
            (Token::Function, Token::Function) => true,
            (Token::If, Token::If) => true,
            (Token::Else, Token::Else) => true,
            (Token::EOF, Token::EOF) => true,
            _ => false,
        }
    }
}

impl Eq for Token {

}

impl vstd::std_specs::cmp::PartialEqSpecImpl for Token {
    open spec fn obeys_eq_spec() -> bool {
        true
    }

    open spec fn eq_spec(&self, other: &Token) -> bool {
        self@ == other@
    }
}

/// The name of a token's kind, as diagnostics print it.
pub open spec fn token_name(token: TokenView) -> Seq<char> {
    match token {
        TokenView::Ident(_) => "Ident"@,
        TokenView::Int(_) => "Int"@,
        TokenView::Bool(_) => "Bool"@,
        TokenView::String(_) => "String"@,
        TokenView::Assign => "Assign"@,
        TokenView::Plus => "Plus"@,
        TokenView::Minus => "Minus"@,
        TokenView::Slash => "Slash"@,
        TokenView::Asterisk => "Asterisk"@,
        TokenView::Bang => "Bang"@,
        TokenView::Eq => "Eq"@,
        TokenView::NotEq => "NotEq"@,
        TokenView::LT => "LT"@,
        TokenView::GT => "GT"@,
        TokenView::Comma => "Comma"@,
        TokenView::Colon => "Colon"@,
        TokenView::Semicolon => "Semicolon"@,
        TokenView::LParen => "LParen"@,
        TokenView::RParen => "RParen"@,
        TokenView::LBracket => "LBracket"@,
        TokenView::RBracket => "RBracket"@,
        TokenView::LBrace => "LBrace"@,
        TokenView::RBrace => "RBrace"@,
        TokenView::Let => "Let"@,
        TokenView::Return => "Return"@,
        TokenView::Function => "Function"@,
        TokenView::If => "If"@,
        TokenView::Else => "Else"@,
        TokenView::EOF => "EOF"@,
    }
}

impl Token {
    /// Whether this is the end-of-input marker.
    pub fn is_eof(&self) -> (eof: bool)
        ensures
            eof == (self@ is EOF),
    {
        match self {
            Token::EOF => true,
            _ => false,
        }
    }

    /// The name of this token's kind, as diagnostics print it.
    pub fn name(&self) -> (name: &'static str)
        ensures
            name@ == token_name(self@),
    {
        match self {
            Token::Ident(_) => "Ident",
            Token::Int(_) => "Int",
            Token::Bool(_) => "Bool",
            Token::String(_) => "String",
            Token::Assign => "Assign",
            Token::Plus => "Plus",
            Token::Minus => "Minus",
            Token::Slash => "Slash",
            Token::Asterisk => "Asterisk",
            Token::Bang => "Bang",
            Token::Eq => "Eq",
            Token::NotEq => "NotEq",
            Token::LT => "LT",
            Token::GT => "GT",
            Token::Comma => "Comma",
            Token::Colon => "Colon",
            Token::Semicolon => "Semicolon",
            Token::LParen => "LParen",
            Token::RParen => "RParen",
            Token::LBracket => "LBracket",
            Token::RBracket => "RBracket",
            Token::LBrace => "LBrace",
            Token::RBrace => "RBrace",
            Token::Let => "Let",
            Token::Return => "Return",
            Token::Function => "Function",
            Token::If => "If",
            Token::Else => "Else",
            Token::EOF => "EOF",
        }
    }
}

} // verus!
