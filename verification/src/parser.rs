//! The parser: a token cursor with one token of lookahead, and the
//! recursive-descent routines that read statements and expressions from it.

use crate::grammar;
use crate::grammar::{no_prefix_message, remaining, Outcome};
use crate::lexer::{free_of_eof, token_at, tokens_view, until_eof, Lexer};
use crate::program::{
    expressions_view, idents_view, lemma_expressions_view_push, lemma_idents_view_push,
    lemma_pairs_view_push, lemma_statements_view_push, pairs_view, statements_view, Expression,
    ExpressionView, Ident, Precedence, Program, Statement, StatementView,
};
use crate::steps;
use crate::token::{Token, TokenView};
use vstd::prelude::*;
use vstd::string::*;

verus! {

/// The first syntax error of an input: a human-readable message.
#[derive(Debug)]
pub struct ParseError {
    info: String,
}

impl View for ParseError {
    type V = Seq<char>;

    /// The message.
    closed spec fn view(&self) -> Seq<char> {
        self.info@
    }
}

impl ParseError {
    /// An error with the given message.
    pub fn new(message: &str) -> (e: ParseError)
        ensures
            e@ == message@,
    {
        ParseError { info: message.to_owned() }
    }

    /// The message of this error.
    pub fn to_string(&self) -> (message: String)
        ensures
            message@ == self@,
    {
        self.info.clone()
    }

    /// The error for a token that cannot begin an expression.
    fn no_prefix(token: &Token) -> (e: ParseError)
        ensures
            e@ == no_prefix_message(token@),
    {
        let mut info = "no prefix parse function for ".to_owned();
        info.append(token.name());
        ParseError { info }
    }
}

impl From<&str> for ParseError {
    /// An error with the given message.
    fn from(s: &str) -> (e: ParseError)
        ensures
            e@ == s@,
    {
        ParseError { info: s.to_owned() }
    }
}

impl vstd::std_specs::convert::FromSpecImpl<&str> for ParseError {
    open spec fn obeys_from_spec() -> bool {
        false
    }

    open spec fn from_spec(s: &str) -> ParseError {
        arbitrary()
    }
}

impl From<String> for ParseError {
    /// An error with the given message.
    fn from(s: String) -> (e: ParseError)
        ensures
            e@ == s@,
    {
        ParseError { info: s }
    }
}

impl vstd::std_specs::convert::FromSpecImpl<String> for ParseError {
    open spec fn obeys_from_spec() -> bool {
        true
    }

    closed spec fn from_spec(s: String) -> ParseError {
        ParseError { info: s }
    }
}

/// The view of a routine's result: the view of what was read, or the
/// message of the error.
pub open spec fn result_view<T: View>(res: Result<T, ParseError>) -> Result<T::V, Seq<char>> {
    match res {
        Ok(value) => Ok(value@),
        Err(e) => Err(e@),
    }
}

/// The view of a result that holds statements.
pub open spec fn statements_result(res: Result<Vec<Statement>, ParseError>) -> Result<
    Seq<StatementView>,
    Seq<char>,
> {
    match res {
        Ok(stmts) => Ok(statements_view(stmts@)),
        Err(e) => Err(e@),
    }
}

/// The view of a result that holds expressions.
pub open spec fn expressions_result(res: Result<Vec<Expression>, ParseError>) -> Result<
    Seq<ExpressionView>,
    Seq<char>,
> {
    match res {
        Ok(exprs) => Ok(expressions_view(exprs@)),
        Err(e) => Err(e@),
    }
}

/// The view of a result that holds identifiers.
pub open spec fn idents_result(res: Result<Vec<Ident>, ParseError>) -> Result<
    Seq<Seq<char>>,
    Seq<char>,
> {
    match res {
        Ok(idents) => Ok(idents_view(idents@)),
        Err(e) => Err(e@),
    }
}

/// A cursor over a token stream that holds the current token and the one
/// after it, with the routines that read the grammar from it.
pub struct Parser {
    l: Lexer,
    cur_token: Token,
    peek_token: Token,
}

impl Parser {
    /// The representation invariant: the two buffered tokens are those of
    /// the stream at the cursor and right after it.
    pub closed spec fn wf(&self) -> bool {
        &&& self.l.wf()
        &&& self.l.produced() >= 2
        &&& self.cur_token@ == token_at(self.l.stream(), (self.l.produced() - 2) as nat)
        &&& self.peek_token@ == token_at(self.l.stream(), (self.l.produced() - 1) as nat)
    }

    /// The token stream that is being read. It holds no end-of-input
    /// marker: the marker stands at every position past its end.
    pub closed spec fn tokens(&self) -> Seq<TokenView> {
        self.l.stream()
    }

    /// The position of the current token in the stream.
    pub closed spec fn pos(&self) -> nat {
        (self.l.produced() - 2) as nat
    }

    /// The current token.
    pub open spec fn cur_view(&self) -> TokenView {
        token_at(self.tokens(), self.pos())
    }

    /// The token after the current one.
    pub open spec fn peek_view(&self) -> TokenView {
        token_at(self.tokens(), self.pos() + 1)
    }

    /// This cursor reads the same stream as `before` and stands `advance`
    /// tokens further on.
    pub open spec fn follows(&self, before: Parser, advance: nat) -> bool {
        &&& self.wf()
        &&& self.tokens() == before.tokens()
        &&& self.pos() == before.pos() + advance
    }

    /// This cursor is what `before` becomes, and `res` what is returned,
    /// when a routine with the outcome `o` runs.
    pub open spec fn yields<T: View>(
        &self,
        before: Parser,
        res: Result<T, ParseError>,
        o: Outcome<T::V>,
    ) -> bool {
        &&& self.follows(before, o.advance)
        &&& result_view(res) == o.result
    }

    /// The stream holds no end-of-input marker, so the current token is the
    /// marker exactly when the cursor stands past the end of the stream.
    pub proof fn lemma_tokens_free_of_eof(&self)
        requires
            self.wf(),
        ensures
            free_of_eof(self.tokens()),
            self.cur_view() is EOF <==> self.pos() >= self.tokens().len(),
            self.peek_view() is EOF <==> self.pos() + 1 >= self.tokens().len(),
    {
        self.l.lemma_stream_free_of_eof();
    }

    /// A cursor at the front of what `l` has yet to hand out.
    pub fn new(l: Lexer) -> (parser: Parser)
        requires
            l.wf(),
        ensures
            parser.wf(),
            parser.tokens() == l.stream(),
            parser.pos() == l.produced(),
    {
        let mut ret = Parser { l, cur_token: Token::EOF, peek_token: Token::EOF };
        ret.cur_token = ret.l.next_token();
        ret.peek_token = ret.l.next_token();
        ret
    }

    /// The current token.
    pub fn current(&self) -> (token: &Token)
        requires
            self.wf(),
        ensures
            token@ == self.cur_view(),
    {
        &self.cur_token
    }

    /// The token after the current one.
    pub fn peek(&self) -> (token: &Token)
        requires
            self.wf(),
        ensures
            token@ == self.peek_view(),
    {
        &self.peek_token
    }

    /// Advances the cursor by one token.
    pub fn next_token(&mut self)
        requires
            old(self).wf(),
        ensures
            final(self).follows(*old(self), 1),
    {
        std::mem::swap(&mut self.cur_token, &mut self.peek_token);
        self.peek_token = self.l.next_token();
    }

    /// Advances by one token if the next token equals `token`, and says
    /// whether it did. A cursor that does not advance is left as it was.
    pub fn expect_peek(&mut self, token: Token) -> (found: bool)
        requires
            old(self).wf(),
        ensures
            found == (old(self).peek_view() == token@),
            final(self).follows(*old(self), if found { 1nat } else { 0nat }),
            !found ==> *final(self) == *old(self),
    {
        if self.peek_token == token {
            self.next_token();
            true
        } else {
            false
        }
    }

    /// Reads a whole program: statements up to the end-of-input marker.
    pub fn parse_program(&mut self) -> (res: Result<Program, ParseError>)
        requires
            old(self).wf(),
        ensures
            final(self).yields(
                *old(self),
                res,
                grammar::program(old(self).tokens(), old(self).pos()),
            ),
            res is Ok ==> final(self).cur_view() is EOF,
    {
        let mut statements: Vec<Statement> = Vec::new();
        let ghost ts = self.tokens();
        let ghost start = self.pos();
        assert(statements_view(statements@) =~= Seq::empty());
        loop
            invariant
                self.wf(),
                self.tokens() == ts,
                ts == old(self).tokens(),
                start == old(self).pos(),
                self.pos() >= start,
                grammar::program_loop(ts, start, Seq::empty()) == grammar::program_loop(
                    ts,
                    self.pos(),
                    statements_view(statements@),
                ).after((self.pos() - start) as nat),
            ensures
                self.cur_view() is EOF,
            decreases remaining(self.tokens(), self.pos()),
        {
            proof {
                steps::lemma_program_loop_step(ts, self.pos(), statements_view(statements@));
            }
            if self.cur_token.is_eof() {
                break ;
            }
            let statement = self.parse_statement()?;
            proof {
                lemma_statements_view_push(statements@, statement);
            }
            statements.push(statement);
            self.next_token();
        }
        proof {
            steps::lemma_program_loop_step(ts, self.pos(), statements_view(statements@));
        }
        Ok(Program { statements })
    }

    /// Reads one statement, chosen by the kind of the current token.
    fn parse_statement(&mut self) -> (res: Result<Statement, ParseError>)
        requires
            old(self).wf(),
        ensures
            final(self).yields(
                *old(self),
                res,
                grammar::statement(old(self).tokens(), old(self).pos()),
            ),
        decreases remaining(old(self).tokens(), old(self).pos()), 9nat,
    {
        proof {
            steps::lemma_statement_step(self.tokens(), self.pos());
        }
        match self.cur_token {
            Token::Let => self.parse_let_statement(),
            Token::Return => self.parse_return_statement(),
            _ => self.parse_expression_statement(),
        }
    }

    /// Reads `let <name> = <value>` with an optional `;`.
    fn parse_let_statement(&mut self) -> (res: Result<Statement, ParseError>)
        requires
            old(self).wf(),
        ensures
            final(self).yields(
                *old(self),
                res,
                grammar::let_statement(old(self).tokens(), old(self).pos()),
            ),
        decreases remaining(old(self).tokens(), old(self).pos()), 8nat,
    {
        proof {
            steps::lemma_let_statement_step(self.tokens(), self.pos());
        }
        if let Token::Ident(_) = &self.peek_token {
            self.next_token();
        }
        let identifier = self.parse_identifier()?;

        if !self.expect_peek(Token::Assign) {
            return Err(ParseError::new("no equal sign!"));
        }
        self.next_token();

        let value = self.parse_expression(Precedence::Lowest)?;
        if self.peek_token == Token::Semicolon {
            self.next_token();
        }
        Ok(Statement::LetStatement(identifier, value))
    }

    /// Reads `return <value>` with an optional `;`.
    fn parse_return_statement(&mut self) -> (res: Result<Statement, ParseError>)
        requires
            old(self).wf(),
            old(self).pos() < old(self).tokens().len(),
        ensures
            final(self).yields(
                *old(self),
                res,
                grammar::return_statement(old(self).tokens(), old(self).pos()),
            ),
        decreases remaining(old(self).tokens(), old(self).pos()), 8nat,
    {
        proof {
            steps::lemma_return_statement_step(self.tokens(), self.pos());
        }
        self.next_token();

        let ret = self.parse_expression(Precedence::Lowest)?;
        if self.peek_token == Token::Semicolon {
            self.next_token();
        }
        Ok(Statement::ReturnStatement(ret))
    }

    /// Reads a bare expression with an optional `;`.
    fn parse_expression_statement(&mut self) -> (res: Result<Statement, ParseError>)
        requires
            old(self).wf(),
        ensures
            final(self).yields(
                *old(self),
                res,
                grammar::expression_statement(old(self).tokens(), old(self).pos()),
            ),
        decreases remaining(old(self).tokens(), old(self).pos()), 8nat,
    {
        proof {
            steps::lemma_expression_statement_step(self.tokens(), self.pos());
        }
        let ret = self.parse_expression(Precedence::Lowest)?;
        if self.peek_token == Token::Semicolon {
            self.next_token();
        }
        Ok(Statement::ExpressionStatement(ret))
    }

    /// The identifier that the current token names.
    fn parse_identifier(&self) -> (res: Result<Ident, ParseError>)
        requires
            self.wf(),
        ensures
            result_view(res) == grammar::identifier(self.tokens(), self.pos()),
    {
        match &self.cur_token {
            Token::Ident(v) => Ok(Ident(v.clone())),
            _ => Err(ParseError::new("not a ident token")),
        }
    }

    /// Reads an expression whose operators all bind more tightly than
    /// `precedence`.
    fn parse_expression(&mut self, precedence: Precedence) -> (res: Result<
        Expression,
        ParseError,
    >)
        requires
            old(self).wf(),
        ensures
            final(self).yields(
                *old(self),
                res,
                grammar::expression(old(self).tokens(), old(self).pos(), precedence),
            ),
        decreases remaining(old(self).tokens(), old(self).pos()), 7nat,
    {
        proof {
            steps::lemma_expression_step(self.tokens(), self.pos(), precedence);
            steps::lemma_prefix_step(self.tokens(), self.pos(), precedence);
        }
        let ghost ts = self.tokens();
        let ghost start = self.pos();
        // prefix
        let first = match &self.cur_token {
            Token::Ident(_) => {
                match self.parse_identifier() {
                    Ok(ident) => Ok(Expression::Identifier(ident)),
                    Err(e) => Err(e),
                }
            },
            Token::Int(_) => self.parse_int_literal(),
            Token::Bool(_) => self.parse_bool_literal(),
            Token::String(_) => self.parse_string_literal(),
            Token::Bang => {
                if precedence.rank() > Precedence::Prefix.rank() {
                    Err(ParseError::new("'(' expected after prefix '!'"))
                } else {
                    self.parse_prefix_expression()
                }
            },
            Token::Minus => {
                if precedence.rank() > Precedence::Prefix.rank() {
                    Err(ParseError::new("'(' expected after prefix '-'"))
                } else {
                    self.parse_prefix_expression()
                }
            },
            Token::LParen => self.parse_grouped_expression(),
            Token::If => self.parse_if_expression(),
            Token::Function => self.parse_function_literal(),
            Token::LBracket => self.parse_array_literal(),
            Token::LBrace => self.parse_hash_literal(),
            _ => Err(ParseError::no_prefix(&self.cur_token)),
        };
        assert(self.yields(*old(self), first, grammar::prefix(ts, start, precedence)));
        let mut left = first?;

        // infix
        loop
            invariant
                self.wf(),
                self.tokens() == ts,
                ts == old(self).tokens(),
                start == old(self).pos(),
                self.pos() >= start,
                grammar::expression(ts, start, precedence) == grammar::infix_loop(
                    ts,
                    self.pos(),
                    precedence,
                    left@,
                ).after((self.pos() - start) as nat),
            ensures
                self.peek_view() is Semicolon || precedence.level() >= Precedence::of(
                    self.peek_view(),
                ).level(),
            decreases remaining(self.tokens(), self.pos()),
        {
            proof {
                steps::lemma_infix_loop_step(ts, self.pos(), precedence, left@);
            }
            if self.peek_token == Token::Semicolon || precedence.rank() >= Precedence::from_token(
                &self.peek_token,
            ).rank() {
                break ;
            }
            self.next_token();
            match self.cur_token {
                Token::Eq
                | Token::NotEq
                | Token::LT
                | Token::GT
                | Token::Plus
                | Token::Minus
                | Token::Slash
                | Token::Asterisk => left = self.parse_infix_expression(left)?,
                Token::LParen => left = self.parse_call_expression(left)?,
                Token::LBracket => left = self.parse_index_expression(left)?,
                _ => return Ok(left),
            };
        }

        proof {
            steps::lemma_infix_loop_step(ts, self.pos(), precedence, left@);
        }
        Ok(left)
    }

    /// The integer literal that the current token holds.
    fn parse_int_literal(&self) -> (res: Result<Expression, ParseError>)
        requires
            self.wf(),
        ensures
            result_view(res) == grammar::int_literal(self.tokens(), self.pos()),
    {
        if let Token::Int(v) = self.cur_token {
            Ok(Expression::IntLiteral(v))
        } else {
            Err(ParseError::new("Token::Int not found"))
        }
    }

    /// The boolean literal that the current token holds.
    fn parse_bool_literal(&self) -> (res: Result<Expression, ParseError>)
        requires
            self.wf(),
        ensures
            result_view(res) == grammar::bool_literal(self.tokens(), self.pos()),
    {
        if let Token::Bool(v) = self.cur_token {
            Ok(Expression::BoolLiteral(v))
        } else {
            Err(ParseError::new("Token::Bool not found"))
        }
    }

    /// The string literal that the current token holds.
    fn parse_string_literal(&self) -> (res: Result<Expression, ParseError>)
        requires
            self.wf(),
        ensures
            result_view(res) == grammar::string_literal(self.tokens(), self.pos()),
    {
        if let Token::String(v) = &self.cur_token {
            Ok(Expression::StringLiteral(v.clone()))
        } else {
            Err(ParseError::new("Token::String not found"))
        }
    }

    /// Reads a unary operator, the current token, and its operand.
    fn parse_prefix_expression(&mut self) -> (res: Result<Expression, ParseError>)
        requires
            old(self).wf(),
            old(self).pos() < old(self).tokens().len(),
        ensures
            final(self).yields(
                *old(self),
                res,
                grammar::prefix_expression(old(self).tokens(), old(self).pos()),
            ),
        decreases remaining(old(self).tokens(), old(self).pos()), 5nat,
    {
        proof {
            steps::lemma_prefix_expression_step(self.tokens(), self.pos());
        }
        let token = self.cur_token.clone();
        let precedence = match &token {
            Token::Minus => Precedence::Prefix.tighter(),
            _ => Precedence::Prefix,
        };
        self.next_token();

        let right = self.parse_expression(precedence)?;
        Ok(Expression::PrefixExpression(token, Box::new(right)))
    }

    /// Reads a binary operator, the current token, and its right operand,
    /// and applies it to `left`.
    fn parse_infix_expression(&mut self, left: Expression) -> (res: Result<
        Expression,
        ParseError,
    >)
        requires
            old(self).wf(),
            old(self).pos() < old(self).tokens().len(),
        ensures
            final(self).yields(
                *old(self),
                res,
                grammar::infix_expression(old(self).tokens(), old(self).pos(), left@),
            ),
        decreases remaining(old(self).tokens(), old(self).pos()), 5nat,
    {
        proof {
            steps::lemma_infix_expression_step(self.tokens(), self.pos(), left@);
        }
        let precedence = Precedence::from_token(&self.cur_token);
        let token = self.cur_token.clone();
        self.next_token();

        let right = self.parse_expression(precedence)?;
        Ok(Expression::InfixExpression(Box::new(left), token, Box::new(right)))
    }

    /// Reads `( <expression> )`, with `(` the current token.
    fn parse_grouped_expression(&mut self) -> (res: Result<Expression, ParseError>)
        requires
            old(self).wf(),
            old(self).pos() < old(self).tokens().len(),
        ensures
            final(self).yields(
                *old(self),
                res,
                grammar::grouped_expression(old(self).tokens(), old(self).pos()),
            ),
        decreases remaining(old(self).tokens(), old(self).pos()), 5nat,
    {
        proof {
            steps::lemma_grouped_expression_step(self.tokens(), self.pos());
        }
        self.next_token();

        let exp = self.parse_expression(Precedence::Lowest)?;

        if !self.expect_peek(Token::RParen) {
            return Err(ParseError::new("Right parentheses expected"));
        }
        Ok(exp)
    }

    /// Reads `if ( <condition> ) { <consequence> }`, with `if` the current
    /// token.
    fn parse_if_expression(&mut self) -> (res: Result<Expression, ParseError>)
        requires
            old(self).wf(),
            old(self).pos() < old(self).tokens().len(),
        ensures
            final(self).yields(
                *old(self),
                res,
                grammar::if_expression(old(self).tokens(), old(self).pos()),
            ),
        decreases remaining(old(self).tokens(), old(self).pos()), 5nat,
    {
        proof {
            steps::lemma_if_expression_step(self.tokens(), self.pos());
        }
        if !self.expect_peek(Token::LParen) {
            return Err(ParseError::new("'(' expected after 'if'."));
        }
        self.next_token();
        let condition = self.parse_expression(Precedence::Lowest)?;

        if !self.expect_peek(Token::RParen) {
            return Err(ParseError::new("')' expected after if condition expression"));
        }
        if !self.expect_peek(Token::LBrace) {
            return Err(ParseError::new("'{' expected for block."));
        }
        let consequence = self.parse_block_statement()?;

        let alternative: Vec<Statement> = Vec::new();
        assert(statements_view(alternative@) =~= Seq::empty());
        Ok(Expression::IfExpression(Box::new(condition), consequence, alternative))
    }

    /// Reads the statements of a block whose `{` is the current token, and
    /// comes to rest on the closing `}`.
    fn parse_block_statement(&mut self) -> (res: Result<Vec<Statement>, ParseError>)
        requires
            old(self).wf(),
            old(self).pos() < old(self).tokens().len(),
        ensures
            final(self).follows(
                *old(self),
                grammar::block_statement(old(self).tokens(), old(self).pos()).advance,
            ),
            statements_result(res) == grammar::block_statement(
                old(self).tokens(),
                old(self).pos(),
            ).result,
        decreases remaining(old(self).tokens(), old(self).pos()), 4nat,
    {
        proof {
            steps::lemma_block_statement_step(self.tokens(), self.pos());
        }
        let ghost ts = self.tokens();
        let ghost start = self.pos();
        self.next_token();  // LBrace

        let mut ret: Vec<Statement> = Vec::new();
        assert(statements_view(ret@) =~= Seq::empty());
        while self.cur_token != Token::RBrace
            invariant
                self.wf(),
                self.tokens() == ts,
                ts == old(self).tokens(),
                start == old(self).pos(),
                self.pos() > start,
                start < ts.len(),
                grammar::block_statement(ts, start) == grammar::block_loop(
                    ts,
                    self.pos(),
                    statements_view(ret@),
                ).after((self.pos() - start) as nat),
            decreases remaining(self.tokens(), self.pos()),
        {
            proof {
                steps::lemma_block_loop_step(ts, self.pos(), statements_view(ret@));
            }
            proof {
                if self.cur_view() is EOF {
                    steps::lemma_statement_at_eof(ts, self.pos());
                }
            }
            let statement = self.parse_statement()?;
            proof {
                lemma_statements_view_push(ret@, statement);
            }
            ret.push(statement);
            self.next_token();
        }
        proof {
            steps::lemma_block_loop_step(ts, self.pos(), statements_view(ret@));
        }
        Ok(ret)
    }

    /// Reads `function ( <parameters> ) { <body> }`, with `function` the
    /// current token.
    fn parse_function_literal(&mut self) -> (res: Result<Expression, ParseError>)
        requires
            old(self).wf(),
            old(self).pos() < old(self).tokens().len(),
        ensures
            final(self).yields(
                *old(self),
                res,
                grammar::function_literal(old(self).tokens(), old(self).pos()),
            ),
        decreases remaining(old(self).tokens(), old(self).pos()), 5nat,
    {
        proof {
            steps::lemma_function_literal_step(self.tokens(), self.pos());
        }
        if !self.expect_peek(Token::LParen) {
            return Err(ParseError::new("'(' expected for function expression"));
        }
        let params = self.parse_function_parameters()?;

        if !self.expect_peek(Token::LBrace) {
            return Err(ParseError::new("'{' expected for function body."));
        }
        let sts = self.parse_block_statement()?;
        Ok(Expression::FunctionExpression(params, sts))
    }

    /// Reads `[ <elements> ]`, with `[` the current token.
    fn parse_array_literal(&mut self) -> (res: Result<Expression, ParseError>)
        requires
            old(self).wf(),
            old(self).pos() < old(self).tokens().len(),
        ensures
            final(self).yields(
                *old(self),
                res,
                grammar::array_literal(old(self).tokens(), old(self).pos()),
            ),
        decreases remaining(old(self).tokens(), old(self).pos()), 5nat,
    {
        proof {
            steps::lemma_array_literal_step(self.tokens(), self.pos());
        }
        let elements = self.parse_expression_list(&Token::RBracket)?;

        if !self.expect_peek(Token::RBracket) {
            return Err(ParseError::new("']' expected for array definition."));
        }
        Ok(Expression::ArrayLiteral(elements))
    }

    /// Reads `{ <key> : <value> }` or `{}`, with `{` the current token.
    fn parse_hash_literal(&mut self) -> (res: Result<Expression, ParseError>)
        requires
            old(self).wf(),
            old(self).pos() < old(self).tokens().len(),
        ensures
            final(self).yields(
                *old(self),
                res,
                grammar::hash_literal(old(self).tokens(), old(self).pos()),
            ),
        decreases remaining(old(self).tokens(), old(self).pos()), 5nat,
    {
        proof {
            steps::lemma_hash_literal_step(self.tokens(), self.pos());
        }
        let ghost ts = self.tokens();
        let ghost start = self.pos();
        let mut ret: Vec<(Expression, Expression)> = Vec::new();
        assert(pairs_view(ret@) =~= Seq::empty());
        while self.peek_token != Token::RBrace
            invariant
                self.wf(),
                self.tokens() == ts,
                ts == old(self).tokens(),
                start == old(self).pos(),
                self.pos() >= start,
                self.pos() < ts.len(),
                start < ts.len(),
                grammar::hash_literal(ts, start) == grammar::hash_loop(
                    ts,
                    self.pos(),
                    pairs_view(ret@),
                ).after((self.pos() - start) as nat),
            decreases remaining(self.tokens(), self.pos()),
        {
            proof {
                steps::lemma_hash_loop_step(ts, self.pos(), pairs_view(ret@));
            }
            self.next_token();
            let key = self.parse_expression(Precedence::Lowest)?;

            if !self.expect_peek(Token::Colon) {
                return Err(ParseError::new("':' expected in Hash element."));
            }
            self.next_token();
            let value = self.parse_expression(Precedence::Lowest)?;
            proof {
                lemma_pairs_view_push(ret@, (key, value));
            }
            ret.push((key, value));

            if self.peek_token != Token::RBrace && self.peek_token != Token::Comma {
                return Err(ParseError::new("'}' or ',' expected in Hash element."));
            }
        }

        proof {
            steps::lemma_hash_loop_step(ts, self.pos(), pairs_view(ret@));
        }
        if !self.expect_peek(Token::RBrace) {
            return Err(ParseError::new("'}' expected for Hash end."));
        }
        Ok(Expression::HashLiteral(ret))
    }

    /// Reads expressions separated by `,`, from after the current token up
    /// to but not including the token `end`.
    fn parse_expression_list(&mut self, end: &Token) -> (res: Result<Vec<Expression>, ParseError>)
        requires
            old(self).wf(),
            old(self).pos() < old(self).tokens().len(),
        ensures
            final(self).follows(
                *old(self),
                grammar::expression_list(old(self).tokens(), old(self).pos(), end@).advance,
            ),
            expressions_result(res) == grammar::expression_list(
                old(self).tokens(),
                old(self).pos(),
                end@,
            ).result,
        decreases remaining(old(self).tokens(), old(self).pos()), 3nat,
    {
        proof {
            steps::lemma_expression_list_step(self.tokens(), self.pos(), end@);
        }
        let ghost ts = self.tokens();
        let ghost start = self.pos();
        let mut ret: Vec<Expression> = Vec::new();
        assert(expressions_view(ret@) =~= Seq::empty());

        if self.peek_token == *end {
            return Ok(ret);
        }
        self.next_token();
        let first = self.parse_expression(Precedence::Lowest)?;
        proof {
            lemma_expressions_view_push(ret@, first);
        }
        ret.push(first);
        assert(expressions_view(ret@) =~= seq![first@]);

        while self.peek_token == Token::Comma
            invariant
                self.wf(),
                self.tokens() == ts,
                ts == old(self).tokens(),
                start == old(self).pos(),
                self.pos() > start,
                start < ts.len(),
                grammar::expression_list(ts, start, end@) == grammar::list_loop(
                    ts,
                    self.pos(),
                    expressions_view(ret@),
                ).after((self.pos() - start) as nat),
            decreases remaining(self.tokens(), self.pos()),
        {
            proof {
                steps::lemma_list_loop_step(ts, self.pos(), expressions_view(ret@));
            }
            self.next_token();  // comma
            self.next_token();  // next argument
            let item = self.parse_expression(Precedence::Lowest)?;
            proof {
                lemma_expressions_view_push(ret@, item);
            }
            ret.push(item);
        }
        proof {
            steps::lemma_list_loop_step(ts, self.pos(), expressions_view(ret@));
        }
        Ok(ret)
    }

    /// Reads the parameter names between `(`, the current token, and `)`.
    fn parse_function_parameters(&mut self) -> (res: Result<Vec<Ident>, ParseError>)
        requires
            old(self).wf(),
        ensures
            final(self).follows(
                *old(self),
                grammar::function_parameters(old(self).tokens(), old(self).pos()).advance,
            ),
            idents_result(res) == grammar::function_parameters(
                old(self).tokens(),
                old(self).pos(),
            ).result,
    {
        let ghost ts = self.tokens();
        let ghost start = self.pos();
        let mut ret: Vec<Ident> = Vec::new();
        assert(idents_view(ret@) =~= Seq::empty());
        self.next_token();

        if self.cur_token == Token::RParen {
            return Ok(ret);
        }
        loop
            invariant_except_break
                grammar::function_parameters(ts, start) == grammar::parameters_loop(
                    ts,
                    self.pos(),
                    idents_view(ret@),
                ).after((self.pos() - start) as nat),
            invariant
                self.wf(),
                self.tokens() == ts,
                ts == old(self).tokens(),
                start == old(self).pos(),
                self.pos() > start,
            ensures
                grammar::function_parameters(ts, start) == (if self.peek_view() is RParen {
                    Outcome::ok(idents_view(ret@), 1)
                } else {
                    Outcome::err("')' expected for function parameters expression."@, 0)
                }).after((self.pos() - start) as nat),
            decreases remaining(self.tokens(), self.pos()),
        {
            proof {
                steps::lemma_parameters_loop_step(ts, self.pos(), idents_view(ret@));
            }
            if let Token::Ident(v) = &self.cur_token {
                let ident = Ident(v.clone());
                proof {
                    lemma_idents_view_push(ret@, ident);
                }
                ret.push(ident);
            }
            if self.peek_token != Token::Comma {
                break ;
            }
            self.next_token();  // comma
            self.next_token();  // next ident
        }

        if !self.expect_peek(Token::RParen) {
            return Err(ParseError::new("')' expected for function parameters expression."));
        }
        Ok(ret)
    }

    /// Reads the arguments of a call of `function`, with `(` the current
    /// token.
    fn parse_call_expression(&mut self, function: Expression) -> (res: Result<
        Expression,
        ParseError,
    >)
        requires
            old(self).wf(),
            old(self).pos() < old(self).tokens().len(),
        ensures
            final(self).yields(
                *old(self),
                res,
                grammar::call_expression(old(self).tokens(), old(self).pos(), function@),
            ),
        decreases remaining(old(self).tokens(), old(self).pos()), 5nat,
    {
        proof {
            steps::lemma_call_expression_step(self.tokens(), self.pos(), function@);
        }
        let arguments = self.parse_call_arguments()?;
        Ok(Expression::CallExpression(Box::new(function), arguments))
    }

    /// Reads the arguments of a call between `(`, the current token, and
    /// `)`.
    fn parse_call_arguments(&mut self) -> (res: Result<Vec<Expression>, ParseError>)
        requires
            old(self).wf(),
            old(self).pos() < old(self).tokens().len(),
        ensures
            final(self).follows(
                *old(self),
                grammar::call_arguments(old(self).tokens(), old(self).pos()).advance,
            ),
            expressions_result(res) == grammar::call_arguments(
                old(self).tokens(),
                old(self).pos(),
            ).result,
        decreases remaining(old(self).tokens(), old(self).pos()), 4nat,
    {
        proof {
            steps::lemma_call_arguments_step(self.tokens(), self.pos());
        }
        let ret = self.parse_expression_list(&Token::RParen)?;

        if !self.expect_peek(Token::RParen) {
            return Err(ParseError::new("')' expected for function call."));
        }
        Ok(ret)
    }

    /// Reads `[ <index> ]` after `left`, with `[` the current token.
    fn parse_index_expression(&mut self, left: Expression) -> (res: Result<
        Expression,
        ParseError,
    >)
        requires
            old(self).wf(),
            old(self).pos() < old(self).tokens().len(),
        ensures
            final(self).yields(
                *old(self),
                res,
                grammar::index_expression(old(self).tokens(), old(self).pos(), left@),
            ),
        decreases remaining(old(self).tokens(), old(self).pos()), 5nat,
    {
        proof {
            steps::lemma_index_expression_step(self.tokens(), self.pos(), left@);
        }
        self.next_token();
        let index = self.parse_expression(Precedence::Lowest)?;

        if !self.expect_peek(Token::RBracket) {
            return Err(ParseError::new("']' expected for index end."));
        }
        Ok(Expression::IndexExpression(Box::new(left), Box::new(index)))
    }
}

/// Parses a whole token sequence: the tokens before the first
/// end-of-input marker are read as a program. The result is the program,
/// or the message of the first syntax error.
pub fn parse(tokens: Vec<Token>) -> (res: Result<Program, ParseError>)
    ensures
        result_view(res) == grammar::program(until_eof(tokens_view(tokens@)), 0).result,
{
    let mut parser = Parser::new(Lexer::new(tokens));
    parser.parse_program()
}

} // verus!
