//! The abstract syntax tree, its mathematical view, and binding powers.

use crate::token::{Token, TokenView};
use vstd::prelude::*;

verus! {

/// A named identifier.
#[derive(Debug, PartialEq, Eq)]
pub struct Ident(pub String);

impl Clone for Ident {
    fn clone(&self) -> (copy: Ident)
        ensures
            copy == *self,
    {
        Ident(self.0.clone())
    }
}

/// An expression of the language.
#[derive(Debug, PartialEq)]
pub enum Expression {
    /// A variable reference.
    Identifier(Ident),
    /// An integer literal.
    IntLiteral(i64),
    /// A boolean literal.
    BoolLiteral(bool),
    /// A string literal.
    StringLiteral(String),
    /// A unary operator applied to an operand.
    PrefixExpression(Token, Box<Expression>),
    /// A binary operator between a left and a right operand.
    InfixExpression(Box<Expression>, Token, Box<Expression>),
    /// A conditional: condition, consequence block, alternative block.
    IfExpression(Box<Expression>, Vec<Statement>, Vec<Statement>),
    /// A function literal: parameters and body block.
    FunctionExpression(Vec<Ident>, Vec<Statement>),
    /// A call: callee and arguments.
    CallExpression(Box<Expression>, Vec<Expression>),
    /// An array literal.
    ArrayLiteral(Vec<Expression>),
    /// An index operation: container and index.
    IndexExpression(Box<Expression>, Box<Expression>),
    /// A hash literal: key/value pairs in source order.
    HashLiteral(Vec<(Expression, Expression)>),
}

/// A statement of the language.
#[derive(Debug, PartialEq)]
pub enum Statement {
    /// `let <name> = <value>`
    LetStatement(Ident, Expression),
    /// `return <value>`
    ReturnStatement(Expression),
    /// A bare expression.
    ExpressionStatement(Expression),
}

/// The parse root: the top-level statements in source order.
#[derive(Debug, PartialEq)]
pub struct Program {
    pub statements: Vec<Statement>,
}

/// The mathematical view of an [`Expression`].
pub ghost enum ExpressionView {
    Identifier(Seq<char>),
    IntLiteral(i64),
    BoolLiteral(bool),
    StringLiteral(Seq<char>),
    PrefixExpression(TokenView, Box<ExpressionView>),
    InfixExpression(Box<ExpressionView>, TokenView, Box<ExpressionView>),
    IfExpression(Box<ExpressionView>, Seq<StatementView>, Seq<StatementView>),
    FunctionExpression(Seq<Seq<char>>, Seq<StatementView>),
    CallExpression(Box<ExpressionView>, Seq<ExpressionView>),
    ArrayLiteral(Seq<ExpressionView>),
    IndexExpression(Box<ExpressionView>, Box<ExpressionView>),
    HashLiteral(Seq<(ExpressionView, ExpressionView)>),
}

/// The mathematical view of a [`Statement`].
pub ghost enum StatementView {
    LetStatement(Seq<char>, ExpressionView),
    ReturnStatement(ExpressionView),
    ExpressionStatement(ExpressionView),
}

/// The mathematical view of a [`Program`].
pub ghost struct ProgramView {
    pub statements: Seq<StatementView>,
}

impl View for Ident {
    type V = Seq<char>;

    open spec fn view(&self) -> Seq<char> {
        self.0@
    }
}

/// The views of a sequence of identifiers, element by element.
pub open spec fn idents_view(idents: Seq<Ident>) -> Seq<Seq<char>> {
    Seq::new(idents.len(), |i: int| idents[i]@)
}

/// The view of one expression: the same tree over views.
pub open spec fn expression_view(expr: Expression) -> ExpressionView
    decreases expr,
{
    match expr {
        Expression::Identifier(ident) => ExpressionView::Identifier(ident@),
        Expression::IntLiteral(value) => ExpressionView::IntLiteral(value),
        Expression::BoolLiteral(value) => ExpressionView::BoolLiteral(value),
        Expression::StringLiteral(text) => ExpressionView::StringLiteral(text@),
        Expression::PrefixExpression(op, right) => ExpressionView::PrefixExpression(
            op@,
            Box::new(expression_view(*right)),
        ),
        Expression::InfixExpression(left, op, right) => ExpressionView::InfixExpression(
            Box::new(expression_view(*left)),
            op@,
            Box::new(expression_view(*right)),
        ),
        Expression::IfExpression(cond, cons, alt) => ExpressionView::IfExpression(
            Box::new(expression_view(*cond)),
            statements_view(cons@),
            statements_view(alt@),
        ),
        Expression::FunctionExpression(params, body) => ExpressionView::FunctionExpression(
            idents_view(params@),
            statements_view(body@),
        ),
        Expression::CallExpression(callee, args) => ExpressionView::CallExpression(
            Box::new(expression_view(*callee)),
            expressions_view(args@),
        ),
        Expression::ArrayLiteral(elements) => ExpressionView::ArrayLiteral(
            expressions_view(elements@),
        ),
        Expression::IndexExpression(container, index) => ExpressionView::IndexExpression(
            Box::new(expression_view(*container)),
            Box::new(expression_view(*index)),
        ),
        Expression::HashLiteral(pairs) => ExpressionView::HashLiteral(pairs_view(pairs@)),
    }
}

/// The view of one statement.
pub open spec fn statement_view(stmt: Statement) -> StatementView
    decreases stmt,
{
    match stmt {
        Statement::LetStatement(name, value) => StatementView::LetStatement(
            name@,
            expression_view(value),
        ),
        Statement::ReturnStatement(value) => StatementView::ReturnStatement(
            expression_view(value),
        ),
        Statement::ExpressionStatement(value) => StatementView::ExpressionStatement(
            expression_view(value),
        ),
    }
}

/// The views of a sequence of expressions, element by element.
pub open spec fn expressions_view(exprs: Seq<Expression>) -> Seq<ExpressionView>
    decreases exprs,
{
    Seq::new(
        exprs.len(),
        |i: int|
            if 0 <= i < exprs.len() {
                expression_view(exprs[i])
            } else {
                arbitrary()
            },
    )
}

/// The views of a sequence of key/value pairs, element by element.
pub open spec fn pairs_view(pairs: Seq<(Expression, Expression)>) -> Seq<
    (ExpressionView, ExpressionView),
>
    decreases pairs,
{
    Seq::new(
        pairs.len(),
        |i: int|
            if 0 <= i < pairs.len() {
                (expression_view(pairs[i].0), expression_view(pairs[i].1))
            } else {
                arbitrary()
            },
    )
}

/// The views of a sequence of statements, element by element.
pub open spec fn statements_view(stmts: Seq<Statement>) -> Seq<StatementView>
    decreases stmts,
{
    Seq::new(
        stmts.len(),
        |i: int|
            if 0 <= i < stmts.len() {
                statement_view(stmts[i])
            } else {
                arbitrary()
            },
    )
}

impl View for Expression {
    type V = ExpressionView;

    open spec fn view(&self) -> ExpressionView {
        expression_view(*self)
    }
}

impl View for Statement {
    type V = StatementView;

    open spec fn view(&self) -> StatementView {
        statement_view(*self)
    }
}

impl Default for Program {
    /// The empty program.
    fn default() -> (program: Program)
        ensures
            program@.statements == Seq::<StatementView>::empty(),
    {
        let program = Program { statements: Vec::new() };
        assert(statements_view(program.statements@) =~= Seq::empty());
        program
    }
}

impl View for Program {
    type V = ProgramView;

    open spec fn view(&self) -> ProgramView {
        ProgramView { statements: statements_view(self.statements@) }
    }
}

/// Appending a statement appends its view.
pub proof fn lemma_statements_view_push(stmts: Seq<Statement>, stmt: Statement)
    ensures
        statements_view(stmts.push(stmt)) == statements_view(stmts).push(stmt@),
{
    assert(statements_view(stmts.push(stmt)) =~= statements_view(stmts).push(stmt@));
}

/// Appending an expression appends its view.
pub proof fn lemma_expressions_view_push(exprs: Seq<Expression>, expr: Expression)
    ensures
        expressions_view(exprs.push(expr)) == expressions_view(exprs).push(expr@),
{
    assert(expressions_view(exprs.push(expr)) =~= expressions_view(exprs).push(expr@));
}

/// Appending an identifier appends its view.
pub proof fn lemma_idents_view_push(idents: Seq<Ident>, ident: Ident)
    ensures
        idents_view(idents.push(ident)) == idents_view(idents).push(ident@),
{
    assert(idents_view(idents.push(ident)) =~= idents_view(idents).push(ident@));
}

/// Appending a key/value pair appends the pair of its views.
pub proof fn lemma_pairs_view_push(
    pairs: Seq<(Expression, Expression)>,
    pair: (Expression, Expression),
)
    ensures
        pairs_view(pairs.push(pair)) == pairs_view(pairs).push((pair.0@, pair.1@)),
{
    assert(pairs_view(pairs.push(pair)) =~= pairs_view(pairs).push((pair.0@, pair.1@)));
}

/// Binding power of an operator: a strictly ordered scale from the loosest
/// (`Lowest`) to the tightest (`Call`).
#[derive(Debug, Clone, Copy, PartialEq, Eq)]
pub enum Precedence {
    /// No binding power: every token without an infix role.
    Lowest,
    /// `==` and `!=`
    Equality,
    /// `<` and `>`
    Relational,
    /// `+` and `-`
    Additive,
    /// `*` and `/`
    Multiplicative,
    /// Unary `!` and `-`
    Prefix,
    /// Function application and indexing.
    Call,
}

impl Precedence {
    /// The place of this level on the scale, from 0 (`Lowest`) to 6 (`Call`).
    pub open spec fn level(self) -> nat {
        match self {
            Precedence::Lowest => 0,
            Precedence::Equality => 1,
            Precedence::Relational => 2,
            Precedence::Additive => 3,
            Precedence::Multiplicative => 4,
            Precedence::Prefix => 5,
            Precedence::Call => 6,
        }
    }

    /// The binding power of a token in infix position; `Lowest` for every
    /// token that has no infix role.
    pub open spec fn of(token: TokenView) -> Precedence {
        match token {
            TokenView::Eq | TokenView::NotEq => Precedence::Equality,
            TokenView::LT | TokenView::GT => Precedence::Relational,
            TokenView::Plus | TokenView::Minus => Precedence::Additive,
            TokenView::Slash | TokenView::Asterisk => Precedence::Multiplicative,
            TokenView::LParen | TokenView::LBracket => Precedence::Call,
            _ => Precedence::Lowest,
        }
    }

    /// The level one step tighter than this one; `Call` stays `Call`.
    pub open spec fn next(self) -> Precedence {
        match self {
            Precedence::Lowest => Precedence::Equality,
            Precedence::Equality => Precedence::Relational,
            Precedence::Relational => Precedence::Additive,
            Precedence::Additive => Precedence::Multiplicative,
            Precedence::Multiplicative => Precedence::Prefix,
            Precedence::Prefix => Precedence::Call,
            Precedence::Call => Precedence::Call,
        }
    }

    /// The place of this level on the scale, as a number.
    pub fn rank(self) -> (r: u8)
        ensures
            r == self.level(),
    {
        match self {
            Precedence::Lowest => 0,
            Precedence::Equality => 1,
            Precedence::Relational => 2,
            Precedence::Additive => 3,
            Precedence::Multiplicative => 4,
            Precedence::Prefix => 5,
            Precedence::Call => 6,
        }
    }

    /// The binding power of `token` in infix position.
    pub fn from_token(token: &Token) -> (p: Precedence)
        ensures
            p == Precedence::of(token@),
    {
        match token {
            Token::Eq | Token::NotEq => Precedence::Equality,
            Token::LT | Token::GT => Precedence::Relational,
            Token::Plus | Token::Minus => Precedence::Additive,
            Token::Slash | Token::Asterisk => Precedence::Multiplicative,
            Token::LParen | Token::LBracket => Precedence::Call,
            _ => Precedence::Lowest,
        }
    }

    /// The level one step tighter than this one; `Call` stays `Call`.
    pub fn tighter(self) -> (p: Precedence)
        ensures
            p == self.next(),
            p.level() == if self.level() < 6 { self.level() + 1 } else { 6 },
    {
        match self {
            Precedence::Lowest => Precedence::Equality,
            Precedence::Equality => Precedence::Relational,
            Precedence::Relational => Precedence::Additive,
            Precedence::Additive => Precedence::Multiplicative,
            Precedence::Multiplicative => Precedence::Prefix,
            Precedence::Prefix => Precedence::Call,
            Precedence::Call => Precedence::Call,
        }
    }
}

} // verus!
