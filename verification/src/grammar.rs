//! The grammar, as a function from a token stream and a cursor position to
//! the syntax tree that is read there.
//!
//! Every function takes the stream `ts` and the position `pos` of the
//! current token, and gives an [`Outcome`]: the tree or the message of the
//! first syntax error, and how many tokens the cursor advanced on the way.
//! On success the cursor rests on the last token of what was read.

use crate::lexer::token_at;
use crate::program::{ExpressionView, Precedence, ProgramView, StatementView};
use crate::token::{token_name, TokenView};
use vstd::prelude::*;

verus! {

/// What reading a construct gives: its value or the message of the first
/// syntax error, and the number of tokens by which the cursor advanced.
pub ghost struct Outcome<T> {
    pub result: Result<T, Seq<char>>,
    pub advance: nat,
}

impl<T> Outcome<T> {
    /// Success with `value`, after advancing by `advance` tokens.
    pub open spec fn ok(value: T, advance: nat) -> Outcome<T> {
        Outcome { result: Ok(value), advance }
    }

    /// Failure with `message`, after advancing by `advance` tokens.
    pub open spec fn err(message: Seq<char>, advance: nat) -> Outcome<T> {
        Outcome { result: Err(message), advance }
    }

    /// This outcome, reached after `n` tokens were consumed before it.
    pub open spec fn after(self, n: nat) -> Outcome<T> {
        Outcome { result: self.result, advance: n + self.advance }
    }
}

/// The number of tokens of `ts` from position `pos` on.
pub open spec fn remaining(ts: Seq<TokenView>, pos: nat) -> nat {
    if pos < ts.len() {
        (ts.len() - pos) as nat
    } else {
        0
    }
}

/// The message for a token that cannot begin an expression.
pub open spec fn no_prefix_message(token: TokenView) -> Seq<char> {
    "no prefix parse function for "@ + token_name(token)
}

/// Whether `token` is one of the eight binary operators.
pub open spec fn is_binary_operator(token: TokenView) -> bool {
    token is Eq || token is NotEq || token is LT || token is GT || token is Plus
        || token is Minus || token is Slash || token is Asterisk
}

/// 1 if the token after position `pos` is a semicolon, else 0: the tokens
/// that the optional `;` at the end of a statement adds.
pub open spec fn semicolon(ts: Seq<TokenView>, pos: nat) -> nat {
    if token_at(ts, pos + 1) is Semicolon {
        1
    } else {
        0
    }
}

/// The identifier that the current token names, if it is one.
pub open spec fn identifier(ts: Seq<TokenView>, pos: nat) -> Result<Seq<char>, Seq<char>> {
    match token_at(ts, pos) {
        TokenView::Ident(name) => Ok(name),
        _ => Err("not a ident token"@),
    }
}

/// The integer literal that the current token holds, if it is one.
pub open spec fn int_literal(ts: Seq<TokenView>, pos: nat) -> Result<ExpressionView, Seq<char>> {
    match token_at(ts, pos) {
        TokenView::Int(value) => Ok(ExpressionView::IntLiteral(value)),
        _ => Err("Token::Int not found"@),
    }
}

/// The boolean literal that the current token holds, if it is one.
pub open spec fn bool_literal(ts: Seq<TokenView>, pos: nat) -> Result<ExpressionView, Seq<char>> {
    match token_at(ts, pos) {
        TokenView::Bool(value) => Ok(ExpressionView::BoolLiteral(value)),
        _ => Err("Token::Bool not found"@),
    }
}

/// The string literal that the current token holds, if it is one.
pub open spec fn string_literal(ts: Seq<TokenView>, pos: nat) -> Result<
    ExpressionView,
    Seq<char>,
> {
    match token_at(ts, pos) {
        TokenView::String(text) => Ok(ExpressionView::StringLiteral(text)),
        _ => Err("Token::String not found"@),
    }
}

/// A whole program: statements up to the end-of-input marker.
pub open spec fn program(ts: Seq<TokenView>, pos: nat) -> Outcome<ProgramView> {
    let all = program_loop(ts, pos, Seq::empty());
    match all.result {
        Ok(statements) => Outcome::ok(ProgramView { statements }, all.advance),
        Err(e) => Outcome::err(e, all.advance),
    }
}

/// The statements from `pos` to the end-of-input marker, appended to `acc`.
/// After each statement the cursor moves on by one token.
#[verifier::opaque]
pub open spec fn program_loop(ts: Seq<TokenView>, pos: nat, acc: Seq<StatementView>) -> Outcome<
    Seq<StatementView>,
>
    decreases remaining(ts, pos), 10nat,
{
    if token_at(ts, pos) is EOF {
        Outcome::ok(acc, 0)
    } else {
        let s = statement(ts, pos);
        match s.result {
            Err(e) => Outcome::err(e, s.advance),
            Ok(stmt) => program_loop(ts, pos + s.advance + 1, acc.push(stmt)).after(
                s.advance + 1,
            ),
        }
    }
}

/// One statement, chosen by the kind of the current token.
#[verifier::opaque]
pub open spec fn statement(ts: Seq<TokenView>, pos: nat) -> Outcome<StatementView>
    decreases remaining(ts, pos), 9nat,
{
    match token_at(ts, pos) {
        TokenView::Let => let_statement(ts, pos),
        TokenView::Return => return_statement(ts, pos),
        _ => expression_statement(ts, pos),
    }
}

/// `let <name> = <value>` with an optional `;`. The name is the next token
/// if that is an identifier, else the current one.
#[verifier::opaque]
pub open spec fn let_statement(ts: Seq<TokenView>, pos: nat) -> Outcome<StatementView>
    decreases remaining(ts, pos), 8nat,
{
    let skip: nat = if token_at(ts, pos + 1) is Ident {
        1
    } else {
        0
    };
    match token_at(ts, pos + skip) {
        TokenView::Ident(name) => {
            if !(token_at(ts, pos + skip + 1) is Assign) {
                Outcome::err("no equal sign!"@, skip)
            } else {
                let value = expression(ts, pos + skip + 2, Precedence::Lowest);
                match value.result {
                    Err(e) => Outcome::err(e, skip + 2 + value.advance),
                    Ok(v) => Outcome::ok(
                        StatementView::LetStatement(name, v),
                        skip + 2 + value.advance + semicolon(ts, pos + skip + 2 + value.advance),
                    ),
                }
            }
        },
        _ => Outcome::err("not a ident token"@, skip),
    }
}

/// `return <value>` with an optional `;`.
#[verifier::opaque]
pub open spec fn return_statement(ts: Seq<TokenView>, pos: nat) -> Outcome<StatementView>
    decreases remaining(ts, pos), 8nat,
    when pos < ts.len()
{
    let value = expression(ts, pos + 1, Precedence::Lowest);
    match value.result {
        Err(e) => Outcome::err(e, 1 + value.advance),
        Ok(v) => Outcome::ok(
            StatementView::ReturnStatement(v),
            1 + value.advance + semicolon(ts, pos + 1 + value.advance),
        ),
    }
}

/// A bare expression with an optional `;`.
#[verifier::opaque]
pub open spec fn expression_statement(ts: Seq<TokenView>, pos: nat) -> Outcome<StatementView>
    decreases remaining(ts, pos), 8nat,
{
    let value = expression(ts, pos, Precedence::Lowest);
    match value.result {
        Err(e) => Outcome::err(e, value.advance),
        Ok(v) => Outcome::ok(
            StatementView::ExpressionStatement(v),
            value.advance + semicolon(ts, pos + value.advance),
        ),
    }
}

/// The statements of a block whose `{` is the current token, up to the
/// closing `}`, on which the cursor comes to rest.
#[verifier::opaque]
pub open spec fn block_statement(ts: Seq<TokenView>, pos: nat) -> Outcome<Seq<StatementView>>
    decreases remaining(ts, pos), 4nat,
    when pos < ts.len()
{
    block_loop(ts, pos + 1, Seq::empty()).after(1)
}

/// The statements from `pos` to the closing `}`, appended to `acc`. A block
/// that runs into the end of input fails: the marker begins no expression.
#[verifier::opaque]
pub open spec fn block_loop(ts: Seq<TokenView>, pos: nat, acc: Seq<StatementView>) -> Outcome<
    Seq<StatementView>,
>
    decreases remaining(ts, pos), 10nat,
{
    if token_at(ts, pos) is RBrace {
        Outcome::ok(acc, 0)
    } else if token_at(ts, pos) is EOF {
        Outcome::err(no_prefix_message(TokenView::EOF), 0)
    } else {
        let s = statement(ts, pos);
        match s.result {
            Err(e) => Outcome::err(e, s.advance),
            Ok(stmt) => block_loop(ts, pos + s.advance + 1, acc.push(stmt)).after(s.advance + 1),
        }
    }
}

/// An expression whose operators all bind more tightly than `min`: one
/// operand read by its prefix rule, then the operators that follow it.
#[verifier::opaque]
pub open spec fn expression(ts: Seq<TokenView>, pos: nat, min: Precedence) -> Outcome<
    ExpressionView,
>
    decreases remaining(ts, pos), 7nat,
{
    let first = prefix(ts, pos, min);
    match first.result {
        Err(e) => Outcome::err(e, first.advance),
        Ok(left) => infix_loop(ts, pos + first.advance, min, left).after(first.advance),
    }
}

/// The operand that begins at the current token, by that token's kind.
#[verifier::opaque]
pub open spec fn prefix(ts: Seq<TokenView>, pos: nat, min: Precedence) -> Outcome<ExpressionView>
    decreases remaining(ts, pos), 6nat,
{
    match token_at(ts, pos) {
        TokenView::Ident(name) => Outcome::ok(ExpressionView::Identifier(name), 0),
        TokenView::Int(value) => Outcome::ok(ExpressionView::IntLiteral(value), 0),
        TokenView::Bool(value) => Outcome::ok(ExpressionView::BoolLiteral(value), 0),
        TokenView::String(text) => Outcome::ok(ExpressionView::StringLiteral(text), 0),
        TokenView::Bang => if min.level() > Precedence::Prefix.level() {
            Outcome::err("'(' expected after prefix '!'"@, 0)
        } else {
            prefix_expression(ts, pos)
        },
        TokenView::Minus => if min.level() > Precedence::Prefix.level() {
            Outcome::err("'(' expected after prefix '-'"@, 0)
        } else {
            prefix_expression(ts, pos)
        },
        TokenView::LParen => grouped_expression(ts, pos),
        TokenView::If => if_expression(ts, pos),
        TokenView::Function => function_literal(ts, pos),
        TokenView::LBracket => array_literal(ts, pos),
        TokenView::LBrace => hash_literal(ts, pos),
        other => Outcome::err(no_prefix_message(other), 0),
    }
}

/// The operators that follow the operand `left`, which ends at `pos`: while
/// the next token is no `;` and binds more tightly than `min`, it is
/// applied to what has been read so far.
#[verifier::opaque]
pub open spec fn infix_loop(
    ts: Seq<TokenView>,
    pos: nat,
    min: Precedence,
    left: ExpressionView,
) -> Outcome<ExpressionView>
    decreases remaining(ts, pos), 6nat,
{
    let next = token_at(ts, pos + 1);
    if next is Semicolon || min.level() >= Precedence::of(next).level() {
        Outcome::ok(left, 0)
    } else {
        let applied = if is_binary_operator(next) {
            infix_expression(ts, pos + 1, left)
        } else if next is LParen {
            call_expression(ts, pos + 1, left)
        } else {
            index_expression(ts, pos + 1, left)
        };
        match applied.result {
            Err(e) => Outcome::err(e, 1 + applied.advance),
            Ok(e) => infix_loop(ts, pos + 1 + applied.advance, min, e).after(
                1 + applied.advance,
            ),
        }
    }
}

/// A unary operator, the current token, and its operand. The operand of
/// `-` is read one level tighter than that of `!`.
#[verifier::opaque]
pub open spec fn prefix_expression(ts: Seq<TokenView>, pos: nat) -> Outcome<ExpressionView>
    decreases remaining(ts, pos), 5nat,
    when pos < ts.len()
{
    let op = token_at(ts, pos);
    let min = if op is Minus {
        Precedence::Prefix.next()
    } else {
        Precedence::Prefix
    };
    let right = expression(ts, pos + 1, min);
    match right.result {
        Err(e) => Outcome::err(e, 1 + right.advance),
        Ok(r) => Outcome::ok(ExpressionView::PrefixExpression(op, Box::new(r)), 1 + right.advance),
    }
}

/// A binary operator, the current token, applied to `left` and to the
/// operand after it, which is read at the operator's own level.
#[verifier::opaque]
pub open spec fn infix_expression(ts: Seq<TokenView>, pos: nat, left: ExpressionView) -> Outcome<
    ExpressionView,
>
    decreases remaining(ts, pos), 5nat,
    when pos < ts.len()
{
    let op = token_at(ts, pos);
    let right = expression(ts, pos + 1, Precedence::of(op));
    match right.result {
        Err(e) => Outcome::err(e, 1 + right.advance),
        Ok(r) => Outcome::ok(
            ExpressionView::InfixExpression(Box::new(left), op, Box::new(r)),
            1 + right.advance,
        ),
    }
}

/// `( <expression> )`, with `(` the current token.
#[verifier::opaque]
pub open spec fn grouped_expression(ts: Seq<TokenView>, pos: nat) -> Outcome<ExpressionView>
    decreases remaining(ts, pos), 5nat,
    when pos < ts.len()
{
    let inner = expression(ts, pos + 1, Precedence::Lowest);
    match inner.result {
        Err(e) => Outcome::err(e, 1 + inner.advance),
        Ok(e) => if token_at(ts, pos + 1 + inner.advance + 1) is RParen {
            Outcome::ok(e, 1 + inner.advance + 1)
        } else {
            Outcome::err("Right parentheses expected"@, 1 + inner.advance)
        },
    }
}

/// `if ( <condition> ) { <consequence> }`, with `if` the current token.
/// The alternative is always empty.
#[verifier::opaque]
pub open spec fn if_expression(ts: Seq<TokenView>, pos: nat) -> Outcome<ExpressionView>
    decreases remaining(ts, pos), 5nat,
    when pos < ts.len()
{
    if !(token_at(ts, pos + 1) is LParen) {
        Outcome::err("'(' expected after 'if'."@, 0)
    } else {
        let cond = expression(ts, pos + 2, Precedence::Lowest);
        match cond.result {
            Err(e) => Outcome::err(e, 2 + cond.advance),
            Ok(c) => {
                let end = pos + 2 + cond.advance;
                if !(token_at(ts, end + 1) is RParen) {
                    Outcome::err("')' expected after if condition expression"@, 2 + cond.advance)
                } else if !(token_at(ts, end + 2) is LBrace) {
                    Outcome::err("'{' expected for block."@, 2 + cond.advance + 1)
                } else {
                    let body = block_statement(ts, end + 2);
                    match body.result {
                        Err(e) => Outcome::err(e, 2 + cond.advance + 2 + body.advance),
                        Ok(b) => Outcome::ok(
                            ExpressionView::IfExpression(Box::new(c), b, Seq::empty()),
                            2 + cond.advance + 2 + body.advance,
                        ),
                    }
                }
            },
        }
    }
}

/// `function ( <parameters> ) { <body> }`, with `function` the current
/// token.
#[verifier::opaque]
pub open spec fn function_literal(ts: Seq<TokenView>, pos: nat) -> Outcome<ExpressionView>
    decreases remaining(ts, pos), 5nat,
    when pos < ts.len()
{
    if !(token_at(ts, pos + 1) is LParen) {
        Outcome::err("'(' expected for function expression"@, 0)
    } else {
        let params = function_parameters(ts, pos + 1);
        match params.result {
            Err(e) => Outcome::err(e, 1 + params.advance),
            Ok(ps) => {
                let end = pos + 1 + params.advance;
                if !(token_at(ts, end + 1) is LBrace) {
                    Outcome::err("'{' expected for function body."@, 1 + params.advance)
                } else {
                    let body = block_statement(ts, end + 1);
                    match body.result {
                        Err(e) => Outcome::err(e, 1 + params.advance + 1 + body.advance),
                        Ok(b) => Outcome::ok(
                            ExpressionView::FunctionExpression(ps, b),
                            1 + params.advance + 1 + body.advance,
                        ),
                    }
                }
            },
        }
    }
}

/// The parameter names between `(`, the current token, and `)`, on which
/// the cursor comes to rest.
pub open spec fn function_parameters(ts: Seq<TokenView>, pos: nat) -> Outcome<Seq<Seq<char>>> {
    if token_at(ts, pos + 1) is RParen {
        Outcome::ok(Seq::empty(), 1)
    } else {
        parameters_loop(ts, pos + 1, Seq::empty()).after(1)
    }
}

/// The parameter names from `pos` on, appended to `acc`: the current token
/// is taken if it is an identifier and passed over if not, and a `,` leads
/// to the next one.
#[verifier::opaque]
pub open spec fn parameters_loop(ts: Seq<TokenView>, pos: nat, acc: Seq<Seq<char>>) -> Outcome<
    Seq<Seq<char>>,
>
    decreases remaining(ts, pos),
{
    let names = match token_at(ts, pos) {
        TokenView::Ident(name) => acc.push(name),
        _ => acc,
    };
    if token_at(ts, pos + 1) is Comma {
        parameters_loop(ts, pos + 2, names).after(2)
    } else if token_at(ts, pos + 1) is RParen {
        Outcome::ok(names, 1)
    } else {
        Outcome::err("')' expected for function parameters expression."@, 0)
    }
}

/// `[ <elements> ]`, with `[` the current token.
#[verifier::opaque]
pub open spec fn array_literal(ts: Seq<TokenView>, pos: nat) -> Outcome<ExpressionView>
    decreases remaining(ts, pos), 5nat,
    when pos < ts.len()
{
    let list = expression_list(ts, pos, TokenView::RBracket);
    match list.result {
        Err(e) => Outcome::err(e, list.advance),
        Ok(items) => if token_at(ts, pos + list.advance + 1) is RBracket {
            Outcome::ok(ExpressionView::ArrayLiteral(items), list.advance + 1)
        } else {
            Outcome::err("']' expected for array definition."@, list.advance)
        },
    }
}

/// `{ <key> : <value> }` or `{}`, with `{` the current token.
#[verifier::opaque]
pub open spec fn hash_literal(ts: Seq<TokenView>, pos: nat) -> Outcome<ExpressionView>
    decreases remaining(ts, pos), 5nat,
    when pos < ts.len()
{
    hash_loop(ts, pos, Seq::empty())
}

/// The pairs of a hash literal after position `pos`, appended to `acc`:
/// while the next token is not `}`, the cursor moves on by one token and a
/// key, a `:` and a value are read; after a pair the next token must be `}`
/// or `,`.
#[verifier::opaque]
pub open spec fn hash_loop(
    ts: Seq<TokenView>,
    pos: nat,
    acc: Seq<(ExpressionView, ExpressionView)>,
) -> Outcome<ExpressionView>
    decreases remaining(ts, pos), 4nat,
    when pos < ts.len()
{
    if token_at(ts, pos + 1) is RBrace {
        Outcome::ok(ExpressionView::HashLiteral(acc), 1)
    } else {
        let key = expression(ts, pos + 1, Precedence::Lowest);
        match key.result {
            Err(e) => Outcome::err(e, 1 + key.advance),
            Ok(k) => {
                let key_end = pos + 1 + key.advance;
                if !(token_at(ts, key_end + 1) is Colon) {
                    Outcome::err("':' expected in Hash element."@, 1 + key.advance)
                } else {
                    let value = expression(ts, key_end + 2, Precedence::Lowest);
                    match value.result {
                        Err(e) => Outcome::err(e, 1 + key.advance + 2 + value.advance),
                        Ok(v) => {
                            let consumed = 1 + key.advance + 2 + value.advance;
                            let next = token_at(ts, pos + consumed + 1);
                            if !(next is RBrace) && !(next is Comma) {
                                Outcome::err("'}' or ',' expected in Hash element."@, consumed)
                            } else {
                                hash_loop(ts, pos + consumed, acc.push((k, v))).after(consumed)
                            }
                        },
                    }
                }
            },
        }
    }
}

/// Expressions separated by `,`, from after the current token up to but
/// not including the token `end`; empty if the next token is `end`.
#[verifier::opaque]
pub open spec fn expression_list(ts: Seq<TokenView>, pos: nat, end: TokenView) -> Outcome<
    Seq<ExpressionView>,
>
    decreases remaining(ts, pos), 3nat,
    when pos < ts.len()
{
    if token_at(ts, pos + 1) == end {
        Outcome::ok(Seq::empty(), 0)
    } else {
        let first = expression(ts, pos + 1, Precedence::Lowest);
        match first.result {
            Err(e) => Outcome::err(e, 1 + first.advance),
            Ok(e) => list_loop(ts, pos + 1 + first.advance, seq![e]).after(1 + first.advance),
        }
    }
}

/// The further elements of an expression list, appended to `acc`: each `,`
/// after position `pos` is followed by one more expression.
#[verifier::opaque]
pub open spec fn list_loop(ts: Seq<TokenView>, pos: nat, acc: Seq<ExpressionView>) -> Outcome<
    Seq<ExpressionView>,
>
    decreases remaining(ts, pos), 2nat,
{
    if token_at(ts, pos + 1) is Comma {
        let item = expression(ts, pos + 2, Precedence::Lowest);
        match item.result {
            Err(e) => Outcome::err(e, 2 + item.advance),
            Ok(e) => list_loop(ts, pos + 2 + item.advance, acc.push(e)).after(2 + item.advance),
        }
    } else {
        Outcome::ok(acc, 0)
    }
}

/// A call of `callee`, with `(` the current token.
#[verifier::opaque]
pub open spec fn call_expression(ts: Seq<TokenView>, pos: nat, callee: ExpressionView) -> Outcome<
    ExpressionView,
>
    decreases remaining(ts, pos), 5nat,
    when pos < ts.len()
{
    let args = call_arguments(ts, pos);
    match args.result {
        Err(e) => Outcome::err(e, args.advance),
        Ok(a) => Outcome::ok(ExpressionView::CallExpression(Box::new(callee), a), args.advance),
    }
}

/// The arguments of a call between `(`, the current token, and `)`.
#[verifier::opaque]
pub open spec fn call_arguments(ts: Seq<TokenView>, pos: nat) -> Outcome<Seq<ExpressionView>>
    decreases remaining(ts, pos), 4nat,
    when pos < ts.len()
{
    let list = expression_list(ts, pos, TokenView::RParen);
    match list.result {
        Err(e) => Outcome::err(e, list.advance),
        Ok(items) => if token_at(ts, pos + list.advance + 1) is RParen {
            Outcome::ok(items, list.advance + 1)
        } else {
            Outcome::err("')' expected for function call."@, list.advance)
        },
    }
}

/// `container [ <index> ]`, with `[` the current token.
#[verifier::opaque]
pub open spec fn index_expression(
    ts: Seq<TokenView>,
    pos: nat,
    container: ExpressionView,
) -> Outcome<ExpressionView>
    decreases remaining(ts, pos), 5nat,
    when pos < ts.len()
{
    let index = expression(ts, pos + 1, Precedence::Lowest);
    match index.result {
        Err(e) => Outcome::err(e, 1 + index.advance),
        Ok(i) => if token_at(ts, pos + 1 + index.advance + 1) is RBracket {
            Outcome::ok(
                ExpressionView::IndexExpression(Box::new(container), Box::new(i)),
                1 + index.advance + 1,
            )
        } else {
            Outcome::err("']' expected for index end."@, 1 + index.advance)
        },
    }
}

} // verus!
