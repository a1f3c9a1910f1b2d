//! The rules of the grammar, one step at a time: for each function of
//! [`crate::grammar`], what it gives in terms of the others.

use crate::grammar::{
    array_literal, block_loop, block_statement, call_arguments, call_expression, expression,
    expression_list, expression_statement, function_literal, function_parameters,
    grouped_expression, hash_literal, hash_loop, if_expression, index_expression, infix_expression,
    infix_loop, is_binary_operator, let_statement, list_loop, no_prefix_message, parameters_loop,
    prefix, prefix_expression, program_loop, return_statement, semicolon, statement, Outcome,
};
use crate::lexer::token_at;
use crate::program::{ExpressionView, Precedence, StatementView};
use crate::token::TokenView;
use vstd::prelude::*;

verus! {

/// The statements of a program are read one after another until the
/// end-of-input marker is the current token.
pub proof fn lemma_program_loop_step(ts: Seq<TokenView>, pos: nat, acc: Seq<StatementView>)
    ensures
        program_loop(ts, pos, acc) == ({
            if token_at(ts, pos) is EOF {
                Outcome::ok(acc, 0)
            } else {
                let s = statement(ts, pos);
                match s.result {
                    Err(e) => Outcome::err(e, s.advance),
                    Ok(stmt) => program_loop(ts, pos + s.advance + 1, acc.push(stmt)).after(
                        s.advance + 1,
                    ),
                }
            }
        }),
{
    reveal(program_loop);
    reveal(statement);
}

/// A statement is a `let` statement, a `return` statement or an
/// expression statement, by the kind of the current token.
pub proof fn lemma_statement_step(ts: Seq<TokenView>, pos: nat)
    ensures
        statement(ts, pos) == ({
            match token_at(ts, pos) {
                TokenView::Let => let_statement(ts, pos),
                TokenView::Return => return_statement(ts, pos),
                _ => expression_statement(ts, pos),
            }
        }),
{
    reveal(statement);
    reveal(let_statement);
    reveal(return_statement);
    reveal(expression_statement);
}

/// A `let` statement is a name, a `=`, an expression and the optional `;`.
pub proof fn lemma_let_statement_step(ts: Seq<TokenView>, pos: nat)
    ensures
        let_statement(ts, pos) == ({
            let skip: nat = if token_at(ts, pos + 1) is Ident {
                1
            } else {
                0
            };
            match token_at(ts, pos + skip) {
                TokenView::Ident(name) => {
                    if !(token_at(ts, pos + skip + 1) is Assign) {
                        Outcome::err("no equal sign!"@, skip)
                    } else {
                        let value = expression(ts, pos + skip + 2, Precedence::Lowest);
                        match value.result {
                            Err(e) => Outcome::err(e, skip + 2 + value.advance),
                            Ok(v) => Outcome::ok(
                                StatementView::LetStatement(name, v),
                                skip + 2 + value.advance + semicolon(
                                    ts,
                                    pos + skip + 2 + value.advance,
                                ),
                            ),
                        }
                    }
                },
                _ => Outcome::err("not a ident token"@, skip),
            }
        }),
{
    reveal(let_statement);
    reveal(expression);
}

/// A `return` statement is an expression after the keyword, and the
/// optional `;`.
pub proof fn lemma_return_statement_step(ts: Seq<TokenView>, pos: nat)
    requires
        pos < ts.len(),
    ensures
        return_statement(ts, pos) == ({
            let value = expression(ts, pos + 1, Precedence::Lowest);
            match value.result {
                Err(e) => Outcome::err(e, 1 + value.advance),
                Ok(v) => Outcome::ok(
                    StatementView::ReturnStatement(v),
                    1 + value.advance + semicolon(ts, pos + 1 + value.advance),
                ),
            }
        }),
{
    reveal(return_statement);
    reveal(expression);
}

/// An expression statement is an expression and the optional `;`.
pub proof fn lemma_expression_statement_step(ts: Seq<TokenView>, pos: nat)
    ensures
        expression_statement(ts, pos) == ({
            let value = expression(ts, pos, Precedence::Lowest);
            match value.result {
                Err(e) => Outcome::err(e, value.advance),
                Ok(v) => Outcome::ok(
                    StatementView::ExpressionStatement(v),
                    value.advance + semicolon(ts, pos + value.advance),
                ),
            }
        }),
{
    reveal(expression_statement);
    reveal(expression);
}

/// A block is the statements after its `{`.
pub proof fn lemma_block_statement_step(ts: Seq<TokenView>, pos: nat)
    requires
        pos < ts.len(),
    ensures
        block_statement(ts, pos) == ({
            block_loop(ts, pos + 1, Seq::empty()).after(1)
        }),
{
    reveal(block_statement);
    reveal(block_loop);
}

/// The statements of a block are read one after another until a `}` is
/// the current token; at the end of input the block fails.
pub proof fn lemma_block_loop_step(ts: Seq<TokenView>, pos: nat, acc: Seq<StatementView>)
    ensures
        block_loop(ts, pos, acc) == ({
            if token_at(ts, pos) is RBrace {
                Outcome::ok(acc, 0)
            } else if token_at(ts, pos) is EOF {
                Outcome::err(no_prefix_message(TokenView::EOF), 0)
            } else {
                let s = statement(ts, pos);
                match s.result {
                    Err(e) => Outcome::err(e, s.advance),
                    Ok(stmt) => block_loop(ts, pos + s.advance + 1, acc.push(stmt)).after(
                        s.advance + 1,
                    ),
                }
            }
        }),
{
    reveal(block_loop);
    reveal(statement);
}

/// An expression is an operand and the operators that are applied to it.
pub proof fn lemma_expression_step(ts: Seq<TokenView>, pos: nat, min: Precedence)
    ensures
        expression(ts, pos, min) == ({
            let first = prefix(ts, pos, min);
            match first.result {
                Err(e) => Outcome::err(e, first.advance),
                Ok(left) => infix_loop(ts, pos + first.advance, min, left).after(first.advance),
            }
        }),
{
    reveal(expression);
    reveal(prefix);
    reveal(infix_loop);
}

/// An operand is read by the rule of the token that it begins with.
pub proof fn lemma_prefix_step(ts: Seq<TokenView>, pos: nat, min: Precedence)
    ensures
        prefix(ts, pos, min) == ({
            match token_at(ts, pos) {
                TokenView::Ident(name) => Outcome::ok(ExpressionView::Identifier(name), 0),
                TokenView::Int(value) => Outcome::ok(ExpressionView::IntLiteral(value), 0),
                TokenView::Bool(value) => Outcome::ok(ExpressionView::BoolLiteral(value), 0),
                TokenView::String(text) => Outcome::ok(ExpressionView::StringLiteral(text), 0),
                TokenView::Bang => if min.level() > Precedence::Prefix.level() {
                    Outcome::err("'(' expected after prefix '!'"@, 0)
                } else {
                    prefix_expression(ts, pos)
                },
                TokenView::Minus => if min.level() > Precedence::Prefix.level() {
                    Outcome::err("'(' expected after prefix '-'"@, 0)
                } else {
                    prefix_expression(ts, pos)
                },
                TokenView::LParen => grouped_expression(ts, pos),
                TokenView::If => if_expression(ts, pos),
                TokenView::Function => function_literal(ts, pos),
                TokenView::LBracket => array_literal(ts, pos),
                TokenView::LBrace => hash_literal(ts, pos),
                other => Outcome::err(no_prefix_message(other), 0),
            }
        }),
{
    reveal(prefix);
    reveal(prefix_expression);
    reveal(grouped_expression);
    reveal(if_expression);
    reveal(function_literal);
    reveal(array_literal);
    reveal(hash_literal);
}

/// The operators after an operand are applied one after another, while
/// they bind more tightly than the threshold.
pub proof fn lemma_infix_loop_step(
    ts: Seq<TokenView>,
    pos: nat,
    min: Precedence,
    left: ExpressionView,
)
    ensures
        infix_loop(ts, pos, min, left) == ({
            let next = token_at(ts, pos + 1);
            if next is Semicolon || min.level() >= Precedence::of(next).level() {
                Outcome::ok(left, 0)
            } else {
                let applied = if is_binary_operator(next) {
                    infix_expression(ts, pos + 1, left)
                } else if next is LParen {
                    call_expression(ts, pos + 1, left)
                } else {
                    index_expression(ts, pos + 1, left)
                };
                match applied.result {
                    Err(e) => Outcome::err(e, 1 + applied.advance),
                    Ok(e) => infix_loop(ts, pos + 1 + applied.advance, min, e).after(
                        1 + applied.advance,
                    ),
                }
            }
        }),
{
    reveal(infix_loop);
    reveal(infix_expression);
    reveal(call_expression);
    reveal(index_expression);
}

/// A unary operator is applied to the expression after it.
pub proof fn lemma_prefix_expression_step(ts: Seq<TokenView>, pos: nat)
    requires
        pos < ts.len(),
    ensures
        prefix_expression(ts, pos) == ({
            let op = token_at(ts, pos);
            let min = if op is Minus {
                Precedence::Prefix.next()
            } else {
                Precedence::Prefix
            };
            let right = expression(ts, pos + 1, min);
            match right.result {
                Err(e) => Outcome::err(e, 1 + right.advance),
                Ok(r) => Outcome::ok(
                    ExpressionView::PrefixExpression(op, Box::new(r)),
                    1 + right.advance,
                ),
            }
        }),
{
    reveal(prefix_expression);
    reveal(expression);
}

/// A binary operator is applied to the operand before it and to the
/// expression after it.
pub proof fn lemma_infix_expression_step(ts: Seq<TokenView>, pos: nat, left: ExpressionView)
    requires
        pos < ts.len(),
    ensures
        infix_expression(ts, pos, left) == ({
            let op = token_at(ts, pos);
            let right = expression(ts, pos + 1, Precedence::of(op));
            match right.result {
                Err(e) => Outcome::err(e, 1 + right.advance),
                Ok(r) => Outcome::ok(
                    ExpressionView::InfixExpression(Box::new(left), op, Box::new(r)),
                    1 + right.advance,
                ),
            }
        }),
{
    reveal(infix_expression);
    reveal(expression);
}

/// A group is an expression between `(` and `)`.
pub proof fn lemma_grouped_expression_step(ts: Seq<TokenView>, pos: nat)
    requires
        pos < ts.len(),
    ensures
        grouped_expression(ts, pos) == ({
            let inner = expression(ts, pos + 1, Precedence::Lowest);
            match inner.result {
                Err(e) => Outcome::err(e, 1 + inner.advance),
                Ok(e) => if token_at(ts, pos + 1 + inner.advance + 1) is RParen {
                    Outcome::ok(e, 1 + inner.advance + 1)
                } else {
                    Outcome::err("Right parentheses expected"@, 1 + inner.advance)
                },
            }
        }),
{
    reveal(grouped_expression);
    reveal(expression);
}

/// A conditional is a condition between `(` and `)` and a block.
pub proof fn lemma_if_expression_step(ts: Seq<TokenView>, pos: nat)
    requires
        pos < ts.len(),
    ensures
        if_expression(ts, pos) == ({
            if !(token_at(ts, pos + 1) is LParen) {
                Outcome::err("'(' expected after 'if'."@, 0)
            } else {
                let cond = expression(ts, pos + 2, Precedence::Lowest);
                match cond.result {
                    Err(e) => Outcome::err(e, 2 + cond.advance),
                    Ok(c) => {
                        let end = pos + 2 + cond.advance;
                        if !(token_at(ts, end + 1) is RParen) {
                            Outcome::err(
                                "')' expected after if condition expression"@,
                                2 + cond.advance,
                            )
                        } else if !(token_at(ts, end + 2) is LBrace) {
                            Outcome::err("'{' expected for block."@, 2 + cond.advance + 1)
                        } else {
                            let body = block_statement(ts, end + 2);
                            match body.result {
                                Err(e) => Outcome::err(e, 2 + cond.advance + 2 + body.advance),
                                Ok(b) => Outcome::ok(
                                    ExpressionView::IfExpression(Box::new(c), b, Seq::empty()),
                                    2 + cond.advance + 2 + body.advance,
                                ),
                            }
                        }
                    },
                }
            }
        }),
{
    reveal(if_expression);
    reveal(block_statement);
    reveal(expression);
}

/// A function literal is a parameter list and a block.
pub proof fn lemma_function_literal_step(ts: Seq<TokenView>, pos: nat)
    requires
        pos < ts.len(),
    ensures
        function_literal(ts, pos) == ({
            if !(token_at(ts, pos + 1) is LParen) {
                Outcome::err("'(' expected for function expression"@, 0)
            } else {
                let params = function_parameters(ts, pos + 1);
                match params.result {
                    Err(e) => Outcome::err(e, 1 + params.advance),
                    Ok(ps) => {
                        let end = pos + 1 + params.advance;
                        if !(token_at(ts, end + 1) is LBrace) {
                            Outcome::err("'{' expected for function body."@, 1 + params.advance)
                        } else {
                            let body = block_statement(ts, end + 1);
                            match body.result {
                                Err(e) => Outcome::err(e, 1 + params.advance + 1 + body.advance),
                                Ok(b) => Outcome::ok(
                                    ExpressionView::FunctionExpression(ps, b),
                                    1 + params.advance + 1 + body.advance,
                                ),
                            }
                        }
                    },
                }
            }
        }),
{
    reveal(function_literal);
    reveal(block_statement);
}

/// Parameter names are taken one after another, with a `,` between them,
/// up to the `)`.
pub proof fn lemma_parameters_loop_step(ts: Seq<TokenView>, pos: nat, acc: Seq<Seq<char>>)
    ensures
        parameters_loop(ts, pos, acc) == ({
            let names = match token_at(ts, pos) {
                TokenView::Ident(name) => acc.push(name),
                _ => acc,
            };
            if token_at(ts, pos + 1) is Comma {
                parameters_loop(ts, pos + 2, names).after(2)
            } else if token_at(ts, pos + 1) is RParen {
                Outcome::ok(names, 1)
            } else {
                Outcome::err("')' expected for function parameters expression."@, 0)
            }
        }),
{
    reveal(parameters_loop);
}

/// An array literal is an expression list up to `]`.
pub proof fn lemma_array_literal_step(ts: Seq<TokenView>, pos: nat)
    requires
        pos < ts.len(),
    ensures
        array_literal(ts, pos) == ({
            let list = expression_list(ts, pos, TokenView::RBracket);
            match list.result {
                Err(e) => Outcome::err(e, list.advance),
                Ok(items) => if token_at(ts, pos + list.advance + 1) is RBracket {
                    Outcome::ok(ExpressionView::ArrayLiteral(items), list.advance + 1)
                } else {
                    Outcome::err("']' expected for array definition."@, list.advance)
                },
            }
        }),
{
    reveal(array_literal);
    reveal(expression_list);
}

/// A hash literal is the pairs after its `{`.
pub proof fn lemma_hash_literal_step(ts: Seq<TokenView>, pos: nat)
    requires
        pos < ts.len(),
    ensures
        hash_literal(ts, pos) == ({
            hash_loop(ts, pos, Seq::empty())
        }),
{
    reveal(hash_literal);
    reveal(hash_loop);
}

/// The pairs of a hash literal are read until the next token is `}`.
pub proof fn lemma_hash_loop_step(
    ts: Seq<TokenView>,
    pos: nat,
    acc: Seq<(ExpressionView, ExpressionView)>,
)
    requires
        pos < ts.len(),
    ensures
        hash_loop(ts, pos, acc) == ({
            if token_at(ts, pos + 1) is RBrace {
                Outcome::ok(ExpressionView::HashLiteral(acc), 1)
            } else {
                let key = expression(ts, pos + 1, Precedence::Lowest);
                match key.result {
                    Err(e) => Outcome::err(e, 1 + key.advance),
                    Ok(k) => {
                        let key_end = pos + 1 + key.advance;
                        if !(token_at(ts, key_end + 1) is Colon) {
                            Outcome::err("':' expected in Hash element."@, 1 + key.advance)
                        } else {
                            let value = expression(ts, key_end + 2, Precedence::Lowest);
                            match value.result {
                                Err(e) => Outcome::err(e, 1 + key.advance + 2 + value.advance),
                                Ok(v) => {
                                    let consumed = 1 + key.advance + 2 + value.advance;
                                    let next = token_at(ts, pos + consumed + 1);
                                    if !(next is RBrace) && !(next is Comma) {
                                        Outcome::err(
                                            "'}' or ',' expected in Hash element."@,
                                            consumed,
                                        )
                                    } else {
                                        hash_loop(ts, pos + consumed, acc.push((k, v))).after(
                                            consumed,
                                        )
                                    }
                                },
                            }
                        }
                    },
                }
            }
        }),
{
    reveal(hash_loop);
    reveal(expression);
}

/// An expression list is empty before the closing token, else one
/// expression and those that follow it.
pub proof fn lemma_expression_list_step(ts: Seq<TokenView>, pos: nat, end: TokenView)
    requires
        pos < ts.len(),
    ensures
        expression_list(ts, pos, end) == ({
            if token_at(ts, pos + 1) == end {
                Outcome::ok(Seq::empty(), 0)
            } else {
                let first = expression(ts, pos + 1, Precedence::Lowest);
                match first.result {
                    Err(e) => Outcome::err(e, 1 + first.advance),
                    Ok(e) => list_loop(ts, pos + 1 + first.advance, seq![e]).after(
                        1 + first.advance,
                    ),
                }
            }
        }),
{
    reveal(expression_list);
    reveal(expression);
    reveal(list_loop);
}

/// The further items of an expression list are read while a `,` follows.
pub proof fn lemma_list_loop_step(ts: Seq<TokenView>, pos: nat, acc: Seq<ExpressionView>)
    ensures
        list_loop(ts, pos, acc) == ({
            if token_at(ts, pos + 1) is Comma {
                let item = expression(ts, pos + 2, Precedence::Lowest);
                match item.result {
                    Err(e) => Outcome::err(e, 2 + item.advance),
                    Ok(e) => list_loop(ts, pos + 2 + item.advance, acc.push(e)).after(
                        2 + item.advance,
                    ),
                }
            } else {
                Outcome::ok(acc, 0)
            }
        }),
{
    reveal(list_loop);
    reveal(expression);
}

/// A call applies the callee to the arguments.
pub proof fn lemma_call_expression_step(ts: Seq<TokenView>, pos: nat, callee: ExpressionView)
    requires
        pos < ts.len(),
    ensures
        call_expression(ts, pos, callee) == ({
            let args = call_arguments(ts, pos);
            match args.result {
                Err(e) => Outcome::err(e, args.advance),
                Ok(a) => Outcome::ok(
                    ExpressionView::CallExpression(Box::new(callee), a),
                    args.advance,
                ),
            }
        }),
{
    reveal(call_expression);
    reveal(call_arguments);
}

/// The arguments of a call are an expression list up to `)`.
pub proof fn lemma_call_arguments_step(ts: Seq<TokenView>, pos: nat)
    requires
        pos < ts.len(),
    ensures
        call_arguments(ts, pos) == ({
            let list = expression_list(ts, pos, TokenView::RParen);
            match list.result {
                Err(e) => Outcome::err(e, list.advance),
                Ok(items) => if token_at(ts, pos + list.advance + 1) is RParen {
                    Outcome::ok(items, list.advance + 1)
                } else {
                    Outcome::err("')' expected for function call."@, list.advance)
                },
            }
        }),
{
    reveal(call_arguments);
    reveal(expression_list);
}

/// An index operation is an expression between `[` and `]`.
pub proof fn lemma_index_expression_step(ts: Seq<TokenView>, pos: nat, container: ExpressionView)
    requires
        pos < ts.len(),
    ensures
        index_expression(ts, pos, container) == ({
            let index = expression(ts, pos + 1, Precedence::Lowest);
            match index.result {
                Err(e) => Outcome::err(e, 1 + index.advance),
                Ok(i) => if token_at(ts, pos + 1 + index.advance + 1) is RBracket {
                    Outcome::ok(
                        ExpressionView::IndexExpression(Box::new(container), Box::new(i)),
                        1 + index.advance + 1,
                    )
                } else {
                    Outcome::err("']' expected for index end."@, 1 + index.advance)
                },
            }
        }),
{
    reveal(index_expression);
    reveal(expression);
}

/// At the end-of-input marker no statement can be read: the marker begins
/// no expression.
pub proof fn lemma_statement_at_eof(ts: Seq<TokenView>, pos: nat)
    requires
        token_at(ts, pos) is EOF,
    ensures
        statement(ts, pos) == Outcome::<StatementView>::err(
            no_prefix_message(TokenView::EOF),
            0,
        ),
{
    lemma_statement_step(ts, pos);
    lemma_expression_statement_step(ts, pos);
    lemma_expression_step(ts, pos, Precedence::Lowest);
    lemma_prefix_step(ts, pos, Precedence::Lowest);
}

} // verus!
