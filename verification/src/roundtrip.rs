//! Writing a syntax tree out as tokens, and reading the tokens back.
//!
//! [`program_source`] writes a program out with every operand of an
//! operator in parentheses and a `;` after every statement. Reading that
//! back gives the program again: [`lemma_program_round_trip`].

use crate::grammar::{
    array_literal, block_loop, call_arguments, call_expression, expression, expression_list,
    expression_statement, function_literal, function_parameters, hash_loop, if_expression,
    index_expression, infix_expression, infix_loop, is_binary_operator, let_statement, list_loop,
    parameters_loop, prefix, program, program_loop, remaining, return_statement, statement,
    Outcome,
};
use crate::laws::{
    ends_operand, lemma_atom_begins_expression, lemma_construct_is_operand, lemma_empty_aggregates,
    lemma_group_is_operand, lemma_hash_holds_at_most_one_pair, lemma_hash_with_one_pair,
    lemma_loop_applies_call, lemma_loop_applies_index, lemma_loop_applies_operator,
    lemma_loop_ends, lemma_unary_operator,
};
use crate::lexer::{free_of_eof, lemma_until_eof, token_at, until_eof};
use crate::program::{ExpressionView, Precedence, ProgramView, StatementView};
use crate::steps;
use crate::token::TokenView;
use vstd::prelude::*;

verus! {

/// Whether the grammar can give the tree `e`: its unary operators are `!`
/// and `-`, its binary operators are the eight infix operators, its
/// conditionals have no alternative, and its hash literals hold at most
/// one pair.
pub open spec fn readable(e: ExpressionView) -> bool
    decreases e,
{
    match e {
        ExpressionView::Identifier(_) => true,
        ExpressionView::IntLiteral(_) => true,
        ExpressionView::BoolLiteral(_) => true,
        ExpressionView::StringLiteral(_) => true,
        ExpressionView::PrefixExpression(op, right) => (op is Bang || op is Minus) && readable(
            *right,
        ),
        ExpressionView::InfixExpression(left, op, right) => is_binary_operator(op) && readable(
            *left,
        ) && readable(*right),
        ExpressionView::IfExpression(cond, cons, alt) => readable(*cond) && alt.len() == 0
            && forall|i: int| 0 <= i < cons.len() ==> readable_statement(#[trigger] cons[i]),
        ExpressionView::FunctionExpression(_, body) => forall|i: int|
            0 <= i < body.len() ==> readable_statement(#[trigger] body[i]),
        ExpressionView::CallExpression(callee, args) => readable(*callee) && forall|i: int|
            0 <= i < args.len() ==> readable(#[trigger] args[i]),
        ExpressionView::ArrayLiteral(items) => forall|i: int|
            0 <= i < items.len() ==> readable(#[trigger] items[i]),
        ExpressionView::IndexExpression(container, index) => readable(*container) && readable(
            *index,
        ),
        ExpressionView::HashLiteral(pairs) => pairs.len() <= 1 && (pairs.len() == 1 ==> readable(
            pairs[0].0,
        ) && readable(pairs[0].1)),
    }
}

/// Whether the grammar can give the statement `s`.
pub open spec fn readable_statement(s: StatementView) -> bool
    decreases s,
{
    match s {
        StatementView::LetStatement(_, value) => readable(value),
        StatementView::ReturnStatement(value) => readable(value),
        StatementView::ExpressionStatement(value) => readable(value),
    }
}

/// Whether the grammar can give the program `p`.
pub open spec fn readable_program(p: ProgramView) -> bool {
    forall|i: int| 0 <= i < p.statements.len() ==> readable_statement(#[trigger] p.statements[i])
}

/// The tokens of `inner` between `(` and `)`.
pub open spec fn grouped(inner: Seq<TokenView>) -> Seq<TokenView> {
    seq![TokenView::LParen] + inner + seq![TokenView::RParen]
}

/// The tokens that the expression `e` is written as: every operand of an
/// operator, a call or an index operation stands in parentheses.
#[verifier::opaque]
pub open spec fn source(e: ExpressionView) -> Seq<TokenView>
    decreases e, 0nat,
{
    match e {
        ExpressionView::Identifier(name) => seq![TokenView::Ident(name)],
        ExpressionView::IntLiteral(value) => seq![TokenView::Int(value)],
        ExpressionView::BoolLiteral(value) => seq![TokenView::Bool(value)],
        ExpressionView::StringLiteral(text) => seq![TokenView::String(text)],
        ExpressionView::PrefixExpression(op, right) => seq![op] + grouped(source(*right)),
        ExpressionView::InfixExpression(left, op, right) => grouped(source(*left)) + seq![op]
            + grouped(source(*right)),
        ExpressionView::IfExpression(cond, cons, _) => seq![TokenView::If] + grouped(
            source(*cond),
        ) + seq![TokenView::LBrace] + block_source(cons, 0) + seq![TokenView::RBrace],
        ExpressionView::FunctionExpression(params, body) => seq![TokenView::Function] + grouped(
            parameters_source(params),
        ) + seq![TokenView::LBrace] + block_source(body, 0) + seq![TokenView::RBrace],
        ExpressionView::CallExpression(callee, args) => grouped(source(*callee)) + grouped(
            list_source(args),
        ),
        ExpressionView::ArrayLiteral(items) => seq![TokenView::LBracket] + list_source(items)
            + seq![TokenView::RBracket],
        ExpressionView::IndexExpression(container, index) => grouped(source(*container))
            + seq![TokenView::LBracket] + source(*index) + seq![TokenView::RBracket],
        ExpressionView::HashLiteral(pairs) => if pairs.len() == 0 {
            seq![TokenView::LBrace, TokenView::RBrace]
        } else {
            seq![TokenView::LBrace] + source(pairs[0].0) + seq![TokenView::Colon] + source(
                pairs[0].1,
            ) + seq![TokenView::RBrace]
        },
    }
}

/// The tokens that the expressions `items` are written as, with a `,`
/// between one and the next.
#[verifier::opaque]
pub open spec fn list_source(items: Seq<ExpressionView>) -> Seq<TokenView>
    decreases items, items.len() + 1,
{
    if items.len() == 0 {
        Seq::empty()
    } else {
        source(items[0]) + list_tail(items, 1)
    }
}

/// The tokens that the expressions `items[from..]` are written as, with a
/// `,` before each.
#[verifier::opaque]
pub open spec fn list_tail(items: Seq<ExpressionView>, from: nat) -> Seq<TokenView>
    decreases items, items.len() - from,
{
    if from >= items.len() {
        Seq::empty()
    } else {
        seq![TokenView::Comma] + source(items[from as int]) + list_tail(items, from + 1)
    }
}

/// The tokens that the parameter names `names` are written as, with a `,`
/// between one and the next.
pub open spec fn parameters_source(names: Seq<Seq<char>>) -> Seq<TokenView> {
    if names.len() == 0 {
        Seq::empty()
    } else {
        seq![TokenView::Ident(names[0])] + parameters_tail(names, 1)
    }
}

/// The tokens that the parameter names `names[from..]` are written as,
/// with a `,` before each.
#[verifier::opaque]
pub open spec fn parameters_tail(names: Seq<Seq<char>>, from: nat) -> Seq<TokenView>
    decreases names.len() - from,
{
    if from >= names.len() {
        Seq::empty()
    } else {
        seq![TokenView::Comma, TokenView::Ident(names[from as int])] + parameters_tail(
            names,
            from + 1,
        )
    }
}

/// The tokens that the statement `s` is written as, with a `;` at its end.
#[verifier::opaque]
pub open spec fn statement_source(s: StatementView) -> Seq<TokenView>
    decreases s, 0nat,
{
    match s {
        StatementView::LetStatement(name, value) => seq![
            TokenView::Let,
            TokenView::Ident(name),
            TokenView::Assign,
        ] + source(value) + seq![TokenView::Semicolon],
        StatementView::ReturnStatement(value) => seq![TokenView::Return] + source(value)
            + seq![TokenView::Semicolon],
        StatementView::ExpressionStatement(value) => source(value) + seq![TokenView::Semicolon],
    }
}

/// The tokens that the statements `stmts[from..]` are written as, one
/// after another.
#[verifier::opaque]
pub open spec fn block_source(stmts: Seq<StatementView>, from: nat) -> Seq<TokenView>
    decreases stmts, stmts.len() - from,
{
    if from >= stmts.len() {
        Seq::empty()
    } else {
        statement_source(stmts[from as int]) + block_source(stmts, from + 1)
    }
}

/// The tokens that the program `p` is written as.
pub open spec fn program_source(p: ProgramView) -> Seq<TokenView> {
    block_source(p.statements, 0)
}

/// An expression is written by the kind of its tree.
pub proof fn lemma_source_step(e: ExpressionView)
    ensures
        source(e) == (match e {
            ExpressionView::Identifier(name) => seq![TokenView::Ident(name)],
            ExpressionView::IntLiteral(value) => seq![TokenView::Int(value)],
            ExpressionView::BoolLiteral(value) => seq![TokenView::Bool(value)],
            ExpressionView::StringLiteral(text) => seq![TokenView::String(text)],
            ExpressionView::PrefixExpression(op, right) => seq![op] + grouped(source(*right)),
            ExpressionView::InfixExpression(left, op, right) => grouped(source(*left)) + seq![op]
                + grouped(source(*right)),
            ExpressionView::IfExpression(cond, cons, _) => seq![TokenView::If] + grouped(
                source(*cond),
            ) + seq![TokenView::LBrace] + block_source(cons, 0) + seq![TokenView::RBrace],
            ExpressionView::FunctionExpression(params, body) => seq![TokenView::Function] + grouped(
                parameters_source(params),
            ) + seq![TokenView::LBrace] + block_source(body, 0) + seq![TokenView::RBrace],
            ExpressionView::CallExpression(callee, args) => grouped(source(*callee)) + grouped(
                list_source(args),
            ),
            ExpressionView::ArrayLiteral(items) => seq![TokenView::LBracket] + list_source(items)
                + seq![TokenView::RBracket],
            ExpressionView::IndexExpression(container, index) => grouped(source(*container))
                + seq![TokenView::LBracket] + source(*index) + seq![TokenView::RBracket],
            ExpressionView::HashLiteral(pairs) => if pairs.len() == 0 {
                seq![TokenView::LBrace, TokenView::RBrace]
            } else {
                seq![TokenView::LBrace] + source(pairs[0].0) + seq![TokenView::Colon] + source(
                    pairs[0].1,
                ) + seq![TokenView::RBrace]
            },
        }),
{
    reveal(source);
    reveal(list_source);
    reveal(block_source);
}

/// An expression list is written as its first item and then the others,
/// each after a `,`.
pub proof fn lemma_list_source_step(items: Seq<ExpressionView>)
    ensures
        list_source(items) == if items.len() == 0 {
            Seq::<TokenView>::empty()
        } else {
            source(items[0]) + list_tail(items, 1)
        },
{
    reveal(list_source);
    reveal(list_tail);
    reveal(source);
}

/// The items of an expression list after the first are written as a `,`
/// and the item, one after another.
pub proof fn lemma_list_tail_step(items: Seq<ExpressionView>, from: nat)
    ensures
        list_tail(items, from) == if from >= items.len() {
            Seq::<TokenView>::empty()
        } else {
            seq![TokenView::Comma] + source(items[from as int]) + list_tail(items, from + 1)
        },
{
    reveal(list_tail);
    reveal(source);
}

/// A statement is written as its keyword and name, if any, its expression
/// and a `;`.
pub proof fn lemma_statement_source_step(s: StatementView)
    ensures
        statement_source(s) == match s {
            StatementView::LetStatement(name, value) => seq![
                TokenView::Let,
                TokenView::Ident(name),
                TokenView::Assign,
            ] + source(value) + seq![TokenView::Semicolon],
            StatementView::ReturnStatement(value) => seq![TokenView::Return] + source(value)
                + seq![TokenView::Semicolon],
            StatementView::ExpressionStatement(value) => source(value)
                + seq![TokenView::Semicolon],
        },
{
    reveal(statement_source);
    reveal(source);
}

/// Statements are written one after another.
pub proof fn lemma_block_source_step(stmts: Seq<StatementView>, from: nat)
    ensures
        block_source(stmts, from) == if from >= stmts.len() {
            Seq::<TokenView>::empty()
        } else {
            statement_source(stmts[from as int]) + block_source(stmts, from + 1)
        },
{
    reveal(block_source);
    reveal(statement_source);
}

/// The stream `ts` holds the tokens `p` from position `pos` on.
#[verifier::opaque]
pub open spec fn spelled(ts: Seq<TokenView>, pos: nat, p: Seq<TokenView>) -> bool {
    pos + p.len() <= ts.len() && ts.subrange(pos as int, (pos + p.len()) as int) == p
}

/// Where a stream holds two runs of tokens one after the other, it holds
/// each of them.
pub proof fn lemma_spelled_split(
    ts: Seq<TokenView>,
    pos: nat,
    a: Seq<TokenView>,
    b: Seq<TokenView>,
)
    requires
        spelled(ts, pos, a + b),
    ensures
        spelled(ts, pos, a),
        spelled(ts, pos + a.len(), b),
{
    reveal(spelled);
    let whole = ts.subrange(pos as int, (pos + (a + b).len()) as int);
    assert(ts.subrange(pos as int, (pos + a.len()) as int) =~= a) by {
        assert forall|i: int| 0 <= i < a.len() implies ts.subrange(
            pos as int,
            (pos + a.len()) as int,
        )[i] == a[i] by {
            assert(whole[i] == (a + b)[i]);
        }
    }
    assert(ts.subrange((pos + a.len()) as int, (pos + a.len() + b.len()) as int) =~= b) by {
        assert forall|i: int| 0 <= i < b.len() implies ts.subrange(
            (pos + a.len()) as int,
            (pos + a.len() + b.len()) as int,
        )[i] == b[i] by {
            assert(whole[a.len() + i] == (a + b)[a.len() + i]);
        }
    }
}

/// Where a stream holds a run of tokens, each of them stands at its place.
pub proof fn lemma_spelled_token(ts: Seq<TokenView>, pos: nat, p: Seq<TokenView>, k: nat)
    requires
        spelled(ts, pos, p),
        k < p.len(),
    ensures
        token_at(ts, pos + k) == p[k as int],
{
    reveal(spelled);
    assert(ts.subrange(pos as int, (pos + p.len()) as int)[k as int] == p[k as int]);
}

/// Whether `token` can be the first token of an expression.
pub open spec fn begins_operand(token: TokenView) -> bool {
    token is Ident || token is Int || token is Bool || token is String || token is Bang
        || token is Minus || token is LParen || token is If || token is Function
        || token is LBracket || token is LBrace
}

/// What a readable expression is written as is not empty and begins with
/// a token that begins an expression.
pub proof fn lemma_source_begins_operand(e: ExpressionView)
    requires
        readable(e),
    ensures
        source(e).len() >= 1,
        begins_operand(source(e)[0]),
{
    lemma_source_step(e);
}

/// What a statement is written as is not empty, and begins with `let`,
/// with `return` or with a token that begins an expression.
pub proof fn lemma_statement_source_begins(s: StatementView)
    requires
        readable_statement(s),
    ensures
        statement_source(s).len() >= 2,
        s is LetStatement ==> statement_source(s)[0] is Let,
        s is ReturnStatement ==> statement_source(s)[0] is Return,
        s is ExpressionStatement ==> begins_operand(statement_source(s)[0]),
{
    lemma_statement_source_step(s);
    match s {
        StatementView::LetStatement(_, value) => lemma_source_begins_operand(value),
        StatementView::ReturnStatement(value) => lemma_source_begins_operand(value),
        StatementView::ExpressionStatement(value) => lemma_source_begins_operand(value),
    }
}

/// What a stream holds where it holds a run of tokens in parentheses.
pub proof fn lemma_spelled_grouped(ts: Seq<TokenView>, pos: nat, inner: Seq<TokenView>)
    requires
        spelled(ts, pos, grouped(inner)),
    ensures
        token_at(ts, pos) is LParen,
        spelled(ts, pos + 1, inner),
        token_at(ts, pos + 1 + inner.len()) is RParen,
        grouped(inner).len() == inner.len() + 2,
{
    lemma_spelled_split(ts, pos, seq![TokenView::LParen] + inner, seq![TokenView::RParen]);
    lemma_spelled_split(ts, pos, seq![TokenView::LParen], inner);
    lemma_spelled_token(ts, pos, seq![TokenView::LParen], 0);
    lemma_spelled_token(ts, pos + 1 + inner.len(), seq![TokenView::RParen], 0);
}

/// Reading back an expression: where the stream holds what a readable
/// expression is written as, and what follows ends an expression, the
/// expression is read from it.
pub proof fn lemma_expression_round_trip(ts: Seq<TokenView>, pos: nat, e: ExpressionView)
    requires
        readable(e),
        spelled(ts, pos, source(e)),
        ends_operand(token_at(ts, pos + source(e).len()), Precedence::Lowest),
    ensures
        source(e).len() >= 1,
        expression(ts, pos, Precedence::Lowest) == Outcome::ok(e, (source(e).len() - 1) as nat),
    decreases source(e).len(), 1nat,
{
    lemma_source_begins_operand(e);
    match e {
        ExpressionView::Identifier(_)
        | ExpressionView::IntLiteral(_)
        | ExpressionView::BoolLiteral(_)
        | ExpressionView::StringLiteral(_) => lemma_atom_round_trip(ts, pos, e),
        ExpressionView::PrefixExpression(..) => lemma_prefix_round_trip(ts, pos, e),
        ExpressionView::InfixExpression(..) => lemma_infix_round_trip(ts, pos, e),
        ExpressionView::IndexExpression(..) => lemma_index_round_trip(ts, pos, e),
        ExpressionView::CallExpression(..) => lemma_call_round_trip(ts, pos, e),
        ExpressionView::ArrayLiteral(..) => lemma_array_round_trip(ts, pos, e),
        ExpressionView::HashLiteral(..) => lemma_hash_round_trip(ts, pos, e),
        ExpressionView::IfExpression(..) => lemma_conditional_round_trip(ts, pos, e),
        ExpressionView::FunctionExpression(..) => lemma_function_round_trip(ts, pos, e),
    }
}

/// Reading back an identifier or a literal.
proof fn lemma_atom_round_trip(ts: Seq<TokenView>, pos: nat, e: ExpressionView)
    requires
        e is Identifier || e is IntLiteral || e is BoolLiteral || e is StringLiteral,
        readable(e),
        spelled(ts, pos, source(e)),
        ends_operand(token_at(ts, pos + source(e).len()), Precedence::Lowest),
    ensures
        expression(ts, pos, Precedence::Lowest) == Outcome::ok(e, (source(e).len() - 1) as nat),
    decreases source(e).len(), 0nat,
{
    lemma_source_step(e);
    let low = Precedence::Lowest;
    match e {
        ExpressionView::Identifier(_)
        | ExpressionView::IntLiteral(_)
        | ExpressionView::BoolLiteral(_)
        | ExpressionView::StringLiteral(_) => {
            lemma_spelled_token(ts, pos, source(e), 0);
            lemma_atom_begins_expression(ts, pos, low);
            lemma_loop_ends(ts, pos, low, e);
        },
        _ => {},
    }
}

/// Reading back a unary operator and its operand.
proof fn lemma_prefix_round_trip(ts: Seq<TokenView>, pos: nat, e: ExpressionView)
    requires
        e is PrefixExpression,
        readable(e),
        spelled(ts, pos, source(e)),
        ends_operand(token_at(ts, pos + source(e).len()), Precedence::Lowest),
    ensures
        expression(ts, pos, Precedence::Lowest) == Outcome::ok(e, (source(e).len() - 1) as nat),
    decreases source(e).len(), 0nat,
{
    lemma_source_step(e);
    let low = Precedence::Lowest;
    match e {
        ExpressionView::PrefixExpression(op, right) => {
            let r = source(*right);
            lemma_spelled_split(ts, pos, seq![op], grouped(r));
            lemma_spelled_token(ts, pos, seq![op], 0);
            lemma_spelled_grouped(ts, pos + 1, r);
            let min = if op is Minus {
                Precedence::Call
            } else {
                Precedence::Prefix
            };
            lemma_operand_round_trip(ts, pos + 1, min, *right);
            lemma_loop_ends(ts, pos + r.len() + 2, min, *right);
            lemma_unary_operator(ts, pos, low);
            lemma_loop_ends(ts, pos + r.len() + 2, low, e);
        },
        _ => {},
    }
}

/// Reading back a binary operator and its operands.
proof fn lemma_infix_round_trip(ts: Seq<TokenView>, pos: nat, e: ExpressionView)
    requires
        e is InfixExpression,
        readable(e),
        spelled(ts, pos, source(e)),
        ends_operand(token_at(ts, pos + source(e).len()), Precedence::Lowest),
    ensures
        expression(ts, pos, Precedence::Lowest) == Outcome::ok(e, (source(e).len() - 1) as nat),
    decreases source(e).len(), 0nat,
{
    lemma_source_step(e);
    let low = Precedence::Lowest;
    match e {
        ExpressionView::InfixExpression(left, op, right) => {
            let l = source(*left);
            let r = source(*right);
            lemma_spelled_split(ts, pos, grouped(l) + seq![op], grouped(r));
            lemma_spelled_split(ts, pos, grouped(l), seq![op]);
            lemma_spelled_grouped(ts, pos, l);
            lemma_spelled_token(ts, pos + l.len() + 2, seq![op], 0);
            lemma_spelled_grouped(ts, pos + l.len() + 3, r);
            let p1 = pos + l.len() + 1;
            lemma_operand_round_trip(ts, pos, low, *left);
            lemma_loop_applies_operator(ts, p1, low, *left);
            lemma_operand_round_trip(ts, p1 + 2, Precedence::of(op), *right);
            lemma_loop_ends(ts, p1 + r.len() + 3, Precedence::of(op), *right);
            assert(expression(ts, p1 + 2, Precedence::of(op)) == Outcome::ok(*right, r.len() + 1));
            lemma_loop_ends(ts, p1 + r.len() + 3, low, e);
        },
        _ => {},
    }
}

/// Reading back an index operation.
proof fn lemma_index_round_trip(ts: Seq<TokenView>, pos: nat, e: ExpressionView)
    requires
        e is IndexExpression,
        readable(e),
        spelled(ts, pos, source(e)),
        ends_operand(token_at(ts, pos + source(e).len()), Precedence::Lowest),
    ensures
        expression(ts, pos, Precedence::Lowest) == Outcome::ok(e, (source(e).len() - 1) as nat),
    decreases source(e).len(), 0nat,
{
    lemma_source_step(e);
    let low = Precedence::Lowest;
    match e {
        ExpressionView::IndexExpression(container, index) => {
            let c = source(*container);
            let i = source(*index);
            lemma_spelled_split(
                ts,
                pos,
                grouped(c) + seq![TokenView::LBracket] + i,
                seq![TokenView::RBracket],
            );
            lemma_spelled_split(ts, pos, grouped(c) + seq![TokenView::LBracket], i);
            lemma_spelled_split(ts, pos, grouped(c), seq![TokenView::LBracket]);
            lemma_spelled_grouped(ts, pos, c);
            lemma_spelled_token(ts, pos + c.len() + 2, seq![TokenView::LBracket], 0);
            lemma_spelled_token(ts, pos + c.len() + 3 + i.len(), seq![TokenView::RBracket], 0);
            let p1 = pos + c.len() + 1;
            lemma_operand_round_trip(ts, pos, low, *container);
            lemma_loop_applies_index(ts, p1, low, *container);
            lemma_expression_round_trip(ts, p1 + 2, *index);
            lemma_loop_ends(ts, p1 + i.len() + 2, low, e);
        },
        _ => {},
    }
}

/// Reading back a call.
proof fn lemma_call_round_trip(ts: Seq<TokenView>, pos: nat, e: ExpressionView)
    requires
        e is CallExpression,
        readable(e),
        spelled(ts, pos, source(e)),
        ends_operand(token_at(ts, pos + source(e).len()), Precedence::Lowest),
    ensures
        expression(ts, pos, Precedence::Lowest) == Outcome::ok(e, (source(e).len() - 1) as nat),
    decreases source(e).len(), 0nat,
{
    lemma_source_step(e);
    let low = Precedence::Lowest;
    match e {
        ExpressionView::CallExpression(callee, args) => {
            let f = source(*callee);
            let a = list_source(args);
            lemma_spelled_split(ts, pos, grouped(f), grouped(a));
            lemma_spelled_grouped(ts, pos, f);
            lemma_spelled_grouped(ts, pos + f.len() + 2, a);
            let p1 = pos + f.len() + 1;
            lemma_operand_round_trip(ts, pos, low, *callee);
            lemma_loop_applies_call(ts, p1, low, *callee);
            lemma_list_round_trip(ts, p1 + 1, args, TokenView::RParen);
            assert(call_arguments(ts, p1 + 1) == Outcome::ok(args, a.len() + 1)) by {
                steps::lemma_call_arguments_step(ts, p1 + 1);
            }
            lemma_loop_ends(ts, p1 + a.len() + 2, low, e);
        },
        _ => {},
    }
}

/// Reading back an array literal.
proof fn lemma_array_round_trip(ts: Seq<TokenView>, pos: nat, e: ExpressionView)
    requires
        e is ArrayLiteral,
        readable(e),
        spelled(ts, pos, source(e)),
        ends_operand(token_at(ts, pos + source(e).len()), Precedence::Lowest),
    ensures
        expression(ts, pos, Precedence::Lowest) == Outcome::ok(e, (source(e).len() - 1) as nat),
    decreases source(e).len(), 0nat,
{
    lemma_source_step(e);
    let low = Precedence::Lowest;
    match e {
        ExpressionView::ArrayLiteral(items) => {
            let a = list_source(items);
            lemma_spelled_split(
                ts,
                pos,
                seq![TokenView::LBracket] + a,
                seq![TokenView::RBracket],
            );
            lemma_spelled_split(ts, pos, seq![TokenView::LBracket], a);
            lemma_spelled_token(ts, pos, seq![TokenView::LBracket], 0);
            lemma_spelled_token(ts, pos + 1 + a.len(), seq![TokenView::RBracket], 0);
            lemma_list_round_trip(ts, pos, items, TokenView::RBracket);
            assert(array_literal(ts, pos) == Outcome::ok(e, a.len() + 1)) by {
                steps::lemma_array_literal_step(ts, pos);
            }
            lemma_construct_is_operand(ts, pos, low);
            lemma_loop_ends(ts, pos + a.len() + 1, low, e);
        },
        _ => {},
    }
}

/// Reading back a hash literal.
proof fn lemma_hash_round_trip(ts: Seq<TokenView>, pos: nat, e: ExpressionView)
    requires
        e is HashLiteral,
        readable(e),
        spelled(ts, pos, source(e)),
        ends_operand(token_at(ts, pos + source(e).len()), Precedence::Lowest),
    ensures
        expression(ts, pos, Precedence::Lowest) == Outcome::ok(e, (source(e).len() - 1) as nat),
    decreases source(e).len(), 0nat,
{
    lemma_source_step(e);
    let low = Precedence::Lowest;
    match e {
        ExpressionView::HashLiteral(pairs) => {
            if pairs.len() == 0 {
                lemma_spelled_token(ts, pos, source(e), 0);
                lemma_spelled_token(ts, pos, source(e), 1);
                lemma_empty_aggregates(ts, pos);
                assert(pairs =~= Seq::empty());
            } else {
                let key = pairs[0].0;
                let value = pairs[0].1;
                let k = source(key);
                let v = source(value);
                lemma_spelled_split(
                    ts,
                    pos,
                    seq![TokenView::LBrace] + k + seq![TokenView::Colon] + v,
                    seq![TokenView::RBrace],
                );
                lemma_spelled_split(
                    ts,
                    pos,
                    seq![TokenView::LBrace] + k + seq![TokenView::Colon],
                    v,
                );
                lemma_spelled_split(
                    ts,
                    pos,
                    seq![TokenView::LBrace] + k,
                    seq![TokenView::Colon],
                );
                lemma_spelled_split(ts, pos, seq![TokenView::LBrace], k);
                lemma_spelled_token(ts, pos, seq![TokenView::LBrace], 0);
                lemma_spelled_token(ts, pos + 1 + k.len(), seq![TokenView::Colon], 0);
                lemma_spelled_token(
                    ts,
                    pos + 2 + k.len() + v.len(),
                    seq![TokenView::RBrace],
                    0,
                );
                lemma_source_begins_operand(key);
                lemma_spelled_token(ts, pos + 1, k, 0);
                lemma_expression_round_trip(ts, pos + 1, key);
                lemma_expression_round_trip(ts, pos + 2 + k.len(), value);
                assert(pairs =~= seq![(key, value)]);
                lemma_hash_with_one_pair(ts, pos);
                lemma_construct_is_operand(ts, pos, low);
                lemma_loop_ends(ts, pos + k.len() + v.len() + 2, low, e);
            }
        },
        _ => {},
    }
}

/// Reading back a conditional.
proof fn lemma_conditional_round_trip(ts: Seq<TokenView>, pos: nat, e: ExpressionView)
    requires
        e is IfExpression,
        readable(e),
        spelled(ts, pos, source(e)),
        ends_operand(token_at(ts, pos + source(e).len()), Precedence::Lowest),
    ensures
        expression(ts, pos, Precedence::Lowest) == Outcome::ok(e, (source(e).len() - 1) as nat),
    decreases source(e).len(), 0nat,
{
    lemma_source_step(e);
    let low = Precedence::Lowest;
    match e {
        ExpressionView::IfExpression(cond, cons, alt) => {
            let c = source(*cond);
            let b = block_source(cons, 0);
            lemma_spelled_split(
                ts,
                pos,
                seq![TokenView::If] + grouped(c) + seq![TokenView::LBrace] + b,
                seq![TokenView::RBrace],
            );
            lemma_spelled_split(
                ts,
                pos,
                seq![TokenView::If] + grouped(c) + seq![TokenView::LBrace],
                b,
            );
            lemma_spelled_split(
                ts,
                pos,
                seq![TokenView::If] + grouped(c),
                seq![TokenView::LBrace],
            );
            lemma_spelled_split(ts, pos, seq![TokenView::If], grouped(c));
            lemma_spelled_token(ts, pos, seq![TokenView::If], 0);
            lemma_spelled_grouped(ts, pos + 1, c);
            lemma_spelled_token(ts, pos + 3 + c.len(), seq![TokenView::LBrace], 0);
            lemma_spelled_token(ts, pos + 4 + c.len() + b.len(), seq![TokenView::RBrace], 0);
            lemma_source_begins_operand(*cond);
            lemma_expression_round_trip(ts, pos + 2, *cond);
            lemma_block_round_trip(ts, pos + 4 + c.len(), cons, 0);
            assert(cons.take(0) =~= Seq::empty());
            assert(alt =~= Seq::empty());
            assert(if_expression(ts, pos) == Outcome::ok(e, c.len() + b.len() + 4)) by {
                steps::lemma_if_expression_step(ts, pos);
                steps::lemma_block_statement_step(ts, pos + c.len() + 3);
            }
            lemma_construct_is_operand(ts, pos, low);
            lemma_loop_ends(ts, pos + c.len() + b.len() + 4, low, e);
        },
        _ => {},
    }
}

/// Reading back a function literal.
proof fn lemma_function_round_trip(ts: Seq<TokenView>, pos: nat, e: ExpressionView)
    requires
        e is FunctionExpression,
        readable(e),
        spelled(ts, pos, source(e)),
        ends_operand(token_at(ts, pos + source(e).len()), Precedence::Lowest),
    ensures
        expression(ts, pos, Precedence::Lowest) == Outcome::ok(e, (source(e).len() - 1) as nat),
    decreases source(e).len(), 0nat,
{
    lemma_source_step(e);
    let low = Precedence::Lowest;
    match e {
        ExpressionView::FunctionExpression(params, body) => {
            let p = parameters_source(params);
            let b = block_source(body, 0);
            lemma_spelled_split(
                ts,
                pos,
                seq![TokenView::Function] + grouped(p) + seq![TokenView::LBrace] + b,
                seq![TokenView::RBrace],
            );
            lemma_spelled_split(
                ts,
                pos,
                seq![TokenView::Function] + grouped(p) + seq![TokenView::LBrace],
                b,
            );
            lemma_spelled_split(
                ts,
                pos,
                seq![TokenView::Function] + grouped(p),
                seq![TokenView::LBrace],
            );
            lemma_spelled_split(ts, pos, seq![TokenView::Function], grouped(p));
            lemma_spelled_token(ts, pos, seq![TokenView::Function], 0);
            lemma_spelled_grouped(ts, pos + 1, p);
            lemma_spelled_token(ts, pos + 3 + p.len(), seq![TokenView::LBrace], 0);
            lemma_spelled_token(ts, pos + 4 + p.len() + b.len(), seq![TokenView::RBrace], 0);
            lemma_parameters_round_trip(ts, pos + 1, params);
            lemma_block_round_trip(ts, pos + 4 + p.len(), body, 0);
            assert(body.take(0) =~= Seq::empty());
            assert(function_literal(ts, pos) == Outcome::ok(e, p.len() + b.len() + 4)) by {
                steps::lemma_function_literal_step(ts, pos);
                steps::lemma_block_statement_step(ts, pos + p.len() + 3);
            }
            lemma_construct_is_operand(ts, pos, low);
            lemma_loop_ends(ts, pos + p.len() + b.len() + 4, low, e);
        },
        _ => {},
    }
}

/// Reading back an operand in parentheses: it is read as what stands
/// between the parentheses, and the operators after it are then applied.
pub proof fn lemma_operand_round_trip(
    ts: Seq<TokenView>,
    pos: nat,
    min: Precedence,
    e: ExpressionView,
)
    requires
        readable(e),
        spelled(ts, pos, grouped(source(e))),
    ensures
        expression(ts, pos, min) == infix_loop(ts, pos + source(e).len() + 1, min, e).after(
            source(e).len() + 1,
        ),
    decreases source(e).len(), 2nat,
{
    lemma_spelled_grouped(ts, pos, source(e));
    lemma_expression_round_trip(ts, pos + 1, e);
    lemma_group_is_operand(ts, pos, min);
}

/// Reading back an expression list: where the stream holds, after the
/// current token, what readable expressions are written as and then the
/// token `end`, the expressions are read from it.
pub proof fn lemma_list_round_trip(
    ts: Seq<TokenView>,
    pos: nat,
    items: Seq<ExpressionView>,
    end: TokenView,
)
    requires
        forall|i: int| 0 <= i < items.len() ==> readable(#[trigger] items[i]),
        pos < ts.len(),
        spelled(ts, pos + 1, list_source(items)),
        token_at(ts, pos + 1 + list_source(items).len()) == end,
        end is RParen || end is RBracket,
    ensures
        expression_list(ts, pos, end) == Outcome::ok(items, list_source(items).len()),
    decreases list_source(items).len(), 4nat,
{
    lemma_list_source_step(items);
    steps::lemma_expression_list_step(ts, pos, end);
    if items.len() == 0 {
        assert(items =~= Seq::empty());
    } else {
        let first = source(items[0]);
        let tail = list_tail(items, 1);
        lemma_spelled_split(ts, pos + 1, first, tail);
        lemma_source_begins_operand(items[0]);
        lemma_spelled_token(ts, pos + 1, first, 0);
        lemma_list_tail_begins(ts, pos + 1 + first.len(), items, 1);
        lemma_expression_round_trip(ts, pos + 1, items[0]);
        assert(items.take(1) =~= seq![items[0]]);
        lemma_list_tail_round_trip(ts, pos + first.len(), items, 1);
    }
}

/// What comes after an item of an expression list ends the item: a `,` or
/// the token after the list.
pub proof fn lemma_list_tail_begins(
    ts: Seq<TokenView>,
    pos: nat,
    items: Seq<ExpressionView>,
    from: nat,
)
    requires
        spelled(ts, pos, list_tail(items, from)),
    ensures
        from < items.len() ==> token_at(ts, pos) is Comma,
        from >= items.len() ==> list_tail(items, from).len() == 0,
{
    lemma_list_tail_step(items, from);
    if from < items.len() {
        let item = source(items[from as int]);
        lemma_spelled_split(
            ts,
            pos,
            seq![TokenView::Comma] + item,
            list_tail(items, from + 1),
        );
        lemma_spelled_split(ts, pos, seq![TokenView::Comma], item);
        lemma_spelled_token(ts, pos, seq![TokenView::Comma], 0);
    }
}

/// Reading back the further items of an expression list.
pub proof fn lemma_list_tail_round_trip(
    ts: Seq<TokenView>,
    pos: nat,
    items: Seq<ExpressionView>,
    from: nat,
)
    requires
        forall|i: int| 0 <= i < items.len() ==> readable(#[trigger] items[i]),
        1 <= from <= items.len(),
        spelled(ts, pos + 1, list_tail(items, from)),
        ({
            let after = token_at(ts, pos + 1 + list_tail(items, from).len());
            after is RParen || after is RBracket
        }),
    ensures
        list_loop(ts, pos, items.take(from as int)) == Outcome::ok(
            items,
            list_tail(items, from).len(),
        ),
    decreases list_tail(items, from).len(), 3nat,
{
    lemma_list_tail_step(items, from);
    steps::lemma_list_loop_step(ts, pos, items.take(from as int));
    if from >= items.len() {
        assert(items.take(from as int) =~= items);
    } else {
        let item = source(items[from as int]);
        let tail = list_tail(items, from + 1);
        lemma_spelled_split(ts, pos + 1, seq![TokenView::Comma] + item, tail);
        lemma_spelled_split(ts, pos + 1, seq![TokenView::Comma], item);
        lemma_spelled_token(ts, pos + 1, seq![TokenView::Comma], 0);
        lemma_list_tail_begins(ts, pos + 2 + item.len(), items, from + 1);
        lemma_expression_round_trip(ts, pos + 2, items[from as int]);
        assert(items.take(from as int).push(items[from as int]) =~= items.take(from + 1 as int));
        lemma_list_tail_round_trip(ts, pos + 1 + item.len(), items, from + 1);
    }
}

/// Reading back a `let` statement.
proof fn lemma_let_round_trip(ts: Seq<TokenView>, pos: nat, s: StatementView)
    requires
        s is LetStatement,
        readable_statement(s),
        spelled(ts, pos, statement_source(s)),
    ensures
        let_statement(ts, pos) == Outcome::ok(s, (statement_source(s).len() - 1) as nat),
    decreases statement_source(s).len(), 0nat,
{
    lemma_statement_source_step(s);
    let name = s->LetStatement_0;
    let value = s->LetStatement_1;
    let head = seq![TokenView::Let, TokenView::Ident(name), TokenView::Assign];
    let v = source(value);
    lemma_spelled_split(ts, pos, head + v, seq![TokenView::Semicolon]);
    lemma_spelled_split(ts, pos, head, v);
    lemma_spelled_token(ts, pos, head, 1);
    lemma_spelled_token(ts, pos, head, 2);
    lemma_spelled_token(ts, pos + 3 + v.len(), seq![TokenView::Semicolon], 0);
    lemma_expression_round_trip(ts, pos + 3, value);
    assert(expression(ts, pos + 3, Precedence::Lowest) == Outcome::ok(
        value,
        (v.len() - 1) as nat,
    ));
    assert(token_at(ts, pos + 1) == TokenView::Ident(name));
    assert(token_at(ts, pos + 2) is Assign);
    assert(token_at(ts, pos + 3 + v.len()) is Semicolon);
    steps::lemma_let_statement_step(ts, pos);
}

/// Reading back a `return` statement.
proof fn lemma_return_round_trip(ts: Seq<TokenView>, pos: nat, s: StatementView)
    requires
        s is ReturnStatement,
        readable_statement(s),
        spelled(ts, pos, statement_source(s)),
    ensures
        return_statement(ts, pos) == Outcome::ok(s, (statement_source(s).len() - 1) as nat),
    decreases statement_source(s).len(), 0nat,
{
    lemma_statement_source_step(s);
    let value = s->ReturnStatement_0;
    let v = source(value);
    lemma_spelled_token(ts, pos, statement_source(s), 0);
    lemma_spelled_split(ts, pos, seq![TokenView::Return] + v, seq![TokenView::Semicolon]);
    lemma_spelled_split(ts, pos, seq![TokenView::Return], v);
    lemma_spelled_token(ts, pos + 1 + v.len(), seq![TokenView::Semicolon], 0);
    lemma_expression_round_trip(ts, pos + 1, value);
    assert(expression(ts, pos + 1, Precedence::Lowest) == Outcome::ok(
        value,
        (v.len() - 1) as nat,
    ));
    assert(token_at(ts, pos + 1 + v.len()) is Semicolon);
    steps::lemma_return_statement_step(ts, pos);
}

/// Reading back an expression statement.
proof fn lemma_expression_statement_round_trip(ts: Seq<TokenView>, pos: nat, s: StatementView)
    requires
        s is ExpressionStatement,
        readable_statement(s),
        spelled(ts, pos, statement_source(s)),
    ensures
        expression_statement(ts, pos) == Outcome::ok(s, (statement_source(s).len() - 1) as nat),
    decreases statement_source(s).len(), 0nat,
{
    lemma_statement_source_step(s);
    let value = s->ExpressionStatement_0;
    let v = source(value);
    lemma_spelled_split(ts, pos, v, seq![TokenView::Semicolon]);
    lemma_spelled_token(ts, pos + v.len(), seq![TokenView::Semicolon], 0);
    lemma_expression_round_trip(ts, pos, value);
    assert(expression(ts, pos, Precedence::Lowest) == Outcome::ok(value, (v.len() - 1) as nat));
    assert(token_at(ts, pos + v.len()) is Semicolon);
    steps::lemma_expression_statement_step(ts, pos);
}

/// Reading back a statement: where the stream holds what a readable
/// statement is written as, the statement is read from it, and the cursor
/// comes to rest on its `;`.
pub proof fn lemma_statement_round_trip(ts: Seq<TokenView>, pos: nat, s: StatementView)
    requires
        readable_statement(s),
        spelled(ts, pos, statement_source(s)),
    ensures
        statement_source(s).len() >= 2,
        statement(ts, pos) == Outcome::ok(s, (statement_source(s).len() - 1) as nat),
    decreases statement_source(s).len(), 1nat,
{
    lemma_statement_source_begins(s);
    steps::lemma_statement_step(ts, pos);
    lemma_spelled_token(ts, pos, statement_source(s), 0);
    match s {
        StatementView::LetStatement(..) => lemma_let_round_trip(ts, pos, s),
        StatementView::ReturnStatement(..) => lemma_return_round_trip(ts, pos, s),
        StatementView::ExpressionStatement(..) => lemma_expression_statement_round_trip(
            ts,
            pos,
            s,
        ),
    }
}

/// Reading back the statements of a block: where the stream holds what
/// readable statements are written as and then a `}`, the statements are
/// read from it.
pub proof fn lemma_block_round_trip(
    ts: Seq<TokenView>,
    pos: nat,
    stmts: Seq<StatementView>,
    from: nat,
)
    requires
        forall|i: int| 0 <= i < stmts.len() ==> readable_statement(#[trigger] stmts[i]),
        from <= stmts.len(),
        spelled(ts, pos, block_source(stmts, from)),
        token_at(ts, pos + block_source(stmts, from).len()) is RBrace,
    ensures
        block_loop(ts, pos, stmts.take(from as int)) == Outcome::ok(
            stmts,
            block_source(stmts, from).len(),
        ),
    decreases block_source(stmts, from).len(), 2nat,
{
    lemma_block_source_step(stmts, from);
    steps::lemma_block_loop_step(ts, pos, stmts.take(from as int));
    if from >= stmts.len() {
        assert(stmts.take(from as int) =~= stmts);
    } else {
        let s = stmts[from as int];
        let first = statement_source(s);
        let rest = block_source(stmts, from + 1);
        assert(block_source(stmts, from) == first + rest);
        assert(block_source(stmts, from).len() == first.len() + rest.len());
        lemma_statement_source_begins(s);
        lemma_spelled_split(ts, pos, first, rest);
        lemma_spelled_token(ts, pos, first, 0);
        lemma_statement_round_trip(ts, pos, s);
        assert(stmts.take(from as int).push(s) =~= stmts.take(from + 1 as int));
        lemma_block_round_trip(ts, pos + first.len(), stmts, from + 1);
    }
}

/// Reading back the parameter names of a function literal.
pub proof fn lemma_parameters_round_trip(ts: Seq<TokenView>, pos: nat, names: Seq<Seq<char>>)
    requires
        spelled(ts, pos, grouped(parameters_source(names))),
    ensures
        function_parameters(ts, pos) == Outcome::ok(names, parameters_source(names).len() + 1),
{
    reveal(parameters_tail);
    let p = parameters_source(names);
    lemma_spelled_grouped(ts, pos, p);
    if names.len() == 0 {
        assert(names =~= Seq::empty());
    } else {
        let tail = parameters_tail(names, 1);
        lemma_spelled_split(ts, pos + 1, seq![TokenView::Ident(names[0])], tail);
        lemma_spelled_token(ts, pos + 1, seq![TokenView::Ident(names[0])], 0);
        assert(names.take(0) =~= Seq::empty());
        lemma_parameters_tail_round_trip(ts, pos + 1, names, 0);
    }
}

/// Reading back the parameter names from `names[from]`, the current
/// token, on.
pub proof fn lemma_parameters_tail_round_trip(
    ts: Seq<TokenView>,
    pos: nat,
    names: Seq<Seq<char>>,
    from: nat,
)
    requires
        from < names.len(),
        token_at(ts, pos) == TokenView::Ident(names[from as int]),
        spelled(ts, pos + 1, parameters_tail(names, from + 1)),
        token_at(ts, pos + 1 + parameters_tail(names, from + 1).len()) is RParen,
    ensures
        parameters_loop(ts, pos, names.take(from as int)) == Outcome::ok(
            names,
            parameters_tail(names, from + 1).len() + 1,
        ),
    decreases names.len() - from,
{
    reveal(parameters_tail);
    steps::lemma_parameters_loop_step(ts, pos, names.take(from as int));
    assert(names.take(from as int).push(names[from as int]) =~= names.take(from + 1 as int));
    if from + 1 >= names.len() {
        assert(names.take(from + 1 as int) =~= names);
    } else {
        let next = seq![TokenView::Comma, TokenView::Ident(names[from + 1 as int])];
        lemma_spelled_split(ts, pos + 1, next, parameters_tail(names, from + 2));
        lemma_spelled_token(ts, pos + 1, next, 0);
        lemma_spelled_token(ts, pos + 1, next, 1);
        lemma_parameters_tail_round_trip(ts, pos + 2, names, from + 1);
    }
}

/// Reading back the statements of a program from `stmts[from]` on.
pub proof fn lemma_program_loop_round_trip(
    ts: Seq<TokenView>,
    pos: nat,
    stmts: Seq<StatementView>,
    from: nat,
)
    requires
        forall|i: int| 0 <= i < stmts.len() ==> readable_statement(#[trigger] stmts[i]),
        from <= stmts.len(),
        spelled(ts, pos, block_source(stmts, from)),
        pos + block_source(stmts, from).len() == ts.len(),
    ensures
        program_loop(ts, pos, stmts.take(from as int)).result == Ok::<
            Seq<StatementView>,
            Seq<char>,
        >(stmts),
    decreases stmts.len() - from,
{
    lemma_block_source_step(stmts, from);
    steps::lemma_program_loop_step(ts, pos, stmts.take(from as int));
    if from >= stmts.len() {
        assert(stmts.take(from as int) =~= stmts);
    } else {
        let s = stmts[from as int];
        let first = statement_source(s);
        lemma_spelled_split(ts, pos, first, block_source(stmts, from + 1));
        lemma_statement_source_begins(s);
        lemma_spelled_token(ts, pos, first, 0);
        lemma_statement_round_trip(ts, pos, s);
        assert(stmts.take(from as int).push(s) =~= stmts.take(from + 1 as int));
        lemma_program_loop_round_trip(ts, pos + first.len(), stmts, from + 1);
    }
}

/// The round trip: a readable program, written out as tokens and read
/// back, is the same program.
pub proof fn lemma_program_round_trip(p: ProgramView)
    requires
        readable_program(p),
    ensures
        program(program_source(p), 0).result == Ok::<ProgramView, Seq<char>>(p),
{
    let ts = program_source(p);
    assert(spelled(ts, 0, ts)) by {
        reveal(spelled);
        assert(ts.subrange(0, ts.len() as int) =~= ts);
    }
    assert(p.statements.take(0) =~= Seq::empty());
    lemma_program_loop_round_trip(ts, 0, p.statements, 0);
}

/// Two runs of tokens without an end-of-input marker make one such run.
pub proof fn lemma_free_of_eof_concat(a: Seq<TokenView>, b: Seq<TokenView>)
    requires
        free_of_eof(a),
        free_of_eof(b),
    ensures
        free_of_eof(a + b),
{
    assert forall|i: int| 0 <= i < (a + b).len() implies !(#[trigger] (a + b)[i] is EOF) by {
        if i < a.len() {
            assert((a + b)[i] == a[i]);
        } else {
            assert((a + b)[i] == b[i - a.len()]);
        }
    }
}

/// What a readable expression is written as holds no end-of-input marker.
pub proof fn lemma_source_free_of_eof(e: ExpressionView)
    requires
        readable(e),
    ensures
        free_of_eof(source(e)),
    decreases source(e).len(), 0nat,
{
    lemma_source_step(e);
    let open = seq![TokenView::LParen];
    let close = seq![TokenView::RParen];
    match e {
        ExpressionView::PrefixExpression(op, right) => {
            lemma_source_free_of_eof(*right);
            lemma_free_of_eof_concat(open, source(*right));
            lemma_free_of_eof_concat(open + source(*right), close);
            lemma_free_of_eof_concat(seq![op], grouped(source(*right)));
        },
        ExpressionView::InfixExpression(left, op, right) => {
            lemma_source_free_of_eof(*left);
            lemma_source_free_of_eof(*right);
            lemma_free_of_eof_concat(open, source(*left));
            lemma_free_of_eof_concat(open + source(*left), close);
            lemma_free_of_eof_concat(open, source(*right));
            lemma_free_of_eof_concat(open + source(*right), close);
            lemma_free_of_eof_concat(grouped(source(*left)), seq![op]);
            lemma_free_of_eof_concat(grouped(source(*left)) + seq![op], grouped(source(*right)));
        },
        ExpressionView::IndexExpression(container, index) => {
            lemma_source_free_of_eof(*container);
            lemma_source_free_of_eof(*index);
            lemma_free_of_eof_concat(open, source(*container));
            lemma_free_of_eof_concat(open + source(*container), close);
            let a = grouped(source(*container)) + seq![TokenView::LBracket];
            lemma_free_of_eof_concat(grouped(source(*container)), seq![TokenView::LBracket]);
            lemma_free_of_eof_concat(a, source(*index));
            lemma_free_of_eof_concat(a + source(*index), seq![TokenView::RBracket]);
        },
        ExpressionView::CallExpression(callee, args) => {
            lemma_source_free_of_eof(*callee);
            lemma_list_source_free_of_eof(args);
            lemma_free_of_eof_concat(open, source(*callee));
            lemma_free_of_eof_concat(open + source(*callee), close);
            lemma_free_of_eof_concat(open, list_source(args));
            lemma_free_of_eof_concat(open + list_source(args), close);
            lemma_free_of_eof_concat(grouped(source(*callee)), grouped(list_source(args)));
        },
        ExpressionView::ArrayLiteral(items) => {
            lemma_list_source_free_of_eof(items);
            lemma_free_of_eof_concat(seq![TokenView::LBracket], list_source(items));
            lemma_free_of_eof_concat(
                seq![TokenView::LBracket] + list_source(items),
                seq![TokenView::RBracket],
            );
        },
        ExpressionView::HashLiteral(pairs) => {
            if pairs.len() == 1 {
                let k = source(pairs[0].0);
                let v = source(pairs[0].1);
                lemma_source_free_of_eof(pairs[0].0);
                lemma_source_free_of_eof(pairs[0].1);
                let a = seq![TokenView::LBrace] + k;
                lemma_free_of_eof_concat(seq![TokenView::LBrace], k);
                lemma_free_of_eof_concat(a, seq![TokenView::Colon]);
                lemma_free_of_eof_concat(a + seq![TokenView::Colon], v);
                lemma_free_of_eof_concat(a + seq![TokenView::Colon] + v, seq![TokenView::RBrace]);
            }
        },
        ExpressionView::IfExpression(cond, cons, _) => {
            lemma_source_free_of_eof(*cond);
            lemma_block_source_free_of_eof(cons, 0);
            lemma_free_of_eof_concat(open, source(*cond));
            lemma_free_of_eof_concat(open + source(*cond), close);
            let a = seq![TokenView::If] + grouped(source(*cond));
            lemma_free_of_eof_concat(seq![TokenView::If], grouped(source(*cond)));
            lemma_free_of_eof_concat(a, seq![TokenView::LBrace]);
            lemma_free_of_eof_concat(a + seq![TokenView::LBrace], block_source(cons, 0));
            lemma_free_of_eof_concat(
                a + seq![TokenView::LBrace] + block_source(cons, 0),
                seq![TokenView::RBrace],
            );
        },
        ExpressionView::FunctionExpression(params, body) => {
            lemma_parameters_free_of_eof(params, 1);
            lemma_block_source_free_of_eof(body, 0);
            if params.len() > 0 {
                lemma_free_of_eof_concat(
                    seq![TokenView::Ident(params[0])],
                    parameters_tail(params, 1),
                );
            }
            let p = parameters_source(params);
            lemma_free_of_eof_concat(open, p);
            lemma_free_of_eof_concat(open + p, close);
            let a = seq![TokenView::Function] + grouped(p);
            lemma_free_of_eof_concat(seq![TokenView::Function], grouped(p));
            lemma_free_of_eof_concat(a, seq![TokenView::LBrace]);
            lemma_free_of_eof_concat(a + seq![TokenView::LBrace], block_source(body, 0));
            lemma_free_of_eof_concat(
                a + seq![TokenView::LBrace] + block_source(body, 0),
                seq![TokenView::RBrace],
            );
        },
        _ => {},
    }
}

/// What readable expressions are written as, with a `,` between them,
/// holds no end-of-input marker.
pub proof fn lemma_list_source_free_of_eof(items: Seq<ExpressionView>)
    requires
        forall|i: int| 0 <= i < items.len() ==> readable(#[trigger] items[i]),
    ensures
        free_of_eof(list_source(items)),
    decreases list_source(items).len(), 2nat,
{
    lemma_list_source_step(items);
    if items.len() > 0 {
        lemma_source_free_of_eof(items[0]);
        lemma_list_tail_free_of_eof(items, 1);
        lemma_free_of_eof_concat(source(items[0]), list_tail(items, 1));
    }
}

/// What the further items of a list are written as holds no end-of-input
/// marker.
pub proof fn lemma_list_tail_free_of_eof(items: Seq<ExpressionView>, from: nat)
    requires
        forall|i: int| 0 <= i < items.len() ==> readable(#[trigger] items[i]),
    ensures
        free_of_eof(list_tail(items, from)),
    decreases list_tail(items, from).len(), 1nat,
{
    lemma_list_tail_step(items, from);
    if from < items.len() {
        let item = source(items[from as int]);
        lemma_source_free_of_eof(items[from as int]);
        lemma_list_tail_free_of_eof(items, from + 1);
        lemma_free_of_eof_concat(seq![TokenView::Comma], item);
        lemma_free_of_eof_concat(seq![TokenView::Comma] + item, list_tail(items, from + 1));
    }
}

/// What parameter names are written as holds no end-of-input marker.
pub proof fn lemma_parameters_free_of_eof(names: Seq<Seq<char>>, from: nat)
    ensures
        free_of_eof(parameters_tail(names, from)),
    decreases names.len() - from,
{
    reveal(parameters_tail);
    if from < names.len() {
        lemma_parameters_free_of_eof(names, from + 1);
        lemma_free_of_eof_concat(
            seq![TokenView::Comma, TokenView::Ident(names[from as int])],
            parameters_tail(names, from + 1),
        );
    }
}

/// What a readable statement is written as holds no end-of-input marker.
pub proof fn lemma_statement_source_free_of_eof(s: StatementView)
    requires
        readable_statement(s),
    ensures
        free_of_eof(statement_source(s)),
    decreases statement_source(s).len(), 1nat,
{
    lemma_statement_source_step(s);
    let semi = seq![TokenView::Semicolon];
    match s {
        StatementView::LetStatement(name, value) => {
            let head = seq![TokenView::Let, TokenView::Ident(name), TokenView::Assign];
            lemma_source_free_of_eof(value);
            lemma_free_of_eof_concat(head, source(value));
            lemma_free_of_eof_concat(head + source(value), semi);
        },
        StatementView::ReturnStatement(value) => {
            lemma_source_free_of_eof(value);
            lemma_free_of_eof_concat(seq![TokenView::Return], source(value));
            lemma_free_of_eof_concat(seq![TokenView::Return] + source(value), semi);
        },
        StatementView::ExpressionStatement(value) => {
            lemma_source_free_of_eof(value);
            lemma_free_of_eof_concat(source(value), semi);
        },
    }
}

/// What readable statements are written as holds no end-of-input marker.
pub proof fn lemma_block_source_free_of_eof(stmts: Seq<StatementView>, from: nat)
    requires
        forall|i: int| 0 <= i < stmts.len() ==> readable_statement(#[trigger] stmts[i]),
    ensures
        free_of_eof(block_source(stmts, from)),
    decreases block_source(stmts, from).len(), 2nat,
{
    lemma_block_source_step(stmts, from);
    if from < stmts.len() {
        lemma_statement_source_begins(stmts[from as int]);
        lemma_statement_source_free_of_eof(stmts[from as int]);
        lemma_block_source_free_of_eof(stmts, from + 1);
        lemma_free_of_eof_concat(
            statement_source(stmts[from as int]),
            block_source(stmts, from + 1),
        );
    }
}

/// The round trip through a token source: what a readable program is
/// written as holds no end-of-input marker, so a token source hands all
/// of it out, and reading it gives the program.
pub proof fn lemma_written_program_is_read(p: ProgramView)
    requires
        readable_program(p),
    ensures
        free_of_eof(program_source(p)),
        until_eof(program_source(p)) == program_source(p),
        program(until_eof(program_source(p)), 0).result == Ok::<ProgramView, Seq<char>>(p),
{
    lemma_block_source_free_of_eof(p.statements, 0);
    lemma_until_eof(program_source(p));
    lemma_program_round_trip(p);
}

/// Every one of `items` is readable.
pub open spec fn all_readable(items: Seq<ExpressionView>) -> bool {
    forall|i: int| 0 <= i < items.len() ==> readable(#[trigger] items[i])
}

/// Every one of `stmts` is readable.
pub open spec fn all_readable_statements(stmts: Seq<StatementView>) -> bool {
    forall|i: int| 0 <= i < stmts.len() ==> readable_statement(#[trigger] stmts[i])
}

/// Every key and every value of `pairs` is readable.
pub open spec fn all_readable_pairs(pairs: Seq<(ExpressionView, ExpressionView)>) -> bool {
    forall|i: int|
        0 <= i < pairs.len() ==> readable((#[trigger] pairs[i]).0) && readable(pairs[i].1)
}

/// What is read as an expression is a readable tree.
pub proof fn lemma_expression_is_readable(ts: Seq<TokenView>, pos: nat, min: Precedence)
    ensures
        expression(ts, pos, min).result matches Ok(e) ==> readable(e),
    decreases remaining(ts, pos), 7nat,
{
    steps::lemma_expression_step(ts, pos, min);
    lemma_prefix_is_readable(ts, pos, min);
    let first = prefix(ts, pos, min);
    if first.result is Ok {
        lemma_infix_loop_is_readable(ts, pos + first.advance, min, first.result->Ok_0);
    }
}

/// What is read as an operand is a readable tree.
pub proof fn lemma_prefix_is_readable(ts: Seq<TokenView>, pos: nat, min: Precedence)
    ensures
        prefix(ts, pos, min).result matches Ok(e) ==> readable(e),
    decreases remaining(ts, pos), 6nat,
{
    steps::lemma_prefix_step(ts, pos, min);
    match token_at(ts, pos) {
        TokenView::Bang | TokenView::Minus => {
            if min.level() <= Precedence::Prefix.level() {
                steps::lemma_prefix_expression_step(ts, pos);
                let operand_min = if token_at(ts, pos) is Minus {
                    Precedence::Call
                } else {
                    Precedence::Prefix
                };
                lemma_expression_is_readable(ts, pos + 1, operand_min);
            }
        },
        TokenView::LParen => {
            steps::lemma_grouped_expression_step(ts, pos);
            lemma_expression_is_readable(ts, pos + 1, Precedence::Lowest);
        },
        TokenView::If => {
            lemma_if_expression_is_readable(ts, pos);
        },
        TokenView::Function => {
            lemma_function_literal_is_readable(ts, pos);
        },
        TokenView::LBracket => {
            steps::lemma_array_literal_step(ts, pos);
            lemma_expression_list_is_readable(ts, pos, TokenView::RBracket);
        },
        TokenView::LBrace => {
            steps::lemma_hash_literal_step(ts, pos);
            lemma_hash_loop_is_readable(ts, pos, Seq::empty());
            lemma_hash_holds_at_most_one_pair(ts, pos, Seq::empty());
        },
        _ => {},
    }
}

/// Applying the operators after a readable operand gives a readable tree.
pub proof fn lemma_infix_loop_is_readable(
    ts: Seq<TokenView>,
    pos: nat,
    min: Precedence,
    left: ExpressionView,
)
    requires
        readable(left),
    ensures
        infix_loop(ts, pos, min, left).result matches Ok(e) ==> readable(e),
    decreases remaining(ts, pos), 6nat,
{
    steps::lemma_infix_loop_step(ts, pos, min, left);
    let next = token_at(ts, pos + 1);
    if !(next is Semicolon || min.level() >= Precedence::of(next).level()) {
        if is_binary_operator(next) {
            steps::lemma_infix_expression_step(ts, pos + 1, left);
            lemma_expression_is_readable(ts, pos + 2, Precedence::of(next));
            let applied = infix_expression(ts, pos + 1, left);
            if applied.result is Ok {
                lemma_infix_loop_is_readable(
                    ts,
                    pos + 1 + applied.advance,
                    min,
                    applied.result->Ok_0,
                );
            }
        } else if next is LParen {
            steps::lemma_call_expression_step(ts, pos + 1, left);
            steps::lemma_call_arguments_step(ts, pos + 1);
            lemma_expression_list_is_readable(ts, pos + 1, TokenView::RParen);
            let applied = call_expression(ts, pos + 1, left);
            if applied.result is Ok {
                lemma_infix_loop_is_readable(
                    ts,
                    pos + 1 + applied.advance,
                    min,
                    applied.result->Ok_0,
                );
            }
        } else {
            steps::lemma_index_expression_step(ts, pos + 1, left);
            lemma_expression_is_readable(ts, pos + 2, Precedence::Lowest);
            let applied = index_expression(ts, pos + 1, left);
            if applied.result is Ok {
                lemma_infix_loop_is_readable(
                    ts,
                    pos + 1 + applied.advance,
                    min,
                    applied.result->Ok_0,
                );
            }
        }
    }
}

/// What is read as a conditional is a readable tree.
pub proof fn lemma_if_expression_is_readable(ts: Seq<TokenView>, pos: nat)
    requires
        pos < ts.len(),
    ensures
        if_expression(ts, pos).result matches Ok(e) ==> readable(e),
    decreases remaining(ts, pos), 5nat,
{
    steps::lemma_if_expression_step(ts, pos);
    if token_at(ts, pos + 1) is LParen {
        lemma_expression_is_readable(ts, pos + 2, Precedence::Lowest);
        let cond = expression(ts, pos + 2, Precedence::Lowest);
        let end = pos + 2 + cond.advance;
        if cond.result is Ok && token_at(ts, end + 1) is RParen && token_at(ts, end + 2)
            is LBrace {
            steps::lemma_block_statement_step(ts, end + 2);
            lemma_block_loop_is_readable(ts, end + 3, Seq::empty());
        }
    }
}

/// What is read as a function literal is a readable tree.
pub proof fn lemma_function_literal_is_readable(ts: Seq<TokenView>, pos: nat)
    requires
        pos < ts.len(),
    ensures
        function_literal(ts, pos).result matches Ok(e) ==> readable(e),
    decreases remaining(ts, pos), 5nat,
{
    steps::lemma_function_literal_step(ts, pos);
    if token_at(ts, pos + 1) is LParen {
        let params = function_parameters(ts, pos + 1);
        let end = pos + 1 + params.advance;
        if params.result is Ok && token_at(ts, end + 1) is LBrace {
            steps::lemma_block_statement_step(ts, end + 1);
            lemma_block_loop_is_readable(ts, end + 2, Seq::empty());
        }
    }
}

/// The pairs that are read into a hash literal are readable.
pub proof fn lemma_hash_loop_is_readable(
    ts: Seq<TokenView>,
    pos: nat,
    acc: Seq<(ExpressionView, ExpressionView)>,
)
    requires
        pos < ts.len(),
        all_readable_pairs(acc),
    ensures
        hash_loop(ts, pos, acc).result matches Ok(ExpressionView::HashLiteral(pairs))
            ==> all_readable_pairs(pairs),
        hash_loop(ts, pos, acc).result is Ok ==> hash_loop(ts, pos, acc).result->Ok_0
            is HashLiteral,
    decreases remaining(ts, pos), 4nat,
{
    steps::lemma_hash_loop_step(ts, pos, acc);
    if !(token_at(ts, pos + 1) is RBrace) {
        lemma_expression_is_readable(ts, pos + 1, Precedence::Lowest);
        let key = expression(ts, pos + 1, Precedence::Lowest);
        let key_end = pos + 1 + key.advance;
        if key.result is Ok && token_at(ts, key_end + 1) is Colon {
            lemma_expression_is_readable(ts, key_end + 2, Precedence::Lowest);
            let value = expression(ts, key_end + 2, Precedence::Lowest);
            let consumed = 1 + key.advance + 2 + value.advance;
            let next = token_at(ts, pos + consumed + 1);
            if value.result is Ok && (next is RBrace || next is Comma) {
                lemma_hash_loop_is_readable(
                    ts,
                    pos + consumed,
                    acc.push((key.result->Ok_0, value.result->Ok_0)),
                );
            }
        }
    }
}

/// The expressions that are read as a list are readable.
pub proof fn lemma_expression_list_is_readable(ts: Seq<TokenView>, pos: nat, end: TokenView)
    requires
        pos < ts.len(),
    ensures
        expression_list(ts, pos, end).result matches Ok(items) ==> all_readable(items),
    decreases remaining(ts, pos), 3nat,
{
    steps::lemma_expression_list_step(ts, pos, end);
    if token_at(ts, pos + 1) != end {
        lemma_expression_is_readable(ts, pos + 1, Precedence::Lowest);
        let first = expression(ts, pos + 1, Precedence::Lowest);
        if first.result is Ok {
            lemma_list_loop_is_readable(ts, pos + 1 + first.advance, seq![first.result->Ok_0]);
        }
    }
}

/// The further expressions that are read into a list are readable.
pub proof fn lemma_list_loop_is_readable(ts: Seq<TokenView>, pos: nat, acc: Seq<ExpressionView>)
    requires
        all_readable(acc),
    ensures
        list_loop(ts, pos, acc).result matches Ok(items) ==> all_readable(items),
    decreases remaining(ts, pos), 2nat,
{
    steps::lemma_list_loop_step(ts, pos, acc);
    if token_at(ts, pos + 1) is Comma {
        lemma_expression_is_readable(ts, pos + 2, Precedence::Lowest);
        let item = expression(ts, pos + 2, Precedence::Lowest);
        if item.result is Ok {
            lemma_list_loop_is_readable(ts, pos + 2 + item.advance, acc.push(item.result->Ok_0));
        }
    }
}

/// What is read as a statement is a readable statement.
pub proof fn lemma_statement_is_readable(ts: Seq<TokenView>, pos: nat)
    ensures
        statement(ts, pos).result matches Ok(s) ==> readable_statement(s),
    decreases remaining(ts, pos), 9nat,
{
    steps::lemma_statement_step(ts, pos);
    match token_at(ts, pos) {
        TokenView::Let => {
            steps::lemma_let_statement_step(ts, pos);
            let skip: nat = if token_at(ts, pos + 1) is Ident {
                1
            } else {
                0
            };
            if token_at(ts, pos + skip) is Ident {
                lemma_expression_is_readable(ts, pos + skip + 2, Precedence::Lowest);
            }
        },
        TokenView::Return => {
            steps::lemma_return_statement_step(ts, pos);
            lemma_expression_is_readable(ts, pos + 1, Precedence::Lowest);
        },
        _ => {
            steps::lemma_expression_statement_step(ts, pos);
            lemma_expression_is_readable(ts, pos, Precedence::Lowest);
        },
    }
}

/// The statements that are read into a block are readable.
pub proof fn lemma_block_loop_is_readable(ts: Seq<TokenView>, pos: nat, acc: Seq<StatementView>)
    requires
        all_readable_statements(acc),
    ensures
        block_loop(ts, pos, acc).result matches Ok(stmts) ==> all_readable_statements(stmts),
    decreases remaining(ts, pos), 10nat,
{
    steps::lemma_block_loop_step(ts, pos, acc);
    if !(token_at(ts, pos) is RBrace) && !(token_at(ts, pos) is EOF) {
        lemma_statement_is_readable(ts, pos);
        let s = statement(ts, pos);
        if s.result is Ok {
            lemma_block_loop_is_readable(ts, pos + s.advance + 1, acc.push(s.result->Ok_0));
        }
    }
}

/// The statements that are read into a program are readable.
pub proof fn lemma_program_loop_is_readable(ts: Seq<TokenView>, pos: nat, acc: Seq<StatementView>)
    requires
        all_readable_statements(acc),
    ensures
        program_loop(ts, pos, acc).result matches Ok(stmts) ==> all_readable_statements(stmts),
    decreases remaining(ts, pos),
{
    steps::lemma_program_loop_step(ts, pos, acc);
    if !(token_at(ts, pos) is EOF) {
        lemma_statement_is_readable(ts, pos);
        let s = statement(ts, pos);
        if s.result is Ok {
            lemma_program_loop_is_readable(ts, pos + s.advance + 1, acc.push(s.result->Ok_0));
        }
    }
}

/// What is read as a program is a readable program: with the round trip,
/// the readable programs are exactly the programs that can be read.
pub proof fn lemma_program_is_readable(ts: Seq<TokenView>, pos: nat)
    ensures
        program(ts, pos).result matches Ok(p) ==> readable_program(p),
{
    lemma_program_loop_is_readable(ts, pos, Seq::empty());
}

} // verus!
