//! Where a construct ends, and which tokens its reading depends on.

use crate::grammar::{
    array_literal, block_loop, block_statement, call_arguments, call_expression, expression,
    expression_list, expression_statement, function_literal, function_parameters,
    grouped_expression, hash_literal, hash_loop, if_expression, index_expression, infix_expression,
    infix_loop, is_binary_operator, let_statement, list_loop, parameters_loop, prefix,
    prefix_expression, program, program_loop, remaining, return_statement, semicolon, statement,
    Outcome,
};
use crate::laws::{is_atom, lemma_block_ends_at_brace};
use crate::lexer::{free_of_eof, token_at};
use crate::program::{ExpressionView, Precedence, StatementView};
use crate::steps;
use crate::token::TokenView;
use vstd::prelude::*;

verus! {

/// Whether `token` can be the last token of an expression: an atom or a
/// closing `)`, `]` or `}`.
pub open spec fn closes_operand(token: TokenView) -> bool {
    is_atom(token) || token is RParen || token is RBracket || token is RBrace
}

/// The last token of what `o` read from position `pos` is the last token
/// of an expression.
pub open spec fn ends_on_operand<T>(ts: Seq<TokenView>, pos: nat, o: Outcome<T>) -> bool {
    o.result is Ok ==> closes_operand(token_at(ts, pos + o.advance))
}

/// A hash literal that is read with success ends at a `}`.
pub proof fn lemma_hash_ends_at_brace(
    ts: Seq<TokenView>,
    pos: nat,
    acc: Seq<(ExpressionView, ExpressionView)>,
)
    requires
        pos < ts.len(),
    ensures
        hash_loop(ts, pos, acc).result is Ok ==> token_at(
            ts,
            pos + hash_loop(ts, pos, acc).advance,
        ) is RBrace,
    decreases remaining(ts, pos),
{
    steps::lemma_hash_loop_step(ts, pos, acc);
    if !(token_at(ts, pos + 1) is RBrace) {
        let key = expression(ts, pos + 1, Precedence::Lowest);
        if key.result is Ok && token_at(ts, pos + 1 + key.advance + 1) is Colon {
            let value = expression(ts, pos + 1 + key.advance + 2, Precedence::Lowest);
            if value.result is Ok {
                let consumed = 1 + key.advance + 2 + value.advance;
                let next = token_at(ts, pos + consumed + 1);
                if next is RBrace || next is Comma {
                    lemma_hash_ends_at_brace(
                        ts,
                        pos + consumed,
                        acc.push((key.result->Ok_0, value.result->Ok_0)),
                    );
                }
            }
        }
    }
}

/// An expression that is read with success ends on an atom or on a
/// closing `)`, `]` or `}`: the cursor rests inside the input.
pub proof fn lemma_expression_ends_on_operand(ts: Seq<TokenView>, pos: nat, min: Precedence)
    ensures
        ends_on_operand(ts, pos, expression(ts, pos, min)),
    decreases remaining(ts, pos), 7nat,
{
    steps::lemma_expression_step(ts, pos, min);
    lemma_prefix_ends_on_operand(ts, pos, min);
    let first = prefix(ts, pos, min);
    if first.result is Ok {
        lemma_loop_ends_on_operand(ts, pos + first.advance, min, first.result->Ok_0);
    }
}

/// An operand that is read with success ends on an atom or on a closing
/// `)`, `]` or `}`.
pub proof fn lemma_prefix_ends_on_operand(ts: Seq<TokenView>, pos: nat, min: Precedence)
    ensures
        ends_on_operand(ts, pos, prefix(ts, pos, min)),
    decreases remaining(ts, pos), 6nat,
{
    steps::lemma_prefix_step(ts, pos, min);
    match token_at(ts, pos) {
        TokenView::Bang | TokenView::Minus => {
            if min.level() <= Precedence::Prefix.level() {
                steps::lemma_prefix_expression_step(ts, pos);
                let op_min = if token_at(ts, pos) is Minus {
                    Precedence::Call
                } else {
                    Precedence::Prefix
                };
                lemma_expression_ends_on_operand(ts, pos + 1, op_min);
            }
        },
        TokenView::LParen => {
            steps::lemma_grouped_expression_step(ts, pos);
        },
        TokenView::If => {
            steps::lemma_if_expression_step(ts, pos);
            let cond = expression(ts, pos + 2, Precedence::Lowest);
            let brace = pos + 2 + cond.advance + 2;
            if token_at(ts, brace) is LBrace {
                steps::lemma_block_statement_step(ts, brace);
                lemma_block_ends_at_brace(ts, brace + 1, Seq::empty());
            }
        },
        TokenView::Function => {
            steps::lemma_function_literal_step(ts, pos);
            let params = function_parameters(ts, pos + 1);
            let brace = pos + 1 + params.advance + 1;
            if token_at(ts, brace) is LBrace {
                steps::lemma_block_statement_step(ts, brace);
                lemma_block_ends_at_brace(ts, brace + 1, Seq::empty());
            }
        },
        TokenView::LBracket => {
            steps::lemma_array_literal_step(ts, pos);
        },
        TokenView::LBrace => {
            steps::lemma_hash_literal_step(ts, pos);
            lemma_hash_ends_at_brace(ts, pos, Seq::empty());
        },
        _ => {},
    }
}

/// The operators after an operand leave the cursor on an atom or on a
/// closing `)`, `]` or `}`, if the operand ended on one.
pub proof fn lemma_loop_ends_on_operand(
    ts: Seq<TokenView>,
    pos: nat,
    min: Precedence,
    left: ExpressionView,
)
    requires
        closes_operand(token_at(ts, pos)),
    ensures
        ends_on_operand(ts, pos, infix_loop(ts, pos, min, left)),
    decreases remaining(ts, pos), 6nat,
{
    steps::lemma_infix_loop_step(ts, pos, min, left);
    let next = token_at(ts, pos + 1);
    if !(next is Semicolon || min.level() >= Precedence::of(next).level()) {
        if is_binary_operator(next) {
            steps::lemma_infix_expression_step(ts, pos + 1, left);
            lemma_expression_ends_on_operand(ts, pos + 2, Precedence::of(next));
            let applied = infix_expression(ts, pos + 1, left);
            if applied.result is Ok {
                lemma_loop_ends_on_operand(
                    ts,
                    pos + 1 + applied.advance,
                    min,
                    applied.result->Ok_0,
                );
            }
        } else if next is LParen {
            steps::lemma_call_expression_step(ts, pos + 1, left);
            steps::lemma_call_arguments_step(ts, pos + 1);
            let applied = call_expression(ts, pos + 1, left);
            if applied.result is Ok {
                lemma_loop_ends_on_operand(
                    ts,
                    pos + 1 + applied.advance,
                    min,
                    applied.result->Ok_0,
                );
            }
        } else {
            steps::lemma_index_expression_step(ts, pos + 1, left);
            let applied = index_expression(ts, pos + 1, left);
            if applied.result is Ok {
                lemma_loop_ends_on_operand(
                    ts,
                    pos + 1 + applied.advance,
                    min,
                    applied.result->Ok_0,
                );
            }
        }
    }
}

/// Whether `token` can be the last token of a statement: the last token
/// of an expression, or a `;`.
pub open spec fn closes_statement(token: TokenView) -> bool {
    closes_operand(token) || token is Semicolon
}

/// A `let` statement that is read with success ends on the last token of
/// its value or on the `;` after it.
proof fn lemma_let_statement_ends_inside(ts: Seq<TokenView>, pos: nat)
    ensures
        let_statement(ts, pos).result is Ok ==> closes_statement(
            token_at(ts, pos + let_statement(ts, pos).advance),
        ),
{
    steps::lemma_let_statement_step(ts, pos);
    let skip: nat = if token_at(ts, pos + 1) is Ident {
        1
    } else {
        0
    };
    lemma_expression_ends_on_operand(ts, pos + skip + 2, Precedence::Lowest);
}

/// A `return` statement that is read with success ends on the last token
/// of its value or on the `;` after it.
proof fn lemma_return_statement_ends_inside(ts: Seq<TokenView>, pos: nat)
    requires
        pos < ts.len(),
    ensures
        return_statement(ts, pos).result is Ok ==> closes_statement(
            token_at(ts, pos + return_statement(ts, pos).advance),
        ),
{
    steps::lemma_return_statement_step(ts, pos);
    lemma_expression_ends_on_operand(ts, pos + 1, Precedence::Lowest);
}

/// An expression statement that is read with success ends on the last
/// token of its expression or on the `;` after it.
proof fn lemma_expression_statement_ends_inside(ts: Seq<TokenView>, pos: nat)
    ensures
        expression_statement(ts, pos).result is Ok ==> closes_statement(
            token_at(ts, pos + expression_statement(ts, pos).advance),
        ),
{
    steps::lemma_expression_statement_step(ts, pos);
    lemma_expression_ends_on_operand(ts, pos, Precedence::Lowest);
}

/// A statement that is read with success ends on the last token of its
/// expression or on the `;` after it: the cursor rests inside the input.
pub proof fn lemma_statement_ends_inside(ts: Seq<TokenView>, pos: nat)
    ensures
        statement(ts, pos).result is Ok ==> closes_statement(
            token_at(ts, pos + statement(ts, pos).advance),
        ),
{
    steps::lemma_statement_step(ts, pos);
    match token_at(ts, pos) {
        TokenView::Let => lemma_let_statement_ends_inside(ts, pos),
        TokenView::Return => lemma_return_statement_ends_inside(ts, pos),
        _ => lemma_expression_statement_ends_inside(ts, pos),
    }
}

/// Two tokens between which no lookahead test of the grammar tells,
/// unless it asks for a `;`: equal tokens, or a `;` and the end-of-input
/// marker.
pub open spec fn alike(a: TokenView, b: TokenView) -> bool {
    a == b || ((a is EOF || a is Semicolon) && (b is EOF || b is Semicolon))
}

/// The streams `ts1` and `ts2` hold the same tokens before position `n`,
/// and tokens that are alike at position `n`.
pub open spec fn agree(ts1: Seq<TokenView>, ts2: Seq<TokenView>, n: nat) -> bool {
    &&& forall|i: nat|
        #![trigger token_at(ts1, i)]
        #![trigger token_at(ts2, i)]
        i < n ==> token_at(ts1, i) == token_at(ts2, i)
    &&& alike(token_at(ts1, n), token_at(ts2, n))
}

/// What reading a statement at `pos` gives on the second of two streams
/// that agree up to `n`, given what it gives on the first: the same
/// result, and the same advance but for a `;` at position `n` that only
/// the second stream holds.
pub open spec fn statement_agrees(
    ts1: Seq<TokenView>,
    ts2: Seq<TokenView>,
    n: nat,
    pos: nat,
    s1: Outcome<StatementView>,
    s2: Outcome<StatementView>,
) -> bool {
    &&& s2.result == s1.result
    &&& s2.advance == s1.advance + if s1.result is Ok && pos + s1.advance + 1 == n && !(token_at(
        ts1,
        pos + s1.advance,
    ) is Semicolon) && token_at(ts2, n) is Semicolon {
        1nat
    } else {
        0nat
    }
}

/// The optional `;` after an expression that ends at `end` is found in
/// the second of two streams that agree up to `n` where it is found in
/// the first, and besides only at position `n`.
pub proof fn lemma_semicolon_agrees(ts1: Seq<TokenView>, ts2: Seq<TokenView>, n: nat, end: nat)
    requires
        agree(ts1, ts2, n),
        end + semicolon(ts1, end) < n,
    ensures
        semicolon(ts2, end) == semicolon(ts1, end) + if end + 1 == n && token_at(ts2, n)
            is Semicolon {
            1nat
        } else {
            0nat
        },
{
}

/// Reading parameter names depends only on the tokens up to the one after
/// the last token read.
pub proof fn lemma_parameters_loop_local(
    ts1: Seq<TokenView>,
    ts2: Seq<TokenView>,
    n: nat,
    pos: nat,
    acc: Seq<Seq<char>>,
)
    requires
        agree(ts1, ts2, n),
        pos + parameters_loop(ts1, pos, acc).advance < n,
    ensures
        parameters_loop(ts2, pos, acc) == parameters_loop(ts1, pos, acc),
    decreases remaining(ts1, pos),
{
    steps::lemma_parameters_loop_step(ts1, pos, acc);
    steps::lemma_parameters_loop_step(ts2, pos, acc);
    if token_at(ts1, pos + 1) is Comma {
        let names = match token_at(ts1, pos) {
            TokenView::Ident(name) => acc.push(name),
            _ => acc,
        };
        lemma_parameters_loop_local(ts1, ts2, n, pos + 2, names);
    }
}

/// Reading a parameter list depends only on the tokens up to the one
/// after the last token read.
pub proof fn lemma_function_parameters_local(
    ts1: Seq<TokenView>,
    ts2: Seq<TokenView>,
    n: nat,
    pos: nat,
)
    requires
        agree(ts1, ts2, n),
        pos + function_parameters(ts1, pos).advance < n,
    ensures
        function_parameters(ts2, pos) == function_parameters(ts1, pos),
{
    if !(token_at(ts1, pos + 1) is RParen) {
        lemma_parameters_loop_local(ts1, ts2, n, pos + 1, Seq::empty());
    }
}

/// Reading a statement depends only on the tokens up to the one after the
/// last token read.
pub proof fn lemma_statement_local(ts1: Seq<TokenView>, ts2: Seq<TokenView>, n: nat, pos: nat)
    requires
        agree(ts1, ts2, n),
        pos + statement(ts1, pos).advance < n,
    ensures
        statement_agrees(ts1, ts2, n, pos, statement(ts1, pos), statement(ts2, pos)),
    decreases remaining(ts1, pos), 9nat,
{
    steps::lemma_statement_step(ts1, pos);
    steps::lemma_statement_step(ts2, pos);
    match token_at(ts1, pos) {
        TokenView::Let => lemma_let_statement_local(ts1, ts2, n, pos),
        TokenView::Return => lemma_return_statement_local(ts1, ts2, n, pos),
        _ => lemma_expression_statement_local(ts1, ts2, n, pos),
    }
}

/// Reading a `let` statement depends only on the tokens up to the one
/// after the last token read.
pub proof fn lemma_let_statement_local(ts1: Seq<TokenView>, ts2: Seq<TokenView>, n: nat, pos: nat)
    requires
        agree(ts1, ts2, n),
        pos + let_statement(ts1, pos).advance < n,
    ensures
        statement_agrees(ts1, ts2, n, pos, let_statement(ts1, pos), let_statement(ts2, pos)),
    decreases remaining(ts1, pos), 8nat,
{
    steps::lemma_let_statement_step(ts1, pos);
    steps::lemma_let_statement_step(ts2, pos);
    let skip: nat = if token_at(ts1, pos + 1) is Ident {
        1
    } else {
        0
    };
    assert(token_at(ts2, pos + 1) is Ident <==> token_at(ts1, pos + 1) is Ident);
    assert(token_at(ts2, pos + skip) == token_at(ts1, pos + skip));
    if token_at(ts1, pos + skip) is Ident {
        assert(token_at(ts2, pos + skip + 1) is Assign <==> token_at(ts1, pos + skip + 1)
            is Assign);
        if token_at(ts1, pos + skip + 1) is Assign {
            let start = pos + skip + 2;
            lemma_expression_local(ts1, ts2, n, start, Precedence::Lowest);
            lemma_expression_ends_on_operand(ts1, start, Precedence::Lowest);
            let value = expression(ts1, start, Precedence::Lowest);
            if value.result is Ok {
                lemma_semicolon_agrees(ts1, ts2, n, start + value.advance);
            }
        }
    }
}

/// Reading a `return` statement depends only on the tokens up to the one
/// after the last token read.
pub proof fn lemma_return_statement_local(
    ts1: Seq<TokenView>,
    ts2: Seq<TokenView>,
    n: nat,
    pos: nat,
)
    requires
        agree(ts1, ts2, n),
        pos + return_statement(ts1, pos).advance < n,
        pos < ts1.len(),
        pos < ts2.len(),
    ensures
        statement_agrees(ts1, ts2, n, pos, return_statement(ts1, pos), return_statement(ts2, pos)),
    decreases remaining(ts1, pos), 8nat,
{
    steps::lemma_return_statement_step(ts1, pos);
    steps::lemma_return_statement_step(ts2, pos);
    lemma_expression_local(ts1, ts2, n, pos + 1, Precedence::Lowest);
    lemma_expression_ends_on_operand(ts1, pos + 1, Precedence::Lowest);
    let value = expression(ts1, pos + 1, Precedence::Lowest);
    if value.result is Ok {
        lemma_semicolon_agrees(ts1, ts2, n, pos + 1 + value.advance);
    }
}

/// Reading an expression statement depends only on the tokens up to the
/// one after the last token read.
pub proof fn lemma_expression_statement_local(
    ts1: Seq<TokenView>,
    ts2: Seq<TokenView>,
    n: nat,
    pos: nat,
)
    requires
        agree(ts1, ts2, n),
        pos + expression_statement(ts1, pos).advance < n,
    ensures
        statement_agrees(
            ts1,
            ts2,
            n,
            pos,
            expression_statement(ts1, pos),
            expression_statement(ts2, pos),
        ),
    decreases remaining(ts1, pos), 8nat,
{
    steps::lemma_expression_statement_step(ts1, pos);
    steps::lemma_expression_statement_step(ts2, pos);
    lemma_expression_local(ts1, ts2, n, pos, Precedence::Lowest);
    lemma_expression_ends_on_operand(ts1, pos, Precedence::Lowest);
    let value = expression(ts1, pos, Precedence::Lowest);
    if value.result is Ok {
        lemma_semicolon_agrees(ts1, ts2, n, pos + value.advance);
    }
}

/// Reading a block depends only on the tokens up to the one after its
/// last token read.
pub proof fn lemma_block_statement_local(
    ts1: Seq<TokenView>,
    ts2: Seq<TokenView>,
    n: nat,
    pos: nat,
)
    requires
        agree(ts1, ts2, n),
        pos + block_statement(ts1, pos).advance < n,
        pos < ts1.len(),
        pos < ts2.len(),
    ensures
        block_statement(ts2, pos) == block_statement(ts1, pos),
    decreases remaining(ts1, pos), 4nat,
{
    steps::lemma_block_statement_step(ts1, pos);
    steps::lemma_block_statement_step(ts2, pos);
    lemma_block_loop_local(ts1, ts2, n, pos + 1, Seq::empty());
}

/// Reading the statements of a block depends only on the tokens up to the
/// one after the last token read.
pub proof fn lemma_block_loop_local(
    ts1: Seq<TokenView>,
    ts2: Seq<TokenView>,
    n: nat,
    pos: nat,
    acc: Seq<StatementView>,
)
    requires
        agree(ts1, ts2, n),
        pos + block_loop(ts1, pos, acc).advance < n,
    ensures
        block_loop(ts2, pos, acc) == block_loop(ts1, pos, acc),
    decreases remaining(ts1, pos), 10nat,
{
    steps::lemma_block_loop_step(ts1, pos, acc);
    steps::lemma_block_loop_step(ts2, pos, acc);
    if !(token_at(ts1, pos) is RBrace) && !(token_at(ts1, pos) is EOF) {
        lemma_statement_local(ts1, ts2, n, pos);
        let s = statement(ts1, pos);
        if s.result is Ok {
            lemma_block_loop_local(ts1, ts2, n, pos + s.advance + 1, acc.push(s.result->Ok_0));
        }
    }
}

/// Reading an expression depends only on the tokens up to the one after
/// the last token read.
pub proof fn lemma_expression_local(
    ts1: Seq<TokenView>,
    ts2: Seq<TokenView>,
    n: nat,
    pos: nat,
    min: Precedence,
)
    requires
        agree(ts1, ts2, n),
        pos + expression(ts1, pos, min).advance < n,
    ensures
        expression(ts2, pos, min) == expression(ts1, pos, min),
    decreases remaining(ts1, pos), 7nat,
{
    steps::lemma_expression_step(ts1, pos, min);
    steps::lemma_expression_step(ts2, pos, min);
    lemma_prefix_local(ts1, ts2, n, pos, min);
    let first = prefix(ts1, pos, min);
    if first.result is Ok {
        lemma_prefix_ends_on_operand(ts1, pos, min);
        lemma_infix_loop_local(ts1, ts2, n, pos + first.advance, min, first.result->Ok_0);
    }
}

/// Reading an operand depends only on the tokens up to the one after the
/// last token read.
pub proof fn lemma_prefix_local(
    ts1: Seq<TokenView>,
    ts2: Seq<TokenView>,
    n: nat,
    pos: nat,
    min: Precedence,
)
    requires
        agree(ts1, ts2, n),
        pos + prefix(ts1, pos, min).advance < n,
    ensures
        prefix(ts2, pos, min) == prefix(ts1, pos, min),
    decreases remaining(ts1, pos), 6nat,
{
    steps::lemma_prefix_step(ts1, pos, min);
    steps::lemma_prefix_step(ts2, pos, min);
    match token_at(ts1, pos) {
        TokenView::Bang | TokenView::Minus => {
            if min.level() <= Precedence::Prefix.level() {
                lemma_prefix_expression_local(ts1, ts2, n, pos);
            }
        },
        TokenView::LParen => {
            lemma_grouped_expression_local(ts1, ts2, n, pos);
        },
        TokenView::If => {
            lemma_if_expression_local(ts1, ts2, n, pos);
        },
        TokenView::Function => {
            lemma_function_literal_local(ts1, ts2, n, pos);
        },
        TokenView::LBracket => {
            lemma_array_literal_local(ts1, ts2, n, pos);
        },
        TokenView::LBrace => {
            lemma_hash_literal_local(ts1, ts2, n, pos);
        },
        _ => {},
    }
}

/// Applying the operators after an operand depends only on the tokens up
/// to the one after the last token read.
pub proof fn lemma_infix_loop_local(
    ts1: Seq<TokenView>,
    ts2: Seq<TokenView>,
    n: nat,
    pos: nat,
    min: Precedence,
    left: ExpressionView,
)
    requires
        agree(ts1, ts2, n),
        pos + infix_loop(ts1, pos, min, left).advance < n,
    ensures
        infix_loop(ts2, pos, min, left) == infix_loop(ts1, pos, min, left),
    decreases remaining(ts1, pos), 6nat,
{
    steps::lemma_infix_loop_step(ts1, pos, min, left);
    steps::lemma_infix_loop_step(ts2, pos, min, left);
    let next = token_at(ts1, pos + 1);
    if !(next is Semicolon || min.level() >= Precedence::of(next).level()) {
        if is_binary_operator(next) {
            lemma_infix_expression_local(ts1, ts2, n, pos + 1, left);
            let applied = infix_expression(ts1, pos + 1, left);
            if applied.result is Ok {
                lemma_infix_loop_local(
                    ts1,
                    ts2,
                    n,
                    pos + 1 + applied.advance,
                    min,
                    applied.result->Ok_0,
                );
            }
        } else if next is LParen {
            lemma_call_expression_local(ts1, ts2, n, pos + 1, left);
            let applied = call_expression(ts1, pos + 1, left);
            if applied.result is Ok {
                lemma_infix_loop_local(
                    ts1,
                    ts2,
                    n,
                    pos + 1 + applied.advance,
                    min,
                    applied.result->Ok_0,
                );
            }
        } else {
            lemma_index_expression_local(ts1, ts2, n, pos + 1, left);
            let applied = index_expression(ts1, pos + 1, left);
            if applied.result is Ok {
                lemma_infix_loop_local(
                    ts1,
                    ts2,
                    n,
                    pos + 1 + applied.advance,
                    min,
                    applied.result->Ok_0,
                );
            }
        }
    }
}

/// Reading a unary operator and its operand depends only on the tokens up
/// to the one after the last token read.
pub proof fn lemma_prefix_expression_local(
    ts1: Seq<TokenView>,
    ts2: Seq<TokenView>,
    n: nat,
    pos: nat,
)
    requires
        agree(ts1, ts2, n),
        pos + prefix_expression(ts1, pos).advance < n,
        pos < ts1.len(),
        pos < ts2.len(),
    ensures
        prefix_expression(ts2, pos) == prefix_expression(ts1, pos),
    decreases remaining(ts1, pos), 5nat,
{
    steps::lemma_prefix_expression_step(ts1, pos);
    steps::lemma_prefix_expression_step(ts2, pos);
    let min = if token_at(ts1, pos) is Minus {
        Precedence::Call
    } else {
        Precedence::Prefix
    };
    lemma_expression_local(ts1, ts2, n, pos + 1, min);
}

/// Reading a binary operator and its right operand depends only on the
/// tokens up to the one after the last token read.
pub proof fn lemma_infix_expression_local(
    ts1: Seq<TokenView>,
    ts2: Seq<TokenView>,
    n: nat,
    pos: nat,
    left: ExpressionView,
)
    requires
        agree(ts1, ts2, n),
        pos + infix_expression(ts1, pos, left).advance < n,
        pos < ts1.len(),
        pos < ts2.len(),
    ensures
        infix_expression(ts2, pos, left) == infix_expression(ts1, pos, left),
    decreases remaining(ts1, pos), 5nat,
{
    steps::lemma_infix_expression_step(ts1, pos, left);
    steps::lemma_infix_expression_step(ts2, pos, left);
    lemma_expression_local(ts1, ts2, n, pos + 1, Precedence::of(token_at(ts1, pos)));
}

/// Reading a parenthesised expression depends only on the tokens up to
/// the one after the last token read.
pub proof fn lemma_grouped_expression_local(
    ts1: Seq<TokenView>,
    ts2: Seq<TokenView>,
    n: nat,
    pos: nat,
)
    requires
        agree(ts1, ts2, n),
        pos + grouped_expression(ts1, pos).advance < n,
        pos < ts1.len(),
        pos < ts2.len(),
    ensures
        grouped_expression(ts2, pos) == grouped_expression(ts1, pos),
    decreases remaining(ts1, pos), 5nat,
{
    steps::lemma_grouped_expression_step(ts1, pos);
    steps::lemma_grouped_expression_step(ts2, pos);
    lemma_expression_local(ts1, ts2, n, pos + 1, Precedence::Lowest);
}

/// Reading a conditional depends only on the tokens up to the one after
/// the last token read.
pub proof fn lemma_if_expression_local(ts1: Seq<TokenView>, ts2: Seq<TokenView>, n: nat, pos: nat)
    requires
        agree(ts1, ts2, n),
        pos + if_expression(ts1, pos).advance < n,
        pos < ts1.len(),
        pos < ts2.len(),
    ensures
        if_expression(ts2, pos) == if_expression(ts1, pos),
    decreases remaining(ts1, pos), 5nat,
{
    steps::lemma_if_expression_step(ts1, pos);
    steps::lemma_if_expression_step(ts2, pos);
    if token_at(ts1, pos + 1) is LParen {
        lemma_expression_local(ts1, ts2, n, pos + 2, Precedence::Lowest);
        let cond = expression(ts1, pos + 2, Precedence::Lowest);
        let end = pos + 2 + cond.advance;
        if cond.result is Ok && token_at(ts1, end + 1) is RParen && token_at(ts1, end + 2)
            is LBrace {
            lemma_block_statement_local(ts1, ts2, n, end + 2);
        }
    }
}

/// Reading a function literal depends only on the tokens up to the one
/// after the last token read.
pub proof fn lemma_function_literal_local(
    ts1: Seq<TokenView>,
    ts2: Seq<TokenView>,
    n: nat,
    pos: nat,
)
    requires
        agree(ts1, ts2, n),
        pos + function_literal(ts1, pos).advance < n,
        pos < ts1.len(),
        pos < ts2.len(),
    ensures
        function_literal(ts2, pos) == function_literal(ts1, pos),
    decreases remaining(ts1, pos), 5nat,
{
    steps::lemma_function_literal_step(ts1, pos);
    steps::lemma_function_literal_step(ts2, pos);
    assert(token_at(ts2, pos + 1) is LParen <==> token_at(ts1, pos + 1) is LParen);
    if token_at(ts1, pos + 1) is LParen {
        lemma_function_parameters_local(ts1, ts2, n, pos + 1);
        let params = function_parameters(ts1, pos + 1);
        assert(function_parameters(ts2, pos + 1) == params);
        let end = pos + 1 + params.advance;
        if params.result is Ok {
            assert(token_at(ts2, end + 1) is LBrace <==> token_at(ts1, end + 1) is LBrace);
            if token_at(ts1, end + 1) is LBrace {
                lemma_block_statement_local(ts1, ts2, n, end + 1);
                assert(block_statement(ts2, end + 1) == block_statement(ts1, end + 1));
            }
        }
    }
}

/// Reading an array literal depends only on the tokens up to the one
/// after the last token read.
pub proof fn lemma_array_literal_local(ts1: Seq<TokenView>, ts2: Seq<TokenView>, n: nat, pos: nat)
    requires
        agree(ts1, ts2, n),
        pos + array_literal(ts1, pos).advance < n,
        pos < ts1.len(),
        pos < ts2.len(),
    ensures
        array_literal(ts2, pos) == array_literal(ts1, pos),
    decreases remaining(ts1, pos), 5nat,
{
    steps::lemma_array_literal_step(ts1, pos);
    steps::lemma_array_literal_step(ts2, pos);
    lemma_expression_list_local(ts1, ts2, n, pos, TokenView::RBracket);
}

/// Reading a hash literal depends only on the tokens up to the one after
/// the last token read.
pub proof fn lemma_hash_literal_local(ts1: Seq<TokenView>, ts2: Seq<TokenView>, n: nat, pos: nat)
    requires
        agree(ts1, ts2, n),
        pos + hash_literal(ts1, pos).advance < n,
        pos < ts1.len(),
        pos < ts2.len(),
    ensures
        hash_literal(ts2, pos) == hash_literal(ts1, pos),
    decreases remaining(ts1, pos), 5nat,
{
    steps::lemma_hash_literal_step(ts1, pos);
    steps::lemma_hash_literal_step(ts2, pos);
    lemma_hash_loop_local(ts1, ts2, n, pos, Seq::empty());
}

/// Reading the pairs of a hash literal depends only on the tokens up to
/// the one after the last token read.
pub proof fn lemma_hash_loop_local(
    ts1: Seq<TokenView>,
    ts2: Seq<TokenView>,
    n: nat,
    pos: nat,
    acc: Seq<(ExpressionView, ExpressionView)>,
)
    requires
        agree(ts1, ts2, n),
        pos + hash_loop(ts1, pos, acc).advance < n,
        pos < ts1.len(),
        pos < ts2.len(),
    ensures
        hash_loop(ts2, pos, acc) == hash_loop(ts1, pos, acc),
    decreases remaining(ts1, pos), 4nat,
{
    steps::lemma_hash_loop_step(ts1, pos, acc);
    steps::lemma_hash_loop_step(ts2, pos, acc);
    if !(token_at(ts1, pos + 1) is RBrace) {
        lemma_expression_local(ts1, ts2, n, pos + 1, Precedence::Lowest);
        let key = expression(ts1, pos + 1, Precedence::Lowest);
        let key_end = pos + 1 + key.advance;
        if key.result is Ok && token_at(ts1, key_end + 1) is Colon {
            lemma_expression_local(ts1, ts2, n, key_end + 2, Precedence::Lowest);
            let value = expression(ts1, key_end + 2, Precedence::Lowest);
            let consumed = 1 + key.advance + 2 + value.advance;
            let next = token_at(ts1, pos + consumed + 1);
            if value.result is Ok && (next is RBrace || next is Comma) {
                lemma_hash_loop_local(
                    ts1,
                    ts2,
                    n,
                    pos + consumed,
                    acc.push((key.result->Ok_0, value.result->Ok_0)),
                );
            }
        }
    }
}

/// Reading an expression list depends only on the tokens up to the one
/// after the last token read.
pub proof fn lemma_expression_list_local(
    ts1: Seq<TokenView>,
    ts2: Seq<TokenView>,
    n: nat,
    pos: nat,
    end: TokenView,
)
    requires
        agree(ts1, ts2, n),
        pos + expression_list(ts1, pos, end).advance < n,
        pos < ts1.len(),
        pos < ts2.len(),
        !(end is EOF),
        !(end is Semicolon),
    ensures
        expression_list(ts2, pos, end) == expression_list(ts1, pos, end),
    decreases remaining(ts1, pos), 3nat,
{
    steps::lemma_expression_list_step(ts1, pos, end);
    steps::lemma_expression_list_step(ts2, pos, end);
    if token_at(ts1, pos + 1) != end {
        lemma_expression_local(ts1, ts2, n, pos + 1, Precedence::Lowest);
        let first = expression(ts1, pos + 1, Precedence::Lowest);
        if first.result is Ok {
            lemma_list_loop_local(ts1, ts2, n, pos + 1 + first.advance, seq![first.result->Ok_0]);
        }
    }
}

/// Reading the further elements of an expression list depends only on the
/// tokens up to the one after the last token read.
pub proof fn lemma_list_loop_local(
    ts1: Seq<TokenView>,
    ts2: Seq<TokenView>,
    n: nat,
    pos: nat,
    acc: Seq<ExpressionView>,
)
    requires
        agree(ts1, ts2, n),
        pos + list_loop(ts1, pos, acc).advance < n,
    ensures
        list_loop(ts2, pos, acc) == list_loop(ts1, pos, acc),
    decreases remaining(ts1, pos), 2nat,
{
    steps::lemma_list_loop_step(ts1, pos, acc);
    steps::lemma_list_loop_step(ts2, pos, acc);
    if token_at(ts1, pos + 1) is Comma {
        lemma_expression_local(ts1, ts2, n, pos + 2, Precedence::Lowest);
        let item = expression(ts1, pos + 2, Precedence::Lowest);
        if item.result is Ok {
            lemma_list_loop_local(
                ts1,
                ts2,
                n,
                pos + 2 + item.advance,
                acc.push(item.result->Ok_0),
            );
        }
    }
}

/// Reading a call depends only on the tokens up to the one after the last
/// token read.
pub proof fn lemma_call_expression_local(
    ts1: Seq<TokenView>,
    ts2: Seq<TokenView>,
    n: nat,
    pos: nat,
    callee: ExpressionView,
)
    requires
        agree(ts1, ts2, n),
        pos + call_expression(ts1, pos, callee).advance < n,
        pos < ts1.len(),
        pos < ts2.len(),
    ensures
        call_expression(ts2, pos, callee) == call_expression(ts1, pos, callee),
    decreases remaining(ts1, pos), 5nat,
{
    steps::lemma_call_expression_step(ts1, pos, callee);
    steps::lemma_call_expression_step(ts2, pos, callee);
    lemma_call_arguments_local(ts1, ts2, n, pos);
}

/// Reading the arguments of a call depends only on the tokens up to the
/// one after the last token read.
pub proof fn lemma_call_arguments_local(ts1: Seq<TokenView>, ts2: Seq<TokenView>, n: nat, pos: nat)
    requires
        agree(ts1, ts2, n),
        pos + call_arguments(ts1, pos).advance < n,
        pos < ts1.len(),
        pos < ts2.len(),
    ensures
        call_arguments(ts2, pos) == call_arguments(ts1, pos),
    decreases remaining(ts1, pos), 4nat,
{
    steps::lemma_call_arguments_step(ts1, pos);
    steps::lemma_call_arguments_step(ts2, pos);
    lemma_expression_list_local(ts1, ts2, n, pos, TokenView::RParen);
}

/// Reading an index operation depends only on the tokens up to the one
/// after the last token read.
pub proof fn lemma_index_expression_local(
    ts1: Seq<TokenView>,
    ts2: Seq<TokenView>,
    n: nat,
    pos: nat,
    container: ExpressionView,
)
    requires
        agree(ts1, ts2, n),
        pos + index_expression(ts1, pos, container).advance < n,
        pos < ts1.len(),
        pos < ts2.len(),
    ensures
        index_expression(ts2, pos, container) == index_expression(ts1, pos, container),
    decreases remaining(ts1, pos), 5nat,
{
    steps::lemma_index_expression_step(ts1, pos, container);
    steps::lemma_index_expression_step(ts2, pos, container);
    lemma_expression_local(ts1, ts2, n, pos + 1, Precedence::Lowest);
}

/// A `;` appended to the statements from `pos` on changes nothing of what
/// they are read as, where they are read with success and the last token
/// is not itself a `;`.
pub proof fn lemma_loop_trailing_semicolon(ts: Seq<TokenView>, pos: nat, acc: Seq<StatementView>)
    requires
        free_of_eof(ts),
        pos < ts.len(),
        !(ts.last() is Semicolon),
        program_loop(ts, pos, acc).result is Ok,
    ensures
        program_loop(ts.push(TokenView::Semicolon), pos, acc).result == program_loop(
            ts,
            pos,
            acc,
        ).result,
    decreases remaining(ts, pos),
{
    let ts2 = ts.push(TokenView::Semicolon);
    let n = ts.len();
    assert(agree(ts, ts2, n));
    steps::lemma_program_loop_step(ts, pos, acc);
    steps::lemma_program_loop_step(ts2, pos, acc);
    let s = statement(ts, pos);
    lemma_statement_ends_inside(ts, pos);
    lemma_statement_local(ts, ts2, n, pos);
    let next = pos + s.advance + 1;
    if next < n {
        lemma_loop_trailing_semicolon(ts, next, acc.push(s.result->Ok_0));
    } else {
        assert(ts.last() == token_at(ts, pos + s.advance));
        assert(token_at(ts2, n) is Semicolon);
        assert(statement(ts2, pos).advance == s.advance + 1);
        assert(token_at(ts2, n + 1) is EOF);
        steps::lemma_program_loop_step(ts, next, acc.push(s.result->Ok_0));
        steps::lemma_program_loop_step(ts2, n + 1, acc.push(s.result->Ok_0));
    }
}

/// The `;` at the end of an input is optional: appending one to an input
/// that is read with success, is not empty and does not end in a `;`
/// gives the same program.
pub proof fn lemma_trailing_semicolon_is_optional(ts: Seq<TokenView>)
    requires
        free_of_eof(ts),
        ts.len() > 0,
        !(ts.last() is Semicolon),
        program(ts, 0).result is Ok,
    ensures
        program(ts.push(TokenView::Semicolon), 0).result == program(ts, 0).result,
{
    lemma_loop_trailing_semicolon(ts, 0, Seq::empty());
}

} // verus!
