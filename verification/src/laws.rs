//! General facts about the grammar, proved from its definition.

use crate::grammar::{
    array_literal, block_loop, block_statement, call_arguments, call_expression, expression,
    expression_list, function_literal, grouped_expression, hash_literal, hash_loop, if_expression,
    index_expression, infix_expression, infix_loop, is_binary_operator, list_loop, prefix, program,
    program_loop, semicolon, statement, Outcome,
};
use crate::lexer::token_at;
use crate::program::{ExpressionView, Precedence, StatementView};
use crate::steps;
use crate::token::TokenView;
use vstd::prelude::*;

verus! {

/// Whether `token` is an operand by itself: an identifier or a literal.
pub open spec fn is_atom(token: TokenView) -> bool {
    token is Ident || token is Int || token is Bool || token is String
}

/// The expression that an atom stands for.
pub open spec fn atom(token: TokenView) -> ExpressionView {
    match token {
        TokenView::Ident(name) => ExpressionView::Identifier(name),
        TokenView::Int(value) => ExpressionView::IntLiteral(value),
        TokenView::Bool(value) => ExpressionView::BoolLiteral(value),
        TokenView::String(text) => ExpressionView::StringLiteral(text),
        _ => arbitrary(),
    }
}

/// Whether `token`, as the next token, ends an expression that is read
/// with the threshold `min`.
pub open spec fn ends_operand(token: TokenView, min: Precedence) -> bool {
    token is Semicolon || min.level() >= Precedence::of(token).level()
}

/// The tree of a binary operator applied to two operands.
pub open spec fn binary(
    left: ExpressionView,
    op: TokenView,
    right: ExpressionView,
) -> ExpressionView {
    ExpressionView::InfixExpression(Box::new(left), op, Box::new(right))
}

/// An atom is read as itself, and the operators after it are then applied
/// to it.
pub proof fn lemma_atom_begins_expression(ts: Seq<TokenView>, pos: nat, min: Precedence)
    requires
        is_atom(token_at(ts, pos)),
    ensures
        prefix(ts, pos, min) == Outcome::ok(atom(token_at(ts, pos)), 0),
        expression(ts, pos, min) == infix_loop(ts, pos, min, atom(token_at(ts, pos))),
{
    steps::lemma_expression_step(ts, pos, min);
    steps::lemma_prefix_step(ts, pos, min);
}

/// The operators after an operand are applied only while they bind more
/// tightly than the threshold: before a token that does not, and before a
/// `;`, the operand stands as it is.
pub proof fn lemma_loop_ends(ts: Seq<TokenView>, pos: nat, min: Precedence, left: ExpressionView)
    requires
        ends_operand(token_at(ts, pos + 1), min),
    ensures
        infix_loop(ts, pos, min, left) == Outcome::ok(left, 0),
{
    steps::lemma_infix_loop_step(ts, pos, min, left);
}

/// A binary operator that binds more tightly than the threshold is applied
/// to the operand on its left and to the expression on its right that is
/// read at the operator's own level; the loop then goes on from there.
pub proof fn lemma_loop_applies_operator(
    ts: Seq<TokenView>,
    pos: nat,
    min: Precedence,
    left: ExpressionView,
)
    requires
        is_binary_operator(token_at(ts, pos + 1)),
        min.level() < Precedence::of(token_at(ts, pos + 1)).level(),
    ensures
        ({
            let op = token_at(ts, pos + 1);
            let right = expression(ts, pos + 2, Precedence::of(op));
            infix_loop(ts, pos, min, left) == match right.result {
                Err(e) => Outcome::err(e, 2 + right.advance),
                Ok(r) => infix_loop(ts, pos + 2 + right.advance, min, binary(left, op, r)).after(
                    2 + right.advance,
                ),
            }
        }),
{
    steps::lemma_infix_loop_step(ts, pos, min, left);
    steps::lemma_infix_expression_step(ts, pos + 1, left);
    let op = token_at(ts, pos + 1);
    let right = expression(ts, pos + 2, Precedence::of(op));
    assert(infix_expression(ts, pos + 1, left).advance == 1 + right.advance);
}

/// Precedence and left-associativity. In `a op1 b op2 c`, where `a`, `b`
/// and `c` are atoms and what follows ends the expression, `b` belongs to
/// `op1` unless `op2` binds strictly more tightly: operators of one level
/// group to the left, and a tighter operator on the right takes `b` first.
pub proof fn lemma_precedence_decides_grouping(ts: Seq<TokenView>, pos: nat)
    requires
        is_atom(token_at(ts, pos)),
        is_binary_operator(token_at(ts, pos + 1)),
        is_atom(token_at(ts, pos + 2)),
        is_binary_operator(token_at(ts, pos + 3)),
        is_atom(token_at(ts, pos + 4)),
        ends_operand(token_at(ts, pos + 5), Precedence::Lowest),
    ensures
        ({
            let a = atom(token_at(ts, pos));
            let op1 = token_at(ts, pos + 1);
            let b = atom(token_at(ts, pos + 2));
            let op2 = token_at(ts, pos + 3);
            let c = atom(token_at(ts, pos + 4));
            expression(ts, pos, Precedence::Lowest) == Outcome::ok(
                if Precedence::of(op1).level() >= Precedence::of(op2).level() {
                    binary(binary(a, op1, b), op2, c)
                } else {
                    binary(a, op1, binary(b, op2, c))
                },
                4,
            )
        }),
{
    let a = atom(token_at(ts, pos));
    let op1 = token_at(ts, pos + 1);
    let b = atom(token_at(ts, pos + 2));
    let op2 = token_at(ts, pos + 3);
    let c = atom(token_at(ts, pos + 4));
    let low = Precedence::Lowest;
    let p1 = Precedence::of(op1);
    let p2 = Precedence::of(op2);
    // `c` is the whole right operand of `op2`.
    lemma_atom_begins_expression(ts, pos + 4, p2);
    lemma_loop_ends(ts, pos + 4, p2, c);
    assert(expression(ts, pos + 4, p2) == Outcome::ok(c, 0));
    lemma_atom_begins_expression(ts, pos, low);
    lemma_loop_applies_operator(ts, pos, low, a);
    lemma_atom_begins_expression(ts, pos + 2, p1);
    if p1.level() >= p2.level() {
        lemma_loop_ends(ts, pos + 2, p1, b);
        assert(expression(ts, pos + 2, p1) == Outcome::ok(b, 0));
        lemma_loop_applies_operator(ts, pos + 2, low, binary(a, op1, b));
        lemma_loop_ends(ts, pos + 4, low, binary(binary(a, op1, b), op2, c));
    } else {
        lemma_loop_applies_operator(ts, pos + 2, p1, b);
        lemma_loop_ends(ts, pos + 4, p1, binary(b, op2, c));
        assert(expression(ts, pos + 2, p1) == Outcome::ok(binary(b, op2, c), 2));
        lemma_loop_ends(ts, pos + 4, low, binary(a, op1, binary(b, op2, c)));
    }
}

/// One operator between two atoms: `a op b`, where `op` binds more
/// tightly than the threshold and what follows ends the expression.
pub proof fn lemma_single_operator(ts: Seq<TokenView>, pos: nat, min: Precedence)
    requires
        is_atom(token_at(ts, pos)),
        is_binary_operator(token_at(ts, pos + 1)),
        min.level() < Precedence::of(token_at(ts, pos + 1)).level(),
        is_atom(token_at(ts, pos + 2)),
        ends_operand(token_at(ts, pos + 3), min),
    ensures
        expression(ts, pos, min) == Outcome::ok(
            binary(atom(token_at(ts, pos)), token_at(ts, pos + 1), atom(token_at(ts, pos + 2))),
            2,
        ),
{
    let a = atom(token_at(ts, pos));
    let op = token_at(ts, pos + 1);
    let b = atom(token_at(ts, pos + 2));
    lemma_atom_begins_expression(ts, pos, min);
    lemma_loop_applies_operator(ts, pos, min, a);
    lemma_atom_begins_expression(ts, pos + 2, Precedence::of(op));
    lemma_loop_ends(ts, pos + 2, Precedence::of(op), b);
    lemma_loop_ends(ts, pos + 2, min, binary(a, op, b));
}

/// Parentheses only group: a parenthesised expression is an operand whose
/// tree is the tree of what stands between the parentheses.
pub proof fn lemma_group_is_operand(ts: Seq<TokenView>, pos: nat, min: Precedence)
    requires
        token_at(ts, pos) is LParen,
    ensures
        ({
            let inner = expression(ts, pos + 1, Precedence::Lowest);
            expression(ts, pos, min) == match inner.result {
                Err(e) => Outcome::err(e, 1 + inner.advance),
                Ok(e) => if token_at(ts, pos + inner.advance + 2) is RParen {
                    infix_loop(ts, pos + inner.advance + 2, min, e).after(inner.advance + 2)
                } else {
                    Outcome::err("Right parentheses expected"@, 1 + inner.advance)
                },
            }
        }),
{
    steps::lemma_expression_step(ts, pos, min);
    steps::lemma_prefix_step(ts, pos, min);
    steps::lemma_grouped_expression_step(ts, pos);
    let inner = expression(ts, pos + 1, Precedence::Lowest);
    assert(grouped_expression(ts, pos).advance >= 1 + inner.advance);
}

/// A conditional, a function literal, an array literal and a hash literal
/// are operands: the operators after one are applied to it.
pub proof fn lemma_construct_is_operand(ts: Seq<TokenView>, pos: nat, min: Precedence)
    requires
        token_at(ts, pos) is If || token_at(ts, pos) is Function || token_at(ts, pos) is LBracket
            || token_at(ts, pos) is LBrace,
    ensures
        ({
            let construct = match token_at(ts, pos) {
                TokenView::If => if_expression(ts, pos),
                TokenView::Function => function_literal(ts, pos),
                TokenView::LBracket => array_literal(ts, pos),
                _ => hash_literal(ts, pos),
            };
            expression(ts, pos, min) == match construct.result {
                Err(e) => Outcome::err(e, construct.advance),
                Ok(e) => infix_loop(ts, pos + construct.advance, min, e).after(construct.advance),
            }
        }),
{
    steps::lemma_expression_step(ts, pos, min);
    steps::lemma_prefix_step(ts, pos, min);
}

/// Grouping overrides precedence. In `(a op1 b) op2 c` the parenthesised
/// part is the left operand of `op2`, whatever the two operators are.
pub proof fn lemma_grouping_overrides_precedence(ts: Seq<TokenView>, pos: nat)
    requires
        token_at(ts, pos) is LParen,
        is_atom(token_at(ts, pos + 1)),
        is_binary_operator(token_at(ts, pos + 2)),
        is_atom(token_at(ts, pos + 3)),
        token_at(ts, pos + 4) is RParen,
        is_binary_operator(token_at(ts, pos + 5)),
        is_atom(token_at(ts, pos + 6)),
        ends_operand(token_at(ts, pos + 7), Precedence::Lowest),
    ensures
        expression(ts, pos, Precedence::Lowest) == Outcome::ok(
            binary(
                binary(
                    atom(token_at(ts, pos + 1)),
                    token_at(ts, pos + 2),
                    atom(token_at(ts, pos + 3)),
                ),
                token_at(ts, pos + 5),
                atom(token_at(ts, pos + 6)),
            ),
            6,
        ),
{
    let low = Precedence::Lowest;
    let group = binary(
        atom(token_at(ts, pos + 1)),
        token_at(ts, pos + 2),
        atom(token_at(ts, pos + 3)),
    );
    let op2 = token_at(ts, pos + 5);
    let c = atom(token_at(ts, pos + 6));
    lemma_single_operator(ts, pos + 1, low);
    lemma_group_is_operand(ts, pos, low);
    lemma_loop_applies_operator(ts, pos + 4, low, group);
    lemma_atom_begins_expression(ts, pos + 6, Precedence::of(op2));
    lemma_loop_ends(ts, pos + 6, Precedence::of(op2), c);
    lemma_loop_ends(ts, pos + 6, low, binary(group, op2, c));
}

/// A unary operator is applied to the operand after it, which is read at
/// the level `Prefix` for `!` and one level tighter for `-`; where the
/// threshold is tighter than `Prefix` the operator is refused.
pub proof fn lemma_unary_operator(ts: Seq<TokenView>, pos: nat, min: Precedence)
    requires
        token_at(ts, pos) is Bang || token_at(ts, pos) is Minus,
    ensures
        ({
            let op = token_at(ts, pos);
            let operand = expression(
                ts,
                pos + 1,
                if op is Minus {
                    Precedence::Call
                } else {
                    Precedence::Prefix
                },
            );
            expression(ts, pos, min) == if min.level() > Precedence::Prefix.level() {
                Outcome::err(
                    if op is Minus {
                        "'(' expected after prefix '-'"@
                    } else {
                        "'(' expected after prefix '!'"@
                    },
                    0,
                )
            } else {
                match operand.result {
                    Err(e) => Outcome::err(e, 1 + operand.advance),
                    Ok(e) => infix_loop(
                        ts,
                        pos + 1 + operand.advance,
                        min,
                        ExpressionView::PrefixExpression(op, Box::new(e)),
                    ).after(1 + operand.advance),
                }
            }
        }),
{
    steps::lemma_expression_step(ts, pos, min);
    steps::lemma_prefix_step(ts, pos, min);
    steps::lemma_prefix_expression_step(ts, pos);
}

/// Unary minus binds more tightly than every binary operator: in
/// `-a op b` the operand of `-` is `a` alone.
pub proof fn lemma_minus_binds_tighter_than_binary(ts: Seq<TokenView>, pos: nat)
    requires
        token_at(ts, pos) is Minus,
        is_atom(token_at(ts, pos + 1)),
        is_binary_operator(token_at(ts, pos + 2)),
        is_atom(token_at(ts, pos + 3)),
        ends_operand(token_at(ts, pos + 4), Precedence::Lowest),
    ensures
        expression(ts, pos, Precedence::Lowest) == Outcome::ok(
            binary(
                ExpressionView::PrefixExpression(
                    TokenView::Minus,
                    Box::new(atom(token_at(ts, pos + 1))),
                ),
                token_at(ts, pos + 2),
                atom(token_at(ts, pos + 3)),
            ),
            3,
        ),
{
    let low = Precedence::Lowest;
    let a = atom(token_at(ts, pos + 1));
    let op = token_at(ts, pos + 2);
    let b = atom(token_at(ts, pos + 3));
    let negated = ExpressionView::PrefixExpression(TokenView::Minus, Box::new(a));
    lemma_unary_operator(ts, pos, low);
    lemma_atom_begins_expression(ts, pos + 1, Precedence::Call);
    lemma_loop_ends(ts, pos + 1, Precedence::Call, a);
    lemma_loop_applies_operator(ts, pos + 1, low, negated);
    lemma_atom_begins_expression(ts, pos + 3, Precedence::of(op));
    lemma_loop_ends(ts, pos + 3, Precedence::of(op), b);
    lemma_loop_ends(ts, pos + 3, low, binary(negated, op, b));
}

/// `!` may be applied to a negation: `!-a` is `!` of `-a`.
pub proof fn lemma_bang_of_minus(ts: Seq<TokenView>, pos: nat)
    requires
        token_at(ts, pos) is Bang,
        token_at(ts, pos + 1) is Minus,
        is_atom(token_at(ts, pos + 2)),
        ends_operand(token_at(ts, pos + 3), Precedence::Lowest),
    ensures
        expression(ts, pos, Precedence::Lowest) == Outcome::ok(
            ExpressionView::PrefixExpression(
                TokenView::Bang,
                Box::new(
                    ExpressionView::PrefixExpression(
                        TokenView::Minus,
                        Box::new(atom(token_at(ts, pos + 2))),
                    ),
                ),
            ),
            2,
        ),
{
    let low = Precedence::Lowest;
    let a = atom(token_at(ts, pos + 2));
    let negated = ExpressionView::PrefixExpression(TokenView::Minus, Box::new(a));
    lemma_unary_operator(ts, pos, low);
    lemma_unary_operator(ts, pos + 1, Precedence::Prefix);
    lemma_atom_begins_expression(ts, pos + 2, Precedence::Call);
    lemma_loop_ends(ts, pos + 2, Precedence::Call, a);
    lemma_loop_ends(ts, pos + 2, Precedence::Prefix, negated);
    lemma_loop_ends(
        ts,
        pos + 2,
        low,
        ExpressionView::PrefixExpression(TokenView::Bang, Box::new(negated)),
    );
}

/// A unary operator cannot be the operand of unary minus: `-` reads its
/// operand at a level tighter than `Prefix`.
pub proof fn lemma_minus_refuses_unary_operand(ts: Seq<TokenView>, pos: nat, min: Precedence)
    requires
        token_at(ts, pos) is Minus,
        token_at(ts, pos + 1) is Bang || token_at(ts, pos + 1) is Minus,
        min.level() <= Precedence::Prefix.level(),
    ensures
        expression(ts, pos, min).result is Err,
{
    lemma_unary_operator(ts, pos, min);
    lemma_unary_operator(ts, pos + 1, Precedence::Call);
}

/// A `(` after an operand, where the threshold is looser than `Call`,
/// applies the operand to the arguments up to the closing `)`.
pub proof fn lemma_loop_applies_call(
    ts: Seq<TokenView>,
    pos: nat,
    min: Precedence,
    callee: ExpressionView,
)
    requires
        token_at(ts, pos + 1) is LParen,
        min.level() < Precedence::Call.level(),
    ensures
        ({
            let args = call_arguments(ts, pos + 1);
            infix_loop(ts, pos, min, callee) == match args.result {
                Err(e) => Outcome::err(e, 1 + args.advance),
                Ok(a) => infix_loop(
                    ts,
                    pos + 1 + args.advance,
                    min,
                    ExpressionView::CallExpression(Box::new(callee), a),
                ).after(1 + args.advance),
            }
        }),
{
    steps::lemma_infix_loop_step(ts, pos, min, callee);
    steps::lemma_call_expression_step(ts, pos + 1, callee);
    assert(call_expression(ts, pos + 1, callee).advance == call_arguments(ts, pos + 1).advance);
}

/// A `[` after an operand, where the threshold is looser than `Call`,
/// indexes the operand by the expression up to the closing `]`.
pub proof fn lemma_loop_applies_index(
    ts: Seq<TokenView>,
    pos: nat,
    min: Precedence,
    container: ExpressionView,
)
    requires
        token_at(ts, pos + 1) is LBracket,
        min.level() < Precedence::Call.level(),
    ensures
        ({
            let index = expression(ts, pos + 2, Precedence::Lowest);
            infix_loop(ts, pos, min, container) == match index.result {
                Err(e) => Outcome::err(e, 2 + index.advance),
                Ok(i) => if token_at(ts, pos + index.advance + 3) is RBracket {
                    infix_loop(
                        ts,
                        pos + index.advance + 3,
                        min,
                        ExpressionView::IndexExpression(Box::new(container), Box::new(i)),
                    ).after(index.advance + 3)
                } else {
                    Outcome::err("']' expected for index end."@, 2 + index.advance)
                },
            }
        }),
{
    steps::lemma_infix_loop_step(ts, pos, min, container);
    steps::lemma_index_expression_step(ts, pos + 1, container);
    let index = expression(ts, pos + 2, Precedence::Lowest);
    assert(index_expression(ts, pos + 1, container).advance >= 1 + index.advance);
}

/// Calls and indexing chain to the left: `f(x, y)[i]` indexes the result
/// of the call.
pub proof fn lemma_call_then_index(ts: Seq<TokenView>, pos: nat)
    requires
        is_atom(token_at(ts, pos)),
        token_at(ts, pos + 1) is LParen,
        is_atom(token_at(ts, pos + 2)),
        token_at(ts, pos + 3) is Comma,
        is_atom(token_at(ts, pos + 4)),
        token_at(ts, pos + 5) is RParen,
        token_at(ts, pos + 6) is LBracket,
        is_atom(token_at(ts, pos + 7)),
        token_at(ts, pos + 8) is RBracket,
        ends_operand(token_at(ts, pos + 9), Precedence::Lowest),
    ensures
        expression(ts, pos, Precedence::Lowest) == Outcome::ok(
            ExpressionView::IndexExpression(
                Box::new(
                    ExpressionView::CallExpression(
                        Box::new(atom(token_at(ts, pos))),
                        seq![atom(token_at(ts, pos + 2)), atom(token_at(ts, pos + 4))],
                    ),
                ),
                Box::new(atom(token_at(ts, pos + 7))),
            ),
            8,
        ),
{
    let low = Precedence::Lowest;
    let f = atom(token_at(ts, pos));
    let x = atom(token_at(ts, pos + 2));
    let y = atom(token_at(ts, pos + 4));
    let i = atom(token_at(ts, pos + 7));
    let args = seq![x, y];
    let call = ExpressionView::CallExpression(Box::new(f), args);
    let indexed = ExpressionView::IndexExpression(Box::new(call), Box::new(i));
    lemma_atom_begins_expression(ts, pos, low);
    lemma_loop_applies_call(ts, pos, low, f);
    // the arguments
    lemma_atom_begins_expression(ts, pos + 2, low);
    lemma_loop_ends(ts, pos + 2, low, x);
    lemma_atom_begins_expression(ts, pos + 4, low);
    lemma_loop_ends(ts, pos + 4, low, y);
    assert(call_arguments(ts, pos + 1) == Outcome::ok(args, 4)) by {
        steps::lemma_call_arguments_step(ts, pos + 1);
        steps::lemma_expression_list_step(ts, pos + 1, TokenView::RParen);
        steps::lemma_list_loop_step(ts, pos + 2, seq![x]);
        steps::lemma_list_loop_step(ts, pos + 4, args);
        assert(seq![x].push(y) =~= args);
        assert(list_loop(ts, pos + 4, args) == Outcome::ok(args, 0));
        assert(list_loop(ts, pos + 2, seq![x]) == Outcome::ok(args, 2));
        assert(expression_list(ts, pos + 1, TokenView::RParen) == Outcome::ok(args, 3));
    }
    lemma_loop_applies_index(ts, pos + 5, low, call);
    lemma_atom_begins_expression(ts, pos + 7, low);
    lemma_loop_ends(ts, pos + 7, low, i);
    lemma_loop_ends(ts, pos + 8, low, indexed);
}

/// The empty aggregates: `[]` is the array literal without elements and
/// `{}` the hash literal without pairs.
pub proof fn lemma_empty_aggregates(ts: Seq<TokenView>, pos: nat)
    requires
        ends_operand(token_at(ts, pos + 2), Precedence::Lowest),
    ensures
        token_at(ts, pos) is LBracket && token_at(ts, pos + 1) is RBracket ==> expression(
            ts,
            pos,
            Precedence::Lowest,
        ) == Outcome::ok(ExpressionView::ArrayLiteral(Seq::empty()), 1),
        token_at(ts, pos) is LBrace && token_at(ts, pos + 1) is RBrace ==> expression(
            ts,
            pos,
            Precedence::Lowest,
        ) == Outcome::ok(ExpressionView::HashLiteral(Seq::empty()), 1),
{
    let low = Precedence::Lowest;
    if token_at(ts, pos) is LBracket && token_at(ts, pos + 1) is RBracket {
        let empty = ExpressionView::ArrayLiteral(Seq::empty());
        steps::lemma_expression_list_step(ts, pos, TokenView::RBracket);
        steps::lemma_array_literal_step(ts, pos);
        steps::lemma_prefix_step(ts, pos, low);
        steps::lemma_expression_step(ts, pos, low);
        lemma_loop_ends(ts, pos + 1, low, empty);
    }
    if token_at(ts, pos) is LBrace && token_at(ts, pos + 1) is RBrace {
        let empty = ExpressionView::HashLiteral(Seq::empty());
        steps::lemma_hash_loop_step(ts, pos, Seq::empty());
        steps::lemma_hash_literal_step(ts, pos);
        steps::lemma_prefix_step(ts, pos, low);
        steps::lemma_expression_step(ts, pos, low);
        lemma_loop_ends(ts, pos + 1, low, empty);
    }
}

/// `let <name> = <atom>` binds the name to the atom, with or without a
/// `;` after it.
pub proof fn lemma_let_binds_name(ts: Seq<TokenView>, pos: nat)
    requires
        token_at(ts, pos) is Let,
        token_at(ts, pos + 1) is Ident,
        token_at(ts, pos + 2) is Assign,
        is_atom(token_at(ts, pos + 3)),
        ends_operand(token_at(ts, pos + 4), Precedence::Lowest),
    ensures
        statement(ts, pos) == Outcome::ok(
            StatementView::LetStatement(
                token_at(ts, pos + 1)->Ident_0,
                atom(token_at(ts, pos + 3)),
            ),
            if token_at(ts, pos + 4) is Semicolon {
                4nat
            } else {
                3nat
            },
        ),
{
    steps::lemma_statement_step(ts, pos);
    steps::lemma_let_statement_step(ts, pos);
    lemma_atom_begins_expression(ts, pos + 3, Precedence::Lowest);
    lemma_loop_ends(ts, pos + 3, Precedence::Lowest, atom(token_at(ts, pos + 3)));
}

/// A `let` whose name is not followed by `=` fails, whatever comes after.
pub proof fn lemma_let_needs_equal_sign(ts: Seq<TokenView>, pos: nat)
    requires
        token_at(ts, pos) is Let,
        token_at(ts, pos + 1) is Ident,
        !(token_at(ts, pos + 2) is Assign),
    ensures
        statement(ts, pos) == Outcome::<StatementView>::err("no equal sign!"@, 1),
        program(ts, pos).result == Err::<crate::program::ProgramView, Seq<char>>(
            "no equal sign!"@,
        ),
{
    steps::lemma_statement_step(ts, pos);
    steps::lemma_let_statement_step(ts, pos);
    steps::lemma_program_loop_step(ts, pos, Seq::empty());
}

/// The tree of a `return` statement is that of its value, whether or not
/// a `;` follows; the `;` only moves the cursor on by one more token.
pub proof fn lemma_return_semicolon_is_optional(ts: Seq<TokenView>, pos: nat)
    requires
        token_at(ts, pos) is Return,
    ensures
        ({
            let value = expression(ts, pos + 1, Precedence::Lowest);
            statement(ts, pos) == match value.result {
                Err(e) => Outcome::err(e, 1 + value.advance),
                Ok(v) => Outcome::ok(
                    StatementView::ReturnStatement(v),
                    1 + value.advance + semicolon(ts, pos + 1 + value.advance),
                ),
            }
        }),
{
    steps::lemma_statement_step(ts, pos);
    steps::lemma_return_statement_step(ts, pos);
}

/// A block that is read with success ends at a `}`: the cursor rests on
/// it. A block that runs into the end of input therefore fails.
pub proof fn lemma_block_ends_at_brace(ts: Seq<TokenView>, pos: nat, acc: Seq<StatementView>)
    ensures
        block_loop(ts, pos, acc).result is Ok ==> token_at(
            ts,
            pos + block_loop(ts, pos, acc).advance,
        ) is RBrace,
    decreases crate::grammar::remaining(ts, pos),
{
    steps::lemma_block_loop_step(ts, pos, acc);
    if !(token_at(ts, pos) is RBrace) && !(token_at(ts, pos) is EOF) {
        let s = statement(ts, pos);
        if s.result is Ok {
            lemma_block_ends_at_brace(ts, pos + s.advance + 1, acc.push(s.result->Ok_0));
        }
    }
}

/// A block without a closing `}` anywhere after its `{` fails.
pub proof fn lemma_unterminated_block_fails(ts: Seq<TokenView>, pos: nat)
    requires
        pos < ts.len(),
        forall|i: nat| i > pos ==> !(#[trigger] token_at(ts, i) is RBrace),
    ensures
        block_statement(ts, pos).result is Err,
{
    steps::lemma_block_statement_step(ts, pos);
    lemma_block_ends_at_brace(ts, pos + 1, Seq::empty());
    let end = pos + 1 + block_loop(ts, pos + 1, Seq::empty()).advance;
    assert(block_loop(ts, pos + 1, Seq::empty()).result is Ok ==> token_at(ts, end) is RBrace);
}

/// The statements of a program are read with success only by reaching
/// the end-of-input marker.
pub proof fn lemma_program_loop_reads_everything(
    ts: Seq<TokenView>,
    pos: nat,
    acc: Seq<StatementView>,
)
    ensures
        program_loop(ts, pos, acc).result is Ok ==> token_at(
            ts,
            pos + program_loop(ts, pos, acc).advance,
        ) is EOF,
    decreases crate::grammar::remaining(ts, pos),
{
    steps::lemma_program_loop_step(ts, pos, acc);
    if !(token_at(ts, pos) is EOF) {
        let s = statement(ts, pos);
        if s.result is Ok {
            lemma_program_loop_reads_everything(ts, pos + s.advance + 1, acc.push(s.result->Ok_0));
        }
    }
}

/// A program is read with success only by reaching the end-of-input
/// marker: nothing of the input is left unread.
pub proof fn lemma_program_reads_everything(ts: Seq<TokenView>, pos: nat)
    ensures
        program(ts, pos).result is Ok ==> token_at(ts, pos + program(ts, pos).advance) is EOF,
{
    lemma_program_loop_reads_everything(ts, pos, Seq::empty());
}

/// An input that holds one statement and nothing after it is read as the
/// program of that statement.
pub proof fn lemma_single_statement_program(ts: Seq<TokenView>, pos: nat)
    requires
        !(token_at(ts, pos) is EOF),
        statement(ts, pos).result is Ok,
        token_at(ts, pos + statement(ts, pos).advance + 1) is EOF,
    ensures
        program(ts, pos) == Outcome::ok(
            crate::program::ProgramView { statements: seq![statement(ts, pos).result->Ok_0] },
            statement(ts, pos).advance + 1,
        ),
{
    let s = statement(ts, pos);
    steps::lemma_program_loop_step(ts, pos, Seq::empty());
    steps::lemma_program_loop_step(
        ts,
        pos + s.advance + 1,
        Seq::empty().push(s.result->Ok_0),
    );
    assert(Seq::<StatementView>::empty().push(s.result->Ok_0) =~= seq![s.result->Ok_0]);
}

/// A hash literal with one pair: `{`, a key, `:`, a value and `}`.
pub proof fn lemma_hash_with_one_pair(ts: Seq<TokenView>, pos: nat)
    requires
        token_at(ts, pos) is LBrace,
        !(token_at(ts, pos + 1) is RBrace),
        expression(ts, pos + 1, Precedence::Lowest).result is Ok,
        token_at(ts, pos + 2 + expression(ts, pos + 1, Precedence::Lowest).advance) is Colon,
        expression(
            ts,
            pos + 3 + expression(ts, pos + 1, Precedence::Lowest).advance,
            Precedence::Lowest,
        ).result is Ok,
        ({
            let key = expression(ts, pos + 1, Precedence::Lowest);
            let value = expression(ts, pos + 3 + key.advance, Precedence::Lowest);
            token_at(ts, pos + 4 + key.advance + value.advance) is RBrace
        }),
    ensures
        ({
            let key = expression(ts, pos + 1, Precedence::Lowest);
            let value = expression(ts, pos + 3 + key.advance, Precedence::Lowest);
            hash_literal(ts, pos) == Outcome::ok(
                ExpressionView::HashLiteral(seq![(key.result->Ok_0, value.result->Ok_0)]),
                key.advance + value.advance + 4,
            )
        }),
{
    let key = expression(ts, pos + 1, Precedence::Lowest);
    let value = expression(ts, pos + 3 + key.advance, Precedence::Lowest);
    let pair = (key.result->Ok_0, value.result->Ok_0);
    let consumed = key.advance + value.advance + 3;
    assert(Seq::<(ExpressionView, ExpressionView)>::empty().push(pair) =~= seq![pair]);
    steps::lemma_hash_loop_step(ts, pos + consumed, seq![pair]);
    steps::lemma_hash_loop_step(ts, pos, Seq::empty());
    steps::lemma_hash_literal_step(ts, pos);
}

/// A hash literal holds at most one pair: a `,` after a pair is taken as
/// the start of the next key, and no expression begins with a `,`.
pub proof fn lemma_hash_holds_at_most_one_pair(
    ts: Seq<TokenView>,
    pos: nat,
    acc: Seq<(ExpressionView, ExpressionView)>,
)
    requires
        pos < ts.len(),
    ensures
        hash_loop(ts, pos, acc).result matches Ok(ExpressionView::HashLiteral(pairs))
            ==> pairs.len() <= acc.len() + 1,
{
    steps::lemma_hash_loop_step(ts, pos, acc);
    if !(token_at(ts, pos + 1) is RBrace) {
        let key = expression(ts, pos + 1, Precedence::Lowest);
        if key.result is Ok && token_at(ts, pos + 1 + key.advance + 1) is Colon {
            let value = expression(ts, pos + 1 + key.advance + 2, Precedence::Lowest);
            let consumed = 1 + key.advance + 2 + value.advance;
            let next = token_at(ts, pos + consumed + 1);
            if value.result is Ok && (next is RBrace || next is Comma) {
                let pairs = acc.push((key.result->Ok_0, value.result->Ok_0));
                steps::lemma_hash_loop_step(ts, pos + consumed, pairs);
                if next is Comma {
                    // the next round starts on the `,`, which begins no expression
                    steps::lemma_expression_step(ts, pos + consumed + 1, Precedence::Lowest);
                    steps::lemma_prefix_step(ts, pos + consumed + 1, Precedence::Lowest);
                }
            }
        }
    }
}

} // verus!
