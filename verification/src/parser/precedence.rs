//! Precedence and associativity, stated of the tree.
//!
//! Parentheses that group hide how tightly the operators inside them bind,
//! so the shape of the tree is stated for expressions without them: every
//! parenthesis then follows a name and opens the arguments of a call.
use super::ast::ExprModel;
use super::expressions::{
    arguments, atom, ends_expression, expression, infix_power, is_prefix, operators,
    postfix_power, PREFIX_BINDING_POWER,
};
use super::laws::{
    ends_with_eof, lemma_arguments_advance, lemma_atom_advances, lemma_expression_advances,
    lemma_operators_settle,
};
use crate::lexer::{Token, TokenKind};
use vstd::prelude::*;

verus! {

/// The binding power with which an operator of this kind takes the operand
/// before it: that of a postfix operator, or the left one of an infix
/// operator.
pub open spec fn left_power(kind: TokenKind) -> Option<u8> {
    if postfix_power(kind) is Some {
        postfix_power(kind)
    } else {
        match infix_power(kind) {
            Some((left, _)) => Some(left),
            None => None,
        }
    }
}

/// Token `i` is a parenthesis that groups: an opening one that does not
/// follow an identifier.
pub open spec fn groups_at(tokens: Seq<Token>, i: int) -> bool {
    tokens[i].kind == TokenKind::LParen && !(i > 0 && tokens[i - 1].kind == TokenKind::Identifier)
}

/// No parenthesis groups: each opening one follows an identifier, and so
/// opens the arguments of a call.
pub open spec fn ungrouped(tokens: Seq<Token>) -> bool {
    forall|i: int| 0 <= i < tokens.len() ==> !#[trigger] groups_at(tokens, i)
}

/// Token `pos` does not follow an identifier.
pub open spec fn after_no_name(tokens: Seq<Token>, pos: int) -> bool {
    pos <= 0 || tokens[pos - 1].kind != TokenKind::Identifier
}

impl ExprModel {
    /// No operand on the right edge of the tree could have taken an operator
    /// of left binding power `power` that follows the expression: every
    /// operator on that edge binds tighter to its right.
    pub open spec fn closed_to(self, power: u8) -> bool
        decreases self,
    {
        match self {
            ExprModel::InfixOp { op, lhs, rhs } => {
                &&& infix_power(op) is Some
                &&& (infix_power(op)->0).1 > power
                &&& rhs.closed_to(power)
            },
            ExprModel::PrefixOp { op, expr } => {
                &&& PREFIX_BINDING_POWER > power
                &&& expr.closed_to(power)
            },
            _ => true,
        }
    }

    /// The tree is in the order of the binding powers, as an expression
    /// parsed at the minimum `binding_power`: every operator at its top
    /// binds at least that tightly to its left; the operand before an
    /// operator could not have kept that operator from it; and the operand
    /// behind an infix operator is in order at the right binding power of
    /// that operator, the operand of a prefix operator at the power of
    /// prefix operators, and each argument of a call at the lowest power.
    pub open spec fn ordered(self, binding_power: u8) -> bool
        decreases self, 0nat,
    {
        match self {
            ExprModel::Literal(_) => true,
            ExprModel::Ident(_) => true,
            ExprModel::FnCall { fn_name, args } => Self::all_ordered(args, args.len()),
            ExprModel::PrefixOp { op, expr } => {
                &&& is_prefix(op)
                &&& expr.ordered(PREFIX_BINDING_POWER)
            },
            ExprModel::PostfixOp { op, expr } => {
                &&& postfix_power(op) is Some
                &&& postfix_power(op)->0 >= binding_power
                &&& expr.ordered(binding_power)
                &&& expr.closed_to(postfix_power(op)->0)
            },
            ExprModel::InfixOp { op, lhs, rhs } => {
                &&& infix_power(op) is Some
                &&& (infix_power(op)->0).0 >= binding_power
                &&& lhs.ordered(binding_power)
                &&& lhs.closed_to((infix_power(op)->0).0)
                &&& rhs.ordered((infix_power(op)->0).1)
            },
        }
    }

    /// The first `n` expressions of a list are each in order at the lowest
    /// binding power.
    pub open spec fn all_ordered(list: Seq<ExprModel>, n: nat) -> bool
        decreases list, n,
    {
        n == 0 || n > list.len() || (Self::all_ordered(list, (n - 1) as nat) && list[n
            - 1].ordered(0))
    }
}

/// Whether the first expressions of a list are in order does not depend on
/// what follows them.
pub proof fn lemma_all_ordered_push(list: Seq<ExprModel>, last: ExprModel, n: nat)
    requires
        n <= list.len(),
    ensures
        ExprModel::all_ordered(list.push(last), n) == ExprModel::all_ordered(list, n),
    decreases n,
{
    if n > 0 {
        lemma_all_ordered_push(list, last, (n - 1) as nat);
        assert(list.push(last)[n - 1] == list[n - 1]);
    }
}

/// What follows an expression that was parsed at a minimum binding power
/// binds less tightly than that minimum, and could not have been taken by
/// any operand on the right edge of the expression.
pub open spec fn stopped(tokens: Seq<Token>, end: int, binding_power: u8, tree: ExprModel) -> bool {
    match left_power(tokens[end].kind) {
        Some(power) => power < binding_power && tree.closed_to(power),
        None => true,
    }
}

/// An atom is in order at every binding power, and closed to the operator
/// that follows it.
pub proof fn lemma_atom_ordered(tokens: Seq<Token>, source: Seq<u8>, pos: int, binding_power: u8)
    requires
        ends_with_eof(tokens),
        ungrouped(tokens),
        0 <= pos < tokens.len(),
        after_no_name(tokens, pos),
        atom(tokens, source, pos).0 is Ok,
    ensures
        atom(tokens, source, pos).0->Ok_0.ordered(binding_power),
        left_power(tokens[atom(tokens, source, pos).1].kind) is Some ==> atom(
            tokens,
            source,
            pos,
        ).0->Ok_0.closed_to(left_power(tokens[atom(tokens, source, pos).1].kind)->0),
    decreases tokens.len() - pos, 1int,
{
    let token = tokens[pos];
    lemma_atom_advances(tokens, source, pos);
    assert(!groups_at(tokens, pos));
    match token.kind {
        TokenKind::Identifier => {
            if tokens[pos + 1].kind == TokenKind::LParen {
                lemma_arguments_ordered(tokens, source, pos + 2, Seq::empty());
            }
        },
        TokenKind::Plus | TokenKind::Minus | TokenKind::Bang => {
            lemma_expression_advances(tokens, source, pos + 1, PREFIX_BINDING_POWER);
            lemma_expression_ordered(tokens, source, pos + 1, PREFIX_BINDING_POWER);
        },
        _ => {},
    }
}

/// The arguments of a call are each in order at the lowest binding power.
pub proof fn lemma_arguments_ordered(
    tokens: Seq<Token>,
    source: Seq<u8>,
    pos: int,
    list: Seq<ExprModel>,
)
    requires
        ends_with_eof(tokens),
        ungrouped(tokens),
        0 <= pos < tokens.len(),
        after_no_name(tokens, pos) || ends_expression(tokens[pos].kind),
        ExprModel::all_ordered(list, list.len()),
        arguments(tokens, source, pos, list).0 is Ok,
    ensures
        ({
            let all = arguments(tokens, source, pos, list).0->Ok_0;
            ExprModel::all_ordered(all, all.len())
        }),
    decreases tokens.len() - pos, 3int,
{
    if tokens[pos].kind != TokenKind::RParen {
        lemma_expression_advances(tokens, source, pos, 0);
        lemma_expression_ordered(tokens, source, pos, 0);
        let (argument, behind) = expression(tokens, source, pos, 0);
        let expr = argument->Ok_0;
        let after = if tokens[behind].kind == TokenKind::Comma {
            behind + 1
        } else {
            behind
        };
        lemma_all_ordered_push(list, expr, list.len());
        lemma_expression_ends(tokens, source, pos, 0);
        lemma_arguments_advance(tokens, source, after, list.push(expr));
        lemma_arguments_ordered(tokens, source, after, list.push(expr));
    }
}

/// An expression that was parsed ends before a token that ends an
/// expression or before an operator.
pub proof fn lemma_expression_ends(
    tokens: Seq<Token>,
    source: Seq<u8>,
    pos: int,
    binding_power: u8,
)
    requires
        ends_with_eof(tokens),
        0 <= pos < tokens.len(),
        expression(tokens, source, pos, binding_power).0 is Ok,
    ensures
        ends_expression(tokens[expression(tokens, source, pos, binding_power).1].kind)
            || left_power(tokens[expression(tokens, source, pos, binding_power).1].kind) is Some,
{
    lemma_atom_advances(tokens, source, pos);
    let (first, next) = atom(tokens, source, pos);
    lemma_operators_end(tokens, source, next, binding_power, first->Ok_0);
}

/// The operators behind an operand end before a token that ends an
/// expression or before an operator.
pub proof fn lemma_operators_end(
    tokens: Seq<Token>,
    source: Seq<u8>,
    pos: int,
    binding_power: u8,
    lhs: ExprModel,
)
    requires
        ends_with_eof(tokens),
        0 <= pos < tokens.len(),
        operators(tokens, source, pos, binding_power, lhs).0 is Ok,
    ensures
        ends_expression(tokens[operators(tokens, source, pos, binding_power, lhs).1].kind)
            || left_power(tokens[operators(tokens, source, pos, binding_power, lhs).1].kind)
            is Some,
    decreases tokens.len() - pos,
{
    let op = tokens[pos].kind;
    if ends_expression(op) {
    } else if postfix_power(op) is Some {
        if postfix_power(op)->0 >= binding_power {
            lemma_operators_end(
                tokens,
                source,
                pos + 1,
                binding_power,
                ExprModel::PostfixOp { op, expr: Box::new(lhs) },
            );
        }
    } else {
        let (left, right) = infix_power(op)->0;
        if left >= binding_power {
            lemma_expression_advances(tokens, source, pos + 1, right);
            let (operand, behind) = expression(tokens, source, pos + 1, right);
            lemma_operators_end(
                tokens,
                source,
                behind,
                binding_power,
                ExprModel::InfixOp { op, lhs: Box::new(lhs), rhs: Box::new(operand->Ok_0) },
            );
        }
    }
}

/// An operand in order, with the operators behind it that bind tightly
/// enough, is in order, and what follows it binds less tightly.
pub proof fn lemma_operators_ordered(
    tokens: Seq<Token>,
    source: Seq<u8>,
    pos: int,
    binding_power: u8,
    lhs: ExprModel,
)
    requires
        ends_with_eof(tokens),
        ungrouped(tokens),
        0 <= pos < tokens.len(),
        lhs.ordered(binding_power),
        left_power(tokens[pos].kind) is Some ==> lhs.closed_to(left_power(tokens[pos].kind)->0),
        operators(tokens, source, pos, binding_power, lhs).0 is Ok,
    ensures
        operators(tokens, source, pos, binding_power, lhs).0->Ok_0.ordered(binding_power),
        stopped(
            tokens,
            operators(tokens, source, pos, binding_power, lhs).1,
            binding_power,
            operators(tokens, source, pos, binding_power, lhs).0->Ok_0,
        ),
    decreases tokens.len() - pos, 0int,
{
    let op = tokens[pos].kind;
    if ends_expression(op) {
    } else if postfix_power(op) is Some {
        if postfix_power(op)->0 >= binding_power {
            let next = ExprModel::PostfixOp { op, expr: Box::new(lhs) };
            lemma_operators_settle(tokens, source, pos + 1, binding_power, next);
            lemma_operators_ordered(tokens, source, pos + 1, binding_power, next);
        }
    } else {
        let (left, right) = infix_power(op)->0;
        if left >= binding_power {
            lemma_expression_advances(tokens, source, pos + 1, right);
            lemma_expression_ordered(tokens, source, pos + 1, right);
            let (operand, behind) = expression(tokens, source, pos + 1, right);
            let next = ExprModel::InfixOp {
                op,
                lhs: Box::new(lhs),
                rhs: Box::new(operand->Ok_0),
            };
            lemma_operators_settle(tokens, source, behind, binding_power, next);
            lemma_operators_ordered(tokens, source, behind, binding_power, next);
        }
    }
}

/// Precedence and associativity: an expression without grouping parentheses
/// that was parsed at a minimum binding power is in the order of the binding
/// powers, and what follows it binds less tightly than that minimum.
pub proof fn lemma_expression_ordered(
    tokens: Seq<Token>,
    source: Seq<u8>,
    pos: int,
    binding_power: u8,
)
    requires
        ends_with_eof(tokens),
        ungrouped(tokens),
        0 <= pos < tokens.len(),
        after_no_name(tokens, pos),
        expression(tokens, source, pos, binding_power).0 is Ok,
    ensures
        expression(tokens, source, pos, binding_power).0->Ok_0.ordered(binding_power),
        stopped(
            tokens,
            expression(tokens, source, pos, binding_power).1,
            binding_power,
            expression(tokens, source, pos, binding_power).0->Ok_0,
        ),
    decreases tokens.len() - pos, 2int,
{
    lemma_atom_advances(tokens, source, pos);
    lemma_atom_ordered(tokens, source, pos, binding_power);
    let (first, next) = atom(tokens, source, pos);
    lemma_operators_ordered(tokens, source, next, binding_power, first->Ok_0);
}

} // verus!
