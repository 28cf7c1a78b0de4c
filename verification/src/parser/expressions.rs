//! Expressions, by precedence climbing.
//!
//! An expression is an atom followed by operators. Each operator has a
//! binding power to its left and to its right; a higher number binds
//! tighter. Parsing at a minimum binding power takes operators for as long
//! as their left binding power is at least that minimum, and parses the
//! right operand of an infix operator at the operator's right binding power.
use super::ast::{expr_models, lemma_call_model, Expr, ExprModel, Lit, LitModel};
use super::{
    expect, separator, stop, text_of, Expected, ParseError, Parser, Production, Step,
};
use crate::lexer::rules::is_digit;
use crate::lexer::{Span, Token, TokenKind};
use vstd::prelude::*;
use vstd::utf8::{decode_utf8, is_char_boundary};

verus! {

/// The right binding power of the prefix operators `+`, `-` and `!`.
pub const PREFIX_BINDING_POWER: u8 = 51;

/// Whether a token of this kind is a prefix operator.
pub open spec fn is_prefix(op: TokenKind) -> bool {
    op == TokenKind::Plus || op == TokenKind::Minus || op == TokenKind::Bang
}

/// The left and right binding power of an infix operator.
pub open spec fn infix_power(op: TokenKind) -> Option<(u8, u8)> {
    match op {
        TokenKind::Or => Some((1u8, 2u8)),
        TokenKind::And => Some((3u8, 4u8)),
        TokenKind::Eqq | TokenKind::Neq => Some((5u8, 6u8)),
        TokenKind::LAngle | TokenKind::RAngle | TokenKind::Leq | TokenKind::Geq => Some(
            (7u8, 8u8),
        ),
        TokenKind::Plus | TokenKind::Minus => Some((9u8, 10u8)),
        TokenKind::Times | TokenKind::Slash => Some((11u8, 12u8)),
        // binds tighter to its left than to its right: right-associative
        TokenKind::Pow => Some((22u8, 21u8)),
        _ => None,
    }
}

/// The left binding power of a postfix operator.
pub open spec fn postfix_power(op: TokenKind) -> Option<u8> {
    match op {
        TokenKind::Bang => Some(101u8),
        _ => None,
    }
}

/// Whether a token of this kind may follow an operand as an operator.
pub open spec fn is_operator(kind: TokenKind) -> bool {
    infix_power(kind) is Some || postfix_power(kind) is Some
}

/// Whether a token of this kind ends an expression.
pub open spec fn ends_expression(kind: TokenKind) -> bool {
    kind == TokenKind::Eof || kind == TokenKind::RParen || kind == TokenKind::RBrace || kind
        == TokenKind::Comma || kind == TokenKind::SemiColon
}

impl TokenKind {
    /// Prefix operators bind their operand to the right.
    pub fn prefix_binding_power(&self) -> (power: u8)
        requires
            is_prefix(*self),
        ensures
            power == PREFIX_BINDING_POWER,
    {
        PREFIX_BINDING_POWER
    }

    /// Infix operators bind two operands, to the left and to the right.
    pub fn infix_binding_power(&self) -> (power: Option<(u8, u8)>)
        ensures
            power == infix_power(*self),
    {
        match self {
            TokenKind::Or => Some((1, 2)),
            TokenKind::And => Some((3, 4)),
            TokenKind::Eqq | TokenKind::Neq => Some((5, 6)),
            TokenKind::LAngle | TokenKind::RAngle | TokenKind::Leq | TokenKind::Geq => Some((7, 8)),
            TokenKind::Plus | TokenKind::Minus => Some((9, 10)),
            TokenKind::Times | TokenKind::Slash => Some((11, 12)),
            TokenKind::Pow => Some((22, 21)),
            _ => None,
        }
    }

    /// Postfix operators bind their operand to the left.
    pub fn postfix_binding_power(&self) -> (power: Option<u8>)
        ensures
            power == postfix_power(*self),
    {
        match self {
            TokenKind::Bang => Some(101),
            _ => None,
        }
    }
}

/// The number that a run of decimal digits denotes.
pub open spec fn decimal_value(digits: Seq<u8>) -> nat
    decreases digits.len(),
{
    if digits.len() == 0 {
        0
    } else {
        decimal_value(digits.drop_last()) * 10 + (digits.last() - '0' as u8) as nat
    }
}

/// Whether every byte is a decimal digit.
pub open spec fn all_digits(bytes: Seq<u8>) -> bool {
    forall|i: int| 0 <= i < bytes.len() ==> is_digit(#[trigger] bytes[i])
}

/// The value of an integer literal: that of its digits, where the text is a
/// non-empty run of digits and the value fits in 64 bits.
pub open spec fn int_value(bytes: Seq<u8>) -> Option<u64> {
    if bytes.len() > 0 && all_digits(bytes) && decimal_value(bytes) <= u64::MAX {
        Some(decimal_value(bytes) as u64)
    } else {
        None
    }
}

/// The text between the first and the last byte of a string literal, which
/// are its quotes.
pub open spec fn string_content(bytes: Seq<u8>) -> Option<Seq<char>> {
    if bytes.len() >= 2 && is_char_boundary(bytes, 1) && is_char_boundary(bytes, bytes.len() - 1) {
        Some(decode_utf8(bytes.subrange(1, bytes.len() - 1)))
    } else {
        None
    }
}

/// A longer run of digits denotes no smaller number than its beginning.
pub proof fn lemma_decimal_value_grows(digits: Seq<u8>, n: int)
    requires
        0 <= n <= digits.len(),
        all_digits(digits),
    ensures
        decimal_value(digits.subrange(0, n)) <= decimal_value(digits),
    decreases digits.len() - n,
{
    if n < digits.len() {
        let longer = digits.subrange(0, n + 1);
        assert(longer.drop_last() =~= digits.subrange(0, n));
        assert(is_digit(digits[n]));
        lemma_decimal_value_grows(digits, n + 1);
    } else {
        assert(digits.subrange(0, n) =~= digits);
    }
}

/// The value of an integer literal.
pub fn parse_int(bytes: &[u8]) -> (value: Option<u64>)
    ensures
        value == int_value(bytes@),
{
    if bytes.len() == 0 {
        return None;
    }
    let mut value: u64 = 0;
    let mut i: usize = 0;
    while i < bytes.len()
        invariant
            i <= bytes.len(),
            all_digits(bytes@.subrange(0, i as int)),
            value == decimal_value(bytes@.subrange(0, i as int)),
        decreases bytes.len() - i,
    {
        let b: u8 = bytes[i];
        if !('0' as u8 <= b && b <= '9' as u8) {
            return None;
        }
        let digit: u64 = (b - '0' as u8) as u64;
        proof {
            let longer = bytes@.subrange(0, i + 1);
            assert(longer.drop_last() =~= bytes@.subrange(0, i as int));
            assert(longer.last() == b);
            assert(all_digits(longer));
        }
        if value > (u64::MAX - digit) / 10 {
            proof {
                if all_digits(bytes@) {
                    lemma_decimal_value_grows(bytes@, i + 1);
                }
            }
            return None;
        }
        value = value * 10 + digit;
        i = i + 1;
    }
    proof {
        assert(bytes@.subrange(0, i as int) =~= bytes@);
    }
    Some(value)
}

/// The atom at token `pos`: a literal, an identifier, a call, an expression
/// in parentheses, or a prefix operator with its operand.
pub open spec fn atom(tokens: Seq<Token>, source: Seq<u8>, pos: int) -> Step<ExprModel>
    decreases tokens.len() - pos, 1int,
{
    if !(0 <= pos < tokens.len()) {
        stop(tokens, pos, Production::Expression, Expected::Start)
    } else {
        let token = tokens[pos];
        match token.kind {
            TokenKind::Int => match int_value(token.span.of(source)) {
                Some(value) => (Ok(ExprModel::Literal(LitModel::Int(value))), pos + 1),
                None => stop(tokens, pos, Production::Expression, Expected::Literal),
            },
            TokenKind::Float => (
                Ok(ExprModel::Literal(LitModel::Float(text_of(source, token)))),
                pos + 1,
            ),
            TokenKind::String => match string_content(token.span.of(source)) {
                Some(text) => (Ok(ExprModel::Literal(LitModel::Str(text))), pos + 1),
                None => stop(tokens, pos, Production::Expression, Expected::Literal),
            },
            TokenKind::Identifier => if pos + 1 < tokens.len() && tokens[pos + 1].kind
                == TokenKind::LParen {
                let (list, end) = arguments(tokens, source, pos + 2, Seq::empty());
                match list {
                    Ok(args) => (
                        Ok(ExprModel::FnCall { fn_name: text_of(source, token), args }),
                        end,
                    ),
                    Err(error) => (Err(error), end),
                }
            } else {
                (Ok(ExprModel::Ident(text_of(source, token))), pos + 1)
            },
            TokenKind::LParen => {
                let (inner, end) = expression(tokens, source, pos + 1, 0);
                match inner {
                    Ok(expr) => match expect(
                        tokens,
                        end,
                        TokenKind::RParen,
                        Production::Expression,
                    ) {
                        (Ok(_), after) => (Ok(expr), after),
                        (Err(error), at) => (Err(error), at),
                    },
                    Err(error) => (Err(error), end),
                }
            },
            TokenKind::Plus | TokenKind::Minus | TokenKind::Bang => {
                let (operand, end) = expression(tokens, source, pos + 1, PREFIX_BINDING_POWER);
                match operand {
                    Ok(expr) => (
                        Ok(ExprModel::PrefixOp { op: token.kind, expr: Box::new(expr) }),
                        end,
                    ),
                    Err(error) => (Err(error), end),
                }
            },
            _ => stop(tokens, pos, Production::Expression, Expected::Start),
        }
    }
}

/// The arguments of a call from token `pos` on, after those in `list`:
/// expressions with a comma between them, and with or without one behind the
/// last, up to the closing parenthesis.
pub open spec fn arguments(
    tokens: Seq<Token>,
    source: Seq<u8>,
    pos: int,
    list: Seq<ExprModel>,
) -> Step<Seq<ExprModel>>
    decreases tokens.len() - pos, 3int,
{
    if !(0 <= pos < tokens.len()) {
        stop(tokens, pos, Production::Expression, Expected::Start)
    } else if tokens[pos].kind == TokenKind::RParen {
        (Ok(list), pos + 1)
    } else {
        let (argument, end) = expression(tokens, source, pos, 0);
        match argument {
            Ok(expr) => if pos < end < tokens.len() {
                match separator(tokens, end, TokenKind::RParen, Production::Expression) {
                    (Ok(_), after) => arguments(tokens, source, after, list.push(expr)),
                    (Err(error), at) => (Err(error), at),
                }
            } else {
                stop(tokens, pos, Production::Expression, Expected::Start)
            },
            Err(error) => (Err(error), end),
        }
    }
}

/// The operators from token `pos` on that bind at least as tightly as
/// `binding_power`, applied to the operand `lhs` that stands before them.
pub open spec fn operators(
    tokens: Seq<Token>,
    source: Seq<u8>,
    pos: int,
    binding_power: u8,
    lhs: ExprModel,
) -> Step<ExprModel>
    decreases tokens.len() - pos, 0int,
{
    if !(0 <= pos < tokens.len()) {
        stop(tokens, pos, Production::Expression, Expected::Operator)
    } else {
        let op = tokens[pos].kind;
        if ends_expression(op) {
            (Ok(lhs), pos)
        } else if !is_operator(op) {
            stop(tokens, pos, Production::Expression, Expected::Operator)
        } else if postfix_power(op) is Some {
            if postfix_power(op)->0 < binding_power {
                (Ok(lhs), pos)
            } else {
                operators(
                    tokens,
                    source,
                    pos + 1,
                    binding_power,
                    ExprModel::PostfixOp { op, expr: Box::new(lhs) },
                )
            }
        } else {
            let (left, right) = infix_power(op)->0;
            if left < binding_power {
                (Ok(lhs), pos)
            } else {
                let (operand, end) = expression(tokens, source, pos + 1, right);
                match operand {
                    Ok(rhs) => if pos + 1 < end < tokens.len() {
                        operators(
                            tokens,
                            source,
                            end,
                            binding_power,
                            ExprModel::InfixOp { op, lhs: Box::new(lhs), rhs: Box::new(rhs) },
                        )
                    } else {
                        stop(tokens, pos, Production::Expression, Expected::Operator)
                    },
                    Err(error) => (Err(error), end),
                }
            }
        }
    }
}

/// The expression at token `pos`, with operators that bind at least as
/// tightly as `binding_power`: an atom, and the operators behind it.
pub open spec fn expression(
    tokens: Seq<Token>,
    source: Seq<u8>,
    pos: int,
    binding_power: u8,
) -> Step<ExprModel>
    decreases tokens.len() - pos, 2int,
{
    let (first, next) = atom(tokens, source, pos);
    match first {
        Ok(lhs) => if pos < next < tokens.len() {
            operators(tokens, source, next, binding_power, lhs)
        } else {
            stop(tokens, pos, Production::Expression, Expected::Start)
        },
        Err(error) => (Err(error), next),
    }
}

/// What the outcome of parsing an expression stands for.
pub open spec fn expr_outcome(result: Result<Expr, ParseError>) -> Result<ExprModel, ParseError> {
    match result {
        Ok(expr) => Ok(expr@),
        Err(error) => Err(error),
    }
}

impl<'input> Parser<'input> {
    /// Parses an expression with all its operators.
    pub fn expression(&mut self) -> (result: Result<Expr, ParseError>)
        ensures
            final(self).source() == old(self).source(),
            final(self).tokens() == old(self).tokens(),
            final(self).wf(),
            expr_outcome(result) == expression(
                old(self).tokens(),
                old(self).source(),
                old(self).position(),
                0,
            ).0,
            final(self).position() == expression(
                old(self).tokens(),
                old(self).source(),
                old(self).position(),
                0,
            ).1,
            result is Ok ==> old(self).position() < final(self).position(),
    {
        self.parse_expression(0)
    }

    /// Parses an atom.
    fn parse_atom(&mut self) -> (result: Result<Expr, ParseError>)
        ensures
            final(self).source() == old(self).source(),
            final(self).tokens() == old(self).tokens(),
            final(self).wf(),
            expr_outcome(result) == atom(
                old(self).tokens(),
                old(self).source(),
                old(self).position(),
            ).0,
            final(self).position() == atom(
                old(self).tokens(),
                old(self).source(),
                old(self).position(),
            ).1,
            result is Ok ==> old(self).position() < final(self).position(),
        decreases old(self).tokens().len() - old(self).position(), 1int,
    {
        let token = self.current();
        match token.kind {
            TokenKind::Int => {
                let text = self.text(token);
                match parse_int(text.as_bytes()) {
                    Some(value) => {
                        let _ = self.next();
                        Ok(Expr::Literal(Lit::Int(value)))
                    },
                    None => Err(
                        ParseError {
                            production: Production::Expression,
                            expected: Expected::Literal,
                            found: token,
                        },
                    ),
                }
            },
            TokenKind::Float => {
                let text = self.text(token).to_owned();
                let _ = self.next();
                Ok(Expr::Literal(Lit::Float(text)))
            },
            TokenKind::String => {
                let text = self.text(token);
                let len: usize = text.len();
                if len >= 2 && text.is_char_boundary(1) && text.is_char_boundary(len - 1) {
                    let inner = Token {
                        kind: TokenKind::String,
                        span: Span { start: 1, end: (len - 1) as u32 },
                    };
                    let content = inner.text(text).to_owned();
                    let _ = self.next();
                    Ok(Expr::Literal(Lit::Str(content)))
                } else {
                    Err(
                        ParseError {
                            production: Production::Expression,
                            expected: Expected::Literal,
                            found: token,
                        },
                    )
                }
            },
            TokenKind::Identifier => {
                let name = self.text(token).to_owned();
                let _ = self.next();
                if !self.at(TokenKind::LParen) {
                    // plain identifier
                    Ok(Expr::Ident(name))
                } else {
                    // function call
                    let _ = self.next();
                    match self.parse_arguments() {
                        Ok(args) => {
                            proof {
                                lemma_call_model(name, args);
                            }
                            Ok(Expr::FnCall { fn_name: name, args })
                        },
                        Err(error) => Err(error),
                    }
                }
            },
            TokenKind::LParen => {
                // There is no node for grouped expressions: parentheses
                // only shape the tree.
                let _ = self.next();
                match self.parse_expression(0) {
                    Ok(expr) => match self.consume(TokenKind::RParen, Production::Expression) {
                        Ok(_) => Ok(expr),
                        Err(error) => Err(error),
                    },
                    Err(error) => Err(error),
                }
            },
            TokenKind::Plus | TokenKind::Minus | TokenKind::Bang => {
                let op = token.kind;
                let _ = self.next();
                let right_binding_power: u8 = op.prefix_binding_power();
                match self.parse_expression(right_binding_power) {
                    Ok(expr) => Ok(Expr::PrefixOp { op, expr: Box::new(expr) }),
                    Err(error) => Err(error),
                }
            },
            _ => Err(
                ParseError {
                    production: Production::Expression,
                    expected: Expected::Start,
                    found: token,
                },
            ),
        }
    }

    /// Parses the arguments of a call, behind its opening parenthesis.
    fn parse_arguments(&mut self) -> (result: Result<Vec<Expr>, ParseError>)
        ensures
            final(self).source() == old(self).source(),
            final(self).tokens() == old(self).tokens(),
            final(self).wf(),
            match result {
                Ok(args) => Ok::<Seq<ExprModel>, ParseError>(expr_models(args@)),
                Err(error) => Err(error),
            } == arguments(
                old(self).tokens(),
                old(self).source(),
                old(self).position(),
                Seq::empty(),
            ).0,
            final(self).position() == arguments(
                old(self).tokens(),
                old(self).source(),
                old(self).position(),
                Seq::empty(),
            ).1,
            result is Ok ==> old(self).position() < final(self).position(),
        decreases old(self).tokens().len() - old(self).position(), 3int,
    {
        let mut args: Vec<Expr> = Vec::new();
        let ghost target = arguments(
            old(self).tokens(),
            old(self).source(),
            old(self).position(),
            Seq::empty(),
        );
        proof {
            use_type_invariant(&*self);
            assert(expr_models(args@) =~= Seq::<ExprModel>::empty());
        }
        loop
            invariant
                target == arguments(
                    old(self).tokens(),
                    old(self).source(),
                    old(self).position(),
                    Seq::empty(),
                ),
                self.source() == old(self).source(),
                self.tokens() == old(self).tokens(),
                self.wf(),
                old(self).position() <= self.position(),
                arguments(self.tokens(), self.source(), self.position(), expr_models(args@))
                    == target,
            ensures
                self.source() == old(self).source(),
                self.tokens() == old(self).tokens(),
                self.wf(),
                old(self).position() <= self.position(),
                self.tokens()[self.position()].kind == TokenKind::RParen,
                target == (
                    Ok::<Seq<ExprModel>, ParseError>(expr_models(args@)),
                    self.position() + 1,
                ),
            decreases self.tokens().len() - self.position(),
        {
            if self.at(TokenKind::RParen) {
                break ;
            }
            match self.parse_expression(0) {
                Ok(arg) => {
                    proof {
                        assert(expr_models(args@.push(arg)) =~= expr_models(args@).push(arg@));
                    }
                    args.push(arg);
                    match self.parse_separator(TokenKind::RParen, Production::Expression) {
                        Ok(_) => {},
                        Err(error) => {
                            return Err(error);
                        },
                    }
                },
                Err(error) => {
                    return Err(error);
                },
            }
        }
        let _ = self.next();
        Ok(args)
    }

    /// Parses an expression whose operators bind at least as tightly as
    /// `binding_power`.
    pub fn parse_expression(&mut self, binding_power: u8) -> (result: Result<Expr, ParseError>)
        ensures
            final(self).source() == old(self).source(),
            final(self).tokens() == old(self).tokens(),
            final(self).wf(),
            expr_outcome(result) == expression(
                old(self).tokens(),
                old(self).source(),
                old(self).position(),
                binding_power,
            ).0,
            final(self).position() == expression(
                old(self).tokens(),
                old(self).source(),
                old(self).position(),
                binding_power,
            ).1,
            result is Ok ==> old(self).position() < final(self).position(),
        decreases old(self).tokens().len() - old(self).position(), 2int,
    {
        let ghost target = expression(
            old(self).tokens(),
            old(self).source(),
            old(self).position(),
            binding_power,
        );
        let mut lhs = match self.parse_atom() {
            Ok(expr) => expr,
            Err(error) => {
                return Err(error);
            },
        };
        loop
            invariant
                target == expression(
                    old(self).tokens(),
                    old(self).source(),
                    old(self).position(),
                    binding_power,
                ),
                self.source() == old(self).source(),
                self.tokens() == old(self).tokens(),
                self.wf(),
                old(self).position() < self.position(),
                operators(self.tokens(), self.source(), self.position(), binding_power, lhs@)
                    == target,
            ensures
                self.source() == old(self).source(),
                self.tokens() == old(self).tokens(),
                self.wf(),
                old(self).position() < self.position(),
                target == (Ok::<ExprModel, ParseError>(lhs@), self.position()),
            decreases self.tokens().len() - self.position(),
        {
            let token = self.current();
            let op = token.kind;
            if op == TokenKind::Eof || op == TokenKind::RParen || op == TokenKind::RBrace || op
                == TokenKind::Comma || op == TokenKind::SemiColon {
                break ;
            }
            let postfix = op.postfix_binding_power();
            let infix = op.infix_binding_power();
            match postfix {
                Some(left_binding_power) => {
                    if left_binding_power < binding_power {
                        // the operator before binds tighter: the expression ends
                        break ;
                    }
                    let _ = self.next();
                    // no recursive call: the operand is already there
                    lhs = Expr::PostfixOp { op, expr: Box::new(lhs) };
                },
                None => match infix {
                    Some((left_binding_power, right_binding_power)) => {
                        if left_binding_power < binding_power {
                            // the operator before binds tighter: the expression ends
                            break ;
                        }
                        let _ = self.next();
                        match self.parse_expression(right_binding_power) {
                            Ok(rhs) => {
                                lhs = Expr::InfixOp { op, lhs: Box::new(lhs), rhs: Box::new(rhs) };
                            },
                            Err(error) => {
                                return Err(error);
                            },
                        }
                    },
                    None => {
                        return Err(
                            ParseError {
                                production: Production::Expression,
                                expected: Expected::Operator,
                                found: token,
                            },
                        );
                    },
                },
            }
        }
        Ok(lhs)
    }
}

} // verus!
