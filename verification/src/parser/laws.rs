//! What holds of every parse.
//!
//! Over tokens that end with the `Eof`, a parse step that succeeds moves the
//! cursor forward and leaves it on a token, and a step that stops leaves the
//! cursor on the token that it reports.
use super::ast::{ExprModel, ItemModel, StmtModel, TypeModel};
use super::expressions::{
    arguments, atom, ends_expression, expression, infix_power, operators, postfix_power,
    PREFIX_BINDING_POWER,
};
use super::hierarchy::{
    binding, block, condition, fields, generics, item, items, statement, type_at,
};
use super::expressions::{all_digits, decimal_value, int_value, string_content};
use super::{separator, Production, Step};
use crate::lexer::laws::{
    follows_rules, lemma_boundary_after_ascii, lemma_tokens_fit, lemma_tokens_follow_rules,
};
use crate::lexer::rules::{
    is_digit, is_letter, is_winner, is_word, lemma_digits_are_digits, lemma_string_tail_len_bound,
    lemma_table_matchers, lemma_words_are_words, rule_table, winner, QUOTE,
};
use crate::lexer::token::lemma_boundary_in_prefix;
use crate::lexer::{tokens_of, Token, TokenKind};
use vstd::prelude::*;
use vstd::utf8::{is_char_boundary_iff_not_is_continuation_byte, valid_utf8, valid_utf8_split};

verus! {

/// The tokens end with the `Eof`.
pub open spec fn ends_with_eof(tokens: Seq<Token>) -> bool {
    tokens.len() > 0 && tokens.last().kind == TokenKind::Eof
}

/// A step from token `pos` that has succeeded left the cursor on a token at
/// or behind `pos`; one that has stopped left it there on the token that it
/// reports.
pub open spec fn settled<T>(tokens: Seq<Token>, pos: int, step: Step<T>) -> bool {
    &&& pos <= step.1 < tokens.len()
    &&& step.0 is Err ==> step.0->Err_0.found == tokens[step.1]
}

/// A step from token `pos` is settled and, if it has succeeded, has moved
/// the cursor forward.
pub open spec fn advanced<T>(tokens: Seq<Token>, pos: int, step: Step<T>) -> bool {
    &&& settled(tokens, pos, step)
    &&& step.0 is Ok ==> pos < step.1
}

/// Parsing an atom advances.
pub proof fn lemma_atom_advances(tokens: Seq<Token>, source: Seq<u8>, pos: int)
    requires
        ends_with_eof(tokens),
        0 <= pos < tokens.len(),
    ensures
        advanced(tokens, pos, atom(tokens, source, pos)),
    decreases tokens.len() - pos, 1int,
{
    let token = tokens[pos];
    match token.kind {
        TokenKind::Identifier => {
            if tokens[pos + 1].kind == TokenKind::LParen {
                lemma_arguments_advance(tokens, source, pos + 2, Seq::empty());
            }
        },
        TokenKind::LParen => {
            lemma_expression_advances(tokens, source, pos + 1, 0);
        },
        TokenKind::Plus | TokenKind::Minus | TokenKind::Bang => {
            lemma_expression_advances(tokens, source, pos + 1, PREFIX_BINDING_POWER);
        },
        _ => {},
    }
}

/// Parsing the arguments of a call advances.
pub proof fn lemma_arguments_advance(
    tokens: Seq<Token>,
    source: Seq<u8>,
    pos: int,
    list: Seq<ExprModel>,
)
    requires
        ends_with_eof(tokens),
        0 <= pos < tokens.len(),
    ensures
        advanced(tokens, pos, arguments(tokens, source, pos, list)),
    decreases tokens.len() - pos, 3int,
{
    if tokens[pos].kind != TokenKind::RParen {
        lemma_expression_advances(tokens, source, pos, 0);
        let (argument, end) = expression(tokens, source, pos, 0);
        if argument is Ok {
            let (between, after) = separator(
                tokens,
                end,
                TokenKind::RParen,
                Production::Expression,
            );
            if between is Ok {
                lemma_arguments_advance(tokens, source, after, list.push(argument->Ok_0));
            }
        }
    }
}

/// Applying the operators behind an operand settles.
pub proof fn lemma_operators_settle(
    tokens: Seq<Token>,
    source: Seq<u8>,
    pos: int,
    binding_power: u8,
    lhs: ExprModel,
)
    requires
        ends_with_eof(tokens),
        0 <= pos < tokens.len(),
    ensures
        settled(tokens, pos, operators(tokens, source, pos, binding_power, lhs)),
    decreases tokens.len() - pos, 0int,
{
    let op = tokens[pos].kind;
    if postfix_power(op) is Some {
        if postfix_power(op)->0 >= binding_power {
            lemma_operators_settle(
                tokens,
                source,
                pos + 1,
                binding_power,
                ExprModel::PostfixOp { op, expr: Box::new(lhs) },
            );
        }
    } else if infix_power(op) is Some {
        let (left, right) = infix_power(op)->0;
        if left >= binding_power {
            lemma_expression_advances(tokens, source, pos + 1, right);
            let (operand, end) = expression(tokens, source, pos + 1, right);
            if operand is Ok {
                lemma_operators_settle(
                    tokens,
                    source,
                    end,
                    binding_power,
                    ExprModel::InfixOp { op, lhs: Box::new(lhs), rhs: Box::new(operand->Ok_0) },
                );
            }
        }
    }
}

/// Parsing an expression advances.
pub proof fn lemma_expression_advances(
    tokens: Seq<Token>,
    source: Seq<u8>,
    pos: int,
    binding_power: u8,
)
    requires
        ends_with_eof(tokens),
        0 <= pos < tokens.len(),
    ensures
        advanced(tokens, pos, expression(tokens, source, pos, binding_power)),
    decreases tokens.len() - pos, 2int,
{
    lemma_atom_advances(tokens, source, pos);
    let (first, next) = atom(tokens, source, pos);
    if first is Ok {
        lemma_operators_settle(tokens, source, next, binding_power, first->Ok_0);
    }
}

/// Parsing a type advances.
pub proof fn lemma_type_advances(tokens: Seq<Token>, source: Seq<u8>, pos: int)
    requires
        ends_with_eof(tokens),
        0 <= pos < tokens.len(),
    ensures
        advanced(tokens, pos, type_at(tokens, source, pos)),
    decreases tokens.len() - pos, 0int,
{
    if tokens[pos].kind == TokenKind::Identifier && tokens[pos + 1].kind == TokenKind::LAngle {
        lemma_generics_advance(tokens, source, pos + 2, Seq::empty());
    }
}

/// Parsing generic arguments advances.
pub proof fn lemma_generics_advance(
    tokens: Seq<Token>,
    source: Seq<u8>,
    pos: int,
    list: Seq<TypeModel>,
)
    requires
        ends_with_eof(tokens),
        0 <= pos < tokens.len(),
    ensures
        advanced(tokens, pos, generics(tokens, source, pos, list)),
    decreases tokens.len() - pos, 1int,
{
    if tokens[pos].kind != TokenKind::RAngle {
        lemma_type_advances(tokens, source, pos);
        let (argument, end) = type_at(tokens, source, pos);
        if argument is Ok {
            let (between, after) = separator(tokens, end, TokenKind::RAngle, Production::Type);
            if between is Ok {
                lemma_generics_advance(tokens, source, after, list.push(argument->Ok_0));
            }
        }
    }
}

/// Parsing named types advances.
pub proof fn lemma_fields_advance(
    tokens: Seq<Token>,
    source: Seq<u8>,
    pos: int,
    closer: TokenKind,
    list: Seq<(Seq<char>, TypeModel)>,
)
    requires
        ends_with_eof(tokens),
        0 <= pos < tokens.len(),
        closer != TokenKind::Eof,
    ensures
        advanced(tokens, pos, fields(tokens, source, pos, closer, list)),
    decreases tokens.len() - pos,
{
    if tokens[pos].kind != closer && tokens[pos].kind == TokenKind::Identifier && tokens[pos
        + 1].kind == TokenKind::Colon {
        lemma_type_advances(tokens, source, pos + 2);
        let (field, end) = type_at(tokens, source, pos + 2);
        if field is Ok {
            let (between, after) = separator(tokens, end, closer, Production::Item);
            if between is Ok {
                lemma_fields_advance(
                    tokens,
                    source,
                    after,
                    closer,
                    list.push((super::text_of(source, tokens[pos]), field->Ok_0)),
                );
            }
        }
    }
}

/// Parsing what a `let` or an assignment binds advances.
pub proof fn lemma_binding_advances(tokens: Seq<Token>, source: Seq<u8>, pos: int)
    requires
        ends_with_eof(tokens),
        0 <= pos < tokens.len(),
    ensures
        advanced(tokens, pos, binding(tokens, source, pos)),
{
    if tokens[pos].kind == TokenKind::Eq {
        lemma_expression_advances(tokens, source, pos + 1, 0);
    }
}

/// Parsing the condition of an `if` advances.
pub proof fn lemma_condition_advances(tokens: Seq<Token>, source: Seq<u8>, pos: int)
    requires
        ends_with_eof(tokens),
        0 <= pos < tokens.len(),
    ensures
        advanced(tokens, pos, condition(tokens, source, pos)),
{
    if tokens[pos].kind == TokenKind::LParen {
        lemma_expression_advances(tokens, source, pos + 1, 0);
    }
}

/// Parsing a statement advances.
pub proof fn lemma_statement_advances(tokens: Seq<Token>, source: Seq<u8>, pos: int)
    requires
        ends_with_eof(tokens),
        0 <= pos < tokens.len(),
    ensures
        advanced(tokens, pos, statement(tokens, source, pos)),
    decreases tokens.len() - pos, 0int,
{
    match tokens[pos].kind {
        TokenKind::KeywordLet => {
            if tokens[pos + 1].kind == TokenKind::Identifier {
                lemma_binding_advances(tokens, source, pos + 2);
            }
        },
        TokenKind::Identifier => {
            lemma_binding_advances(tokens, source, pos + 1);
        },
        TokenKind::KeywordIf => {
            lemma_condition_advances(tokens, source, pos + 1);
            let (test, open) = condition(tokens, source, pos + 1);
            if test is Ok && tokens[open].kind == TokenKind::LBrace {
                lemma_block_advances(tokens, source, open + 1, Seq::empty());
                let (stmts, end) = block(tokens, source, open + 1, Seq::empty());
                if stmts is Ok && tokens[end].kind == TokenKind::KeywordElse {
                    if tokens[end + 1].kind == TokenKind::KeywordIf || tokens[end + 1].kind
                        == TokenKind::LBrace {
                        lemma_statement_advances(tokens, source, end + 1);
                    }
                }
            }
        },
        TokenKind::LBrace => {
            lemma_block_advances(tokens, source, pos + 1, Seq::empty());
        },
        _ => {},
    }
}

/// Parsing the statements of a block advances.
pub proof fn lemma_block_advances(
    tokens: Seq<Token>,
    source: Seq<u8>,
    pos: int,
    list: Seq<StmtModel>,
)
    requires
        ends_with_eof(tokens),
        0 <= pos < tokens.len(),
    ensures
        advanced(tokens, pos, block(tokens, source, pos, list)),
    decreases tokens.len() - pos, 1int,
{
    if tokens[pos].kind != TokenKind::RBrace {
        lemma_statement_advances(tokens, source, pos);
        let (stmt, end) = statement(tokens, source, pos);
        if stmt is Ok {
            lemma_block_advances(tokens, source, end, list.push(stmt->Ok_0));
        }
    }
}

/// Parsing an item advances.
pub proof fn lemma_item_advances(tokens: Seq<Token>, source: Seq<u8>, pos: int)
    requires
        ends_with_eof(tokens),
        0 <= pos < tokens.len(),
    ensures
        advanced(tokens, pos, item(tokens, source, pos)),
{
    match tokens[pos].kind {
        TokenKind::KeywordFn => {
            if tokens[pos + 1].kind == TokenKind::Identifier && tokens[pos + 2].kind
                == TokenKind::LParen {
                lemma_fields_advance(tokens, source, pos + 3, TokenKind::RParen, Seq::empty());
                let (parameters, brace) = fields(
                    tokens,
                    source,
                    pos + 3,
                    TokenKind::RParen,
                    Seq::empty(),
                );
                if parameters is Ok && tokens[brace].kind == TokenKind::LBrace {
                    lemma_block_advances(tokens, source, brace + 1, Seq::empty());
                }
            }
        },
        TokenKind::KeywordStruct => {
            lemma_type_advances(tokens, source, pos + 1);
            let (name, open) = type_at(tokens, source, pos + 1);
            if name is Ok && tokens[open].kind == TokenKind::LBrace {
                lemma_fields_advance(tokens, source, open + 1, TokenKind::RBrace, Seq::empty());
            }
        },
        _ => {},
    }
}

/// Parsing a file settles, and where it succeeds the cursor stands on the
/// `Eof`: a file is parsed to its end or not at all.
pub proof fn lemma_items_settle(
    tokens: Seq<Token>,
    source: Seq<u8>,
    pos: int,
    list: Seq<ItemModel>,
)
    requires
        ends_with_eof(tokens),
        0 <= pos < tokens.len(),
    ensures
        settled(tokens, pos, items(tokens, source, pos, list)),
        items(tokens, source, pos, list).0 is Ok ==> tokens[items(
            tokens,
            source,
            pos,
            list,
        ).1].kind == TokenKind::Eof,
    decreases tokens.len() - pos,
{
    if tokens[pos].kind != TokenKind::Eof {
        lemma_item_advances(tokens, source, pos);
        let (one, end) = item(tokens, source, pos);
        if one is Ok {
            lemma_items_settle(tokens, source, end, list.push(one->Ok_0));
        }
    }
}

/// The tokenizer and the parser agree on literals and names: in the tokens of
/// a well-formed text, an `Int` is a non-empty run of digits, so that only
/// its size can keep it from having a value; a `String` has a quote at each
/// end, so that it always has a content; and an `Identifier` is a letter
/// followed by letters, digits and underscores.
pub proof fn lemma_literal_tokens(s: Seq<u8>, k: int)
    requires
        valid_utf8(s),
        s.len() <= u32::MAX,
        0 <= k < tokens_of(s).len(),
    ensures
        tokens_of(s)[k].kind == TokenKind::Int ==> {
            let text = tokens_of(s)[k].span.of(s);
            &&& text.len() > 0
            &&& all_digits(text)
            &&& (int_value(text) is None <==> decimal_value(text) > u64::MAX)
        },
        tokens_of(s)[k].kind == TokenKind::String ==> {
            let text = tokens_of(s)[k].span.of(s);
            &&& string_content(text) is Some
            &&& text.first() == QUOTE
            &&& text.last() == QUOTE
        },
        tokens_of(s)[k].kind == TokenKind::Identifier ==> {
            let text = tokens_of(s)[k].span.of(s);
            &&& text.len() > 0
            &&& is_letter(text[0])
            &&& forall|i: int| 0 < i < text.len() ==> is_word(#[trigger] text[i])
        },
{
    let token = tokens_of(s)[k];
    let start = token.span.start as int;
    let end = token.span.end as int;
    let text = token.span.of(s);
    lemma_tokens_follow_rules(s);
    lemma_tokens_fit(s);
    assert(follows_rules(s, token));
    assert(token.span.fits(s));
    if token.kind == TokenKind::Int || token.kind == TokenKind::String || token.kind
        == TokenKind::Identifier {
        let rest = s.skip(start);
        let rule = winner(rule_table(), rest, 0)->0;
        assert(is_winner(rule_table(), rest, 0, rule));
        lemma_table_matchers(rule);
        assert(text =~= rest.subrange(0, end - start));
        if token.kind == TokenKind::Int {
            assert forall|i: int| 0 <= i < text.len() implies is_digit(#[trigger] text[i]) by {
                lemma_digits_are_digits(rest, 0, i);
            }
        } else if token.kind == TokenKind::Identifier {
            assert forall|i: int| 0 < i < text.len() implies is_word(#[trigger] text[i]) by {
                lemma_words_are_words(rest, 1, i);
            }
        } else {
            lemma_string_tail_len_bound(rest, 1);
            lemma_boundary_in_prefix(s, start, end);
            valid_utf8_split(s.subrange(0, end), start);
            assert(s.subrange(0, end).subrange(start, end) =~= text);
            lemma_boundary_after_ascii(text, 0);
            is_char_boundary_iff_not_is_continuation_byte(text, text.len() - 1);
        }
    }
}

/// Every infix operator but `^` binds tighter to its right than to its
/// left, and so groups to the left; `^` groups to the right. Every prefix
/// operator binds tighter than every infix operator, and the postfix
/// operator binds tighter than every prefix operator.
pub proof fn lemma_binding_powers(op: TokenKind)
    ensures
        infix_power(op) is Some ==> {
            let (left, right) = infix_power(op)->0;
            &&& (left < right <==> op != TokenKind::Pow)
            &&& (left > right <==> op == TokenKind::Pow)
            &&& 0 < left < PREFIX_BINDING_POWER
            &&& 0 < right < PREFIX_BINDING_POWER
        },
        postfix_power(op) is Some ==> postfix_power(op)->0 > PREFIX_BINDING_POWER,
{
}

/// Whether a token of this kind only groups or separates: a parenthesis or
/// a comma.
pub open spec fn groups(kind: TokenKind) -> bool {
    kind == TokenKind::LParen || kind == TokenKind::RParen || kind == TokenKind::Comma
}

/// The kinds of the tokens from `lo` up to `hi`, without those that only
/// group or separate.
pub open spec fn plain(tokens: Seq<Token>, lo: int, hi: int) -> Seq<TokenKind>
    decreases hi - lo,
{
    if lo >= hi {
        Seq::empty()
    } else if groups(tokens[hi - 1].kind) {
        plain(tokens, lo, hi - 1)
    } else {
        plain(tokens, lo, hi - 1).push(tokens[hi - 1].kind)
    }
}

impl ExprModel {
    /// The kinds of the tokens of which the expression is made, from left to
    /// right: one for each literal and each name, one for each operator.
    pub open spec fn fringe(self) -> Seq<TokenKind>
        decreases self, 0nat,
    {
        match self {
            ExprModel::Literal(super::ast::LitModel::Int(_)) => seq![TokenKind::Int],
            ExprModel::Literal(super::ast::LitModel::Float(_)) => seq![TokenKind::Float],
            ExprModel::Literal(super::ast::LitModel::Str(_)) => seq![TokenKind::String],
            ExprModel::Ident(_) => seq![TokenKind::Identifier],
            ExprModel::FnCall { fn_name, args } => seq![TokenKind::Identifier] + Self::fringes(
                args,
                args.len(),
            ),
            ExprModel::PrefixOp { op, expr } => seq![op] + expr.fringe(),
            ExprModel::InfixOp { op, lhs, rhs } => lhs.fringe() + seq![op] + rhs.fringe(),
            ExprModel::PostfixOp { op, expr } => expr.fringe() + seq![op],
        }
    }

    /// The fringes of the first `n` expressions of a list, one after the
    /// other.
    pub open spec fn fringes(list: Seq<ExprModel>, n: nat) -> Seq<TokenKind>
        decreases list, n,
    {
        if n == 0 || n > list.len() {
            Seq::empty()
        } else {
            Self::fringes(list, (n - 1) as nat) + list[n - 1].fringe()
        }
    }
}

/// The plain kinds of a range are those of its two parts, one after the
/// other.
pub proof fn lemma_plain_split(tokens: Seq<Token>, lo: int, mid: int, hi: int)
    requires
        lo <= mid <= hi,
    ensures
        plain(tokens, lo, hi) == plain(tokens, lo, mid) + plain(tokens, mid, hi),
    decreases hi - mid,
{
    if mid < hi {
        lemma_plain_split(tokens, lo, mid, hi - 1);
        if groups(tokens[hi - 1].kind) {
        } else {
            assert(plain(tokens, lo, hi) =~= plain(tokens, lo, mid) + plain(tokens, mid, hi));
        }
    } else {
        assert(plain(tokens, lo, hi) =~= plain(tokens, lo, mid) + plain(tokens, mid, hi));
    }
}

/// The fringes of the first expressions of a list do not depend on what
/// follows them.
pub proof fn lemma_fringes_push(list: Seq<ExprModel>, last: ExprModel, n: nat)
    requires
        n <= list.len(),
    ensures
        ExprModel::fringes(list.push(last), n) == ExprModel::fringes(list, n),
    decreases n,
{
    if n > 0 {
        lemma_fringes_push(list, last, (n - 1) as nat);
        assert(list.push(last)[n - 1] == list[n - 1]);
    }
}

/// The tree keeps the tokens in their order: the fringe of an atom is the
/// plain kinds of the tokens that it was parsed from.
pub proof fn lemma_atom_fringe(tokens: Seq<Token>, source: Seq<u8>, pos: int)
    requires
        ends_with_eof(tokens),
        0 <= pos < tokens.len(),
        atom(tokens, source, pos).0 is Ok,
    ensures
        atom(tokens, source, pos).0->Ok_0.fringe() == plain(
            tokens,
            pos,
            atom(tokens, source, pos).1,
        ),
    decreases tokens.len() - pos, 1int,
{
    let token = tokens[pos];
    let (result, end) = atom(tokens, source, pos);
    let tree = result->Ok_0;
    lemma_atom_advances(tokens, source, pos);
    assert(plain(tokens, pos, pos + 1) =~= if groups(token.kind) {
        Seq::empty()
    } else {
        seq![token.kind]
    }) by {
        assert(plain(tokens, pos, pos) =~= Seq::<TokenKind>::empty());
    }
    match token.kind {
        TokenKind::Identifier => {
            if tokens[pos + 1].kind == TokenKind::LParen {
                lemma_arguments_advance(tokens, source, pos + 2, Seq::empty());
                lemma_arguments_fringe(tokens, source, pos + 2, Seq::empty());
                lemma_plain_split(tokens, pos, pos + 1, pos + 2);
                lemma_plain_split(tokens, pos, pos + 2, end);
                assert(plain(tokens, pos + 1, pos + 2) =~= Seq::<TokenKind>::empty()) by {
                    assert(plain(tokens, pos + 1, pos + 1) =~= Seq::<TokenKind>::empty());
                }
                assert(tree.fringe() =~= plain(tokens, pos, end));
            }
        },
        TokenKind::LParen => {
            lemma_expression_advances(tokens, source, pos + 1, 0);
            lemma_expression_fringe(tokens, source, pos + 1, 0);
            let inner = expression(tokens, source, pos + 1, 0).1;
            lemma_plain_split(tokens, pos, pos + 1, end);
            lemma_plain_split(tokens, pos + 1, inner, end);
            assert(plain(tokens, inner, end) =~= Seq::<TokenKind>::empty()) by {
                assert(plain(tokens, inner, inner) =~= Seq::<TokenKind>::empty());
            }
            assert(tree.fringe() =~= plain(tokens, pos, end));
        },
        TokenKind::Plus | TokenKind::Minus | TokenKind::Bang => {
            lemma_expression_advances(tokens, source, pos + 1, PREFIX_BINDING_POWER);
            lemma_expression_fringe(tokens, source, pos + 1, PREFIX_BINDING_POWER);
            lemma_plain_split(tokens, pos, pos + 1, end);
            assert(tree.fringe() =~= plain(tokens, pos, end));
        },
        _ => {},
    }
}

/// The fringes of the arguments of a call are the plain kinds of the tokens
/// that they were parsed from.
pub proof fn lemma_arguments_fringe(
    tokens: Seq<Token>,
    source: Seq<u8>,
    pos: int,
    list: Seq<ExprModel>,
)
    requires
        ends_with_eof(tokens),
        0 <= pos < tokens.len(),
        arguments(tokens, source, pos, list).0 is Ok,
    ensures
        ({
            let all = arguments(tokens, source, pos, list).0->Ok_0;
            ExprModel::fringes(all, all.len()) == ExprModel::fringes(list, list.len()) + plain(
                tokens,
                pos,
                arguments(tokens, source, pos, list).1,
            )
        }),
    decreases tokens.len() - pos, 3int,
{
    let (result, end) = arguments(tokens, source, pos, list);
    let all = result->Ok_0;
    if tokens[pos].kind == TokenKind::RParen {
        assert(plain(tokens, pos, pos + 1) =~= Seq::<TokenKind>::empty()) by {
            assert(plain(tokens, pos, pos) =~= Seq::<TokenKind>::empty());
        }
        assert(ExprModel::fringes(all, all.len()) =~= ExprModel::fringes(list, list.len())
            + plain(tokens, pos, end));
    } else {
        lemma_expression_advances(tokens, source, pos, 0);
        lemma_expression_fringe(tokens, source, pos, 0);
        let (argument, behind) = expression(tokens, source, pos, 0);
        let expr = argument->Ok_0;
        let after = if tokens[behind].kind == TokenKind::Comma {
            behind + 1
        } else {
            behind
        };
        lemma_arguments_advance(tokens, source, after, list.push(expr));
        lemma_arguments_fringe(tokens, source, after, list.push(expr));
        lemma_fringes_push(list, expr, list.len());
        assert(plain(tokens, behind, after) =~= Seq::<TokenKind>::empty()) by {
            assert(plain(tokens, behind, behind) =~= Seq::<TokenKind>::empty());
        }
        lemma_plain_split(tokens, pos, behind, after);
        lemma_plain_split(tokens, pos, after, end);
        assert(ExprModel::fringes(all, all.len()) =~= ExprModel::fringes(list, list.len())
            + plain(tokens, pos, end));
    }
}

/// The fringe of an operand with the operators behind it is the fringe of
/// the operand and then the plain kinds of the tokens that follow it.
pub proof fn lemma_operators_fringe(
    tokens: Seq<Token>,
    source: Seq<u8>,
    pos: int,
    binding_power: u8,
    lhs: ExprModel,
)
    requires
        ends_with_eof(tokens),
        0 <= pos < tokens.len(),
        operators(tokens, source, pos, binding_power, lhs).0 is Ok,
    ensures
        operators(tokens, source, pos, binding_power, lhs).0->Ok_0.fringe() == lhs.fringe()
            + plain(tokens, pos, operators(tokens, source, pos, binding_power, lhs).1),
    decreases tokens.len() - pos, 0int,
{
    let (result, end) = operators(tokens, source, pos, binding_power, lhs);
    let tree = result->Ok_0;
    let op = tokens[pos].kind;
    assert(plain(tokens, pos, pos) =~= Seq::<TokenKind>::empty());
    if ends_expression(op) || (postfix_power(op) is Some && postfix_power(op)->0 < binding_power)
        || (postfix_power(op) is None && (infix_power(op)->0).0 < binding_power) {
        assert(tree.fringe() =~= lhs.fringe() + plain(tokens, pos, end));
    } else if postfix_power(op) is Some {
        let next = ExprModel::PostfixOp { op, expr: Box::new(lhs) };
        lemma_operators_settle(tokens, source, pos + 1, binding_power, next);
        lemma_operators_fringe(tokens, source, pos + 1, binding_power, next);
        lemma_plain_split(tokens, pos, pos + 1, end);
        assert(tree.fringe() =~= lhs.fringe() + plain(tokens, pos, end));
    } else {
        let (left, right) = infix_power(op)->0;
        lemma_expression_advances(tokens, source, pos + 1, right);
        lemma_expression_fringe(tokens, source, pos + 1, right);
        let (operand, behind) = expression(tokens, source, pos + 1, right);
        let next = ExprModel::InfixOp { op, lhs: Box::new(lhs), rhs: Box::new(operand->Ok_0) };
        lemma_operators_settle(tokens, source, behind, binding_power, next);
        lemma_operators_fringe(tokens, source, behind, binding_power, next);
        lemma_plain_split(tokens, pos, pos + 1, behind);
        lemma_plain_split(tokens, pos, behind, end);
        assert(tree.fringe() =~= lhs.fringe() + plain(tokens, pos, end));
    }
}

/// The tree keeps the tokens in their order: the fringe of an expression is
/// the plain kinds of the tokens that it was parsed from. Nothing of the
/// text is left out of the tree, put into it twice, or moved.
pub proof fn lemma_expression_fringe(
    tokens: Seq<Token>,
    source: Seq<u8>,
    pos: int,
    binding_power: u8,
)
    requires
        ends_with_eof(tokens),
        0 <= pos < tokens.len(),
        expression(tokens, source, pos, binding_power).0 is Ok,
    ensures
        expression(tokens, source, pos, binding_power).0->Ok_0.fringe() == plain(
            tokens,
            pos,
            expression(tokens, source, pos, binding_power).1,
        ),
    decreases tokens.len() - pos, 2int,
{
    lemma_atom_advances(tokens, source, pos);
    lemma_atom_fringe(tokens, source, pos);
    let (first, next) = atom(tokens, source, pos);
    let end = expression(tokens, source, pos, binding_power).1;
    lemma_operators_settle(tokens, source, next, binding_power, first->Ok_0);
    lemma_operators_fringe(tokens, source, next, binding_power, first->Ok_0);
    lemma_plain_split(tokens, pos, next, end);
}


} // verus!
