//! Types that are written out parse to themselves.
use super::ast::TypeModel;
use super::hierarchy::{generics, type_at};
use super::laws::{ends_with_eof, lemma_type_advances};
use super::text_of;
use crate::lexer::{Token, TokenKind};
use vstd::prelude::*;

verus! {

/// Where the tokens from `pos` on write out the type `ty`, the index behind
/// them: the type is written as its name and, if it has generic arguments,
/// `<`, the arguments with a comma between them, and `>`. A name without
/// arguments is not followed by `<`.
pub open spec fn written(tokens: Seq<Token>, source: Seq<u8>, pos: int, ty: TypeModel) -> Option<
    int,
>
    decreases ty, 0nat,
{
    if 0 <= pos && pos + 1 < tokens.len() && tokens[pos].kind == TokenKind::Identifier && text_of(
        source,
        tokens[pos],
    ) == ty.name {
        if ty.generics.len() == 0 {
            if tokens[pos + 1].kind != TokenKind::LAngle {
                Some(pos + 1)
            } else {
                None
            }
        } else if tokens[pos + 1].kind == TokenKind::LAngle {
            written_list(tokens, source, pos + 2, ty.generics, 0)
        } else {
            None
        }
    } else {
        None
    }
}

/// Where the tokens from `pos` on write out the types of `list` from index
/// `from` on, with a comma between them and `>` behind the last, the index
/// behind them.
pub open spec fn written_list(
    tokens: Seq<Token>,
    source: Seq<u8>,
    pos: int,
    list: Seq<TypeModel>,
    from: nat,
) -> Option<int>
    decreases list, list.len() - from,
{
    if from >= list.len() {
        None
    } else {
        match written(tokens, source, pos, list[from as int]) {
            Some(end) => if !(0 <= end < tokens.len()) {
                None
            } else if from + 1 == list.len() {
                if tokens[end].kind == TokenKind::RAngle {
                    Some(end + 1)
                } else {
                    None
                }
            } else if tokens[end].kind == TokenKind::Comma {
                written_list(tokens, source, end + 1, list, from + 1)
            } else {
                None
            },
            None => None,
        }
    }
}

/// Round trip: a type that is written out in the tokens parses to itself,
/// nested generic arguments and all, and the parse ends behind what was
/// written.
pub proof fn lemma_written_type_parses(
    tokens: Seq<Token>,
    source: Seq<u8>,
    pos: int,
    ty: TypeModel,
)
    requires
        ends_with_eof(tokens),
        written(tokens, source, pos, ty) is Some,
    ensures
        type_at(tokens, source, pos) == (
            Ok::<TypeModel, super::ParseError>(ty),
            written(tokens, source, pos, ty)->0,
        ),
    decreases ty, 0nat,
{
    if ty.generics.len() == 0 {
        assert(ty.generics =~= Seq::<TypeModel>::empty());
    } else {
        lemma_written_list_parses(tokens, source, pos + 2, ty.generics, 0);
        assert(ty.generics.take(0) =~= Seq::<TypeModel>::empty());
    }
}

/// Round trip: generic arguments that are written out in the tokens parse to
/// themselves.
pub proof fn lemma_written_list_parses(
    tokens: Seq<Token>,
    source: Seq<u8>,
    pos: int,
    list: Seq<TypeModel>,
    from: nat,
)
    requires
        ends_with_eof(tokens),
        written_list(tokens, source, pos, list, from) is Some,
    ensures
        generics(tokens, source, pos, list.take(from as int)) == (
            Ok::<Seq<TypeModel>, super::ParseError>(list),
            written_list(tokens, source, pos, list, from)->0,
        ),
    decreases list, list.len() - from,
{
    let element = list[from as int];
    lemma_written_type_parses(tokens, source, pos, element);
    lemma_type_advances(tokens, source, pos);
    let end = written(tokens, source, pos, element)->0;
    assert(list.take(from as int).push(element) =~= list.take(from as int + 1));
    let so_far = list.take(from as int + 1);
    if from + 1 == list.len() {
        assert(so_far =~= list);
        assert(generics(tokens, source, end, so_far) == (
            Ok::<Seq<TypeModel>, super::ParseError>(so_far),
            end + 1,
        ));
    } else {
        lemma_written_list_parses(tokens, source, end + 1, list, from + 1);
    }
    assert(type_at(tokens, source, pos) == (Ok::<TypeModel, super::ParseError>(element), end));
    assert(pos < end < tokens.len());
}

} // verus!
