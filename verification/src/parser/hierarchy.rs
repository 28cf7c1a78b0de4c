//! Statements, types and items, by recursive descent.
use super::ast::{
    field_models, item_models, lemma_block_model, lemma_if_model, lemma_type_model, stmt_models,
    type_models, Expr, ExprModel, Item, ItemModel, Stmt, StmtModel, Type, TypeModel,
};
use super::expressions::expression;
use super::{
    expect, separator, stop, text_of, Expected, ParseError, Parser, Production, Step,
};
use crate::lexer::{Token, TokenKind};
use vstd::prelude::*;

verus! {

/// The type at token `pos`: an identifier, and behind it, if there is a `<`,
/// its generic arguments.
pub open spec fn type_at(tokens: Seq<Token>, source: Seq<u8>, pos: int) -> Step<TypeModel>
    decreases tokens.len() - pos, 0int,
{
    if !(0 <= pos < tokens.len()) {
        stop(tokens, pos, Production::Type, Expected::Start)
    } else {
        match expect(tokens, pos, TokenKind::Identifier, Production::Type) {
            (Ok(ident), next) => if next < tokens.len() && tokens[next].kind
                == TokenKind::LAngle {
                let (list, end) = generics(tokens, source, next + 1, Seq::empty());
                match list {
                    Ok(arguments) => (
                        Ok(TypeModel { name: text_of(source, ident), generics: arguments }),
                        end,
                    ),
                    Err(error) => (Err(error), end),
                }
            } else {
                (Ok(TypeModel { name: text_of(source, ident), generics: Seq::empty() }), next)
            },
            (Err(error), at) => (Err(error), at),
        }
    }
}

/// The generic arguments from token `pos` on, after those in `list`: types
/// with a comma between them, and with or without one behind the last, up to
/// the closing `>`.
pub open spec fn generics(
    tokens: Seq<Token>,
    source: Seq<u8>,
    pos: int,
    list: Seq<TypeModel>,
) -> Step<Seq<TypeModel>>
    decreases tokens.len() - pos, 1int,
{
    if !(0 <= pos < tokens.len()) {
        stop(tokens, pos, Production::Type, Expected::Start)
    } else if tokens[pos].kind == TokenKind::RAngle {
        (Ok(list), pos + 1)
    } else {
        let (argument, end) = type_at(tokens, source, pos);
        match argument {
            Ok(ty) => if pos < end < tokens.len() {
                match separator(tokens, end, TokenKind::RAngle, Production::Type) {
                    (Ok(_), after) => generics(tokens, source, after, list.push(ty)),
                    (Err(error), at) => (Err(error), at),
                }
            } else {
                stop(tokens, pos, Production::Type, Expected::Start)
            },
            Err(error) => (Err(error), end),
        }
    }
}

/// The named types from token `pos` on, after those in `list`: `name: type`
/// with a comma between them, and with or without one behind the last, up to
/// the token of kind `closer`.
pub open spec fn fields(
    tokens: Seq<Token>,
    source: Seq<u8>,
    pos: int,
    closer: TokenKind,
    list: Seq<(Seq<char>, TypeModel)>,
) -> Step<Seq<(Seq<char>, TypeModel)>>
    decreases tokens.len() - pos,
{
    if !(0 <= pos < tokens.len()) {
        stop(tokens, pos, Production::Item, Expected::Start)
    } else if tokens[pos].kind == closer {
        (Ok(list), pos + 1)
    } else {
        match expect(tokens, pos, TokenKind::Identifier, Production::Item) {
            (Ok(ident), colon) => match expect(
                tokens,
                colon,
                TokenKind::Colon,
                Production::Item,
            ) {
                (Ok(_), start) => {
                    let (field, end) = type_at(tokens, source, start);
                    match field {
                        Ok(ty) => if pos < end < tokens.len() {
                            match separator(tokens, end, closer, Production::Item) {
                                (Ok(_), after) => fields(
                                    tokens,
                                    source,
                                    after,
                                    closer,
                                    list.push((text_of(source, ident), ty)),
                                ),
                                (Err(error), at) => (Err(error), at),
                            }
                        } else {
                            stop(tokens, pos, Production::Item, Expected::Start)
                        },
                        Err(error) => (Err(error), end),
                    }
                },
                (Err(error), at) => (Err(error), at),
            },
            (Err(error), at) => (Err(error), at),
        }
    }
}

/// The value that a `let` or an assignment binds, from token `pos` on: `=`,
/// an expression, and `;`.
pub open spec fn binding(tokens: Seq<Token>, source: Seq<u8>, pos: int) -> Step<ExprModel> {
    match expect(tokens, pos, TokenKind::Eq, Production::Statement) {
        (Ok(_), start) => {
            let (value, end) = expression(tokens, source, start, 0);
            match value {
                Ok(expr) => match expect(
                    tokens,
                    end,
                    TokenKind::SemiColon,
                    Production::Statement,
                ) {
                    (Ok(_), after) => (Ok(expr), after),
                    (Err(error), at) => (Err(error), at),
                },
                Err(error) => (Err(error), end),
            }
        },
        (Err(error), at) => (Err(error), at),
    }
}

/// The statement at token `pos`: a `let`, an assignment, an `if` with its
/// optional `else`, or a block.
pub open spec fn statement(tokens: Seq<Token>, source: Seq<u8>, pos: int) -> Step<StmtModel>
    decreases tokens.len() - pos, 0int,
{
    if !(0 <= pos < tokens.len()) {
        stop(tokens, pos, Production::Statement, Expected::Start)
    } else {
        match tokens[pos].kind {
            TokenKind::KeywordLet => match expect(
                tokens,
                pos + 1,
                TokenKind::Identifier,
                Production::Statement,
            ) {
                (Ok(ident), next) => match binding(tokens, source, next) {
                    (Ok(value), end) => (
                        Ok(StmtModel::Let { var_name: text_of(source, ident), value }),
                        end,
                    ),
                    (Err(error), at) => (Err(error), at),
                },
                (Err(error), at) => (Err(error), at),
            },
            TokenKind::Identifier => match binding(tokens, source, pos + 1) {
                (Ok(value), end) => (
                    Ok(StmtModel::Assignment { var_name: text_of(source, tokens[pos]), value }),
                    end,
                ),
                (Err(error), at) => (Err(error), at),
            },
            TokenKind::KeywordIf => match condition(tokens, source, pos + 1) {
                (Ok(test), open) => if !(pos < open < tokens.len()) {
                    stop(tokens, pos, Production::Statement, Expected::Start)
                } else if tokens[open].kind != TokenKind::LBrace {
                    stop(tokens, open, Production::Statement, Expected::Kind(TokenKind::LBrace))
                } else {
                    match block(tokens, source, open + 1, Seq::empty()) {
                        (Ok(body), end) => if !(pos < end < tokens.len()) {
                            stop(tokens, pos, Production::Statement, Expected::Start)
                        } else if tokens[end].kind != TokenKind::KeywordElse {
                            (
                                Ok(StmtModel::IfStmt { condition: test, body, else_stmt: None }),
                                end,
                            )
                        } else if !(end + 1 < tokens.len()) {
                            stop(tokens, pos, Production::Statement, Expected::Start)
                        } else if tokens[end + 1].kind != TokenKind::KeywordIf && tokens[end
                            + 1].kind != TokenKind::LBrace {
                            stop(
                                tokens,
                                end + 1,
                                Production::Statement,
                                Expected::Kind(TokenKind::LBrace),
                            )
                        } else {
                            match statement(tokens, source, end + 1) {
                                (Ok(other), after) => (
                                    Ok(
                                        StmtModel::IfStmt {
                                            condition: test,
                                            body,
                                            else_stmt: Some(Box::new(other)),
                                        },
                                    ),
                                    after,
                                ),
                                (Err(error), at) => (Err(error), at),
                            }
                        },
                        (Err(error), at) => (Err(error), at),
                    }
                },
                (Err(error), at) => (Err(error), at),
            },
            TokenKind::LBrace => match block(tokens, source, pos + 1, Seq::empty()) {
                (Ok(stmts), end) => (Ok(StmtModel::Block { stmts }), end),
                (Err(error), at) => (Err(error), at),
            },
            _ => stop(tokens, pos, Production::Statement, Expected::Start),
        }
    }
}

/// The condition of an `if`, from token `pos` on: an expression in
/// parentheses.
pub open spec fn condition(tokens: Seq<Token>, source: Seq<u8>, pos: int) -> Step<ExprModel> {
    match expect(tokens, pos, TokenKind::LParen, Production::Statement) {
        (Ok(_), start) => {
            let (test, end) = expression(tokens, source, start, 0);
            match test {
                Ok(expr) => match expect(tokens, end, TokenKind::RParen, Production::Statement) {
                    (Ok(_), after) => (Ok(expr), after),
                    (Err(error), at) => (Err(error), at),
                },
                Err(error) => (Err(error), end),
            }
        },
        (Err(error), at) => (Err(error), at),
    }
}

/// The statements of a block from token `pos` on, after those in `list`, up
/// to the closing `}`.
pub open spec fn block(
    tokens: Seq<Token>,
    source: Seq<u8>,
    pos: int,
    list: Seq<StmtModel>,
) -> Step<Seq<StmtModel>>
    decreases tokens.len() - pos, 1int,
{
    if !(0 <= pos < tokens.len()) {
        stop(tokens, pos, Production::Statement, Expected::Start)
    } else if tokens[pos].kind == TokenKind::RBrace {
        (Ok(list), pos + 1)
    } else {
        match statement(tokens, source, pos) {
            (Ok(stmt), end) => if pos < end < tokens.len() {
                block(tokens, source, end, list.push(stmt))
            } else {
                stop(tokens, pos, Production::Statement, Expected::Start)
            },
            (Err(error), at) => (Err(error), at),
        }
    }
}

/// The body of a function from token `pos` on: a block.
pub open spec fn body(tokens: Seq<Token>, source: Seq<u8>, pos: int) -> Step<Seq<StmtModel>> {
    if tokens[pos].kind != TokenKind::LBrace {
        stop(tokens, pos, Production::Item, Expected::Kind(TokenKind::LBrace))
    } else {
        block(tokens, source, pos + 1, Seq::empty())
    }
}

/// The item at token `pos`: a function or a struct.
pub open spec fn item(tokens: Seq<Token>, source: Seq<u8>, pos: int) -> Step<ItemModel> {
    match tokens[pos].kind {
        TokenKind::KeywordFn => match expect(
            tokens,
            pos + 1,
            TokenKind::Identifier,
            Production::Item,
        ) {
            (Ok(ident), open) => match expect(tokens, open, TokenKind::LParen, Production::Item) {
                (Ok(_), start) => match fields(
                    tokens,
                    source,
                    start,
                    TokenKind::RParen,
                    Seq::empty(),
                ) {
                    (Ok(parameters), brace) => match body(tokens, source, brace) {
                        (Ok(stmts), end) => (
                            Ok(
                                ItemModel::Function {
                                    name: text_of(source, ident),
                                    parameters,
                                    body: stmts,
                                },
                            ),
                            end,
                        ),
                        (Err(error), at) => (Err(error), at),
                    },
                    (Err(error), at) => (Err(error), at),
                },
                (Err(error), at) => (Err(error), at),
            },
            (Err(error), at) => (Err(error), at),
        },
        TokenKind::KeywordStruct => match type_at(tokens, source, pos + 1) {
            (Ok(name), open) => match expect(tokens, open, TokenKind::LBrace, Production::Item) {
                (Ok(_), start) => match fields(
                    tokens,
                    source,
                    start,
                    TokenKind::RBrace,
                    Seq::empty(),
                ) {
                    (Ok(members), end) => (Ok(ItemModel::Struct { name, members }), end),
                    (Err(error), at) => (Err(error), at),
                },
                (Err(error), at) => (Err(error), at),
            },
            (Err(error), at) => (Err(error), at),
        },
        _ => stop(tokens, pos, Production::Item, Expected::Start),
    }
}

/// The items from token `pos` on, after those in `list`, up to the end of
/// the file.
pub open spec fn items(
    tokens: Seq<Token>,
    source: Seq<u8>,
    pos: int,
    list: Seq<ItemModel>,
) -> Step<Seq<ItemModel>>
    decreases tokens.len() - pos,
{
    if !(0 <= pos < tokens.len()) {
        stop(tokens, pos, Production::Item, Expected::Start)
    } else if tokens[pos].kind == TokenKind::Eof {
        (Ok(list), pos)
    } else {
        match item(tokens, source, pos) {
            (Ok(one), end) => if pos < end < tokens.len() {
                items(tokens, source, end, list.push(one))
            } else {
                stop(tokens, pos, Production::Item, Expected::Start)
            },
            (Err(error), at) => (Err(error), at),
        }
    }
}

/// What the outcome of parsing a type stands for.
pub open spec fn type_outcome(result: Result<Type, ParseError>) -> Result<TypeModel, ParseError> {
    match result {
        Ok(ty) => Ok(ty@),
        Err(error) => Err(error),
    }
}

/// What the outcome of parsing a statement stands for.
pub open spec fn stmt_outcome(result: Result<Stmt, ParseError>) -> Result<StmtModel, ParseError> {
    match result {
        Ok(stmt) => Ok(stmt@),
        Err(error) => Err(error),
    }
}

/// What the outcome of parsing a list of statements stands for.
pub open spec fn stmts_outcome(result: Result<Vec<Stmt>, ParseError>) -> Result<
    Seq<StmtModel>,
    ParseError,
> {
    match result {
        Ok(stmts) => Ok(stmt_models(stmts@)),
        Err(error) => Err(error),
    }
}

/// What the outcome of parsing a list of named types stands for.
pub open spec fn fields_outcome(result: Result<Vec<(String, Type)>, ParseError>) -> Result<
    Seq<(Seq<char>, TypeModel)>,
    ParseError,
> {
    match result {
        Ok(list) => Ok(field_models(list@)),
        Err(error) => Err(error),
    }
}

/// What the outcome of parsing an item stands for.
pub open spec fn item_outcome(result: Result<Item, ParseError>) -> Result<ItemModel, ParseError> {
    match result {
        Ok(item) => Ok(item@),
        Err(error) => Err(error),
    }
}

/// What the outcome of parsing a file stands for.
pub open spec fn file_outcome(result: Result<Vec<Item>, ParseError>) -> Result<
    Seq<ItemModel>,
    ParseError,
> {
    match result {
        Ok(list) => Ok(item_models(list@)),
        Err(error) => Err(error),
    }
}

impl<'input> Parser<'input> {
    /// Parses a file: items up to the end of the text.
    pub fn file(&mut self) -> (result: Result<Vec<Item>, ParseError>)
        ensures
            final(self).source() == old(self).source(),
            final(self).tokens() == old(self).tokens(),
            final(self).wf(),
            file_outcome(result) == items(
                old(self).tokens(),
                old(self).source(),
                old(self).position(),
                Seq::empty(),
            ).0,
            final(self).position() == items(
                old(self).tokens(),
                old(self).source(),
                old(self).position(),
                Seq::empty(),
            ).1,
    {
        let mut list: Vec<Item> = Vec::new();
        let ghost target = items(
            old(self).tokens(),
            old(self).source(),
            old(self).position(),
            Seq::empty(),
        );
        proof {
            use_type_invariant(&*self);
            assert(item_models(list@) =~= Seq::<ItemModel>::empty());
        }
        while !self.at(TokenKind::Eof)
            invariant
                target == items(
                    old(self).tokens(),
                    old(self).source(),
                    old(self).position(),
                    Seq::empty(),
                ),
                self.source() == old(self).source(),
                self.tokens() == old(self).tokens(),
                self.wf(),
                items(self.tokens(), self.source(), self.position(), item_models(list@))
                    == target,
            decreases self.tokens().len() - self.position(),
        {
            match self.item() {
                Ok(item) => {
                    proof {
                        assert(item_models(list@.push(item)) =~= item_models(list@).push(item@));
                    }
                    list.push(item);
                },
                Err(error) => {
                    return Err(error);
                },
            }
        }
        Ok(list)
    }

    /// Parses an item: a function or a struct.
    pub fn item(&mut self) -> (result: Result<Item, ParseError>)
        ensures
            final(self).source() == old(self).source(),
            final(self).tokens() == old(self).tokens(),
            final(self).wf(),
            item_outcome(result) == item(
                old(self).tokens(),
                old(self).source(),
                old(self).position(),
            ).0,
            final(self).position() == item(
                old(self).tokens(),
                old(self).source(),
                old(self).position(),
            ).1,
            result is Ok ==> old(self).position() < final(self).position(),
    {
        let token = self.current();
        match token.kind {
            TokenKind::KeywordFn => {
                let _ = self.next();
                let ident = match self.consume(TokenKind::Identifier, Production::Item) {
                    Ok(ident) => ident,
                    Err(error) => {
                        return Err(error);
                    },
                };
                let name = self.text(ident).to_owned();
                match self.consume(TokenKind::LParen, Production::Item) {
                    Ok(_) => {},
                    Err(error) => {
                        return Err(error);
                    },
                }
                let parameters = match self.parse_fields(TokenKind::RParen) {
                    Ok(parameters) => parameters,
                    Err(error) => {
                        return Err(error);
                    },
                };
                let brace = self.current();
                if brace.kind != TokenKind::LBrace {
                    return Err(
                        ParseError {
                            production: Production::Item,
                            expected: Expected::Kind(TokenKind::LBrace),
                            found: brace,
                        },
                    );
                }
                let _ = self.next();
                match self.parse_block() {
                    Ok(body) => Ok(Item::Function { name, parameters, body }),
                    Err(error) => Err(error),
                }
            },
            TokenKind::KeywordStruct => {
                let _ = self.next();
                let name = match self.type_() {
                    Ok(name) => name,
                    Err(error) => {
                        return Err(error);
                    },
                };
                match self.consume(TokenKind::LBrace, Production::Item) {
                    Ok(_) => {},
                    Err(error) => {
                        return Err(error);
                    },
                }
                match self.parse_fields(TokenKind::RBrace) {
                    Ok(members) => Ok(Item::Struct { name, members }),
                    Err(error) => Err(error),
                }
            },
            _ => Err(
                ParseError {
                    production: Production::Item,
                    expected: Expected::Start,
                    found: token,
                },
            ),
        }
    }

    /// Parses named types up to the token of kind `closer`: the parameters
    /// of a function, or the members of a struct.
    fn parse_fields(&mut self, closer: TokenKind) -> (result: Result<
        Vec<(String, Type)>,
        ParseError,
    >)
        requires
            closer != TokenKind::Eof,
        ensures
            final(self).source() == old(self).source(),
            final(self).tokens() == old(self).tokens(),
            final(self).wf(),
            fields_outcome(result) == fields(
                old(self).tokens(),
                old(self).source(),
                old(self).position(),
                closer,
                Seq::empty(),
            ).0,
            final(self).position() == fields(
                old(self).tokens(),
                old(self).source(),
                old(self).position(),
                closer,
                Seq::empty(),
            ).1,
            result is Ok ==> old(self).position() < final(self).position(),
    {
        let mut list: Vec<(String, Type)> = Vec::new();
        let ghost target = fields(
            old(self).tokens(),
            old(self).source(),
            old(self).position(),
            closer,
            Seq::empty(),
        );
        proof {
            use_type_invariant(&*self);
            assert(field_models(list@) =~= Seq::<(Seq<char>, TypeModel)>::empty());
        }
        while !self.at(closer)
            invariant
                closer != TokenKind::Eof,
                target == fields(
                    old(self).tokens(),
                    old(self).source(),
                    old(self).position(),
                    closer,
                    Seq::empty(),
                ),
                self.source() == old(self).source(),
                self.tokens() == old(self).tokens(),
                self.wf(),
                old(self).position() <= self.position(),
                fields(self.tokens(), self.source(), self.position(), closer, field_models(list@))
                    == target,
            decreases self.tokens().len() - self.position(),
        {
            let ident = match self.consume(TokenKind::Identifier, Production::Item) {
                Ok(ident) => ident,
                Err(error) => {
                    return Err(error);
                },
            };
            let name = self.text(ident).to_owned();
            match self.consume(TokenKind::Colon, Production::Item) {
                Ok(_) => {},
                Err(error) => {
                    return Err(error);
                },
            }
            let ty = match self.type_() {
                Ok(ty) => ty,
                Err(error) => {
                    return Err(error);
                },
            };
            proof {
                assert(field_models(list@.push((name, ty))) =~= field_models(list@).push(
                    (name@, ty@),
                ));
            }
            list.push((name, ty));
            match self.parse_separator(closer, Production::Item) {
                Ok(_) => {},
                Err(error) => {
                    return Err(error);
                },
            }
        }
        let _ = self.next();
        Ok(list)
    }

    /// Parses a type, which may have generic arguments.
    pub fn type_(&mut self) -> (result: Result<Type, ParseError>)
        ensures
            final(self).source() == old(self).source(),
            final(self).tokens() == old(self).tokens(),
            final(self).wf(),
            type_outcome(result) == type_at(
                old(self).tokens(),
                old(self).source(),
                old(self).position(),
            ).0,
            final(self).position() == type_at(
                old(self).tokens(),
                old(self).source(),
                old(self).position(),
            ).1,
            result is Ok ==> old(self).position() < final(self).position(),
        decreases old(self).tokens().len() - old(self).position(),
    {
        proof {
            use_type_invariant(&*self);
        }
        let ident = match self.consume(TokenKind::Identifier, Production::Type) {
            Ok(ident) => ident,
            Err(error) => {
                return Err(error);
            },
        };
        let name = self.text(ident).to_owned();
        let mut list: Vec<Type> = Vec::new();
        if self.at(TokenKind::LAngle) {
            let _ = self.next();
            let ghost start = self.position();
            proof {
                assert(type_models(list@) =~= Seq::<TypeModel>::empty());
            }
            while !self.at(TokenKind::RAngle)
                invariant
                    self.source() == old(self).source(),
                    self.tokens() == old(self).tokens(),
                    self.wf(),
                    old(self).position() < start <= self.position(),
                    0 <= old(self).position(),
                    start == old(self).position() + 2,
                    ident == old(self).tokens()[old(self).position()],
                    ident.kind == TokenKind::Identifier,
                    old(self).tokens()[old(self).position() + 1].kind == TokenKind::LAngle,
                    generics(self.tokens(), self.source(), self.position(), type_models(list@))
                        == generics(self.tokens(), self.source(), start, Seq::empty()),
                decreases self.tokens().len() - self.position(),
            {
                // Generic arguments are also types
                match self.type_() {
                    Ok(generic) => {
                        proof {
                            assert(type_models(list@.push(generic)) =~= type_models(list@).push(
                                generic@,
                            ));
                        }
                        list.push(generic);
                        match self.parse_separator(TokenKind::RAngle, Production::Type) {
                            Ok(_) => {},
                            Err(error) => {
                                return Err(error);
                            },
                        }
                    },
                    Err(error) => {
                        return Err(error);
                    },
                }
            }
            let _ = self.next();
        } else {
            proof {
                assert(type_models(list@) =~= Seq::<TypeModel>::empty());
            }
        }
        proof {
            lemma_type_model(name, list);
        }
        Ok(Type { name, generics: list })
    }

    /// Parses `=`, an expression and `;`: what a `let` or an assignment
    /// binds.
    fn parse_binding(&mut self) -> (result: Result<Expr, ParseError>)
        ensures
            final(self).source() == old(self).source(),
            final(self).tokens() == old(self).tokens(),
            final(self).wf(),
            super::expressions::expr_outcome(result) == binding(
                old(self).tokens(),
                old(self).source(),
                old(self).position(),
            ).0,
            final(self).position() == binding(
                old(self).tokens(),
                old(self).source(),
                old(self).position(),
            ).1,
            result is Ok ==> old(self).position() < final(self).position(),
    {
        match self.consume(TokenKind::Eq, Production::Statement) {
            Ok(_) => {},
            Err(error) => {
                return Err(error);
            },
        }
        let value = match self.expression() {
            Ok(value) => value,
            Err(error) => {
                return Err(error);
            },
        };
        match self.consume(TokenKind::SemiColon, Production::Statement) {
            Ok(_) => Ok(value),
            Err(error) => Err(error),
        }
    }

    /// Parses the condition of an `if`: an expression in parentheses.
    fn parse_condition(&mut self) -> (result: Result<Expr, ParseError>)
        ensures
            final(self).source() == old(self).source(),
            final(self).tokens() == old(self).tokens(),
            final(self).wf(),
            super::expressions::expr_outcome(result) == condition(
                old(self).tokens(),
                old(self).source(),
                old(self).position(),
            ).0,
            final(self).position() == condition(
                old(self).tokens(),
                old(self).source(),
                old(self).position(),
            ).1,
            result is Ok ==> old(self).position() < final(self).position(),
    {
        match self.consume(TokenKind::LParen, Production::Statement) {
            Ok(_) => {},
            Err(error) => {
                return Err(error);
            },
        }
        let test = match self.expression() {
            Ok(test) => test,
            Err(error) => {
                return Err(error);
            },
        };
        match self.consume(TokenKind::RParen, Production::Statement) {
            Ok(_) => Ok(test),
            Err(error) => Err(error),
        }
    }

    /// Parses the statements of a block, behind its opening brace.
    fn parse_block(&mut self) -> (result: Result<Vec<Stmt>, ParseError>)
        ensures
            final(self).source() == old(self).source(),
            final(self).tokens() == old(self).tokens(),
            final(self).wf(),
            stmts_outcome(result) == block(
                old(self).tokens(),
                old(self).source(),
                old(self).position(),
                Seq::empty(),
            ).0,
            final(self).position() == block(
                old(self).tokens(),
                old(self).source(),
                old(self).position(),
                Seq::empty(),
            ).1,
            result is Ok ==> old(self).position() < final(self).position(),
        decreases old(self).tokens().len() - old(self).position(), 1int,
    {
        let mut stmts: Vec<Stmt> = Vec::new();
        let ghost target = block(
            old(self).tokens(),
            old(self).source(),
            old(self).position(),
            Seq::empty(),
        );
        proof {
            use_type_invariant(&*self);
            assert(stmt_models(stmts@) =~= Seq::<StmtModel>::empty());
        }
        while !self.at(TokenKind::RBrace)
            invariant
                target == block(
                    old(self).tokens(),
                    old(self).source(),
                    old(self).position(),
                    Seq::empty(),
                ),
                self.source() == old(self).source(),
                self.tokens() == old(self).tokens(),
                self.wf(),
                old(self).position() <= self.position(),
                block(self.tokens(), self.source(), self.position(), stmt_models(stmts@))
                    == target,
            decreases self.tokens().len() - self.position(),
        {
            match self.statement() {
                Ok(stmt) => {
                    proof {
                        assert(stmt_models(stmts@.push(stmt)) =~= stmt_models(stmts@).push(stmt@));
                    }
                    stmts.push(stmt);
                },
                Err(error) => {
                    return Err(error);
                },
            }
        }
        let _ = self.next();
        Ok(stmts)
    }

    /// Parses a statement.
    pub fn statement(&mut self) -> (result: Result<Stmt, ParseError>)
        ensures
            final(self).source() == old(self).source(),
            final(self).tokens() == old(self).tokens(),
            final(self).wf(),
            stmt_outcome(result) == statement(
                old(self).tokens(),
                old(self).source(),
                old(self).position(),
            ).0,
            final(self).position() == statement(
                old(self).tokens(),
                old(self).source(),
                old(self).position(),
            ).1,
            result is Ok ==> old(self).position() < final(self).position(),
        decreases old(self).tokens().len() - old(self).position(), 0int,
    {
        let token = self.current();
        match token.kind {
            TokenKind::KeywordLet => {
                let _ = self.next();
                let ident = match self.consume(TokenKind::Identifier, Production::Statement) {
                    Ok(ident) => ident,
                    Err(error) => {
                        return Err(error);
                    },
                };
                let name = self.text(ident).to_owned();
                match self.parse_binding() {
                    Ok(value) => Ok(Stmt::Let { var_name: name, value: Box::new(value) }),
                    Err(error) => Err(error),
                }
            },
            TokenKind::Identifier => {
                let name = self.text(token).to_owned();
                let _ = self.next();
                match self.parse_binding() {
                    Ok(value) => Ok(Stmt::Assignment { var_name: name, value: Box::new(value) }),
                    Err(error) => Err(error),
                }
            },
            TokenKind::KeywordIf => {
                let _ = self.next();
                let test = match self.parse_condition() {
                    Ok(test) => test,
                    Err(error) => {
                        return Err(error);
                    },
                };
                let brace = self.current();
                if brace.kind != TokenKind::LBrace {
                    return Err(
                        ParseError {
                            production: Production::Statement,
                            expected: Expected::Kind(TokenKind::LBrace),
                            found: brace,
                        },
                    );
                }
                let _ = self.next();
                let body = match self.parse_block() {
                    Ok(body) => body,
                    Err(error) => {
                        return Err(error);
                    },
                };
                let else_stmt = if self.at(TokenKind::KeywordElse) {
                    let _ = self.next();
                    let other = self.current();
                    if other.kind != TokenKind::KeywordIf && other.kind != TokenKind::LBrace {
                        return Err(
                            ParseError {
                                production: Production::Statement,
                                expected: Expected::Kind(TokenKind::LBrace),
                                found: other,
                            },
                        );
                    }
                    match self.statement() {
                        Ok(stmt) => Some(Box::new(stmt)),
                        Err(error) => {
                            return Err(error);
                        },
                    }
                } else {
                    None
                };
                let condition = Box::new(test);
                proof {
                    lemma_if_model(condition, body, else_stmt);
                }
                Ok(Stmt::IfStmt { condition, body, else_stmt })
            },
            TokenKind::LBrace => {
                let _ = self.next();
                match self.parse_block() {
                    Ok(stmts) => {
                        proof {
                            lemma_block_model(stmts);
                        }
                        Ok(Stmt::Block { stmts })
                    },
                    Err(error) => Err(error),
                }
            },
            _ => Err(
                ParseError {
                    production: Production::Statement,
                    expected: Expected::Start,
                    found: token,
                },
            ),
        }
    }
}

} // verus!
